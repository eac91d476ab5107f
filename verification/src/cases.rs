//! The names under which regression cases are kept: the root's package, `@`,
//! the root's version number and the extension of the snapshot format.

use crate::semver_text::{parse_version, version_text};
use crate::text::{text_eq};
use vstd::prelude::*;
use vstd::string::{StrSliceExecFns, StringExecFns};

verus! {

/// The extension of a snapshot file.
pub open spec fn extension() -> Seq<char> {
    ".ron"@
}

/// The place of the first `@` in the text, or the text's length where it has none.
pub open spec fn first_at(s: Seq<char>) -> int
    decreases s.len(),
{
    if s.len() == 0 {
        0
    } else if s[0] == '@' {
        0
    } else {
        1 + first_at(s.drop_first())
    }
}

/// The root that a file name stands for: the text before the first `@` and the
/// version number that the text between it and the extension reads as. `None`
/// where the name has no `@`, does not end with the extension, or the text
/// between is no version number.
pub open spec fn case_of(file_name: Seq<char>) -> Option<(Seq<char>, Seq<char>)> {
    let at = first_at(file_name);
    let len = file_name.len() as int;
    let ext = extension().len() as int;
    if at >= len {
        None
    } else if len - (at + 1) < ext || file_name.subrange(len - ext, len) != extension() {
        None
    } else {
        match version_text(file_name.subrange(at + 1, len - ext)) {
            None => None,
            Some(vers) => Some((file_name.subrange(0, at), vers)),
        }
    }
}

/// The file name of a case.
pub open spec fn file_name_of(name: Seq<char>, vers: Seq<char>) -> Seq<char> {
    name + "@"@ + vers + extension()
}

/// The first `@` is at `at` where no `@` stands before `at` and one stands at
/// it, or `at` is the end.
pub proof fn lemma_first_at(s: Seq<char>, at: int)
    requires
        0 <= at <= s.len(),
        forall|j: int| 0 <= j < at ==> s[j] != '@',
        at < s.len() ==> s[at] == '@',
    ensures
        first_at(s) == at,
    decreases s.len(),
{
    if s.len() > 0 && at > 0 {
        let rest = s.drop_first();
        assert forall|j: int| 0 <= j < at - 1 implies rest[j] != '@' by {
            assert(rest[j] == s[j + 1]);
        }
        lemma_first_at(rest, at - 1);
    }
}

/// The root that a file name stands for.
pub fn case_from_file_name(file_name: &str) -> (r: Option<(String, String)>)
    ensures
        r.deep_view() == case_of(file_name@),
{
    proof {
        reveal_strlit(".ron");
    }
    let len: usize = file_name.unicode_len();
    let mut at: usize = 0;
    while at < len && file_name.get_char(at) != '@'
        invariant
            len == file_name@.len(),
            at <= len,
            forall|j: int| 0 <= j < at ==> file_name@[j] != '@',
        decreases len - at,
    {
        at = at + 1;
    }
    proof {
        lemma_first_at(file_name@, at as int);
    }
    if at >= len {
        return None;
    }
    if len - (at + 1) < 4 {
        return None;
    }
    let tail = file_name.substring_char(len - 4, len);
    if !text_eq(tail, ".ron") {
        return None;
    }
    let number = file_name.substring_char(at + 1, len - 4);
    match parse_version(number) {
        Ok(vers) => {
            let name = file_name.substring_char(0, at);
            Some((name.to_owned(), vers))
        },
        Err(_) => None,
    }
}

/// The file name under which the case of a root is kept.
pub fn case_file_name(name: &str, vers: &str) -> (r: String)
    ensures
        r@ == file_name_of(name@, vers@),
{
    let mut out: String = name.to_owned();
    out.append("@");
    out.append(vers);
    out.append(".ron");
    out
}

/// A file name made for a root is read back as that root, where the package's
/// name holds no `@` and the version number reads as itself.
pub proof fn lemma_case_round_trip(name: Seq<char>, vers: Seq<char>)
    requires
        forall|j: int| 0 <= j < name.len() ==> name[j] != '@',
        version_text(vers) == Some(vers),
    ensures
        case_of(file_name_of(name, vers)) == Some((name, vers)),
{
    reveal_strlit(".ron");
    reveal_strlit("@");
    let f = file_name_of(name, vers);
    let len = f.len() as int;
    assert(f[name.len() as int] == '@');
    assert forall|j: int| 0 <= j < name.len() implies f[j] != '@' by {
        assert(f[j] == name[j]);
    }
    lemma_first_at(f, name.len() as int);
    assert(f.subrange(len - 4, len) =~= extension());
    assert(f.subrange(name.len() as int + 1, len - 4) =~= vers);
    assert(f.subrange(0, name.len() as int) =~= name);
}

} // verus!
