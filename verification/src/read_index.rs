//! The registry snapshot: every admitted version, found by package name and
//! version number.

use crate::index_data::{
    canonical_version, copy_versions, ParseError, RawVersion, Version, VersionModel,
};
use crate::semver_text::{requirement_admits, requirement_matches};
use crate::text::{occurs_in, text_contains, text_eq};
use vstd::prelude::*;

verus! {

/// What a version is found by: the package's name and the version number.
pub type Key = (Seq<char>, Seq<char>);

/// The key of a version.
pub open spec fn key_of(v: VersionModel) -> Key {
    (v.name, v.vers)
}

/// The mapping that the records give when entered one after the other: a later
/// record of a key replaces an earlier one.
pub open spec fn snapshot_of(records: Seq<VersionModel>) -> Map<Key, VersionModel>
    decreases records.len(),
{
    if records.len() == 0 {
        Map::empty()
    } else {
        snapshot_of(records.drop_last()).insert(key_of(records.last()), records.last())
    }
}

/// No two records have the same key.
pub open spec fn distinct_keys(records: Seq<VersionModel>) -> bool {
    forall|i: int, j: int| 0 <= i < j < records.len() ==> key_of(#[trigger] records[i]) != key_of(#[trigger] records[j])
}

/// Which raw records enter a snapshot.
#[derive(Clone, Debug, PartialEq, Eq)]
pub struct Filters {
    /// Packages whose name holds this text stay out.
    pub excluded_name_part: Option<String>,
    /// Yanked versions stay out.
    pub skip_yanked: bool,
}

/// The filters as a mathematical value.
pub struct FiltersModel {
    pub excluded_name_part: Option<Seq<char>>,
    pub skip_yanked: bool,
}

impl View for Filters {
    type V = FiltersModel;

    open spec fn view(&self) -> FiltersModel {
        FiltersModel {
            excluded_name_part: self.excluded_name_part.deep_view(),
            skip_yanked: self.skip_yanked,
        }
    }
}

impl FiltersModel {
    /// Whether packages of this name may enter.
    pub open spec fn admits_name(self, name: Seq<char>) -> bool {
        match self.excluded_name_part {
            Some(part) => !occurs_in(part, name),
            None => true,
        }
    }

    /// What enters the snapshot for a raw record: its canonical form, where the
    /// name is admitted, the record has a canonical form and that form is not
    /// a yanked version that stays out.
    pub open spec fn admitted(self, raw: VersionModel) -> Option<VersionModel> {
        if !self.admits_name(raw.name) {
            None
        } else {
            match canonical_version(raw) {
                Err(_) => None,
                Ok(v) => if self.skip_yanked && v.yanked {
                    None
                } else {
                    Some(v)
                },
            }
        }
    }
}

/// How a resolver asks for the versions of a package.
#[derive(Clone, Copy, Debug, PartialEq, Eq, Structural, Hash)]
pub enum QueryKind {
    /// Only versions that satisfy the requirement.
    Exact,
    /// Every version of the package.
    Alternatives,
    /// Every version of the package.
    Normalized,
}

/// What a query selects of one record: the record, where it is a version of the
/// package asked for and, in an exact query, satisfies the requirement.
pub open spec fn selected(name: Seq<char>, req: Seq<char>, kind: QueryKind, v: VersionModel) -> Option<VersionModel> {
    if v.name == name && (kind == QueryKind::Exact ==> requirement_admits(req, v.vers)) {
        Some(v)
    } else {
        None
    }
}

/// What the enumeration of roots selects of one record: its key, where no name
/// part is asked for or the package's name holds it.
pub open spec fn root_of(part: Option<Seq<char>>, v: VersionModel) -> Option<Key> {
    match part {
        Some(p) => if occurs_in(p, v.name) {
            Some(key_of(v))
        } else {
            None
        },
        None => Some(key_of(v)),
    }
}

/// What a snapshot admits of each raw record under the filters.
pub open spec fn admission(filters: FiltersModel) -> spec_fn(VersionModel) -> Option<VersionModel> {
    |raw: VersionModel| filters.admitted(raw)
}

/// What a query selects of each record.
pub open spec fn selection(name: Seq<char>, req: Seq<char>, kind: QueryKind) -> spec_fn(VersionModel) -> Option<VersionModel> {
    |v: VersionModel| selected(name, req, kind, v)
}

/// What the enumeration of roots selects of each record.
pub open spec fn root_selection(part: Option<Seq<char>>) -> spec_fn(VersionModel) -> Option<Key> {
    |v: VersionModel| root_of(part, v)
}

/// Entering a record at the end adds it to the mapping under its key.
pub proof fn lemma_snapshot_push(records: Seq<VersionModel>, x: VersionModel)
    ensures
        snapshot_of(records.push(x)) == snapshot_of(records).insert(key_of(x), x),
{
    assert(records.push(x).drop_last() =~= records);
}

/// Replacing the record that has the key of `x` by `x` changes the mapping as
/// entering `x` does.
pub proof fn lemma_snapshot_update(records: Seq<VersionModel>, at: int, x: VersionModel)
    requires
        distinct_keys(records),
        0 <= at < records.len(),
        key_of(records[at]) == key_of(x),
    ensures
        snapshot_of(records.update(at, x)) == snapshot_of(records).insert(key_of(x), x),
        distinct_keys(records.update(at, x)),
    decreases records.len(),
{
    let head = records.drop_last();
    let last = records.last();
    if at == records.len() - 1 {
        assert(records.update(at, x).drop_last() =~= head);
        assert(snapshot_of(head).insert(key_of(x), x) =~= snapshot_of(head).insert(key_of(last), last).insert(key_of(x), x));
    } else {
        assert(records[records.len() - 1] == last);
        assert(key_of(last) != key_of(x));
        assert(distinct_keys(head)) by {
            assert forall|i: int, j: int| 0 <= i < j < head.len() implies key_of(#[trigger] head[i]) != key_of(#[trigger] head[j]) by {
                assert(head[i] == records[i] && head[j] == records[j]);
            }
        }
        lemma_snapshot_update(head, at, x);
        assert(records.update(at, x).drop_last() =~= head.update(at, x));
        assert(records.update(at, x).last() == last);
        assert(snapshot_of(head).insert(key_of(x), x).insert(key_of(last), last) =~= snapshot_of(head).insert(key_of(last), last).insert(key_of(x), x));
    }
    assert forall|i: int, j: int| 0 <= i < j < records.len() implies key_of(#[trigger] records.update(at, x)[i]) != key_of(#[trigger] records.update(at, x)[j]) by {
        assert(key_of(records[i]) != key_of(records[j]));
    }
}

/// The mapping holds exactly the keys of the records; where no key occurs
/// twice, each record is found under its key.
pub proof fn lemma_snapshot_entries(records: Seq<VersionModel>)
    ensures
        forall|k: Key| #[trigger] snapshot_of(records).dom().contains(k) <==> exists|i: int| 0 <= i < records.len() && key_of(#[trigger] records[i]) == k,
        distinct_keys(records) ==> forall|i: int| 0 <= i < records.len() ==> snapshot_of(records)[key_of(#[trigger] records[i])] == records[i],
    decreases records.len(),
{
    if records.len() > 0 {
        let head = records.drop_last();
        let last = records.last();
        lemma_snapshot_entries(head);
        assert forall|k: Key| #[trigger] snapshot_of(records).dom().contains(k) <==> exists|i: int| 0 <= i < records.len() && key_of(#[trigger] records[i]) == k by {
            assert(snapshot_of(records) == snapshot_of(head).insert(key_of(last), last));
            if snapshot_of(records).dom().contains(k) {
                if k == key_of(last) {
                    assert(key_of(records[records.len() - 1]) == k);
                } else {
                    assert(snapshot_of(head).dom().contains(k));
                    let i = choose|i: int| 0 <= i < head.len() && key_of(#[trigger] head[i]) == k;
                    assert(head[i] == records[i]);
                    assert(key_of(records[i]) == k);
                }
            }
            if exists|i: int| 0 <= i < records.len() && key_of(#[trigger] records[i]) == k {
                let i = choose|i: int| 0 <= i < records.len() && key_of(#[trigger] records[i]) == k;
                if i < head.len() {
                    assert(key_of(head[i]) == k);
                    assert(snapshot_of(head).dom().contains(k));
                }
            }
        }
        if distinct_keys(records) {
            assert forall|i: int, j: int| 0 <= i < j < head.len() implies key_of(#[trigger] head[i]) != key_of(#[trigger] head[j]) by {
                assert(head[i] == records[i] && head[j] == records[j]);
            }
            assert forall|i: int| 0 <= i < records.len() implies snapshot_of(records)[key_of(#[trigger] records[i])] == records[i] by {
                if i < head.len() {
                    assert(head[i] == records[i]);
                    assert(records[records.len() - 1] == last);
                    assert(key_of(records[i]) != key_of(last));
                }
            }
        }
    }
}

/// Records of one key are one and the same record.
pub open spec fn consistent_keys(records: Seq<VersionModel>) -> bool {
    forall|i: int, j: int| 0 <= i < records.len() && 0 <= j < records.len() && key_of(#[trigger] records[i]) == key_of(#[trigger] records[j]) ==> records[i] == records[j]
}

/// Where records of one key are the same record, each record is what the
/// mapping holds under its key.
pub proof fn lemma_snapshot_values(records: Seq<VersionModel>)
    requires
        consistent_keys(records),
    ensures
        forall|i: int| 0 <= i < records.len() ==> snapshot_of(records)[key_of(#[trigger] records[i])] == records[i],
    decreases records.len(),
{
    if records.len() > 0 {
        let head = records.drop_last();
        let last = records.last();
        assert(records[records.len() - 1] == last);
        assert forall|i: int, j: int| 0 <= i < head.len() && 0 <= j < head.len() && key_of(#[trigger] head[i]) == key_of(#[trigger] head[j]) implies head[i] == head[j] by {
            assert(head[i] == records[i] && head[j] == records[j]);
        }
        lemma_snapshot_values(head);
        assert forall|i: int| 0 <= i < records.len() implies snapshot_of(records)[key_of(#[trigger] records[i])] == records[i] by {
            if i < head.len() {
                assert(head[i] == records[i]);
            }
        }
    }
}

/// The snapshot does not depend on the order of the records: two sequences that
/// hold the same records give the same mapping, where records of one key are
/// the same record.
pub proof fn lemma_snapshot_order_free(a: Seq<VersionModel>, b: Seq<VersionModel>)
    requires
        forall|x: VersionModel| a.contains(x) <==> b.contains(x),
        consistent_keys(a),
    ensures
        snapshot_of(a) == snapshot_of(b),
{
    assert forall|i: int, j: int| 0 <= i < b.len() && 0 <= j < b.len() && key_of(#[trigger] b[i]) == key_of(#[trigger] b[j]) implies b[i] == b[j] by {
        assert(b.contains(b[i]) && b.contains(b[j]));
        let m = choose|m: int| 0 <= m < a.len() && a[m] == b[i];
        let n = choose|n: int| 0 <= n < a.len() && a[n] == b[j];
        assert(key_of(a[m]) == key_of(a[n]));
    }
    lemma_snapshot_entries(a);
    lemma_snapshot_entries(b);
    lemma_snapshot_values(a);
    lemma_snapshot_values(b);
    assert forall|k: Key| snapshot_of(a).dom().contains(k) <==> snapshot_of(b).dom().contains(k) by {
        if snapshot_of(a).dom().contains(k) {
            let i = choose|i: int| 0 <= i < a.len() && key_of(#[trigger] a[i]) == k;
            assert(a.contains(a[i]));
            let j = choose|j: int| 0 <= j < b.len() && b[j] == a[i];
            assert(key_of(b[j]) == k);
        }
        if snapshot_of(b).dom().contains(k) {
            let i = choose|i: int| 0 <= i < b.len() && key_of(#[trigger] b[i]) == k;
            assert(b.contains(b[i]));
            let j = choose|j: int| 0 <= j < a.len() && a[j] == b[i];
            assert(key_of(a[j]) == k);
        }
    }
    assert forall|k: Key| snapshot_of(a).dom().contains(k) implies snapshot_of(a)[k] == snapshot_of(b)[k] by {
        let i = choose|i: int| 0 <= i < a.len() && key_of(#[trigger] a[i]) == k;
        assert(a.contains(a[i]));
        let j = choose|j: int| 0 <= j < b.len() && b[j] == a[i];
        assert(key_of(b[j]) == k);
    }
    assert(snapshot_of(a) =~= snapshot_of(b));
}

/// What `filter_map` gives for a record of the sequence is in its result.
pub proof fn lemma_filter_map_holds(s: Seq<VersionModel>, f: spec_fn(VersionModel) -> Option<VersionModel>, at: int)
    requires
        0 <= at < s.len(),
        f(s[at]).is_some(),
    ensures
        s.filter_map(f).contains(f(s[at]).unwrap()),
    decreases s.len(),
{
    let rest = s.drop_last();
    let r = s.filter_map(f);
    if at == s.len() - 1 {
        assert(r[r.len() - 1] == f(s[at]).unwrap());
    } else {
        lemma_filter_map_holds(rest, f, at);
        let k = choose|k: int| 0 <= k < rest.filter_map(f).len() && rest.filter_map(f)[k] == f(s[at]).unwrap();
        assert(r[k] == f(s[at]).unwrap());
    }
}

/// Building a snapshot is deterministic: raw records that are the same but for
/// their order give the same snapshot, where the admitted records of one key
/// are the same record.
pub proof fn lemma_read_index_order_free(a: Seq<VersionModel>, b: Seq<VersionModel>, filters: FiltersModel)
    requires
        a.to_multiset() == b.to_multiset(),
        consistent_keys(a.filter_map(admission(filters))),
    ensures
        snapshot_of(a.filter_map(admission(filters))) == snapshot_of(
            b.filter_map(admission(filters)),
        ),
{
    broadcast use vstd::seq_lib::group_to_multiset_ensures;
    let f = admission(filters);
    let fa = a.filter_map(f);
    let fb = b.filter_map(f);
    assert forall|x: VersionModel| fa.contains(x) <==> fb.contains(x) by {
        if fa.contains(x) {
            a.lemma_filter_map_contains(f, x);
            let t = choose|t: VersionModel| #[trigger] a.contains(t) && f(t) == Some(x);
            assert(a.to_multiset().count(t) > 0);
            assert(b.contains(t));
            let j = choose|j: int| 0 <= j < b.len() && b[j] == t;
            lemma_filter_map_holds(b, f, j);
        }
        if fb.contains(x) {
            b.lemma_filter_map_contains(f, x);
            let t = choose|t: VersionModel| #[trigger] b.contains(t) && f(t) == Some(x);
            assert(b.to_multiset().count(t) > 0);
            assert(a.contains(t));
            let j = choose|j: int| 0 <= j < a.len() && a[j] == t;
            lemma_filter_map_holds(a, f, j);
        }
    }
    lemma_snapshot_order_free(fa, fb);
}

/// A registry snapshot. No two of its records have the same key.
pub struct Snapshot {
    entries: Vec<Version>,
}

impl View for Snapshot {
    type V = Map<Key, VersionModel>;

    open spec fn view(&self) -> Map<Key, VersionModel> {
        snapshot_of(self.records())
    }
}

impl Snapshot {
    #[verifier::type_invariant]
    spec fn inv(self) -> bool {
        distinct_keys(self.entries.deep_view())
    }

    /// The records of the snapshot, in the order in which their keys first came.
    pub closed spec fn records(&self) -> Seq<VersionModel> {
        self.entries.deep_view()
    }

    /// The snapshot without any record.
    pub fn new() -> (r: Snapshot)
        ensures
            r@ == Map::<Key, VersionModel>::empty(),
            r.records() == Seq::<VersionModel>::empty(),
    {
        let r = Snapshot { entries: Vec::new() };
        proof {
            assert(r.entries.deep_view() =~= Seq::empty());
        }
        r
    }

    /// The snapshot with a version entered under its key, in place of the one
    /// that had the key.
    pub fn with(self, v: Version) -> (r: Snapshot)
        ensures
            r@ == self@.insert(key_of(v@), v@),
    {
        proof {
            use_type_invariant(&self);
        }
        let ghost before = self.entries.deep_view();
        let mut entries: Vec<Version> = self.entries;
        let mut at: usize = 0;
        while at < entries.len() && !(entries[at].name == v.name && entries[at].vers == v.vers)
            invariant
                at <= entries.len(),
                before == entries.deep_view(),
                forall|j: int| 0 <= j < at ==> key_of(#[trigger] before[j]) != key_of(v@),
            decreases entries.len() - at,
        {
            proof {
                assert(before[at as int] == entries[at as int]@);
            }
            at = at + 1;
        }
        if at < entries.len() {
            proof {
                assert(before[at as int] == entries[at as int]@);
                lemma_snapshot_update(before, at as int, v@);
            }
            entries.set(at, v);
            proof {
                assert(entries.deep_view() =~= before.update(at as int, v@));
            }
        } else {
            proof {
                lemma_snapshot_push(before, v@);
                assert forall|i: int, j: int| 0 <= i < j < before.push(v@).len() implies key_of(#[trigger] before.push(v@)[i]) != key_of(#[trigger] before.push(v@)[j]) by {
                    if j < before.len() {
                        assert(key_of(before[i]) != key_of(before[j]));
                    } else {
                        assert(key_of(before[i]) != key_of(v@));
                    }
                }
            }
            entries.push(v);
            proof {
                assert(entries.deep_view() =~= before.push(v@));
            }
        }
        Snapshot { entries: entries }
    }

    /// How many versions the snapshot holds.
    pub fn len(&self) -> (r: usize)
        ensures
            r == self.records().len(),
    {
        self.entries.len()
    }

    /// The records of the snapshot as a sequence: no key twice, and each record
    /// what the mapping holds under its key.
    pub fn to_records(&self) -> (r: Vec<Version>)
        ensures
            r.deep_view() == self.records(),
            distinct_keys(self.records()),
            self@ == snapshot_of(r.deep_view()),
            forall|i: int| 0 <= i < r.len() ==> self@.dom().contains(key_of(#[trigger] r[i]@)) && self@[key_of(r[i]@)] == r[i]@,
    {
        proof {
            use_type_invariant(self);
            lemma_snapshot_entries(self.records());
        }
        let r = copy_versions(&self.entries);
        proof {
            assert forall|i: int| 0 <= i < r.len() implies self@.dom().contains(key_of(#[trigger] r[i]@)) && self@[key_of(r[i]@)] == r[i]@ by {
                assert(r.deep_view()[i] == r[i]@);
                assert(key_of(self.records()[i]) == key_of(r[i]@));
            }
        }
        r
    }

    /// The version of the package `name` with the number `vers`, where the
    /// snapshot holds it.
    pub fn get(&self, name: &str, vers: &str) -> (r: Option<Version>)
        ensures
            r.is_some() == self@.dom().contains((name@, vers@)),
            r.is_some() ==> r.unwrap()@ == self@[(name@, vers@)],
    {
        proof {
            use_type_invariant(self);
            lemma_snapshot_entries(self.records());
        }
        let mut at: usize = 0;
        while at < self.entries.len()
            invariant
                at <= self.entries.len(),
                forall|j: int| 0 <= j < at ==> key_of(#[trigger] self.records()[j]) != (name@, vers@),
            decreases self.entries.len() - at,
        {
            proof {
                assert(self.records()[at as int] == self.entries[at as int]@);
            }
            if text_eq(self.entries[at].name.as_str(), name) && text_eq(self.entries[at].vers.as_str(), vers) {
                proof {
                    use_type_invariant(self);
                    lemma_snapshot_entries(self.records());
                    assert(key_of(self.records()[at as int]) == (name@, vers@));
                }
                return Some(self.entries[at].copy());
            }
            at = at + 1;
        }
        proof {
            lemma_snapshot_entries(self.records());
        }
        None
    }

    /// Whether the snapshot holds the version of the package `name` with the
    /// number `vers`.
    pub fn contains(&self, name: &str, vers: &str) -> (r: bool)
        ensures
            r == self@.dom().contains((name@, vers@)),
    {
        self.get(name, vers).is_some()
    }

    /// The answer to a resolver's query: every version of the package `name`
    /// and, in an exact query, only those whose number satisfies `req`.
    pub fn query(&self, name: &str, req: &str, kind: QueryKind) -> (r: Vec<Version>)
        ensures
            r.deep_view() == self.records().filter_map(selection(name@, req@, kind)),
    {
        let ghost f = selection(name@, req@, kind);
        let ghost all = self.records();
        let mut out: Vec<Version> = Vec::new();
        let mut i: usize = 0;
        proof {
            assert(all.take(0) =~= Seq::empty());
            assert(out.deep_view() =~= Seq::empty());
        }
        while i < self.entries.len()
            invariant
                i <= self.entries.len(),
                all == self.records(),
                f == selection(name@, req@, kind),
                out.deep_view() == all.take(i as int).filter_map(f),
            decreases self.entries.len() - i,
        {
            let ghost before = out.deep_view();
            proof {
                assert(all.take(i as int + 1).drop_last() =~= all.take(i as int));
                assert(all.take(i as int + 1).last() == self.entries[i as int]@);
            }
            let e = &self.entries[i];
            if text_eq(e.name.as_str(), name) {
                let wanted: bool = match kind {
                    QueryKind::Exact => requirement_matches(req, e.vers.as_str()),
                    QueryKind::Alternatives => true,
                    QueryKind::Normalized => true,
                };
                if wanted {
                    out.push(e.copy());
                    proof {
                        assert(out.deep_view() =~= before + seq![e@]);
                    }
                }
            }
            i = i + 1;
        }
        proof {
            assert(all.take(i as int) =~= all);
        }
        out
    }

    /// The roots to resolve: the key of every version, or only of the packages
    /// whose name holds `part`.
    pub fn roots(&self, part: Option<&str>) -> (r: Vec<(String, String)>)
        ensures
            r.deep_view() == self.records().filter_map(root_selection(part.deep_view())),
    {
        let ghost f = root_selection(part.deep_view());
        let ghost all = self.records();
        let mut out: Vec<(String, String)> = Vec::new();
        let mut i: usize = 0;
        proof {
            assert(all.take(0) =~= Seq::empty());
            assert(out.deep_view() =~= Seq::empty());
        }
        while i < self.entries.len()
            invariant
                i <= self.entries.len(),
                all == self.records(),
                f == root_selection(part.deep_view()),
                out.deep_view() == all.take(i as int).filter_map(f),
            decreases self.entries.len() - i,
        {
            let ghost before = out.deep_view();
            proof {
                assert(all.take(i as int + 1).drop_last() =~= all.take(i as int));
                assert(all.take(i as int + 1).last() == self.entries[i as int]@);
            }
            let e = &self.entries[i];
            let wanted: bool = match part {
                Some(p) => text_contains(e.name.as_str(), p),
                None => true,
            };
            if wanted {
                out.push((e.name.clone(), e.vers.clone()));
                proof {
                    assert(out.deep_view() =~= before + seq![key_of(e@)]);
                }
            }
            i = i + 1;
        }
        proof {
            assert(all.take(i as int) =~= all);
        }
        out
    }
}

/// The snapshot of the given versions: a later one of a key replaces an earlier one.
pub fn read_test_file(iter: Vec<Version>) -> (r: Snapshot)
    ensures
        r@ == snapshot_of(iter.deep_view()),
{
    let ghost all = iter.deep_view();
    let mut out = Snapshot::new();
    let mut i: usize = 0;
    proof {
        assert(all.take(0) =~= Seq::empty());
    }
    while i < iter.len()
        invariant
            i <= iter.len(),
            all == iter.deep_view(),
            out@ == snapshot_of(all.take(i as int)),
        decreases iter.len() - i,
    {
        proof {
            assert(all.take(i as int + 1).drop_last() =~= all.take(i as int));
            assert(all.take(i as int + 1).last() == iter[i as int]@);
        }
        out = out.with(iter[i].copy());
        i = i + 1;
    }
    proof {
        assert(all.take(i as int) =~= all);
    }
    out
}

/// The versions that the raw records give: of each record that the filters admit
/// its canonical form, in the order of the records. A record without a canonical
/// form is left out.
pub fn admitted_versions(records: &Vec<RawVersion>, filters: &Filters) -> (r: Vec<Version>)
    ensures
        r.deep_view() == records.deep_view().filter_map(admission(filters@)),
        forall|i: int| 0 <= i < r.len() ==> (#[trigger] r[i])@.wf(),
{
    let ghost f = admission(filters@);
    let ghost all = records.deep_view();
    let mut out: Vec<Version> = Vec::new();
    let mut i: usize = 0;
    proof {
        assert(all.take(0) =~= Seq::empty());
        assert(out.deep_view() =~= Seq::empty());
    }
    while i < records.len()
        invariant
            i <= records.len(),
            all == records.deep_view(),
            f == admission(filters@),
            out.deep_view() == all.take(i as int).filter_map(f),
            forall|j: int| 0 <= j < out.len() ==> (#[trigger] out[j])@.wf(),
        decreases records.len() - i,
    {
        let ghost before = out.deep_view();
        proof {
            assert(all.take(i as int + 1).drop_last() =~= all.take(i as int));
            assert(all.take(i as int + 1).last() == records[i as int]@);
        }
        let raw = &records[i];
        let named: bool = match &filters.excluded_name_part {
            Some(part) => !text_contains(raw.name.as_str(), part.as_str()),
            None => true,
        };
        if named {
            match Version::try_from(raw) {
                Ok(v) => {
                    if !(filters.skip_yanked && v.yanked) {
                        let ghost m = v@;
                        out.push(v);
                        proof {
                            assert(out.deep_view() =~= before + seq![m]);
                        }
                    }
                },
                Err(_) => {},
            }
        }
        i = i + 1;
    }
    proof {
        assert(all.take(i as int) =~= all);
    }
    out
}

/// Why a raw record has no canonical form, if it has none.
pub open spec fn refusal(raw: VersionModel) -> Option<ParseError> {
    match canonical_version(raw) {
        Ok(_) => None,
        Err(e) => Some(e),
    }
}

/// For each raw record, in their order, why it has no canonical form, or
/// `None` where it has one: what there is to report of the records that a
/// snapshot leaves out as malformed.
pub fn refusals(records: &Vec<RawVersion>) -> (r: Vec<Option<ParseError>>)
    ensures
        r.len() == records.len(),
        forall|i: int| 0 <= i < r.len() ==> #[trigger] r[i] == refusal(records[i]@),
{
    let mut out: Vec<Option<ParseError>> = Vec::new();
    let mut i: usize = 0;
    while i < records.len()
        invariant
            i <= records.len(),
            out.len() == i,
            forall|j: int| 0 <= j < i ==> #[trigger] out[j] == refusal(records[j]@),
        decreases records.len() - i,
    {
        let found: Option<ParseError> = match Version::try_from(&records[i]) {
            Ok(_) => None,
            Err(e) => Some(e),
        };
        out.push(found);
        i = i + 1;
    }
    out
}

/// The snapshot of the raw records: the canonical form of each record that the
/// filters admit, a later one of a key replacing an earlier one.
pub fn read_filtered(records: &Vec<RawVersion>, filters: &Filters) -> (r: Snapshot)
    ensures
        r@ == snapshot_of(records.deep_view().filter_map(admission(filters@))),
{
    read_test_file(admitted_versions(records, filters))
}

/// The predicate on package names gave `answer` for the name.
pub open spec fn name_answer<F: Fn(&str) -> bool>(f: F, name: Seq<char>, answer: bool) -> bool {
    exists|n: &str| n@ == name && #[trigger] call_ensures(f, (n,), answer)
}

/// The predicate on versions gave `answer` for the version.
pub open spec fn version_answer<G: Fn(&Version) -> bool>(g: G, v: VersionModel, answer: bool) -> bool {
    exists|x: Version| x@ == v && #[trigger] call_ensures(g, (&x,), answer)
}

/// Whether a raw record was rightly kept or left out: it is kept where the
/// name predicate said yes, the record has a canonical form and the version
/// predicate said yes to that form; it is left out where one of them said no
/// or there is no canonical form.
pub open spec fn decided<F: Fn(&str) -> bool, G: Fn(&Version) -> bool>(
    raw: VersionModel,
    keep: bool,
    f: F,
    g: G,
) -> bool {
    if keep {
        &&& name_answer(f, raw.name, true)
        &&& canonical_version(raw).is_ok()
        &&& version_answer(g, canonical_version(raw).unwrap(), true)
    } else {
        ||| name_answer(f, raw.name, false)
        ||| canonical_version(raw).is_err()
        ||| version_answer(g, canonical_version(raw).unwrap(), false)
    }
}

/// The canonical forms of the records that are kept, in the order of the records.
pub open spec fn chosen(raws: Seq<VersionModel>, keep: Seq<bool>) -> Seq<VersionModel>
    decreases raws.len(),
{
    if raws.len() == 0 || keep.len() != raws.len() {
        Seq::empty()
    } else {
        let head = chosen(raws.drop_last(), keep.drop_last());
        if keep.last() && canonical_version(raws.last()).is_ok() {
            head.push(canonical_version(raws.last()).unwrap())
        } else {
            head
        }
    }
}

/// The snapshot of the raw records. A record enters in its canonical form where
/// `create_filter` admits the package's name, the record has a canonical form
/// and `version_filter` admits that form; the predicates are asked in this
/// order, and a record that does not enter leaves no trace. A later record of
/// a key replaces an earlier one.
pub fn read_index<F: Fn(&str) -> bool, G: Fn(&Version) -> bool>(
    records: &Vec<RawVersion>,
    create_filter: F,
    version_filter: G,
) -> (r: Snapshot)
    requires
        forall|n: &str| call_requires(create_filter, (n,)),
        forall|v: &Version| call_requires(version_filter, (v,)),
    ensures
        exists|keep: Seq<bool>|
            {
                &&& keep.len() == records.len()
                &&& forall|i: int| 0 <= i < records.len() ==> decided(records.deep_view()[i], #[trigger] keep[i], create_filter, version_filter)
                &&& r@ == snapshot_of(chosen(records.deep_view(), keep))
            },
{
    let ghost all = records.deep_view();
    let ghost mut keep: Seq<bool> = Seq::empty();
    let mut out = Snapshot::new();
    let mut i: usize = 0;
    proof {
        assert(all.take(0) =~= Seq::empty());
    }
    while i < records.len()
        invariant
            i <= records.len(),
            all == records.deep_view(),
            keep.len() == i,
            forall|n: &str| call_requires(create_filter, (n,)),
            forall|v: &Version| call_requires(version_filter, (v,)),
            forall|j: int| 0 <= j < i ==> decided(all[j], #[trigger] keep[j], create_filter, version_filter),
            out@ == snapshot_of(chosen(all.take(i as int), keep)),
        decreases records.len() - i,
    {
        let raw = &records[i];
        let ghost before = keep;
        let mut kept: bool = false;
        proof {
            assert(all[i as int] == raw@);
        }
        if create_filter(raw.name.as_str()) {
            match Version::try_from(raw) {
                Ok(v) => {
                    if version_filter(&v) {
                        kept = true;
                        proof {
                            assert(name_answer(create_filter, raw@.name, true));
                            assert(version_answer(version_filter, v@, true));
                        }
                        out = out.with(v);
                    } else {
                        proof {
                            assert(version_answer(version_filter, v@, false));
                        }
                    }
                },
                Err(_) => {},
            }
        } else {
            proof {
                assert(name_answer(create_filter, raw@.name, false));
            }
        }
        proof {
            keep = before.push(kept);
            assert(all.take(i as int + 1).drop_last() =~= all.take(i as int));
            assert(all.take(i as int + 1).last() == raw@);
            assert(keep.drop_last() =~= before);
            assert(keep.last() == kept);
            assert(decided(all[i as int], keep[i as int], create_filter, version_filter));
            if kept {
                lemma_snapshot_push(chosen(all.take(i as int), before), canonical_version(raw@).unwrap());
            }
        }
        i = i + 1;
    }
    proof {
        assert(all.take(i as int) =~= all);
    }
    out
}

} // verus!
