//! Sequences kept in order of a text key: the canonical form of every
//! collection of the registry model.

use crate::text::{lemma_lex_le_antisymmetric, lemma_lex_le_total, lemma_lex_le_transitive, lex_le, lex_lt};
use vstd::prelude::*;

verus! {

/// Keys never decrease along `t`.
pub open spec fn ascending<T>(t: Seq<T>, key: spec_fn(T) -> Seq<char>) -> bool {
    forall|i: int, j: int| 0 <= i < j < t.len() ==> lex_le(#[trigger] key(t[i]), #[trigger] key(t[j]))
}

/// Keys strictly increase along `t`: it is in order and no key occurs twice.
pub open spec fn strictly_ascending<T>(t: Seq<T>, key: spec_fn(T) -> Seq<char>) -> bool {
    forall|i: int, j: int| 0 <= i < j < t.len() ==> lex_lt(#[trigger] key(t[i]), #[trigger] key(t[j]))
}

/// `t` with `x` put at the place of its key; an item of the same key is replaced.
pub open spec fn put<T>(t: Seq<T>, x: T, key: spec_fn(T) -> Seq<char>) -> Seq<T>
    decreases t.len(),
{
    if t.len() == 0 {
        seq![x]
    } else if key(t[0]) == key(x) {
        seq![x] + t.drop_first()
    } else if lex_le(key(x), key(t[0])) {
        seq![x] + t
    } else {
        seq![t[0]] + put(t.drop_first(), x, key)
    }
}

/// `t` with `x` placed behind every item whose key is not greater than its own.
pub open spec fn place<T>(t: Seq<T>, x: T, key: spec_fn(T) -> Seq<char>) -> Seq<T>
    decreases t.len(),
{
    if t.len() == 0 {
        seq![x]
    } else if lex_le(key(t[0]), key(x)) {
        seq![t[0]] + place(t.drop_first(), x, key)
    } else {
        seq![x] + t
    }
}

/// The items put one after the other, from the first to the last, into an empty sequence.
pub open spec fn put_all<T>(items: Seq<T>, key: spec_fn(T) -> Seq<char>) -> Seq<T>
    decreases items.len(),
{
    if items.len() == 0 {
        Seq::empty()
    } else {
        put(put_all(items.drop_last(), key), items.last(), key)
    }
}

/// The items placed one after the other, from the first to the last, into an empty
/// sequence: a stable sort by key.
pub open spec fn place_all<T>(items: Seq<T>, key: spec_fn(T) -> Seq<char>) -> Seq<T>
    decreases items.len(),
{
    if items.len() == 0 {
        Seq::empty()
    } else {
        place(place_all(items.drop_last(), key), items.last(), key)
    }
}

/// The strict order is transitive.
pub proof fn lemma_lex_lt_transitive(a: Seq<char>, b: Seq<char>, c: Seq<char>)
    requires
        lex_le(a, b),
        lex_le(b, c),
        a != b || b != c,
    ensures
        lex_lt(a, c),
{
    lemma_lex_le_transitive(a, b, c);
    if a == c {
        lemma_lex_le_antisymmetric(a, b);
    }
}

/// Where `pos` is the first place whose key is not below that of `x`, `put` writes
/// `x` there: over the item of the same key, or in front of a greater one.
pub proof fn lemma_put_at<T>(t: Seq<T>, x: T, key: spec_fn(T) -> Seq<char>, pos: int)
    requires
        0 <= pos <= t.len(),
        forall|j: int| 0 <= j < pos ==> lex_lt(#[trigger] key(t[j]), key(x)),
        pos < t.len() ==> lex_le(key(x), key(t[pos])),
    ensures
        pos < t.len() && key(t[pos]) == key(x) ==> put(t, x, key) == t.update(pos, x),
        !(pos < t.len() && key(t[pos]) == key(x)) ==> put(t, x, key) == t.insert(pos, x),
    decreases t.len(),
{
    if t.len() == 0 {
        assert(t.insert(0, x) =~= seq![x]);
    } else if pos == 0 {
        if key(t[0]) == key(x) {
            assert(seq![x] + t.drop_first() =~= t.update(0, x));
        } else {
            assert(seq![x] + t =~= t.insert(0, x));
        }
    } else {
        let rest = t.drop_first();
        assert(lex_lt(key(t[0]), key(x)));
        if lex_le(key(x), key(t[0])) {
            lemma_lex_le_antisymmetric(key(x), key(t[0]));
        }
        assert forall|j: int| 0 <= j < pos - 1 implies lex_lt(#[trigger] key(rest[j]), key(x)) by {
            assert(rest[j] == t[j + 1]);
        }
        lemma_put_at(rest, x, key, pos - 1);
        if pos < t.len() && key(t[pos]) == key(x) {
            assert(seq![t[0]] + rest.update(pos - 1, x) =~= t.update(pos, x));
        } else {
            assert(seq![t[0]] + rest.insert(pos - 1, x) =~= t.insert(pos, x));
        }
    }
}

/// Where `pos` is the first place whose key is above that of `x`, `place` inserts
/// `x` there.
pub proof fn lemma_place_at<T>(t: Seq<T>, x: T, key: spec_fn(T) -> Seq<char>, pos: int)
    requires
        0 <= pos <= t.len(),
        forall|j: int| 0 <= j < pos ==> lex_le(#[trigger] key(t[j]), key(x)),
        pos < t.len() ==> !lex_le(key(t[pos]), key(x)),
    ensures
        place(t, x, key) == t.insert(pos, x),
    decreases t.len(),
{
    if t.len() == 0 {
        assert(t.insert(0, x) =~= seq![x]);
    } else if pos == 0 {
        assert(seq![x] + t =~= t.insert(0, x));
    } else {
        let rest = t.drop_first();
        assert(lex_le(key(t[0]), key(x)));
        assert forall|j: int| 0 <= j < pos - 1 implies lex_le(#[trigger] key(rest[j]), key(x)) by {
            assert(rest[j] == t[j + 1]);
        }
        lemma_place_at(rest, x, key, pos - 1);
        assert(seq![t[0]] + rest.insert(pos - 1, x) =~= t.insert(pos, x));
    }
}

/// `put` keeps a strictly ascending sequence strictly ascending, and the result
/// holds `x` and those items of `t` whose key differs from that of `x`.
pub proof fn lemma_put_canonical<T>(t: Seq<T>, x: T, key: spec_fn(T) -> Seq<char>)
    requires
        strictly_ascending(t, key),
    ensures
        strictly_ascending(put(t, x, key), key),
        forall|y: T| #[trigger] put(t, x, key).contains(y) <==> (y == x || (t.contains(y) && key(y) != key(x))),
    decreases t.len(),
{
    let r = put(t, x, key);
    if t.len() == 0 {
        assert(r[0] == x);
        assert forall|y: T| #[trigger] r.contains(y) <==> (y == x || (t.contains(y) && key(y) != key(x))) by {
            if y == x {
                assert(r[0] == y);
            }
        }
    } else {
        let rest = t.drop_first();
        assert forall|i: int, j: int| 0 <= i < j < rest.len() implies lex_lt(#[trigger] key(rest[i]), #[trigger] key(rest[j])) by {
            assert(rest[i] == t[i + 1] && rest[j] == t[j + 1]);
        }
        assert forall|i: int| 0 <= i < rest.len() implies lex_lt(key(t[0]), #[trigger] key(rest[i])) by {
            assert(rest[i] == t[i + 1]);
        }
        if key(t[0]) == key(x) {
            assert forall|i: int, j: int| 0 <= i < j < r.len() implies lex_lt(#[trigger] key(r[i]), #[trigger] key(r[j])) by {
                assert(r[j] == rest[j - 1]);
                if i > 0 {
                    assert(r[i] == rest[i - 1]);
                }
            }
            assert forall|y: T| #[trigger] r.contains(y) <==> (y == x || (t.contains(y) && key(y) != key(x))) by {
                if y == x {
                    assert(r[0] == y);
                }
                if r.contains(y) && y != x {
                    let i = choose|i: int| 0 <= i < r.len() && r[i] == y;
                    assert(r[i] == rest[i - 1]);
                    assert(t[i] == y);
                }
                if t.contains(y) && key(y) != key(x) {
                    let i = choose|i: int| 0 <= i < t.len() && t[i] == y;
                    assert(r[i] == rest[i - 1]);
                }
            }
        } else if lex_le(key(x), key(t[0])) {
            assert forall|i: int, j: int| 0 <= i < j < r.len() implies lex_lt(#[trigger] key(r[i]), #[trigger] key(r[j])) by {
                assert(r[j] == t[j - 1]);
                if i > 0 {
                    assert(r[i] == t[i - 1]);
                } else if j > 1 {
                    lemma_lex_lt_transitive(key(x), key(t[0]), key(t[j - 1]));
                }
            }
            assert forall|y: T| #[trigger] r.contains(y) <==> (y == x || (t.contains(y) && key(y) != key(x))) by {
                if y == x {
                    assert(r[0] == y);
                }
                if r.contains(y) && y != x {
                    let i = choose|i: int| 0 <= i < r.len() && r[i] == y;
                    assert(r[i] == t[i - 1]);
                    if i > 1 {
                        lemma_lex_lt_transitive(key(x), key(t[0]), key(t[i - 1]));
                    }
                }
                if t.contains(y) && key(y) != key(x) {
                    let i = choose|i: int| 0 <= i < t.len() && t[i] == y;
                    assert(r[i + 1] == y);
                }
            }
        } else {
            lemma_lex_le_total(key(x), key(t[0]));
            lemma_put_canonical(rest, x, key);
            let sub = put(rest, x, key);
            assert forall|i: int| 0 <= i < sub.len() implies lex_lt(key(t[0]), #[trigger] key(sub[i])) by {
                assert(sub.contains(sub[i]));
                if sub[i] != x {
                    assert(rest.contains(sub[i]));
                    let k = choose|k: int| 0 <= k < rest.len() && rest[k] == sub[i];
                    assert(lex_lt(key(t[0]), key(rest[k])));
                }
            }
            assert forall|i: int, j: int| 0 <= i < j < r.len() implies lex_lt(#[trigger] key(r[i]), #[trigger] key(r[j])) by {
                assert(r[j] == sub[j - 1]);
                if i > 0 {
                    assert(r[i] == sub[i - 1]);
                }
            }
            assert forall|y: T| #[trigger] r.contains(y) <==> (y == x || (t.contains(y) && key(y) != key(x))) by {
                if r.contains(y) {
                    let i = choose|i: int| 0 <= i < r.len() && r[i] == y;
                    if i > 0 {
                        assert(r[i] == sub[i - 1]);
                        assert(sub.contains(y));
                        if y != x {
                            let k = choose|k: int| 0 <= k < rest.len() && rest[k] == y;
                            assert(t[k + 1] == y);
                        }
                    } else {
                        assert(t[0] == y);
                    }
                }
                if y == x || (t.contains(y) && key(y) != key(x)) {
                    if y != x {
                        let k = choose|k: int| 0 <= k < t.len() && t[k] == y;
                        if k == 0 {
                            assert(r[0] == y);
                        } else {
                            assert(rest[k - 1] == y);
                            assert(rest.contains(y));
                        }
                    }
                    if y != t[0] {
                        assert(sub.contains(y));
                        let k = choose|k: int| 0 <= k < sub.len() && sub[k] == y;
                        assert(r[k + 1] == y);
                    }
                }
            }
        }
    }
}

/// `place` keeps an ascending sequence ascending, and adds `x` to its items and
/// nothing else.
pub proof fn lemma_place_sorted<T>(t: Seq<T>, x: T, key: spec_fn(T) -> Seq<char>)
    requires
        ascending(t, key),
    ensures
        ascending(place(t, x, key), key),
        place(t, x, key).to_multiset() == t.to_multiset().insert(x),
        place(t, x, key).len() == t.len() + 1,
    decreases t.len(),
{
    broadcast use vstd::seq_lib::group_to_multiset_ensures;
    let r = place(t, x, key);
    if t.len() == 0 {
        assert(t =~= Seq::empty());
        assert(r =~= Seq::<T>::empty().push(x));
    } else {
        let rest = t.drop_first();
        assert(t =~= seq![t[0]] + rest);
        if lex_le(key(t[0]), key(x)) {
            assert forall|i: int, j: int| 0 <= i < j < rest.len() implies lex_le(#[trigger] key(rest[i]), #[trigger] key(rest[j])) by {
                assert(rest[i] == t[i + 1] && rest[j] == t[j + 1]);
            }
            lemma_place_sorted(rest, x, key);
            let sub = place(rest, x, key);
            assert forall|i: int| 0 <= i < sub.len() implies lex_le(key(t[0]), #[trigger] key(sub[i])) by {
                assert(sub.to_multiset().count(sub[i]) > 0);
                if sub[i] != x {
                    assert(rest.to_multiset().count(sub[i]) > 0);
                    assert(rest.contains(sub[i]));
                    let k = choose|k: int| 0 <= k < rest.len() && rest[k] == sub[i];
                    assert(rest[k] == t[k + 1]);
                }
            }
            assert forall|i: int, j: int| 0 <= i < j < r.len() implies lex_le(#[trigger] key(r[i]), #[trigger] key(r[j])) by {
                assert(r[j] == sub[j - 1]);
                if i > 0 {
                    assert(r[i] == sub[i - 1]);
                }
            }
            vstd::seq_lib::lemma_multiset_commutative(seq![t[0]], sub);
            vstd::seq_lib::lemma_multiset_commutative(seq![t[0]], rest);
            assert(r.to_multiset() =~= t.to_multiset().insert(x));
        } else {
            lemma_lex_le_total(key(t[0]), key(x));
            assert forall|i: int, j: int| 0 <= i < j < r.len() implies lex_le(#[trigger] key(r[i]), #[trigger] key(r[j])) by {
                assert(r[j] == t[j - 1]);
                if i > 0 {
                    assert(r[i] == t[i - 1]);
                } else if j > 1 {
                    lemma_lex_le_transitive(key(x), key(t[0]), key(t[j - 1]));
                }
            }
            assert(seq![x] =~= Seq::<T>::empty().push(x));
            vstd::seq_lib::lemma_multiset_commutative(seq![x], t);
            assert(r.to_multiset() =~= t.to_multiset().insert(x));
        }
    }
}

/// Putting the items of a strictly ascending sequence one by one gives the
/// sequence itself.
pub proof fn lemma_put_all_stable<T>(t: Seq<T>, key: spec_fn(T) -> Seq<char>)
    requires
        strictly_ascending(t, key),
    ensures
        put_all(t, key) == t,
    decreases t.len(),
{
    if t.len() > 0 {
        let head = t.drop_last();
        assert forall|i: int, j: int| 0 <= i < j < head.len() implies lex_lt(#[trigger] key(head[i]), #[trigger] key(head[j])) by {
            assert(head[i] == t[i] && head[j] == t[j]);
        }
        lemma_put_all_stable(head, key);
        assert forall|j: int| 0 <= j < head.len() implies lex_lt(#[trigger] key(head[j]), key(t.last())) by {
            assert(head[j] == t[j]);
            assert(t[t.len() - 1] == t.last());
        }
        lemma_put_at(head, t.last(), key, head.len() as int);
        assert(head.insert(head.len() as int, t.last()) =~= t);
    } else {
        assert(t =~= Seq::empty());
    }
}

/// Placing the items of an ascending sequence one by one gives the sequence
/// itself.
pub proof fn lemma_place_all_stable<T>(t: Seq<T>, key: spec_fn(T) -> Seq<char>)
    requires
        ascending(t, key),
    ensures
        place_all(t, key) == t,
    decreases t.len(),
{
    if t.len() > 0 {
        let head = t.drop_last();
        assert forall|i: int, j: int| 0 <= i < j < head.len() implies lex_le(#[trigger] key(head[i]), #[trigger] key(head[j])) by {
            assert(head[i] == t[i] && head[j] == t[j]);
        }
        lemma_place_all_stable(head, key);
        assert forall|j: int| 0 <= j < head.len() implies lex_le(#[trigger] key(head[j]), key(t.last())) by {
            assert(head[j] == t[j]);
            assert(t[t.len() - 1] == t.last());
        }
        lemma_place_at(head, t.last(), key, head.len() as int);
        assert(head.insert(head.len() as int, t.last()) =~= t);
    } else {
        assert(t =~= Seq::empty());
    }
}

} // verus!
