//! Shrinking a failing sequence of versions: one record is left out at a time
//! for as long as the failure stays.

use crate::index_data::{Version, VersionModel};
use vstd::prelude::*;

verus! {

/// The place that the scan looks at: `scanned` places behind `offset`, going
/// round at the end.
pub open spec fn scan_place(offset: int, scanned: int, len: int) -> int
    recommends
        len > 0,
{
    (offset + scanned) % len
}

/// The oracle said `answer` of a sequence that holds `records`.
pub open spec fn answered<F: Fn(&Vec<Version>) -> bool>(oracle: F, records: Seq<VersionModel>, answer: bool) -> bool {
    exists|c: Vec<Version>| c.deep_view() == records && #[trigger] call_ensures(oracle, (&c,), answer)
}

/// `part` holds records of `whole` in their order: `places` says for each record
/// of `part` where it stands in `whole`, and goes upwards.
pub open spec fn picked_at(part: Seq<VersionModel>, whole: Seq<VersionModel>, places: Seq<int>) -> bool {
    &&& places.len() == part.len()
    &&& forall|i: int| 0 <= i < part.len() ==> 0 <= #[trigger] places[i] < whole.len() && part[i] == whole[places[i]]
    &&& forall|i: int, j: int| 0 <= i < j < part.len() ==> #[trigger] places[i] < #[trigger] places[j]
}

/// `part` is what is left of `whole` when some of its records are taken out.
pub open spec fn left_of(part: Seq<VersionModel>, whole: Seq<VersionModel>) -> bool {
    exists|places: Seq<int>| picked_at(part, whole, places)
}

/// A copy of the versions without the one at `at`.
pub fn without(data: &Vec<Version>, at: usize) -> (r: Vec<Version>)
    requires
        at < data.len(),
    ensures
        r.deep_view() == data.deep_view().remove(at as int),
        r.len() == data.len() - 1,
{
    let mut out: Vec<Version> = Vec::new();
    let mut i: usize = 0;
    while i < data.len()
        invariant
            i <= data.len(),
            at < data.len(),
            out.len() == (if i <= at { i as int } else { i - 1 }),
            forall|j: int| 0 <= j < out.len() ==> out[j]@ == (if j < at { data[j]@ } else { data[j + 1]@ }),
        decreases data.len() - i,
    {
        if i != at {
            out.push(data[i].copy());
        }
        i = i + 1;
    }
    proof {
        assert(out.deep_view() =~= data.deep_view().remove(at as int));
    }
    out
}

/// The place in a sequence of `len` records that lies `scanned` places behind
/// `offset`, going round at the end.
pub fn place_of(offset: usize, scanned: usize, len: usize) -> (r: usize)
    requires
        offset < len,
        scanned < len,
    ensures
        r == scan_place(offset as int, scanned as int, len as int),
        r < len,
{
    if scanned < len - offset {
        proof {
            assert((offset + scanned) % (len as int) == offset + scanned) by (nonlinear_arith)
                requires
                    0 <= offset + scanned < len,
            ;
        }
        offset + scanned
    } else {
        proof {
            assert((offset + scanned) % (len as int) == offset + scanned - len) by (nonlinear_arith)
                requires
                    len <= offset + scanned < 2 * len,
            ;
        }
        scanned - (len - offset)
    }
}

/// Shrinks `data` for as long as the oracle says of a candidate that it still
/// fails. A candidate is the current sequence without one record; the scan goes
/// round the sequence from where the last record was left out, and ends when
/// it has gone round once without leaving anything out.
///
/// The result is what is left of `data` when some records are taken out. It is
/// `data` itself, or the oracle said of it that it still fails; and of the
/// result without any one of its records the oracle said that it fails no more.
pub fn minimize<F: Fn(&Vec<Version>) -> bool>(data: Vec<Version>, still_fails: F) -> (r: Vec<Version>)
    requires
        forall|c: &Vec<Version>| call_requires(still_fails, (c,)),
    ensures
        left_of(r.deep_view(), data.deep_view()),
        r.deep_view().to_multiset().subset_of(data.deep_view().to_multiset()),
        r.len() <= data.len(),
        r.deep_view() == data.deep_view() || answered(still_fails, r.deep_view(), true),
        forall|i: int| 0 <= i < r.len() ==> answered(still_fails, #[trigger] r.deep_view().remove(i), false),
{
    let ghost start = data.deep_view();
    let ghost mut places: Seq<int> = Seq::new(start.len(), |i: int| i);
    let mut current: Vec<Version> = data;
    let mut offset: usize = 0;
    let mut scanned: usize = 0;
    while scanned < current.len()
        invariant
            scanned <= current.len(),
            offset <= current.len(),
            offset == current.len() ==> scanned == 0,
            forall|c: &Vec<Version>| call_requires(still_fails, (c,)),
            picked_at(current.deep_view(), start, places),
            current.deep_view().to_multiset().subset_of(start.to_multiset()),
            current.len() <= start.len(),
            current.deep_view() == start || answered(still_fails, current.deep_view(), true),
            forall|k: int| 0 <= k < scanned ==> answered(
                still_fails,
                #[trigger] current.deep_view().remove(scan_place(offset as int, k, current.len() as int)),
                false,
            ),
        decreases current.len(), current.len() - scanned,
    {
        if offset == current.len() {
            offset = 0;
        }
        let at: usize = place_of(offset, scanned, current.len());
        let candidate: Vec<Version> = without(&current, at);
        let fails: bool = still_fails(&candidate);
        if fails {
            proof {
                vstd::seq_lib::to_multiset_remove(current.deep_view(), at as int);
                assert(current.deep_view().remove(at as int).to_multiset().subset_of(current.deep_view().to_multiset()));
                assert(answered(still_fails, candidate.deep_view(), true));
                let fewer = places.remove(at as int);
                assert forall|i: int| 0 <= i < candidate.len() implies 0 <= #[trigger] fewer[i] < start.len() && candidate.deep_view()[i] == start[fewer[i]] by {
                    if i < at {
                        assert(fewer[i] == places[i]);
                        assert(candidate.deep_view()[i] == current.deep_view()[i]);
                    } else {
                        assert(fewer[i] == places[i + 1]);
                        assert(candidate.deep_view()[i] == current.deep_view()[i + 1]);
                    }
                }
                assert forall|i: int, j: int| 0 <= i < j < candidate.len() implies #[trigger] fewer[i] < #[trigger] fewer[j] by {
                    let a = if i < at { i } else { i + 1 };
                    let b = if j < at { j } else { j + 1 };
                    assert(fewer[i] == places[a] && fewer[j] == places[b]);
                }
                places = fewer;
            }
            current = candidate;
            offset = at;
            scanned = 0;
        } else {
            proof {
                assert(answered(still_fails, candidate.deep_view(), false));
                assert forall|k: int| 0 <= k < scanned + 1 implies answered(
                    still_fails,
                    #[trigger] current.deep_view().remove(scan_place(offset as int, k, current.len() as int)),
                    false,
                ) by {
                    if k == scanned {
                        assert(current.deep_view().remove(scan_place(offset as int, k, current.len() as int)) == candidate.deep_view());
                    }
                }
            }
            scanned = scanned + 1;
        }
    }
    proof {
        let n = current.len() as int;
        let o = if offset as int == n { 0 } else { offset as int };
        assert forall|i: int| 0 <= i < n implies answered(still_fails, #[trigger] current.deep_view().remove(i), false) by {
            let k = if i >= o { i - o } else { i - o + n };
            assert(scan_place(offset as int, k, n) == i) by {
                lemma_scan_round(offset as int, k, n, i);
            }
            assert(answered(still_fails, current.deep_view().remove(scan_place(offset as int, k, n)), false));
        }
    }
    current
}

/// Going round from `offset`, the scan comes to the place `i` after
/// `i - offset` steps, counted round the end.
pub proof fn lemma_scan_round(offset: int, k: int, len: int, i: int)
    requires
        0 <= offset < len,
        0 <= i < len,
        k == (if i >= offset { i - offset } else { i - offset + len }),
    ensures
        0 <= k < len,
        scan_place(offset, k, len) == i,
{
    if i >= offset {
        assert((offset + k) % len == i) by (nonlinear_arith)
            requires
                offset + k == i,
                0 <= i < len,
        ;
    } else {
        assert((offset + k) % len == i) by (nonlinear_arith)
            requires
                offset + k == i + len,
                0 <= i < len,
        ;
    }
}

} // verus!
