//! In-place quicksort over a vector: partition around a pivot drawn
//! from the middle, then sort the two sides.

use vstd::prelude::*;
use vstd::seq_lib::lemma_multiset_commutative;
use crate::order::{le_test, TotalOrder};
use crate::vecops::{exchange, lemma_exchange_within_window};

verus! {

/// The sequence is in non-decreasing order.
pub open spec fn sorted<T: TotalOrder>(s: Seq<T>) -> bool {
    forall|a: int, b: int| 0 <= a < b < s.len() ==> #[trigger] s[a].le(s[b])
}

/// Sorts the vector in place: afterwards it is ordered and holds
/// exactly the elements it held before.
pub fn sort<T: TotalOrder + Copy>(array: &mut Vec<T>)
    ensures
        sorted(final(array)@),
        final(array)@.to_multiset() == old(array)@.to_multiset(),
        final(array)@.len() == old(array)@.len(),
{
    let n = array.len();
    proof {
        assert(array@.subrange(0, n as int) =~= array@);
    }
    quick_sort(array, 0, n);
    proof {
        assert(array@.subrange(0, n as int) =~= array@);
    }
}

/// Sorts the window of positions `low..end`, leaving the rest alone.
fn quick_sort<T: TotalOrder + Copy>(array: &mut Vec<T>, low: usize, end: usize)
    requires
        low <= end,
        end <= old(array)@.len(),
    ensures
        final(array)@.len() == old(array)@.len(),
        forall|k: int| 0 <= k < old(array)@.len() && !(low <= k < end) ==> final(array)@[k] == old(
            array,
        )@[k],
        final(array)@.subrange(low as int, end as int).to_multiset() == old(array)@.subrange(
            low as int,
            end as int,
        ).to_multiset(),
        sorted(final(array)@.subrange(low as int, end as int)),
    decreases end - low,
{
    if end - low >= 2 {
        let ghost s0 = array@;
        let ghost lo = low as int;
        let ghost hi = end as int;
        let p = partition(array, low, end);
        let ghost s1 = array@;
        let ghost pv = s1[p as int];
        let ghost pi = p as int;
        quick_sort(array, low, p);
        let ghost s2 = array@;
        quick_sort(array, p + 1, end);
        let ghost s3 = array@;
        proof {
            broadcast use vstd::seq_lib::group_to_multiset_ensures;
            broadcast use vstd::multiset::group_multiset_axioms;

            // the window splits around the pivot position
            assert(s3[pi] == pv);
            assert(s3.subrange(lo, pi) =~= s2.subrange(lo, pi));
            assert(s2.subrange(pi, hi) =~= s1.subrange(pi, hi));
            // multiset of the window is carried through both halves
            assert(s1.subrange(lo, hi) =~= s1.subrange(lo, pi) + (s1.subrange(pi, pi + 1)
                + s1.subrange(pi + 1, hi)));
            assert(s3.subrange(lo, hi) =~= s3.subrange(lo, pi) + (s3.subrange(pi, pi + 1)
                + s3.subrange(pi + 1, hi)));
            lemma_multiset_commutative(
                s1.subrange(lo, pi),
                s1.subrange(pi, pi + 1) + s1.subrange(pi + 1, hi),
            );
            lemma_multiset_commutative(s1.subrange(pi, pi + 1), s1.subrange(pi + 1, hi));
            lemma_multiset_commutative(
                s3.subrange(lo, pi),
                s3.subrange(pi, pi + 1) + s3.subrange(pi + 1, hi),
            );
            lemma_multiset_commutative(s3.subrange(pi, pi + 1), s3.subrange(pi + 1, hi));
            assert(s3.subrange(pi, pi + 1) =~= s1.subrange(pi, pi + 1));
            assert(s2.subrange(pi + 1, hi) =~= s1.subrange(pi + 1, hi));
            assert(s3.subrange(pi + 1, hi).to_multiset() == s1.subrange(pi + 1, hi).to_multiset());
            assert(s3.subrange(lo, pi).to_multiset() == s1.subrange(lo, pi).to_multiset());
            assert(s3.subrange(lo, hi).to_multiset() == s0.subrange(lo, hi).to_multiset());
            // everything left of the pivot still sorts no later than it
            assert forall|k: int| lo <= k < pi implies #[trigger] s3[k].le(pv) by {
                let tl3 = s3.subrange(lo, pi);
                let tl1 = s1.subrange(lo, pi);
                assert(tl3[k - lo] == s3[k]);
                assert(tl3.contains(s3[k]));
                assert(tl3.to_multiset().count(s3[k]) > 0);
                assert(tl1.contains(s3[k]));
                let q = choose|q: int| 0 <= q < tl1.len() && tl1[q] == s3[k];
                assert(s1[lo + q].le(pv));
            }
            // and everything right of it no earlier
            assert forall|k: int| pi < k < hi implies pv.le(#[trigger] s3[k]) by {
                if k > pi {
                    let tr3 = s3.subrange(pi + 1, hi);
                    let tr1 = s1.subrange(pi + 1, hi);
                    assert(tr3[k - pi - 1] == s3[k]);
                    assert(tr3.contains(s3[k]));
                    assert(tr3.to_multiset().count(s3[k]) > 0);
                    assert(tr1.contains(s3[k]));
                    let q = choose|q: int| 0 <= q < tr1.len() && tr1[q] == s3[k];
                    assert(pv.le(s1[pi + 1 + q]));
                }
            }
            let t = s3.subrange(lo, hi);
            assert forall|a: int, b: int| 0 <= a < b < t.len() implies #[trigger] t[a].le(
                t[b],
            ) by {
                let ka = lo + a;
                let kb = lo + b;
                assert(t[a] == s3[ka]);
                assert(t[b] == s3[kb]);
                if kb < pi {
                    assert(s3.subrange(lo, pi)[a].le(s3.subrange(lo, pi)[b]));
                } else if ka < pi && kb == pi {
                    assert(s3[ka].le(pv));
                } else if ka < pi && kb > pi {
                    T::lemma_transitive(s3[ka], pv, s3[kb]);
                } else if ka == pi {
                    assert(pv.le(s3[kb]));
                } else {
                    assert(s3.subrange(pi + 1, hi)[ka - pi - 1].le(
                        s3.subrange(pi + 1, hi)[kb - pi - 1],
                    ));
                }
            }
        }
    }
}

/// Rearranges the window `low..end` around a pivot drawn from its
/// middle and returns the pivot's final position: nothing before it
/// sorts later than it, nothing after it sorts earlier.
fn partition<T: TotalOrder + Copy>(array: &mut Vec<T>, low: usize, end: usize) -> (p: usize)
    requires
        low + 2 <= end,
        end <= old(array)@.len(),
    ensures
        low <= p < end,
        final(array)@.len() == old(array)@.len(),
        forall|k: int| 0 <= k < old(array)@.len() && !(low <= k < end) ==> final(array)@[k] == old(
            array,
        )@[k],
        final(array)@.subrange(low as int, end as int).to_multiset() == old(array)@.subrange(
            low as int,
            end as int,
        ).to_multiset(),
        forall|k: int| low <= k < p ==> #[trigger] final(array)@[k].le(final(array)@[p as int]),
        forall|k: int| p < k < end ==> #[trigger] final(array)@[p as int].le(final(array)@[k]),
{
    let mid = low + (end - low) / 2;
    let ghost s0 = array@;
    proof {
        lemma_exchange_within_window(
            s0,
            low as int,
            end as int,
            mid as int,
            end as int - 1,
        );
    }
    exchange(array, mid, end - 1);
    let pivot = array[end - 1];
    let mut i = low;
    let mut j = low;
    while j < end - 1
        invariant
            low <= i <= j <= end - 1,
            low + 2 <= end,
            end <= array@.len(),
            array@.len() == old(array)@.len(),
            pivot == array@[end - 1],
            forall|k: int| 0 <= k < array@.len() && !(low <= k < end) ==> array@[k] == old(
                array,
            )@[k],
            array@.subrange(low as int, end as int).to_multiset() == old(array)@.subrange(
                low as int,
                end as int,
            ).to_multiset(),
            forall|k: int| low <= k < i ==> #[trigger] array@[k].le(pivot),
            forall|k: int| i <= k < j ==> pivot.le(#[trigger] array@[k]),
        decreases end - 1 - j,
    {
        let take = le_test(&array[j], &pivot);
        if take {
            let ghost s = array@;
            proof {
                lemma_exchange_within_window(s, low as int, end as int, i as int, j as int);
            }
            exchange(array, i, j);
            i = i + 1;
        } else {
            proof {
                T::lemma_total(array@[j as int], pivot);
            }
        }
        j = j + 1;
    }
    let ghost s = array@;
    proof {
        lemma_exchange_within_window(s, low as int, end as int, i as int, end as int - 1);
    }
    exchange(array, i, end - 1);
    i
}

} // verus!
