use vstd::prelude::*;
use vstd::relations::sorted_by;
use vstd::relations::total_ordering;
use vstd::seq_lib::lemma_sorted_unique;
use crate::search::quick_select::decides_strictly;
use crate::sort::order::SortingOrder;
use crate::sort::order::cmp_of;
use crate::sort::order::leq_of;
use crate::sort::order::lemma_leq_of_total;
use crate::sort::shuffle::shuffle;
use crate::utils::lemmas::lemma_frame_multiset;
use crate::utils::lemmas::lemma_frame_pointwise;
use crate::utils::lemmas::lemma_multiset_elements;
use crate::utils::partition::comparable_everywhere;
use crate::utils::partition::partition_range;

verus! {

/// A range that is sorted on both sides of a bounding pivot is sorted as a
/// whole.
proof fn lemma_sorted_three_parts<T>(s: Seq<T>, lo: int, p: int, hi: int, leq: spec_fn(T, T) -> bool)
    requires
        total_ordering(leq),
        0 <= lo <= p < hi <= s.len(),
        sorted_by(s.subrange(lo, p), leq),
        sorted_by(s.subrange(p + 1, hi), leq),
        forall|k: int| lo <= k < p ==> leq(#[trigger] s[k], s[p]),
        forall|k: int| p < k < hi ==> leq(s[p], #[trigger] s[k]),
    ensures
        sorted_by(s.subrange(lo, hi), leq),
{
    let sub = s.subrange(lo, hi);
    assert forall|i: int, j: int| 0 <= i < j < sub.len() implies leq(sub[i], sub[j]) by {
        let gi = i + lo;
        let gj = j + lo;
        assert(sub[i] == s[gi] && sub[j] == s[gj]);
        if gj < p {
            assert(s.subrange(lo, p)[i] == s[gi] && s.subrange(lo, p)[j] == s[gj]);
        } else if gj == p {
            assert(leq(s[gi], s[p]));
        } else if gi == p {
            assert(leq(s[p], s[gj]));
        } else if gi > p {
            assert(s.subrange(p + 1, hi)[gi - p - 1] == s[gi]);
            assert(s.subrange(p + 1, hi)[gj - p - 1] == s[gj]);
        } else {
            assert(leq(s[gi], s[p]) && leq(s[p], s[gj]));
        }
    }
}

/// The recursive heart of quicksort: sorts `arr[lo..hi]` in place, leaving
/// everything outside that range untouched.
fn quick_sort_range<T: Copy, F: Fn(&T, &T) -> bool + Copy>(
    arr: &mut Vec<T>,
    lo: usize,
    hi: usize,
    cmp: F,
)
    requires
        lo <= hi <= old(arr).len(),
        comparable_everywhere(cmp),
    ensures
        final(arr)@.len() == old(arr)@.len(),
        final(arr)@.subrange(0, lo as int) == old(arr)@.subrange(0, lo as int),
        final(arr)@.subrange(hi as int, final(arr)@.len() as int) == old(arr)@.subrange(
            hi as int,
            old(arr)@.len() as int,
        ),
        final(arr)@.subrange(lo as int, hi as int).to_multiset() == old(arr)@.subrange(
            lo as int,
            hi as int,
        ).to_multiset(),
        forall|leq: spec_fn(T, T) -> bool|
            total_ordering(leq) && decides_strictly(cmp, leq)
                ==> sorted_by(#[trigger] final(arr)@.subrange(lo as int, hi as int), leq),
    decreases hi - lo,
{
    let len = arr.len();
    let ghost whole = len as int;
    if hi - lo >= 2 {
        let ghost s0 = arr@;
        let p = partition_range(arr, lo, hi, cmp);
        let ghost s1 = arr@;
        quick_sort_range(arr, lo, p, cmp);
        let ghost s2 = arr@;
        quick_sort_range(arr, p + 1, hi, cmp);
        let ghost s3 = arr@;
        proof {
            lemma_frame_pointwise(s1, s2, lo as int, p as int);
            lemma_frame_pointwise(s2, s3, p + 1, hi as int);
            // the pivot and the untouched flanks
            assert(s3[p as int] == s1[p as int]);
            // frames of the whole range compose
            lemma_frame_pointwise(s0, s1, lo as int, hi as int);
            assert forall|t: int| 0 <= t < lo || hi <= t < whole implies #[trigger] s3[t] == s0[t] by {
                assert(s3[t] == s2[t] && s2[t] == s1[t] && s1[t] == s0[t]);
            }
            assert(s3.subrange(0, lo as int) =~= s0.subrange(0, lo as int));
            assert(s3.subrange(hi as int, whole) =~= s0.subrange(hi as int, whole));
            // the multiset of [lo, hi) survives each of the three steps
            assert(s2.subrange(lo as int, hi as int).to_multiset() == s1.subrange(
                lo as int,
                hi as int,
            ).to_multiset()) by {
                assert(s2.subrange(lo as int, hi as int).subrange(0, p - lo) =~= s2.subrange(
                    lo as int,
                    p as int,
                ));
                assert(s1.subrange(lo as int, hi as int).subrange(0, p - lo) =~= s1.subrange(
                    lo as int,
                    p as int,
                ));
                assert(s2.subrange(lo as int, hi as int).subrange(p - lo, hi - lo) =~= s1.subrange(
                    lo as int,
                    hi as int,
                ).subrange(p - lo, hi - lo)) by {
                    assert forall|t: int| p - lo <= t < hi - lo implies s2.subrange(
                        lo as int,
                        hi as int,
                    )[t] == s1.subrange(lo as int, hi as int)[t] by {
                        assert(s2[t + lo] == s1[t + lo]);
                    }
                }
                assert(s2.subrange(lo as int, hi as int).subrange(0, 0) =~= s1.subrange(
                    lo as int,
                    hi as int,
                ).subrange(0, 0));
                lemma_frame_multiset(
                    s1.subrange(lo as int, hi as int),
                    s2.subrange(lo as int, hi as int),
                    0,
                    p - lo,
                );
            }
            assert(s3.subrange(lo as int, hi as int).to_multiset() == s2.subrange(
                lo as int,
                hi as int,
            ).to_multiset()) by {
                assert(s3.subrange(lo as int, hi as int).subrange(p + 1 - lo, hi - lo)
                    =~= s3.subrange(p + 1, hi as int));
                assert(s2.subrange(lo as int, hi as int).subrange(p + 1 - lo, hi - lo)
                    =~= s2.subrange(p + 1, hi as int));
                assert(s3.subrange(lo as int, hi as int).subrange(0, p + 1 - lo) =~= s2.subrange(
                    lo as int,
                    hi as int,
                ).subrange(0, p + 1 - lo)) by {
                    assert forall|t: int| 0 <= t < p + 1 - lo implies s3.subrange(
                        lo as int,
                        hi as int,
                    )[t] == s2.subrange(lo as int, hi as int)[t] by {
                        assert(s3[t + lo] == s2[t + lo]);
                    }
                }
                assert(s3.subrange(lo as int, hi as int).subrange(hi - lo, hi - lo)
                    =~= s2.subrange(lo as int, hi as int).subrange(hi - lo, hi - lo));
                lemma_frame_multiset(
                    s2.subrange(lo as int, hi as int),
                    s3.subrange(lo as int, hi as int),
                    p + 1 - lo,
                    hi - lo,
                );
            }
            // sortedness of the joined range, for every order the comparator decides
            assert forall|leq: spec_fn(T, T) -> bool|
                total_ordering(leq) && decides_strictly(cmp, leq) implies sorted_by(
                #[trigger] s3.subrange(lo as int, hi as int),
                leq,
            ) by {
                assert forall|k: int| lo <= k < p implies leq(#[trigger] s1[k], s1[p as int]) by {
                    assert(call_ensures(cmp, (&s1[k], &s1[p as int]), true));
                }
                assert forall|k: int| p < k < hi implies leq(s1[p as int], #[trigger] s1[k]) by {
                    assert(call_ensures(cmp, (&s1[k], &s1[p as int]), false));
                    assert(!(leq(s1[k], s1[p as int]) && !leq(s1[p as int], s1[k])));
                }
                // the left half after sorting still lies at or below the pivot
                assert forall|k: int| lo <= k < p implies leq(#[trigger] s3[k], s3[p as int]) by {
                    assert(s3[k] == s2[k]);
                    lemma_multiset_elements(
                        s1.subrange(lo as int, p as int),
                        s2.subrange(lo as int, p as int),
                    );
                    assert(s2.subrange(lo as int, p as int)[k - lo] == s2[k]);
                    assert(s1.subrange(lo as int, p as int).contains(s2[k]));
                    let j = choose|j: int|
                        0 <= j < p - lo && (#[trigger] s1.subrange(lo as int, p as int)[j])
                            == s2[k];
                    assert(s1[j + lo] == s2[k]);
                    assert(leq(s1[j + lo], s1[p as int]));
                }
                // the right half after sorting still lies at or above the pivot
                assert forall|k: int| p < k < hi implies leq(s3[p as int], #[trigger] s3[k]) by {
                    lemma_multiset_elements(
                        s2.subrange(p + 1, hi as int),
                        s3.subrange(p + 1, hi as int),
                    );
                    assert(s3.subrange(p + 1, hi as int)[k - p - 1] == s3[k]);
                    assert(s2.subrange(p + 1, hi as int).contains(s3[k]));
                    let j = choose|j: int|
                        0 <= j < hi - p - 1 && (#[trigger] s2.subrange(p + 1, hi as int)[j])
                            == s3[k];
                    assert(s2[j + p + 1] == s1[j + p + 1]);
                    assert(leq(s1[p as int], s1[j + p + 1]));
                }
                assert(sorted_by(s2.subrange(lo as int, p as int), leq));
                assert(sorted_by(s3.subrange(lo as int, p as int), leq)) by {
                    assert(s3.subrange(lo as int, p as int) =~= s2.subrange(lo as int, p as int))
                        by {
                        assert forall|t: int| 0 <= t < p - lo implies s3.subrange(
                            lo as int,
                            p as int,
                        )[t] == s2.subrange(lo as int, p as int)[t] by {
                            assert(s3[t + lo] == s2[t + lo]);
                        }
                    }
                }
                assert(sorted_by(s3.subrange(p + 1, hi as int), leq));
                lemma_sorted_three_parts(s3, lo as int, p as int, hi as int, leq);
            }
        }
    } else {
        proof {
            assert(arr@.subrange(lo as int, hi as int) =~= old(arr)@.subrange(lo as int, hi as int));
            assert forall|leq: spec_fn(T, T) -> bool|
                total_ordering(leq) && decides_strictly(cmp, leq) implies sorted_by(
                #[trigger] arr@.subrange(lo as int, hi as int),
                leq,
            ) by {}
        }
    }
}

/// Sorts a slice in place with quicksort, using a custom comparator.
///
/// Whenever the comparator decides the strict part of a total order, the
/// slice afterwards is exactly the sorted copy of its old contents under
/// that order; in every case it keeps its multiset of values.
pub fn quick_sort_by<T: Copy, F: Fn(&T, &T) -> bool + Copy>(arr: &mut Vec<T>, cmp: F)
    requires
        comparable_everywhere(cmp),
    ensures
        final(arr)@.len() == old(arr)@.len(),
        final(arr)@.to_multiset() == old(arr)@.to_multiset(),
        forall|leq: spec_fn(T, T) -> bool|
            total_ordering(leq) && decides_strictly(cmp, leq) ==> {
                &&& sorted_by(final(arr)@, leq)
                &&& final(arr)@ == old(arr)@.sort_by(leq)
            },
{
    let len = arr.len();
    quick_sort_range(arr, 0, len, cmp);
    proof {
        assert(arr@.subrange(0, len as int) =~= arr@);
        assert(old(arr)@.subrange(0, len as int) =~= old(arr)@);
        assert forall|leq: spec_fn(T, T) -> bool|
            total_ordering(leq) && decides_strictly(cmp, leq) implies {
            &&& sorted_by(arr@, leq)
            &&& arr@ == old(arr)@.sort_by(leq)
        } by {
            assert(sorted_by(arr@.subrange(0, len as int), leq));
            old(arr)@.lemma_sort_by_ensures(leq);
            lemma_sorted_unique(arr@, old(arr)@.sort_by(leq), leq);
            assert(arr@ =~= old(arr)@.sort_by(leq));
        }
    }
}

/// Sorts a slice with quicksort after shuffling it, so that already sorted
/// inputs do not trigger the quadratic worst case. The guarantees match
/// those of `quick_sort_by`.
pub fn quick_sort_rand_by<T: Copy, F: Fn(&T, &T) -> bool + Copy>(arr: &mut Vec<T>, cmp: F)
    requires
        comparable_everywhere(cmp),
    ensures
        final(arr)@.len() == old(arr)@.len(),
        final(arr)@.to_multiset() == old(arr)@.to_multiset(),
        forall|leq: spec_fn(T, T) -> bool|
            total_ordering(leq) && decides_strictly(cmp, leq) ==> {
                &&& sorted_by(final(arr)@, leq)
                &&& final(arr)@ == old(arr)@.sort_by(leq)
            },
{
    shuffle(arr);
    let ghost mid = arr@;
    quick_sort_by(arr, cmp);
    proof {
        assert forall|leq: spec_fn(T, T) -> bool|
            total_ordering(leq) && decides_strictly(cmp, leq) implies {
            &&& sorted_by(arr@, leq)
            &&& arr@ == old(arr)@.sort_by(leq)
        } by {
            assert(arr@ == mid.sort_by(leq));
            mid.lemma_sort_by_ensures(leq);
            old(arr)@.lemma_sort_by_ensures(leq);
            lemma_sorted_unique(mid.sort_by(leq), old(arr)@.sort_by(leq), leq);
        }
    }
}

/// Sorts a slice of integers in the given order; the result is the sorted
/// copy of the input.
pub fn quick_sort(arr: &mut Vec<i64>, order: SortingOrder)
    ensures
        final(arr)@.len() == old(arr)@.len(),
        final(arr)@.to_multiset() == old(arr)@.to_multiset(),
        sorted_by(final(arr)@, leq_of(order)),
        final(arr)@ == old(arr)@.sort_by(leq_of(order)),
{
    let f = cmp_of(order);
    quick_sort_by(arr, f);
    proof {
        lemma_leq_of_total(order);
        assert(decides_strictly(f, leq_of(order)));
    }
}

/// Sorts a slice of integers in the given order after shuffling it; the
/// guarantees match those of `quick_sort`.
pub fn quick_sort_rand(arr: &mut Vec<i64>, order: SortingOrder)
    ensures
        final(arr)@.len() == old(arr)@.len(),
        final(arr)@.to_multiset() == old(arr)@.to_multiset(),
        sorted_by(final(arr)@, leq_of(order)),
        final(arr)@ == old(arr)@.sort_by(leq_of(order)),
{
    shuffle(arr);
    let ghost mid = arr@;
    quick_sort(arr, order);
    proof {
        lemma_leq_of_total(order);
        mid.lemma_sort_by_ensures(leq_of(order));
        old(arr)@.lemma_sort_by_ensures(leq_of(order));
        lemma_sorted_unique(mid.sort_by(leq_of(order)), old(arr)@.sort_by(leq_of(order)), leq_of(order));
    }
}

} // verus!
