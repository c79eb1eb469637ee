use vstd::prelude::*;
use vstd::relations::total_ordering;
use crate::sort::order::SortingOrder;
use crate::sort::order::leq_of;
use crate::utils::lemmas::lemma_multiset_elements;
use crate::utils::lemmas::lemma_selected_rank;
use crate::utils::partition::comparable_everywhere;
use crate::utils::partition::partition_range;
use crate::utils::partition::partition_rand_range;

verus! {

/// A comparator decides the strict part of the total order `leq`: it answers
/// true exactly when its first argument must come strictly first.
pub open spec fn decides_strictly<T, F: Fn(&T, &T) -> bool>(
    f: F,
    leq: spec_fn(T, T) -> bool,
) -> bool {
    forall|a: &T, b: &T, r: bool|
        #[trigger] call_ensures(f, (a, b), r) ==> r == (leq(*a, *b) && !leq(*b, *a))
}

/// The range `[lo, hi)` is separated from the rest: everything left of it
/// comes before it under `leq`, everything right of it after it.
pub open spec fn cross_split<T>(s: Seq<T>, lo: int, hi: int, leq: spec_fn(T, T) -> bool) -> bool {
    &&& forall|i: int, k: int| 0 <= i < lo <= k < hi ==> leq(#[trigger] s[i], #[trigger] s[k])
    &&& forall|k: int, i: int| lo <= k < hi <= i < s.len() ==> leq(#[trigger] s[k], #[trigger] s[i])
}

/// Permuting the values inside `[lo, hi)` keeps the range separated from the
/// untouched values around it.
proof fn lemma_cross_preserved<T>(pre: Seq<T>, post: Seq<T>, lo: int, hi: int, leq: spec_fn(T, T) -> bool)
    requires
        pre.len() == post.len(),
        0 <= lo <= hi <= pre.len(),
        post.subrange(0, lo) == pre.subrange(0, lo),
        post.subrange(hi, post.len() as int) == pre.subrange(hi, pre.len() as int),
        post.subrange(lo, hi).to_multiset() == pre.subrange(lo, hi).to_multiset(),
        cross_split(pre, lo, hi, leq),
    ensures
        cross_split(post, lo, hi, leq),
{
    let len = pre.len() as int;
    crate::utils::lemmas::lemma_frame_pointwise(pre, post, lo, hi);
    lemma_multiset_elements(pre.subrange(lo, hi), post.subrange(lo, hi));
    assert forall|k: int| lo <= k < hi implies exists|k0: int|
        lo <= k0 < hi && pre[k0] == #[trigger] post[k] by {
        assert(pre.subrange(lo, hi).contains(post.subrange(lo, hi)[k - lo]));
        let j = choose|j: int|
            0 <= j < hi - lo && pre.subrange(lo, hi)[j] == post.subrange(lo, hi)[k - lo];
        assert(pre[j + lo] == post[k]);
    }
    assert forall|i: int, k: int| 0 <= i < lo <= k < hi implies leq(
        #[trigger] post[i],
        #[trigger] post[k],
    ) by {
        let k0 = choose|k0: int| lo <= k0 < hi && pre[k0] == post[k];
        assert(leq(pre[i], pre[k0]));
    }
    assert forall|k: int, i: int| lo <= k < hi <= i < post.len() implies leq(
        #[trigger] post[k],
        #[trigger] post[i],
    ) by {
        let k0 = choose|k0: int| lo <= k0 < hi && pre[k0] == post[k];
        assert(leq(pre[k0], pre[i]));
    }
}

/// After a partition of a separated range, the two halves on either side of
/// the pivot are themselves separated, and the pivot bounds them.
proof fn lemma_narrow_after_partition<T, F: Fn(&T, &T) -> bool>(
    f: F,
    s: Seq<T>,
    lo: int,
    hi: int,
    p: int,
    leq: spec_fn(T, T) -> bool,
)
    requires
        total_ordering(leq),
        decides_strictly(f, leq),
        0 <= lo <= p < hi <= s.len(),
        cross_split(s, lo, hi, leq),
        forall|k: int| lo <= k < p ==> call_ensures(f, (&s[k], &s[p]), true),
        forall|k: int| p < k < hi ==> call_ensures(f, (&s[k], &s[p]), false),
    ensures
        cross_split(s, lo, p, leq),
        cross_split(s, p + 1, hi, leq),
        forall|k: int| lo <= k < p ==> leq(#[trigger] s[k], s[p]),
        forall|k: int| p <= k < hi ==> leq(s[p], #[trigger] s[k]),
{
    assert forall|k: int| lo <= k < p implies leq(#[trigger] s[k], s[p]) by {
        assert(call_ensures(f, (&s[k], &s[p]), true));
    }
    assert forall|k: int| p <= k < hi implies leq(s[p], #[trigger] s[k]) by {
        if k != p {
            assert(call_ensures(f, (&s[k], &s[p]), false));
            assert(!(leq(s[k], s[p]) && !leq(s[p], s[k])));
        }
    }
    assert forall|k: int, i: int| lo <= k < p <= i < s.len() implies leq(
        #[trigger] s[k],
        #[trigger] s[i],
    ) by {
        if i < hi {
            assert(leq(s[k], s[p]) && leq(s[p], s[i]));
        }
    }
    assert forall|i: int, k: int| 0 <= i < p + 1 <= k < hi implies leq(
        #[trigger] s[i],
        #[trigger] s[k],
    ) by {
        if lo <= i {
            assert(leq(s[i], s[p]) && leq(s[p], s[k]));
        }
    }
}

/// The shared loop of quickselect: repeatedly partitions the sub-range that
/// still holds rank `n`, with either the deterministic or the randomized
/// pivot choice.
fn quick_select_loop<T: Copy, F: Fn(&T, &T) -> bool + Copy>(
    arr: &mut Vec<T>,
    n: usize,
    is_ordered: F,
    randomized: bool,
) -> (r: T)
    requires
        n < old(arr).len(),
        comparable_everywhere(is_ordered),
    ensures
        final(arr)@.len() == old(arr)@.len(),
        final(arr)@.to_multiset() == old(arr)@.to_multiset(),
        r == final(arr)@[n as int],
        forall|leq: spec_fn(T, T) -> bool|
            total_ordering(leq) && decides_strictly(is_ordered, leq) ==> {
                &&& (forall|i: int|
                    0 <= i < n ==> leq(#[trigger] final(arr)@[i], final(arr)@[n as int]))
                &&& (forall|i: int|
                    n < i < final(arr)@.len() ==> leq(
                        final(arr)@[n as int],
                        #[trigger] final(arr)@[i],
                    ))
                &&& r == old(arr)@.sort_by(leq)[n as int]
                &&& final(arr)@.subrange(0, n as int).to_multiset() == old(arr)@.sort_by(
                    leq,
                ).subrange(0, n as int).to_multiset()
            },
{
    let mut lo: usize = 0;
    let mut hi: usize = arr.len();
    loop
        invariant
            lo <= n < hi <= arr@.len(),
            arr@.len() == old(arr)@.len(),
            comparable_everywhere(is_ordered),
            arr@.to_multiset() == old(arr)@.to_multiset(),
            forall|leq: spec_fn(T, T) -> bool|
                total_ordering(leq) && decides_strictly(is_ordered, leq)
                    ==> #[trigger] cross_split(arr@, lo as int, hi as int, leq),
        decreases hi - lo,
    {
        if hi == lo + 1 {
            let r = arr[lo];
            proof {
                assert forall|leq: spec_fn(T, T) -> bool|
                    total_ordering(leq) && decides_strictly(is_ordered, leq) implies {
                    &&& (forall|i: int| 0 <= i < n ==> leq(#[trigger] arr@[i], arr@[n as int]))
                    &&& (forall|i: int|
                        n < i < arr@.len() ==> leq(arr@[n as int], #[trigger] arr@[i]))
                    &&& r == old(arr)@.sort_by(leq)[n as int]
                    &&& arr@.subrange(0, n as int).to_multiset() == old(arr)@.sort_by(
                        leq,
                    ).subrange(0, n as int).to_multiset()
                } by {
                    assert(cross_split(arr@, lo as int, hi as int, leq));
                    lemma_selected_rank(old(arr)@, arr@, n as int, leq);
                }
            }
            return r;
        }
        let ghost pre = arr@;
        let p = if randomized {
            partition_rand_range(arr, lo, hi, is_ordered)
        } else {
            partition_range(arr, lo, hi, is_ordered)
        };
        proof {
            crate::utils::lemmas::lemma_frame_multiset(pre, arr@, lo as int, hi as int);
            assert forall|leq: spec_fn(T, T) -> bool|
                total_ordering(leq) && decides_strictly(is_ordered, leq) implies {
                &&& cross_split(arr@, lo as int, hi as int, leq)
                &&& cross_split(arr@, lo as int, p as int, leq)
                &&& cross_split(arr@, p + 1, hi as int, leq)
                &&& (forall|k: int| lo <= k < p ==> leq(#[trigger] arr@[k], arr@[p as int]))
                &&& (forall|k: int| p <= k < hi ==> leq(arr@[p as int], #[trigger] arr@[k]))
            } by {
                assert(cross_split(pre, lo as int, hi as int, leq));
                lemma_cross_preserved(pre, arr@, lo as int, hi as int, leq);
                lemma_narrow_after_partition(
                    is_ordered,
                    arr@,
                    lo as int,
                    hi as int,
                    p as int,
                    leq,
                );
            }
        }
        if n == p {
            let r = arr[n];
            proof {
                assert forall|leq: spec_fn(T, T) -> bool|
                    total_ordering(leq) && decides_strictly(is_ordered, leq) implies {
                    &&& (forall|i: int| 0 <= i < n ==> leq(#[trigger] arr@[i], arr@[n as int]))
                    &&& (forall|i: int|
                        n < i < arr@.len() ==> leq(arr@[n as int], #[trigger] arr@[i]))
                    &&& r == old(arr)@.sort_by(leq)[n as int]
                    &&& arr@.subrange(0, n as int).to_multiset() == old(arr)@.sort_by(
                        leq,
                    ).subrange(0, n as int).to_multiset()
                } by {
                    assert(cross_split(arr@, lo as int, hi as int, leq));
                    assert(cross_split(arr@, lo as int, p as int, leq));
                    assert forall|i: int| 0 <= i < n implies leq(
                        #[trigger] arr@[i],
                        arr@[n as int],
                    ) by {
                        if i < lo {
                            assert(cross_split(arr@, lo as int, hi as int, leq));
                            assert(leq(arr@[i], arr@[n as int]));
                        }
                    }
                    assert forall|i: int| n < i < arr@.len() implies leq(
                        arr@[n as int],
                        #[trigger] arr@[i],
                    ) by {
                        if i >= hi {
                            assert(cross_split(arr@, lo as int, hi as int, leq));
                            assert(leq(arr@[n as int], arr@[i]));
                        }
                    }
                    lemma_selected_rank(old(arr)@, arr@, n as int, leq);
                }
            }
            return r;
        } else if n < p {
            hi = p;
        } else {
            lo = p + 1;
        }
    }
}

/// Finds the element of rank `n` in an unsorted slice using a custom
/// comparator, partially reordering the slice in the process.
///
/// Whenever the comparator decides the strict part of a total order, the
/// result equals the element a fully sorted copy would carry at index `n`,
/// and the slice ends up separated around that position.
pub fn quick_select_by<T: Copy, F: Fn(&T, &T) -> bool + Copy>(
    arr: &mut Vec<T>,
    n: usize,
    is_ordered: F,
) -> (r: T)
    requires
        n < old(arr).len(),
        comparable_everywhere(is_ordered),
    ensures
        final(arr)@.len() == old(arr)@.len(),
        final(arr)@.to_multiset() == old(arr)@.to_multiset(),
        r == final(arr)@[n as int],
        forall|leq: spec_fn(T, T) -> bool|
            total_ordering(leq) && decides_strictly(is_ordered, leq) ==> {
                &&& (forall|i: int|
                    0 <= i < n ==> leq(#[trigger] final(arr)@[i], final(arr)@[n as int]))
                &&& (forall|i: int|
                    n < i < final(arr)@.len() ==> leq(
                        final(arr)@[n as int],
                        #[trigger] final(arr)@[i],
                    ))
                &&& r == old(arr)@.sort_by(leq)[n as int]
                &&& final(arr)@.subrange(0, n as int).to_multiset() == old(arr)@.sort_by(
                    leq,
                ).subrange(0, n as int).to_multiset()
            },
{
    quick_select_loop(arr, n, is_ordered, false)
}

/// Finds the element of rank `n` using a custom comparator, drawing each
/// pivot uniformly at random to resist adversarial input orderings.
///
/// The guarantees are those of `quick_select_by`; only the pivot choice,
/// and so the expected running time, differs.
pub fn quick_select_rand_by<T: Copy, F: Fn(&T, &T) -> bool + Copy>(
    arr: &mut Vec<T>,
    n: usize,
    is_ordered: F,
) -> (r: T)
    requires
        n < old(arr).len(),
        comparable_everywhere(is_ordered),
    ensures
        final(arr)@.len() == old(arr)@.len(),
        final(arr)@.to_multiset() == old(arr)@.to_multiset(),
        r == final(arr)@[n as int],
        forall|leq: spec_fn(T, T) -> bool|
            total_ordering(leq) && decides_strictly(is_ordered, leq) ==> {
                &&& (forall|i: int|
                    0 <= i < n ==> leq(#[trigger] final(arr)@[i], final(arr)@[n as int]))
                &&& (forall|i: int|
                    n < i < final(arr)@.len() ==> leq(
                        final(arr)@[n as int],
                        #[trigger] final(arr)@[i],
                    ))
                &&& r == old(arr)@.sort_by(leq)[n as int]
                &&& final(arr)@.subrange(0, n as int).to_multiset() == old(arr)@.sort_by(
                    leq,
                ).subrange(0, n as int).to_multiset()
            },
{
    quick_select_loop(arr, n, is_ordered, true)
}

/// Finds the element of rank `n` in an unsorted slice of integers under the
/// ascending order, partially reordering the slice in the process.
///
/// The result is exactly what a fully sorted copy of the input would hold at
/// index `n`; afterwards everything before position `n` is at most the
/// result and everything after it at least the result.
pub fn quick_select(arr: &mut Vec<i64>, n: usize) -> (r: i64)
    requires
        n < old(arr).len(),
    ensures
        final(arr)@.len() == old(arr)@.len(),
        final(arr)@.to_multiset() == old(arr)@.to_multiset(),
        r == final(arr)@[n as int],
        r == old(arr)@.sort_by(leq_of(SortingOrder::Ascending))[n as int],
        forall|i: int| 0 <= i < n ==> #[trigger] final(arr)@[i] <= r,
        forall|i: int| n < i < final(arr)@.len() ==> r <= #[trigger] final(arr)@[i],
        final(arr)@.subrange(0, n as int).to_multiset() == old(arr)@.sort_by(
            leq_of(SortingOrder::Ascending),
        ).subrange(0, n as int).to_multiset(),
{
    let f = crate::sort::order::cmp_of(SortingOrder::Ascending);
    let r = quick_select_by(arr, n, f);
    proof {
        crate::sort::order::lemma_leq_of_total(SortingOrder::Ascending);
        assert(decides_strictly(f, leq_of(SortingOrder::Ascending)));
    }
    r
}

/// Finds the element of rank `n` under the ascending order with a randomized
/// pivot choice; the guarantees match those of `quick_select`.
pub fn quick_select_rand(arr: &mut Vec<i64>, n: usize) -> (r: i64)
    requires
        n < old(arr).len(),
    ensures
        final(arr)@.len() == old(arr)@.len(),
        final(arr)@.to_multiset() == old(arr)@.to_multiset(),
        r == final(arr)@[n as int],
        r == old(arr)@.sort_by(leq_of(SortingOrder::Ascending))[n as int],
        forall|i: int| 0 <= i < n ==> #[trigger] final(arr)@[i] <= r,
        forall|i: int| n < i < final(arr)@.len() ==> r <= #[trigger] final(arr)@[i],
        final(arr)@.subrange(0, n as int).to_multiset() == old(arr)@.sort_by(
            leq_of(SortingOrder::Ascending),
        ).subrange(0, n as int).to_multiset(),
{
    let f = crate::sort::order::cmp_of(SortingOrder::Ascending);
    let r = quick_select_rand_by(arr, n, f);
    proof {
        crate::sort::order::lemma_leq_of_total(SortingOrder::Ascending);
        assert(decides_strictly(f, leq_of(SortingOrder::Ascending)));
    }
    r
}


/// Selection only depends on the multiset of values: permuting the input
/// never changes what any rank yields, because both inputs share one sorted
/// copy.
pub proof fn lemma_rank_permutation_invariant(a: Seq<i64>, b: Seq<i64>)
    requires
        a.to_multiset() == b.to_multiset(),
    ensures
        a.sort_by(leq_of(SortingOrder::Ascending)) == b.sort_by(leq_of(SortingOrder::Ascending)),
{
    let leq = leq_of(SortingOrder::Ascending);
    crate::sort::order::lemma_leq_of_total(SortingOrder::Ascending);
    a.lemma_sort_by_ensures(leq);
    b.lemma_sort_by_ensures(leq);
    vstd::seq_lib::lemma_sorted_unique(a.sort_by(leq), b.sort_by(leq), leq);
    assert(a.sort_by(leq) =~= b.sort_by(leq));
}

/// A slice of one element yields that element for the only valid rank,
/// since its sorted copy is the slice itself.
pub proof fn lemma_sole_element_rank(s: Seq<i64>)
    requires
        s.len() == 1,
    ensures
        s.sort_by(leq_of(SortingOrder::Ascending))[0] == s[0],
{
    let leq = leq_of(SortingOrder::Ascending);
    crate::sort::order::lemma_leq_of_total(SortingOrder::Ascending);
    s.lemma_sort_by_ensures(leq);
    vstd::seq_lib::lemma_sorted_unique(s.sort_by(leq), s, leq);
    assert(s.sort_by(leq) =~= s);
}

} // verus!
