use vstd::prelude::*;
use vstd::pervasive::VecAdditionalExecFns;
use crate::utils::lemmas::lemma_swap_in_range;
use crate::utils::random::random_below;

verus! {

/// A comparator that may be asked about any pair of values.
pub open spec fn comparable_everywhere<T, F: Fn(&T, &T) -> bool>(f: F) -> bool {
    forall|a: &T, b: &T| #[trigger] call_requires(f, (a, b))
}

/// Exchanges the values at two positions of the vector.
pub(crate) fn swap_positions<T: Copy>(arr: &mut Vec<T>, i: usize, j: usize)
    requires
        i < old(arr).len(),
        j < old(arr).len(),
    ensures
        final(arr)@ == old(arr)@.update(i as int, old(arr)@[j as int]).update(
            j as int,
            old(arr)@[i as int],
        ),
{
    let a = arr[i];
    let b = arr[j];
    arr.set(i, b);
    arr.set(j, a);
}

/// Partitions `arr[lo..hi]` around its last element: everything the
/// comparator puts before the pivot ends up left of the returned position,
/// the pivot itself lands on it, and the rest ends up right of it. Positions
/// outside `[lo, hi)` are left untouched, and the range keeps its multiset.
pub(crate) fn partition_range<T: Copy, F: Fn(&T, &T) -> bool + Copy>(
    arr: &mut Vec<T>,
    lo: usize,
    hi: usize,
    is_ordered: F,
) -> (store: usize)
    requires
        lo < hi <= old(arr).len(),
        comparable_everywhere(is_ordered),
    ensures
        final(arr)@.len() == old(arr)@.len(),
        lo <= store < hi,
        final(arr)@.subrange(0, lo as int) == old(arr)@.subrange(0, lo as int),
        final(arr)@.subrange(hi as int, final(arr)@.len() as int) == old(arr)@.subrange(
            hi as int,
            old(arr)@.len() as int,
        ),
        final(arr)@.subrange(lo as int, hi as int).to_multiset() == old(arr)@.subrange(
            lo as int,
            hi as int,
        ).to_multiset(),
        final(arr)@[store as int] == old(arr)@[hi - 1],
        forall|k: int|
            lo <= k < store ==> call_ensures(is_ordered, (&final(arr)@[k], &final(arr)@[store as int]), true),
        forall|k: int|
            store < k < hi ==> call_ensures(is_ordered, (&final(arr)@[k], &final(arr)@[store as int]), false),
{
    let ghost orig = arr@;
    let last = hi - 1;
    let mut store: usize = lo;
    let mut i: usize = lo;
    while i < last
        invariant
            lo <= store <= i <= last,
            last == hi - 1,
            lo < hi <= arr@.len(),
            arr@.len() == orig.len(),
            comparable_everywhere(is_ordered),
            arr@.subrange(0, lo as int) == orig.subrange(0, lo as int),
            arr@.subrange(hi as int, arr@.len() as int) == orig.subrange(
                hi as int,
                orig.len() as int,
            ),
            arr@.subrange(lo as int, hi as int).to_multiset() == orig.subrange(
                lo as int,
                hi as int,
            ).to_multiset(),
            arr@[last as int] == orig[hi - 1],
            forall|k: int|
                lo <= k < store ==> call_ensures(is_ordered, (&arr@[k], &arr@[last as int]), true),
            forall|k: int|
                store <= k < i ==> call_ensures(is_ordered, (&arr@[k], &arr@[last as int]), false),
        decreases last - i,
    {
        let a = arr[i];
        let p = arr[last];
        let ghost before = arr@;
        if is_ordered(&a, &p) {
            swap_positions(arr, store, i);
            proof {
                lemma_swap_in_range(before, lo as int, hi as int, store as int, i as int);
            }
            store = store + 1;
        }
        i = i + 1;
    }
    let ghost before = arr@;
    swap_positions(arr, store, last);
    proof {
        lemma_swap_in_range(before, lo as int, hi as int, store as int, last as int);
    }
    store
}

/// Partitions `arr[lo..hi]` around a pivot drawn uniformly from the range.
/// The guarantees match `partition_range`, except that the pivot value is
/// no longer pinned to the last element of the range.
pub(crate) fn partition_rand_range<T: Copy, F: Fn(&T, &T) -> bool + Copy>(
    arr: &mut Vec<T>,
    lo: usize,
    hi: usize,
    is_ordered: F,
) -> (store: usize)
    requires
        lo < hi <= old(arr).len(),
        comparable_everywhere(is_ordered),
    ensures
        final(arr)@.len() == old(arr)@.len(),
        lo <= store < hi,
        final(arr)@.subrange(0, lo as int) == old(arr)@.subrange(0, lo as int),
        final(arr)@.subrange(hi as int, final(arr)@.len() as int) == old(arr)@.subrange(
            hi as int,
            old(arr)@.len() as int,
        ),
        final(arr)@.subrange(lo as int, hi as int).to_multiset() == old(arr)@.subrange(
            lo as int,
            hi as int,
        ).to_multiset(),
        forall|k: int|
            lo <= k < store ==> call_ensures(
                is_ordered,
                (&final(arr)@[k], &final(arr)@[store as int]),
                true,
            ),
        forall|k: int|
            store < k < hi ==> call_ensures(
                is_ordered,
                (&final(arr)@[k], &final(arr)@[store as int]),
                false,
            ),
{
    let ghost orig = arr@;
    let pivot_idx = lo + random_below(hi - lo);
    swap_positions(arr, pivot_idx, hi - 1);
    proof {
        lemma_swap_in_range(orig, lo as int, hi as int, pivot_idx as int, hi - 1);
    }
    partition_range(arr, lo, hi, is_ordered)
}

/// Partitions a slice around its last element using a custom comparator.
///
/// Returns the final resting position of the pivot: each element that the
/// comparator orders before the pivot ends up before that position, the rest
/// after it, and the whole slice keeps its multiset of values.
pub fn partition<T: Copy, F: Fn(&T, &T) -> bool + Copy>(arr: &mut Vec<T>, is_ordered: F) -> (store:
    usize)
    requires
        old(arr).len() > 0,
        comparable_everywhere(is_ordered),
    ensures
        final(arr)@.len() == old(arr)@.len(),
        store < final(arr)@.len(),
        final(arr)@.to_multiset() == old(arr)@.to_multiset(),
        final(arr)@[store as int] == old(arr)@[old(arr)@.len() - 1],
        forall|k: int|
            0 <= k < store ==> call_ensures(is_ordered, (&final(arr)@[k], &final(arr)@[store as int]), true),
        forall|k: int|
            store < k < final(arr)@.len() ==> call_ensures(
                is_ordered,
                (&final(arr)@[k], &final(arr)@[store as int]),
                false,
            ),
{
    let len = arr.len();
    let store = partition_range(arr, 0, len, is_ordered);
    proof {
        assert(arr@.subrange(0, len as int) =~= arr@);
        assert(old(arr)@.subrange(0, len as int) =~= old(arr)@);
    }
    store
}

/// Partitions a slice around a uniformly drawn pivot element.
///
/// The pivot is swapped into the last position first, so the guarantees
/// match those of `partition`, except that which old position supplied the
/// pivot value depends on the draw and so is only known to exist.
pub fn partition_rand<T: Copy, F: Fn(&T, &T) -> bool + Copy>(
    arr: &mut Vec<T>,
    is_ordered: F,
) -> (store: usize)
    requires
        old(arr).len() > 0,
        comparable_everywhere(is_ordered),
    ensures
        final(arr)@.len() == old(arr)@.len(),
        store < final(arr)@.len(),
        final(arr)@.to_multiset() == old(arr)@.to_multiset(),
        exists|rnd: int|
            0 <= rnd < old(arr)@.len() && final(arr)@[store as int] == #[trigger] old(arr)@[rnd],
        forall|k: int|
            0 <= k < store ==> call_ensures(is_ordered, (&final(arr)@[k], &final(arr)@[store as int]), true),
        forall|k: int|
            store < k < final(arr)@.len() ==> call_ensures(
                is_ordered,
                (&final(arr)@[k], &final(arr)@[store as int]),
                false,
            ),
{
    let len = arr.len();
    let pivot_idx = random_below(len);
    let ghost orig = arr@;
    swap_positions(arr, pivot_idx, len - 1);
    proof {
        lemma_swap_in_range(orig, 0, len as int, pivot_idx as int, len - 1);
        assert(arr@.subrange(0, len as int) =~= arr@);
        assert(orig.subrange(0, len as int) =~= orig);
    }
    let ghost mid = arr@;
    let store = partition_range(arr, 0, len, is_ordered);
    proof {
        assert(arr@.subrange(0, len as int) =~= arr@);
        assert(mid.subrange(0, len as int) =~= mid);
        assert(arr@[store as int] == orig[pivot_idx as int]);
    }
    store
}

} // verus!
