use vstd::prelude::*;
use crate::search::quick_select::quick_select;
use crate::search::quick_select::quick_select_rand;
use crate::sort::order::SortingOrder;
use crate::sort::order::leq_of;
use crate::sort::order::lemma_leq_of_total;
use crate::utils::lemmas::lemma_multiset_elements;

verus! {

/// The fully sorted copy of a slice under the ascending order.
pub open spec fn asc_sorted(s: Seq<i64>) -> Seq<i64> {
    s.sort_by(leq_of(SortingOrder::Ascending))
}

/// The average of two values, rounded toward zero as machine division does.
pub open spec fn halved(a: int) -> int {
    if a >= 0 {
        a / 2
    } else {
        -((-a) / 2)
    }
}

/// Every element of the slice is small enough that two of them can be added
/// without overflow; only averaging over an even length ever adds two, so
/// only then is this asked.
pub open spec fn summable(s: Seq<i64>) -> bool {
    forall|i: int| 0 <= i < s.len() ==> i64::MIN / 2 <= #[trigger] s[i] <= i64::MAX / 2
}

/// Calculates the median using quickselect.
///
/// For an odd number of elements this is the middle element of the sorted
/// copy; for an even number it is the greater of the two middle elements.
/// The slice is partially reordered during the computation.
pub fn median(arr: &mut Vec<i64>) -> (r: i64)
    requires
        old(arr).len() > 0,
    ensures
        final(arr)@.len() == old(arr)@.len(),
        final(arr)@.to_multiset() == old(arr)@.to_multiset(),
        r == asc_sorted(old(arr)@)[old(arr)@.len() as int / 2],
{
    let mid = arr.len() / 2;
    quick_select(arr, mid)
}

/// Calculates the median using randomized quickselect; the guarantees match
/// those of `median`.
pub fn median_rand(arr: &mut Vec<i64>) -> (r: i64)
    requires
        old(arr).len() > 0,
    ensures
        final(arr)@.len() == old(arr)@.len(),
        final(arr)@.to_multiset() == old(arr)@.to_multiset(),
        r == asc_sorted(old(arr)@)[old(arr)@.len() as int / 2],
{
    let mid = arr.len() / 2;
    quick_select_rand(arr, mid)
}

/// The shared body of the averaging medians: selects the upper middle
/// element, and for even lengths averages it with the maximum of the lower
/// half, which quickselect has already gathered before the middle position.
fn median_avg_impl(arr: &mut Vec<i64>, randomized: bool) -> (r: i64)
    requires
        old(arr).len() > 0,
        old(arr)@.len() % 2 == 0 ==> summable(old(arr)@),
    ensures
        final(arr)@.len() == old(arr)@.len(),
        final(arr)@.to_multiset() == old(arr)@.to_multiset(),
        old(arr)@.len() % 2 == 1 ==> r == asc_sorted(old(arr)@)[old(arr)@.len() as int / 2],
        old(arr)@.len() % 2 == 0 ==> r == halved(
            asc_sorted(old(arr)@)[old(arr)@.len() as int / 2 - 1] + asc_sorted(old(arr)@)[old(
                arr,
            )@.len() as int / 2],
        ),
{
    let len = arr.len();
    let mid = len / 2;
    let mid_val = if randomized {
        quick_select_rand(arr, mid)
    } else {
        quick_select(arr, mid)
    };
    let ghost sorted = asc_sorted(old(arr)@);
    proof {
        lemma_leq_of_total(SortingOrder::Ascending);
        old(arr)@.lemma_sort_by_ensures(leq_of(SortingOrder::Ascending));
        lemma_multiset_elements(old(arr)@, sorted);
        vstd::seq_lib::to_multiset_len(old(arr)@);
        vstd::seq_lib::to_multiset_len(sorted);
        if old(arr)@.len() % 2 == 0 {
            assert forall|i: int| 0 <= i < sorted.len() implies i64::MIN / 2 <= #[trigger] sorted[i]
                <= i64::MAX / 2 by {
                assert(old(arr)@.contains(sorted[i]));
            }
        }
    }
    if len % 2 == 1 {
        mid_val
    } else {
        // after quickselect the lower half sits before position `mid`;
        // its maximum is the other middle element of the sorted copy
        let mut max_val = arr[0];
        let mut i: usize = 1;
        while i < mid
            invariant
                1 <= i <= mid < arr@.len(),
                exists|k: int| 0 <= k < i && arr@[k] == max_val,
                forall|k: int| 0 <= k < i ==> #[trigger] arr@[k] <= max_val,
            decreases mid - i,
        {
            if arr[i] > max_val {
                max_val = arr[i];
            }
            i = i + 1;
        }
        proof {
            let prefix = arr@.subrange(0, mid as int);
            let sprefix = sorted.subrange(0, mid as int);
            assert(prefix.to_multiset() == sprefix.to_multiset());
            lemma_multiset_elements(sprefix, prefix);
            lemma_multiset_elements(prefix, sprefix);
            assert(mid >= 1);
            // the loop's maximum is a value of the prefix, so it also stands
            // somewhere in the sorted prefix, below its last element
            let k = choose|k: int| 0 <= k < mid && arr@[k] == max_val;
            assert(prefix[k] == max_val);
            assert(sprefix.contains(max_val));
            let k1 = choose|k1: int| 0 <= k1 < sprefix.len() && sprefix[k1] == max_val;
            assert(sorted[k1] == max_val);
            assert(max_val <= sorted[mid - 1]) by {
                assert(vstd::relations::sorted_by(sorted, leq_of(SortingOrder::Ascending)));
                if k1 < mid - 1 {
                    assert(leq_of(SortingOrder::Ascending)(sorted[k1], sorted[mid - 1]));
                }
            }
            // and the sorted prefix's last element stands in the loop's prefix
            assert(sprefix[mid - 1] == sorted[mid - 1]);
            assert(prefix.contains(sorted[mid - 1]));
            let k2 = choose|k2: int| 0 <= k2 < prefix.len() && prefix[k2] == sorted[mid - 1];
            assert(arr@[k2] == sorted[mid - 1]);
            assert(sorted[mid - 1] <= max_val);
            assert(max_val == sorted[mid - 1]);
        }
        proof {
            assert(mid_val == sorted[mid as int]);
            assert(i64::MIN / 2 <= sorted[mid as int] <= i64::MAX / 2);
            assert(i64::MIN / 2 <= sorted[mid - 1] <= i64::MAX / 2);
        }
        let sum = mid_val + max_val;
        sum / 2
    }
}

/// Calculates the median using quickselect, averaging the two middle
/// elements of an even-length slice with machine integer division.
///
/// Every element must stay within half the machine range so that the two
/// middle elements can be added without overflow.
pub fn median_avg(arr: &mut Vec<i64>) -> (r: i64)
    requires
        old(arr).len() > 0,
        old(arr)@.len() % 2 == 0 ==> summable(old(arr)@),
    ensures
        final(arr)@.len() == old(arr)@.len(),
        final(arr)@.to_multiset() == old(arr)@.to_multiset(),
        old(arr)@.len() % 2 == 1 ==> r == asc_sorted(old(arr)@)[old(arr)@.len() as int / 2],
        old(arr)@.len() % 2 == 0 ==> r == halved(
            asc_sorted(old(arr)@)[old(arr)@.len() as int / 2 - 1] + asc_sorted(old(arr)@)[old(
                arr,
            )@.len() as int / 2],
        ),
{
    median_avg_impl(arr, false)
}

/// Calculates the median with averaging using randomized quickselect; the
/// guarantees match those of `median_avg`.
pub fn median_avg_rand(arr: &mut Vec<i64>) -> (r: i64)
    requires
        old(arr).len() > 0,
        old(arr)@.len() % 2 == 0 ==> summable(old(arr)@),
    ensures
        final(arr)@.len() == old(arr)@.len(),
        final(arr)@.to_multiset() == old(arr)@.to_multiset(),
        old(arr)@.len() % 2 == 1 ==> r == asc_sorted(old(arr)@)[old(arr)@.len() as int / 2],
        old(arr)@.len() % 2 == 0 ==> r == halved(
            asc_sorted(old(arr)@)[old(arr)@.len() as int / 2 - 1] + asc_sorted(old(arr)@)[old(
                arr,
            )@.len() as int / 2],
        ),
{
    median_avg_impl(arr, true)
}

} // verus!
