use vstd::prelude::*;
use crate::math::prefix_sum::span_total;

verus! {

/// Every consecutive sum of the slice stays within the machine range.
pub open spec fn sums_bounded(s: Seq<i64>) -> bool {
    forall|i: int, j: int|
        0 <= i <= j <= s.len() ==> i64::MIN <= #[trigger] span_total(s, i, j) <= i64::MAX
}

/// Calculates the maximum sum of consecutive elements with Kadane's
/// algorithm, and the bounds of a slice reaching it.
///
/// The result is reached by the returned range, no consecutive range sums
/// to more, and no range reaching it starts earlier. The empty sum counts,
/// so a slice without positive sums yields zero over the empty range.
pub fn max_consecutive_sum_idx(arr: &Vec<i64>) -> (r: (i64, usize, usize))
    requires
        sums_bounded(arr@),
    ensures
        r.1 <= r.2 <= arr@.len(),
        r.0 == span_total(arr@, r.1 as int, r.2 as int),
        forall|i: int, j: int| 0 <= i <= j <= arr@.len() ==> #[trigger] span_total(arr@, i, j) <= r.0,
        forall|i: int, j: int|
            0 <= i <= j <= arr@.len() && #[trigger] span_total(arr@, i, j) == r.0 ==> r.1 <= i,
        r.0 == 0 ==> r.1 == 0 && r.2 == 0,
{
    let mut curr: i64 = 0;
    let mut begin: usize = 0;
    let mut start_idx: usize = 0;
    let mut end_idx: usize = 0;
    let mut max_sum: i64 = 0;
    let mut idx: usize = 0;
    while idx < arr.len()
        invariant
            sums_bounded(arr@),
            idx <= arr@.len(),
            begin <= idx,
            start_idx <= end_idx <= idx,
            start_idx <= begin,
            max_sum == 0 ==> start_idx == 0 && end_idx == 0,
            curr == span_total(arr@, begin as int, idx as int),
            curr >= 0,
            forall|i: int| 0 <= i <= idx ==> #[trigger] span_total(arr@, i, idx as int) <= curr,
            forall|i: int| 0 <= i < begin ==> #[trigger] span_total(arr@, i, begin as int) < 0,
            max_sum == span_total(arr@, start_idx as int, end_idx as int),
            forall|i: int, j: int|
                0 <= i <= j <= idx ==> #[trigger] span_total(arr@, i, j) <= max_sum,
            forall|i: int, j: int|
                0 <= i <= j <= idx && #[trigger] span_total(arr@, i, j) == max_sum && max_sum > 0
                    ==> start_idx <= i,
        decreases arr@.len() - idx,
    {
        let a = arr[idx];
        proof {
            assert(span_total(arr@, begin as int, idx + 1) == curr + a);
        }
        let ghost begin0 = begin;
        let with_next = curr + a;
        if with_next < 0 {
            curr = 0;
            begin = idx + 1;
            proof {
                // every range ending here sums below zero, through the old
                // start or inside the old run alike
                assert forall|i: int| 0 <= i < begin implies #[trigger] span_total(
                    arr@,
                    i,
                    begin as int,
                ) < 0 by {
                    if i < begin0 {
                        assert(span_total(arr@, i, begin as int) == span_total(
                            arr@,
                            i,
                            begin0 as int,
                        ) + span_total(arr@, begin0 as int, idx + 1));
                    } else {
                        assert(span_total(arr@, i, idx + 1) == span_total(arr@, i, idx as int)
                            + a);
                    }
                }
            }
        } else {
            curr = with_next;
        }
        proof {
            assert forall|i: int| 0 <= i <= idx + 1 implies #[trigger] span_total(arr@, i, idx + 1)
                <= curr by {
                if i <= idx {
                    assert(span_total(arr@, i, idx + 1) == span_total(arr@, i, idx as int) + a);
                }
            }
            // a range ending here that starts before the current run loses
            // the run's full sum strictly
            assert forall|i: int|
                0 <= i < begin && begin <= idx + 1 implies #[trigger] span_total(arr@, i, idx + 1)
                < curr by {
                assert(span_total(arr@, i, idx + 1) == span_total(arr@, i, begin as int)
                    + span_total(arr@, begin as int, idx + 1));
            }
        }
        if curr > max_sum {
            max_sum = curr;
            start_idx = begin;
            end_idx = idx + 1;
        }
        proof {
            assert forall|i: int, j: int|
                0 <= i <= j <= idx + 1 && #[trigger] span_total(arr@, i, j) == max_sum && max_sum
                    > 0 implies start_idx <= i by {
                if j == idx + 1 && i < begin {
                    assert(span_total(arr@, i, j) < curr);
                }
            }
        }
        idx = idx + 1;
    }
    (max_sum, start_idx, end_idx)
}

/// Calculates the maximum sum of consecutive elements with Kadane's
/// algorithm.
///
/// Some consecutive range reaches the result and none sums to more; the
/// empty sum counts, so a slice without positive sums yields zero.
pub fn max_consecutive_sum(arr: &Vec<i64>) -> (r: i64)
    requires
        sums_bounded(arr@),
    ensures
        exists|i: int, j: int|
            0 <= i <= j <= arr@.len() && r == #[trigger] span_total(arr@, i, j),
        forall|i: int, j: int| 0 <= i <= j <= arr@.len() ==> #[trigger] span_total(arr@, i, j) <= r,
{
    let r = max_consecutive_sum_idx(arr);
    proof {
        assert(r.0 == span_total(arr@, r.1 as int, r.2 as int));
    }
    r.0
}

} // verus!
