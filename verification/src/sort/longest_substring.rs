use vstd::prelude::*;
use crate::sort::longest_subsequence::decides_pairs;
use crate::sort::order::Order;
use crate::sort::order::ordered;
use crate::sort::order::ordered_exec;

verus! {

/// The positions `[i, j)` hold a run: every element after the first follows
/// its predecessor under `order`.
pub open spec fn run_ok(order: Order, s: Seq<i64>, i: int, j: int) -> bool {
    &&& 0 <= i <= j <= s.len()
    &&& forall|t: int| i < t < j ==> ordered(order, s[t - 1], #[trigger] s[t])
}

/// The positions `[i, j)` hold a run under `pred`: every element after the
/// first follows its predecessor.
pub open spec fn pred_run<T>(pred: spec_fn(T, T) -> bool, s: Seq<T>, i: int, j: int) -> bool {
    &&& 0 <= i <= j <= s.len()
    &&& forall|t: int| i < t < j ==> pred(s[t - 1], #[trigger] s[t])
}

/// Every adjacent pair inside `[i, j)` was accepted by the comparator.
pub open spec fn accepted_run<T, F: Fn(&T, &T) -> bool>(f: F, s: Seq<T>, i: int, j: int) -> bool {
    &&& 0 <= i <= j <= s.len()
    &&& forall|t: int| i < t < j ==> #[trigger] call_ensures(f, (&s[t - 1], &s[t]), true)
}

/// A run grows by one position when the comparator accepts the next pair.
proof fn lemma_run_extend<T, F: Fn(&T, &T) -> bool>(f: F, s: Seq<T>, i: int, j: int)
    requires
        accepted_run(f, s, i, j),
        i <= j < s.len(),
        j >= 1 ==> call_ensures(f, (&s[j - 1], &s[j]), true),
    ensures
        accepted_run(f, s, i, j + 1),
{
}

/// Finds the place of the longest substring a custom comparator accepts.
///
/// Every adjacent pair inside the returned range was accepted by the
/// comparator, and the pairs just before and just after the range, where
/// they exist, were rejected. Whenever the comparator decides a fixed
/// relation, the range holds the relation's longest run: no run anywhere in
/// the slice is longer, and no equally long run starts earlier. An empty
/// slice yields the empty range.
#[verifier::rlimit(100)]
pub fn longest_ordered_substring_idx_by<T, F: Fn(&T, &T) -> bool>(arr: &Vec<T>, is_ordered: F) -> (r:
    (usize, usize))
    requires
        forall|a: &T, b: &T| #[trigger] call_requires(is_ordered, (a, b)),
    ensures
        arr@.len() == 0 ==> r == (0usize, 0usize),
        arr@.len() > 0 ==> r.0 < r.1 <= arr@.len(),
        accepted_run(is_ordered, arr@, r.0 as int, r.1 as int),
        r.0 > 0 ==> call_ensures(is_ordered, (&arr@[r.0 - 1], &arr@[r.0 as int]), false),
        r.1 < arr@.len() ==> call_ensures(is_ordered, (&arr@[r.1 - 1], &arr@[r.1 as int]), false),
        forall|pred: spec_fn(T, T) -> bool|
            #![trigger decides_pairs(is_ordered, pred)]
            decides_pairs(is_ordered, pred) ==> {
                &&& pred_run(pred, arr@, r.0 as int, r.1 as int)
                &&& (forall|i: int, j: int|
                    #[trigger] pred_run(pred, arr@, i, j) ==> j - i <= r.1 - r.0)
                &&& (forall|i: int, j: int|
                    #[trigger] pred_run(pred, arr@, i, j) && j - i == r.1 - r.0 && arr@.len() > 0
                        ==> r.0 <= i)
            },
{
    if arr.len() == 0 {
        return (0, 0);
    }
    let mut max_len: usize = 1;
    let mut max_idx: usize = 0;
    let mut curr_len: usize = 1;
    let mut idx: usize = 1;
    while idx < arr.len()
        invariant
            1 <= idx <= arr@.len(),
            1 <= curr_len <= idx,
            1 <= max_len,
            max_idx + max_len <= idx,
            max_idx <= idx - curr_len,
            forall|a: &T, b: &T| #[trigger] call_requires(is_ordered, (a, b)),
            accepted_run(is_ordered, arr@, idx - curr_len, idx as int),
            idx - curr_len > 0 ==> call_ensures(
                is_ordered,
                (&arr@[idx - curr_len - 1], &arr@[idx - curr_len]),
                false,
            ),
            accepted_run(is_ordered, arr@, max_idx as int, max_idx + max_len),
            max_idx > 0 ==> call_ensures(
                is_ordered,
                (&arr@[max_idx - 1], &arr@[max_idx as int]),
                false,
            ),
            max_idx + max_len < idx ==> curr_len == idx || call_ensures(
                is_ordered,
                (&arr@[max_idx + max_len - 1], &arr@[max_idx + max_len]),
                false,
            ),
            curr_len == idx ==> max_idx == 0 && max_len <= curr_len,
            max_idx + max_len == idx ==> curr_len == idx,
            forall|pred: spec_fn(T, T) -> bool|
                #![trigger decides_pairs(is_ordered, pred)]
                decides_pairs(is_ordered, pred) ==> {
                    &&& pred_run(pred, arr@, max_idx as int, max_idx + max_len)
                    &&& pred_run(pred, arr@, idx - curr_len, idx as int)
                    &&& (idx - curr_len > 0 ==> !pred(
                        arr@[idx - curr_len - 1],
                        arr@[idx - curr_len],
                    ))
                    &&& (forall|i: int, j: int|
                        #[trigger] pred_run(pred, arr@, i, j) && j <= idx ==> j - i <= max_len || i
                            >= idx - curr_len)
                    &&& (forall|i: int, j: int|
                        #[trigger] pred_run(pred, arr@, i, j) && j <= idx && j - i == max_len
                            ==> max_idx <= i)
                },
        decreases arr@.len() - idx,
    {
        let accepted = is_ordered(&arr[idx - 1], &arr[idx]);
        if accepted {
            proof {
                lemma_run_extend(is_ordered, arr@, idx - curr_len, idx as int);
                assert forall|pred: spec_fn(T, T) -> bool|
                    #![trigger decides_pairs(is_ordered, pred)]
                    decides_pairs(is_ordered, pred) implies {
                    &&& pred_run(pred, arr@, idx - curr_len, idx + 1)
                    &&& (forall|i: int, j: int|
                        #[trigger] pred_run(pred, arr@, i, j) && j <= idx + 1 ==> j - i <= max_len
                            || i >= idx + 1 - (curr_len + 1))
                    &&& (forall|i: int, j: int|
                        #[trigger] pred_run(pred, arr@, i, j) && j <= idx + 1 && j - i == max_len
                            ==> max_idx <= i)
                } by {
                    assert(pred(arr@[idx - 1], arr@[idx as int]));
                    assert forall|i: int, j: int|
                        #[trigger] pred_run(pred, arr@, i, j) && j <= idx + 1 implies j - i
                        <= max_len || i >= idx + 1 - (curr_len + 1) by {
                        if j == idx + 1 && i < idx - curr_len {
                            assert(pred(arr@[idx - curr_len - 1], arr@[idx - curr_len]));
                        }
                    }
                    assert forall|i: int, j: int|
                        #[trigger] pred_run(pred, arr@, i, j) && j <= idx + 1 && j - i
                            == max_len implies max_idx <= i by {
                        if j == idx + 1 {
                            assert(i >= idx + 1 - (curr_len + 1));
                        }
                    }
                }
            }
            curr_len = curr_len + 1;
        } else {
            proof {
                // no run can reach across the pair that was just rejected
                assert forall|pred: spec_fn(T, T) -> bool|
                    #![trigger decides_pairs(is_ordered, pred)]
                    decides_pairs(is_ordered, pred) implies forall|i: int, j: int|
                    #[trigger] pred_run(pred, arr@, i, j) && j <= idx + 1 ==> j <= idx || i
                        >= idx by {
                    assert(!pred(arr@[idx - 1], arr@[idx as int]));
                    assert forall|i: int, j: int|
                        #[trigger] pred_run(pred, arr@, i, j) && j <= idx + 1 implies j <= idx || i
                        >= idx by {
                        if j == idx + 1 && i < idx {
                            assert(pred(arr@[idx - 1], arr@[idx as int]));
                        }
                    }
                }
            }
            if curr_len > max_len {
                max_len = curr_len;
                max_idx = idx - curr_len;
            }
            curr_len = 1;
        }
        idx = idx + 1;
    }
    if curr_len > max_len {
        max_len = curr_len;
        max_idx = idx - curr_len;
    }
    (max_idx, max_idx + max_len)
}

/// Finds the place of the longest ordered substring: the bounds of the
/// longest contiguous run of elements ordered by `order`.
///
/// The returned half-open range holds a run, no run anywhere in the slice is
/// longer, and no equally long run starts earlier. An empty slice yields the
/// empty range.
pub fn longest_ordered_substring_idx(arr: &Vec<i64>, order: Order) -> (r: (usize, usize))
    ensures
        arr@.len() == 0 ==> r == (0usize, 0usize),
        arr@.len() > 0 ==> r.0 < r.1 <= arr@.len(),
        run_ok(order, arr@, r.0 as int, r.1 as int),
        forall|i: int, j: int| #[trigger] run_ok(order, arr@, i, j) ==> j - i <= r.1 - r.0,
        forall|i: int, j: int|
            #[trigger] run_ok(order, arr@, i, j) && j - i == r.1 - r.0 && arr@.len() > 0 ==> r.0
                <= i,
{
    let f = move |a: &i64, b: &i64| -> (res: bool)
        ensures
            res == ordered(order, *a, *b),
        { ordered_exec(order, *a, *b) };
    proof {
        assert forall|a: &i64, b: &i64| #[trigger] call_requires(f, (a, b)) by {}
    }
    let r = longest_ordered_substring_idx_by(arr, f);
    proof {
        let pred = (|a: i64, b: i64| ordered(order, a, b));
        assert(decides_pairs(f, pred));
        assert forall|i: int, j: int| #[trigger] run_ok(order, arr@, i, j) implies pred_run(
            pred,
            arr@,
            i,
            j,
        ) by {}
        assert forall|i: int, j: int| #[trigger] pred_run(pred, arr@, i, j) implies run_ok(
            order,
            arr@,
            i,
            j,
        ) by {}
        assert(pred_run(pred, arr@, r.0 as int, r.1 as int));
    }
    r
}

/// Finds the longest ordered substring itself, as a vector of its values.
///
/// The result is a contiguous run of the slice ordered by `order`, no run in
/// the slice is longer, and no equally long run starts earlier than the one
/// returned. An empty slice yields an empty result.
pub fn longest_ordered_substring(arr: &Vec<i64>, order: Order) -> (r: Vec<i64>)
    ensures
        arr@.len() == 0 ==> r@.len() == 0,
        arr@.len() > 0 ==> 1 <= r@.len() <= arr@.len(),
        exists|i: int|
            0 <= i && i + r@.len() <= arr@.len() && r@ == #[trigger] arr@.subrange(
                i,
                i + r@.len() as int,
            ) && run_ok(order, arr@, i, i + r@.len() as int) && (forall|i2: int, j2: int|
                #[trigger] run_ok(order, arr@, i2, j2) && j2 - i2 == r@.len() ==> i <= i2),
        forall|i: int, j: int| #[trigger] run_ok(order, arr@, i, j) ==> j - i <= r@.len(),
{
    let bounds = longest_ordered_substring_idx(arr, order);
    let start = bounds.0;
    let end = bounds.1;
    let mut r: Vec<i64> = Vec::new();
    let mut k = start;
    while k < end
        invariant
            start <= k <= end <= arr@.len(),
            r@ == arr@.subrange(start as int, k as int),
        decreases end - k,
    {
        r.push(arr[k]);
        proof {
            assert(r@ =~= arr@.subrange(start as int, k + 1));
        }
        k = k + 1;
    }
    proof {
        assert(r@ == arr@.subrange(start as int, end as int));
        assert(r@.len() == end - start);
        assert(r@ == arr@.subrange(start as int, start as int + r@.len() as int));
        assert(run_ok(order, arr@, start as int, start as int + r@.len() as int));
        assert forall|i2: int, j2: int|
            #[trigger] run_ok(order, arr@, i2, j2) && j2 - i2 == r@.len() implies start as int
            <= i2 by {
            if arr@.len() == 0 {
                assert(j2 - i2 == 0 && i2 >= 0);
            }
        }
    }
    r
}

/// Finds the longest substring a custom comparator accepts, as a vector of
/// its values; the guarantees mirror `longest_ordered_substring_idx_by`.
pub fn longest_ordered_substring_by<T: Copy, F: Fn(&T, &T) -> bool>(
    arr: &Vec<T>,
    is_ordered: F,
) -> (r: Vec<T>)
    requires
        forall|a: &T, b: &T| #[trigger] call_requires(is_ordered, (a, b)),
    ensures
        arr@.len() == 0 ==> r@.len() == 0,
        arr@.len() > 0 ==> 1 <= r@.len() <= arr@.len(),
        exists|i: int|
            0 <= i && i + r@.len() <= arr@.len() && r@ == #[trigger] arr@.subrange(
                i,
                i + r@.len() as int,
            ) && accepted_run(is_ordered, arr@, i, i + r@.len() as int),
        forall|pred: spec_fn(T, T) -> bool|
            #![trigger decides_pairs(is_ordered, pred)]
            decides_pairs(is_ordered, pred) ==> {
                &&& (forall|i: int, j: int|
                    #[trigger] pred_run(pred, arr@, i, j) ==> j - i <= r@.len())
                &&& exists|i: int|
                    0 <= i && i + r@.len() <= arr@.len() && r@ == #[trigger] arr@.subrange(
                        i,
                        i + r@.len() as int,
                    ) && pred_run(pred, arr@, i, i + r@.len() as int) && (forall|i2: int, j2: int|
                        #[trigger] pred_run(pred, arr@, i2, j2) && j2 - i2 == r@.len() ==> i <= i2)
            },
{
    let bounds = longest_ordered_substring_idx_by(arr, is_ordered);
    let start = bounds.0;
    let end = bounds.1;
    let mut r: Vec<T> = Vec::new();
    let mut k = start;
    while k < end
        invariant
            start <= k <= end <= arr@.len(),
            r@ == arr@.subrange(start as int, k as int),
        decreases end - k,
    {
        r.push(arr[k]);
        proof {
            assert(r@ =~= arr@.subrange(start as int, k + 1));
        }
        k = k + 1;
    }
    proof {
        assert(r@ == arr@.subrange(start as int, end as int));
        assert(r@.len() == end - start);
        assert(r@ == arr@.subrange(start as int, start as int + r@.len() as int));
        assert forall|pred: spec_fn(T, T) -> bool|
            #![trigger decides_pairs(is_ordered, pred)]
            decides_pairs(is_ordered, pred) implies {
            &&& (forall|i: int, j: int| #[trigger] pred_run(pred, arr@, i, j) ==> j - i <= r@.len())
            &&& exists|i: int|
                0 <= i && i + r@.len() <= arr@.len() && r@ == #[trigger] arr@.subrange(
                    i,
                    i + r@.len() as int,
                ) && pred_run(pred, arr@, i, i + r@.len() as int) && (forall|i2: int, j2: int|
                    #[trigger] pred_run(pred, arr@, i2, j2) && j2 - i2 == r@.len() ==> i <= i2)
        } by {
            assert(pred_run(pred, arr@, start as int, start as int + r@.len() as int));
            assert forall|i2: int, j2: int|
                #[trigger] pred_run(pred, arr@, i2, j2) && j2 - i2 == r@.len() implies start as int
                <= i2 by {
                if arr@.len() == 0 {
                    assert(j2 - i2 == 0 && i2 >= 0);
                }
            }
        }
    }
    r
}

} // verus!
