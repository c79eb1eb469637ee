use vstd::prelude::*;
use crate::sort::order::Order;
use crate::sort::order::ordered;
use crate::sort::order::ordered_exec;
use crate::sort::order::pairwise_ordered;

verus! {

/// Finds the position of the first element that is not ordered.
///
/// Returns the first position whose element does not follow its predecessor
/// under `order`, or `None` exactly when every adjacent pair is ordered.
pub fn first_unordered(arr: &Vec<i64>, order: Order) -> (r: Option<usize>)
    ensures
        match r {
            Some(i) => 1 <= i < arr@.len() && !ordered(order, arr@[i - 1], arr@[i as int])
                && forall|j: int| 0 < j < i ==> ordered(order, arr@[j - 1], #[trigger] arr@[j]),
            None => pairwise_ordered(order, arr@),
        },
{
    let mut i: usize = 1;
    while i < arr.len()
        invariant
            1 <= i,
            forall|j: int| 0 < j < i ==> ordered(order, arr@[j - 1], #[trigger] arr@[j]),
        decreases arr@.len() - i,
    {
        if !ordered_exec(order, arr[i - 1], arr[i]) {
            return Some(i);
        }
        i = i + 1;
    }
    None
}

/// Finds the position of the first element that is not ordered according to
/// a custom criterion that flags offending pairs.
///
/// Returns the first position whose element the criterion flags against its
/// predecessor, or `None` when no adjacent pair is flagged.
pub fn first_unordered_by<T: Copy, F: Fn(T, T) -> bool>(arr: &Vec<T>, is_unordered: F) -> (r:
    Option<usize>)
    requires
        forall|a: T, b: T| #[trigger] call_requires(is_unordered, (a, b)),
    ensures
        match r {
            Some(i) => 1 <= i < arr@.len() && call_ensures(
                is_unordered,
                (arr@[i - 1], arr@[i as int]),
                true,
            ) && forall|j: int|
                0 < j < i ==> call_ensures(is_unordered, (arr@[j - 1], #[trigger] arr@[j]), false),
            None => forall|j: int|
                0 < j < arr@.len() ==> call_ensures(
                    is_unordered,
                    (arr@[j - 1], #[trigger] arr@[j]),
                    false,
                ),
        },
{
    let mut i: usize = 1;
    while i < arr.len()
        invariant
            1 <= i,
            forall|a: T, b: T| #[trigger] call_requires(is_unordered, (a, b)),
            forall|j: int|
                0 < j < i ==> call_ensures(is_unordered, (arr@[j - 1], #[trigger] arr@[j]), false),
        decreases arr@.len() - i,
    {
        if is_unordered(arr[i - 1], arr[i]) {
            return Some(i);
        }
        i = i + 1;
    }
    None
}

} // verus!
