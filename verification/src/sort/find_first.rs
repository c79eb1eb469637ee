use vstd::prelude::*;
use crate::sort::first_unordered::first_unordered;
use crate::sort::order::Order;
use crate::sort::order::ordered;
use crate::sort::order::pairwise_ordered;

verus! {

/// Finds the position of the first element that breaks a custom order
/// criterion against its predecessor.
///
/// Returns the first position whose pair the criterion rejected, or `None`
/// when it accepted every adjacent pair.
pub fn find_first_by<T, F: Fn(&T, &T) -> bool>(arr: &Vec<T>, is_ordered: F) -> (r: Option<usize>)
    requires
        forall|a: &T, b: &T| #[trigger] call_requires(is_ordered, (a, b)),
    ensures
        match r {
            Some(i) => 1 <= i < arr@.len() && call_ensures(
                is_ordered,
                (&arr@[i - 1], &arr@[i as int]),
                false,
            ) && forall|j: int| #![trigger arr@[j]]
                0 < j < i ==> call_ensures(is_ordered, (&arr@[j - 1], &arr@[j]), true),
            None => forall|j: int| #![trigger arr@[j]]
                0 < j < arr@.len() ==> call_ensures(
                    is_ordered,
                    (&arr@[j - 1], &arr@[j]),
                    true,
                ),
        },
{
    let mut i: usize = 1;
    while i < arr.len()
        invariant
            1 <= i,
            forall|a: &T, b: &T| #[trigger] call_requires(is_ordered, (a, b)),
            forall|j: int| #![trigger arr@[j]]
                0 < j < i ==> call_ensures(is_ordered, (&arr@[j - 1], &arr@[j]), true),
        decreases arr@.len() - i,
    {
        if !is_ordered(&arr[i - 1], &arr[i]) {
            return Some(i);
        }
        i = i + 1;
    }
    None
}

/// In a weakly ascending collection, finds the position of the first element
/// that strictly descends below its predecessor.
pub fn find_first_desc(arr: &Vec<i64>) -> (r: Option<usize>)
    ensures
        match r {
            Some(i) => 1 <= i < arr@.len() && !ordered(
                Order::NotDecreasing,
                arr@[i - 1],
                arr@[i as int],
            ) && forall|j: int| #![trigger arr@[j]]
                0 < j < i ==> ordered(Order::NotDecreasing, arr@[j - 1], arr@[j]),
            None => pairwise_ordered(Order::NotDecreasing, arr@),
        },
{
    first_unordered(arr, Order::NotDecreasing)
}

/// In a strictly ascending collection, finds the position of the first
/// element that fails to grow over its predecessor.
pub fn find_first_wdesc(arr: &Vec<i64>) -> (r: Option<usize>)
    ensures
        match r {
            Some(i) => 1 <= i < arr@.len() && !ordered(
                Order::Increasing,
                arr@[i - 1],
                arr@[i as int],
            ) && forall|j: int| #![trigger arr@[j]]
                0 < j < i ==> ordered(Order::Increasing, arr@[j - 1], arr@[j]),
            None => pairwise_ordered(Order::Increasing, arr@),
        },
{
    first_unordered(arr, Order::Increasing)
}

/// In a strictly descending collection, finds the position of the first
/// element that fails to fall below its predecessor.
pub fn find_first_wasc(arr: &Vec<i64>) -> (r: Option<usize>)
    ensures
        match r {
            Some(i) => 1 <= i < arr@.len() && !ordered(
                Order::Decreasing,
                arr@[i - 1],
                arr@[i as int],
            ) && forall|j: int| #![trigger arr@[j]]
                0 < j < i ==> ordered(Order::Decreasing, arr@[j - 1], arr@[j]),
            None => pairwise_ordered(Order::Decreasing, arr@),
        },
{
    first_unordered(arr, Order::Decreasing)
}

/// In a weakly descending collection, finds the position of the first
/// element that strictly ascends over its predecessor.
pub fn find_first_asc(arr: &Vec<i64>) -> (r: Option<usize>)
    ensures
        match r {
            Some(i) => 1 <= i < arr@.len() && !ordered(
                Order::NotIncreasing,
                arr@[i - 1],
                arr@[i as int],
            ) && forall|j: int| #![trigger arr@[j]]
                0 < j < i ==> ordered(Order::NotIncreasing, arr@[j - 1], arr@[j]),
            None => pairwise_ordered(Order::NotIncreasing, arr@),
        },
{
    first_unordered(arr, Order::NotIncreasing)
}

} // verus!
