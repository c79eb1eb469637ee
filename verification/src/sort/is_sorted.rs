use vstd::prelude::*;
use crate::sort::is_ordered::is_ordered;
use crate::sort::order::Order;
use crate::sort::order::pairwise_ordered;

verus! {

/// Checks whether the collection is sorted according to a custom comparator
/// over references; true exactly when the comparator accepted every adjacent
/// pair, false when it rejected one.
pub fn is_sorted_by<T, F: Fn(&T, &T) -> bool>(arr: &Vec<T>, is_ordered: F) -> (r: bool)
    requires
        forall|a: &T, b: &T| #[trigger] call_requires(is_ordered, (a, b)),
    ensures
        r ==> forall|j: int| #![trigger arr@[j]]
            0 < j < arr@.len() ==> call_ensures(
                is_ordered,
                (&arr@[j - 1], &arr@[j]),
                true,
            ),
        !r ==> exists|j: int| #![trigger arr@[j]]
            0 < j < arr@.len() && call_ensures(
                is_ordered,
                (&arr@[j - 1], &arr@[j]),
                false,
            ),
{
    let mut i: usize = 1;
    while i < arr.len()
        invariant
            1 <= i,
            forall|a: &T, b: &T| #[trigger] call_requires(is_ordered, (a, b)),
            forall|j: int| #![trigger arr@[j]]
                0 < j < i ==> call_ensures(is_ordered, (&arr@[j - 1], &arr@[j]), true),
        decreases arr@.len() - i,
    {
        if !is_ordered(&arr[i - 1], &arr[i]) {
            return false;
        }
        i = i + 1;
    }
    true
}

/// Checks whether the collection is sorted in strictly ascending order.
pub fn is_sorted_asc(arr: &Vec<i64>) -> (r: bool)
    ensures
        r == pairwise_ordered(Order::Increasing, arr@),
{
    is_ordered(arr, Order::Increasing)
}

/// Checks whether the collection is sorted in strictly descending order.
pub fn is_sorted_desc(arr: &Vec<i64>) -> (r: bool)
    ensures
        r == pairwise_ordered(Order::Decreasing, arr@),
{
    is_ordered(arr, Order::Decreasing)
}

/// Checks whether the collection is sorted in weakly descending order, where
/// subsequent elements may be equal.
pub fn is_sorted_desc_weak(arr: &Vec<i64>) -> (r: bool)
    ensures
        r == pairwise_ordered(Order::NotIncreasing, arr@),
{
    is_ordered(arr, Order::NotIncreasing)
}

/// Checks whether the collection is sorted in weakly ascending order, where
/// subsequent elements may be equal.
pub fn is_sorted_asc_weak(arr: &Vec<i64>) -> (r: bool)
    ensures
        r == pairwise_ordered(Order::NotDecreasing, arr@),
{
    is_ordered(arr, Order::NotDecreasing)
}

} // verus!
