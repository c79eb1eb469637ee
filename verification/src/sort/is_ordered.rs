use vstd::prelude::*;
use crate::sort::first_unordered::first_unordered;
use crate::sort::order::Order;
use crate::sort::order::pairwise_ordered;

verus! {

/// Checks whether the collection is sorted in the given order: true exactly
/// when every adjacent pair is ordered by it.
pub fn is_ordered(arr: &Vec<i64>, order: Order) -> (r: bool)
    ensures
        r == pairwise_ordered(order, arr@),
{
    match first_unordered(arr, order) {
        Option::None => true,
        Option::Some(_) => false,
    }
}

/// Checks whether the collection is sorted according to a custom comparator
/// that accepts ordered pairs.
///
/// True means the comparator accepted every adjacent pair; false means it
/// rejected some adjacent pair.
pub fn is_ordered_by<T: Copy, F: Fn(T, T) -> bool>(arr: &Vec<T>, is_ordered: F) -> (r: bool)
    requires
        forall|a: T, b: T| #[trigger] call_requires(is_ordered, (a, b)),
    ensures
        r ==> forall|j: int|
            0 < j < arr@.len() ==> call_ensures(is_ordered, (arr@[j - 1], #[trigger] arr@[j]), true),
        !r ==> exists|j: int|
            0 < j < arr@.len() && call_ensures(
                is_ordered,
                (arr@[j - 1], #[trigger] arr@[j]),
                false,
            ),
{
    let mut i: usize = 1;
    while i < arr.len()
        invariant
            1 <= i,
            forall|a: T, b: T| #[trigger] call_requires(is_ordered, (a, b)),
            forall|j: int|
                0 < j < i ==> call_ensures(is_ordered, (arr@[j - 1], #[trigger] arr@[j]), true),
        decreases arr@.len() - i,
    {
        if !is_ordered(arr[i - 1], arr[i]) {
            return false;
        }
        i = i + 1;
    }
    true
}

} // verus!
