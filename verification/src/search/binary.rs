use vstd::prelude::*;
use vstd::relations::sorted_by;
use crate::search::binary_search::binary_search;
use crate::sort::order::SortingOrder;
use crate::sort::order::leq_of;

verus! {

/// Performs binary search in a slice sorted in the ascending order.
///
/// Returns the position of an occurrence of `val`, or `None` exactly when
/// the slice does not hold `val` anywhere.
pub fn binary_asc(arr: &Vec<i64>, val: &i64) -> (r: Option<usize>)
    requires
        sorted_by(arr@, leq_of(SortingOrder::Ascending)),
    ensures
        match r {
            Some(i) => i < arr@.len() && arr@[i as int] == val,
            None => forall|i: int| 0 <= i < arr@.len() ==> #[trigger] arr@[i] != val,
        },
{
    binary_search(arr, val, SortingOrder::Ascending)
}

/// Performs binary search in a slice sorted in the descending order.
///
/// Returns the position of an occurrence of `val`, or `None` exactly when
/// the slice does not hold `val` anywhere.
pub fn binary_desc(arr: &Vec<i64>, val: &i64) -> (r: Option<usize>)
    requires
        sorted_by(arr@, leq_of(SortingOrder::Descending)),
    ensures
        match r {
            Some(i) => i < arr@.len() && arr@[i as int] == val,
            None => forall|i: int| 0 <= i < arr@.len() ==> #[trigger] arr@[i] != val,
        },
{
    binary_search(arr, val, SortingOrder::Descending)
}

} // verus!
