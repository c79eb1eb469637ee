use vstd::prelude::*;

verus! {

/// Represents an order of sorting.
#[derive(Clone, Copy)]
pub enum SortingOrder {
    /// Ascending order, for example `[1,2,2,3,4,5]`.
    Ascending,
    /// Descending order, for example `[5,4,3,2,2,1]`.
    Descending,
}

/// Represents ordering of the given sorted collection.
#[derive(Clone, Copy)]
pub enum Order {
    /// Increasing order, for example `[1,2,3,4,5]`.
    Increasing,
    /// Decreasing order, for example `[5,4,3,2,1]`.
    Decreasing,
    /// Not increasing order, for example `[5,5,4,4,1]`.
    NotIncreasing,
    /// Not decreasing order, for example `[1,1,2,2,3]`.
    NotDecreasing,
}

/// Whether `a` may precede `b` in a collection ordered by `order`.
pub open spec fn ordered(order: Order, a: i64, b: i64) -> bool {
    match order {
        Order::Increasing => a < b,
        Order::Decreasing => a > b,
        Order::NotIncreasing => a >= b,
        Order::NotDecreasing => a <= b,
    }
}

/// Every adjacent pair of the sequence is ordered by `order`.
pub open spec fn pairwise_ordered(order: Order, s: Seq<i64>) -> bool {
    forall|i: int| 0 < i < s.len() ==> ordered(order, s[i - 1], #[trigger] s[i])
}

/// Whether `a` must come strictly before `b` when sorting by `order`.
pub open spec fn strictly_before(order: SortingOrder, a: i64, b: i64) -> bool {
    match order {
        SortingOrder::Ascending => a < b,
        SortingOrder::Descending => a > b,
    }
}

/// The total "less than or in place" relation that sorting by `order` obeys.
pub open spec fn leq_of(order: SortingOrder) -> spec_fn(i64, i64) -> bool {
    match order {
        SortingOrder::Ascending => (|a: i64, b: i64| a <= b),
        SortingOrder::Descending => (|a: i64, b: i64| a >= b),
    }
}

/// `leq_of` always yields a total ordering, so sequences can be sorted by it.
pub broadcast proof fn lemma_leq_of_total(order: SortingOrder)
    ensures
        #[trigger] vstd::relations::total_ordering(leq_of(order)),
{
}

/// A strict comparison under `order` is exactly the refusal of the reversed
/// total relation, which links partitioning to sortedness.
pub proof fn lemma_strict_complements_leq(order: SortingOrder, a: i64, b: i64)
    ensures
        strictly_before(order, a, b) <==> !leq_of(order)(b, a),
{
}

/// Checks at run time whether `a` may precede `b` under `order`.
pub fn ordered_exec(order: Order, a: i64, b: i64) -> (r: bool)
    ensures
        r == ordered(order, a, b),
{
    match order {
        Order::Increasing => a < b,
        Order::Decreasing => a > b,
        Order::NotIncreasing => a >= b,
        Order::NotDecreasing => a <= b,
    }
}

/// Checks at run time whether `a` must come strictly before `b` under `order`.
pub fn strictly_before_exec(order: SortingOrder, a: i64, b: i64) -> (r: bool)
    ensures
        r == strictly_before(order, a, b),
{
    match order {
        SortingOrder::Ascending => a < b,
        SortingOrder::Descending => a > b,
    }
}

/// The strict comparator belonging to `order`, as a closure whose answers
/// Verus can pin down exactly.
pub(crate) fn cmp_of(order: SortingOrder) -> (f: impl Fn(&i64, &i64) -> bool + Copy)
    ensures
        crate::utils::partition::comparable_everywhere(f),
        crate::search::quick_select::decides_strictly(f, leq_of(order)),
{
    let f = move |a: &i64, b: &i64| -> (r: bool)
        ensures
            r == strictly_before(order, *a, *b),
        { strictly_before_exec(order, *a, *b) };
    proof {
        assert forall|a: &i64, b: &i64| #[trigger] call_requires(f, (a, b)) by {}
        assert forall|a: &i64, b: &i64, r: bool| #[trigger] call_ensures(f, (a, b), r) implies r
            == (leq_of(order)(*a, *b) && !leq_of(order)(*b, *a)) by {}
    }
    f
}

} // verus!
