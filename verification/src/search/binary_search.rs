use vstd::prelude::*;
use vstd::relations::sorted_by;
use crate::sort::order::SortingOrder;
use crate::sort::order::leq_of;
use crate::sort::order::strictly_before;
use crate::sort::order::strictly_before_exec;
use core::cmp::Ordering;

verus! {

/// In a sorted slice, a value that must come strictly before some element
/// cannot occur at or after that element's position.
pub(crate) proof fn lemma_not_in_upper(s: Seq<i64>, order: SortingOrder, val: i64, mid: int)
    requires
        sorted_by(s, leq_of(order)),
        0 <= mid < s.len(),
        strictly_before(order, val, s[mid]),
    ensures
        forall|i: int| mid <= i < s.len() ==> #[trigger] s[i] != val,
{
    assert forall|i: int| mid <= i < s.len() implies #[trigger] s[i] != val by {
        if i != mid {
            assert(leq_of(order)(s[mid], s[i]));
        }
    }
}

/// In a sorted slice, a value that must come strictly after some element
/// cannot occur at or before that element's position.
pub(crate) proof fn lemma_not_in_lower(s: Seq<i64>, order: SortingOrder, val: i64, mid: int)
    requires
        sorted_by(s, leq_of(order)),
        0 <= mid < s.len(),
        strictly_before(order, s[mid], val),
    ensures
        forall|i: int| 0 <= i <= mid ==> #[trigger] s[i] != val,
{
    assert forall|i: int| 0 <= i <= mid implies #[trigger] s[i] != val by {
        if i != mid {
            assert(leq_of(order)(s[i], s[mid]));
        }
    }
}

/// Performs binary search in a slice sorted in the given order.
///
/// Returns the position of an occurrence of `val`, or `None` exactly when
/// the slice does not hold `val` anywhere.
pub fn binary_search(arr: &Vec<i64>, val: &i64, order: SortingOrder) -> (r: Option<usize>)
    requires
        sorted_by(arr@, leq_of(order)),
    ensures
        match r {
            Some(i) => i < arr@.len() && arr@[i as int] == val,
            None => forall|i: int| 0 <= i < arr@.len() ==> #[trigger] arr@[i] != val,
        },
{
    let mut lo: usize = 0;
    let mut hi: usize = arr.len();
    while lo < hi
        invariant
            lo <= hi <= arr@.len(),
            sorted_by(arr@, leq_of(order)),
            forall|i: int| 0 <= i < lo ==> #[trigger] arr@[i] != val,
            forall|i: int| hi <= i < arr@.len() ==> #[trigger] arr@[i] != val,
        decreases hi - lo,
    {
        let mid = lo + (hi - lo) / 2;
        if arr[mid] == *val {
            return Some(mid);
        } else if strictly_before_exec(order, *val, arr[mid]) {
            proof {
                lemma_not_in_upper(arr@, order, *val, mid as int);
            }
            hi = mid;
        } else {
            proof {
                assert(strictly_before(order, arr@[mid as int], *val)) by {
                    assert(arr@[mid as int] != val);
                }
                lemma_not_in_lower(arr@, order, *val, mid as int);
            }
            lo = mid + 1;
        }
    }
    None
}

/// A probe that may be asked about any value.
pub open spec fn probe_everywhere<T, F: Fn(&T) -> Ordering>(f: F) -> bool {
    forall|a: &T| #[trigger] call_requires(f, (a,))
}

/// The probe answers exactly `key` on every value.
pub open spec fn decides_probe<T, F: Fn(&T) -> Ordering>(f: F, key: spec_fn(T) -> Ordering) -> bool {
    forall|a: &T, r: Ordering| #[trigger] call_ensures(f, (a,), r) ==> r == key(*a)
}

/// A probe fits a sorted slice when its answers fall from `Greater` through
/// `Equal` to `Less` as the position grows.
pub open spec fn probe_sorted<T>(s: Seq<T>, key: spec_fn(T) -> Ordering) -> bool {
    &&& forall|i: int, j: int|
        0 <= i <= j < s.len() && key(#[trigger] s[i]) == Ordering::Less ==> key(#[trigger] s[j])
            == Ordering::Less
    &&& forall|i: int, j: int|
        0 <= i <= j < s.len() && key(#[trigger] s[j]) == Ordering::Greater ==> key(#[trigger] s[i])
            == Ordering::Greater
}

/// Performs binary search with a custom three-way probe: the probe answers
/// `Greater` while the sought value lies further right, `Less` while it lies
/// further left.
///
/// A returned position is one the probe answered `Equal` on. Whenever the
/// probe decides a key that falls monotonically over the slice, `None` is
/// returned exactly when the key answers `Equal` nowhere.
pub fn binary_search_by<T, F: Fn(&T) -> Ordering>(arr: &Vec<T>, cmp: F) -> (r: Option<usize>)
    requires
        probe_everywhere(cmp),
    ensures
        match r {
            Some(i) => i < arr@.len() && call_ensures(cmp, (&arr@[i as int],), Ordering::Equal),
            None => true,
        },
        forall|key: spec_fn(T) -> Ordering|
            (decides_probe(cmp, key) && #[trigger] probe_sorted(arr@, key) && r is None)
                ==> forall|i: int|
                0 <= i < arr@.len() ==> key(#[trigger] arr@[i]) != Ordering::Equal,
{
    let mut lo: usize = 0;
    let mut hi: usize = arr.len();
    while lo < hi
        invariant
            lo <= hi <= arr@.len(),
            probe_everywhere(cmp),
            forall|key: spec_fn(T) -> Ordering|
                decides_probe(cmp, key) && #[trigger] probe_sorted(arr@, key) ==> {
                    &&& (forall|i: int|
                        0 <= i < lo ==> key(#[trigger] arr@[i]) == Ordering::Greater)
                    &&& (forall|i: int|
                        hi <= i < arr@.len() ==> key(#[trigger] arr@[i]) == Ordering::Less)
                },
        decreases hi - lo,
    {
        let mid = lo + (hi - lo) / 2;
        let probe = cmp(&arr[mid]);
        match probe {
            Ordering::Equal => {
                return Some(mid);
            },
            Ordering::Less => {
                proof {
                    assert forall|key: spec_fn(T) -> Ordering|
                        decides_probe(cmp, key) && #[trigger] probe_sorted(arr@, key) implies (
                    forall|i: int|
                        mid <= i < arr@.len() ==> key(#[trigger] arr@[i]) == Ordering::Less) by {
                        assert(key(arr@[mid as int]) == Ordering::Less);
                    }
                }
                hi = mid;
            },
            Ordering::Greater => {
                proof {
                    assert forall|key: spec_fn(T) -> Ordering|
                        decides_probe(cmp, key) && #[trigger] probe_sorted(arr@, key) implies (
                    forall|i: int|
                        0 <= i <= mid ==> key(#[trigger] arr@[i]) == Ordering::Greater) by {
                        assert(key(arr@[mid as int]) == Ordering::Greater);
                    }
                }
                lo = mid + 1;
            },
        }
    }
    None
}

} // verus!
