use vstd::prelude::*;
use core::cmp::Ordering;
use crate::search::binary_search::decides_probe;
use crate::search::binary_search::probe_everywhere;
use crate::search::binary_search::probe_sorted;
use vstd::relations::sorted_by;
use crate::search::binary_search::lemma_not_in_lower;
use crate::search::binary_search::lemma_not_in_upper;
use crate::sort::order::SortingOrder;
use crate::sort::order::leq_of;
use crate::sort::order::strictly_before;
use crate::sort::order::strictly_before_exec;

verus! {

/// Quickly finds an element in a sorted slice by probing the position
/// interpolated from the end values of the remaining window, which for
/// uniformly distributed values converges faster than halving.
///
/// Returns the position of an occurrence of `val`, or `None` exactly when
/// the slice does not hold `val` anywhere.
pub fn interpolation_search(arr: &Vec<i64>, val: i64, order: SortingOrder) -> (r: Option<usize>)
    requires
        sorted_by(arr@, leq_of(order)),
    ensures
        match r {
            Some(i) => i < arr@.len() && arr@[i as int] == val,
            None => forall|i: int| 0 <= i < arr@.len() ==> #[trigger] arr@[i] != val,
        },
{
    let mut lo: usize = 0;
    let mut hi: usize = arr.len();
    while lo < hi
        invariant
            lo <= hi <= arr@.len(),
            sorted_by(arr@, leq_of(order)),
            forall|i: int| 0 <= i < lo ==> #[trigger] arr@[i] != val,
            forall|i: int| hi <= i < arr@.len() ==> #[trigger] arr@[i] != val,
        decreases hi - lo,
    {
        let first = arr[lo];
        let last = arr[hi - 1];
        if strictly_before_exec(order, val, first) {
            // the value would come before the whole window
            proof {
                assert forall|i: int| lo <= i < hi implies #[trigger] arr@[i] != val by {
                    if i != lo {
                        assert(leq_of(order)(arr@[lo as int], arr@[i]));
                    }
                }
            }
            return None;
        }
        if strictly_before_exec(order, last, val) {
            // the value would come after the whole window
            proof {
                assert forall|i: int| lo <= i < hi implies #[trigger] arr@[i] != val by {
                    if i != hi - 1 {
                        assert(leq_of(order)(arr@[i], arr@[hi - 1]));
                    }
                }
            }
            return None;
        }
        let num_wide: i128 = match order {
            SortingOrder::Ascending => val as i128 - first as i128,
            SortingOrder::Descending => first as i128 - val as i128,
        };
        let den_wide: i128 = match order {
            SortingOrder::Ascending => last as i128 - first as i128,
            SortingOrder::Descending => first as i128 - last as i128,
        };
        if den_wide == 0 {
            // the window's end values agree, and the sought value sits
            // between them, so it stands right at the window's start
            proof {
                assert(arr@[lo as int] == val);
            }
            return Some(lo);
        }
        let span = (hi - 1 - lo) as u128;
        let num = num_wide as u128;
        let den = den_wide as u128;
        proof {
            let sp = span as int;
            let nu = num as int;
            let de = den as int;
            assert(0 <= num_wide <= den_wide);
            assert(sp <= 0xffff_ffff_ffff_ffff && nu <= 0xffff_ffff_ffff_ffff);
            assert(sp * nu <= 0xffff_ffff_ffff_ffff * 0xffff_ffff_ffff_ffff) by (nonlinear_arith)
                requires
                    0 <= sp <= 0xffff_ffff_ffff_ffff,
                    0 <= nu <= 0xffff_ffff_ffff_ffff,
            ;
            assert(sp * nu <= sp * de) by (nonlinear_arith)
                requires
                    nu <= de,
                    sp >= 0,
            ;
            assert(sp * de / de == sp) by (nonlinear_arith)
                requires
                    de > 0,
                    sp >= 0,
            ;
            vstd::arithmetic::div_mod::lemma_div_is_ordered(sp * nu, sp * de, de);
            assert(sp * nu / de <= sp);
        }
        let offset = (span * num / den) as usize;
        let mid = lo + offset;
        if arr[mid] == val {
            return Some(mid);
        } else if strictly_before_exec(order, val, arr[mid]) {
            proof {
                lemma_not_in_upper(arr@, order, val, mid as int);
            }
            hi = mid;
        } else {
            proof {
                assert(strictly_before(order, arr@[mid as int], val));
                lemma_not_in_lower(arr@, order, val, mid as int);
            }
            lo = mid + 1;
        }
    }
    None
}

/// Performs interpolation search in a slice sorted in the ascending order;
/// the guarantees match those of `interpolation_search`.
pub fn interpolation_search_asc(arr: &Vec<i64>, val: i64) -> (r: Option<usize>)
    requires
        sorted_by(arr@, leq_of(SortingOrder::Ascending)),
    ensures
        match r {
            Some(i) => i < arr@.len() && arr@[i as int] == val,
            None => forall|i: int| 0 <= i < arr@.len() ==> #[trigger] arr@[i] != val,
        },
{
    interpolation_search(arr, val, SortingOrder::Ascending)
}

/// Quickly finds an element with a custom three-way probe, interpolating
/// probe positions from the slice's values: the probe answers `Greater`
/// while the sought value lies further right, `Less` while it lies further
/// left.
///
/// A returned position is one the probe answered `Equal` on. Whenever the
/// probe decides a key that falls monotonically over the slice, `None` is
/// returned exactly when the key answers `Equal` nowhere.
pub fn interpolation_search_by<F: Fn(&i64) -> Ordering>(arr: &Vec<i64>, val: i64, cmp: F) -> (r:
    Option<usize>)
    requires
        probe_everywhere(cmp),
    ensures
        match r {
            Some(i) => i < arr@.len() && call_ensures(cmp, (&arr@[i as int],), Ordering::Equal),
            None => true,
        },
        forall|key: spec_fn(i64) -> Ordering|
            (decides_probe(cmp, key) && #[trigger] probe_sorted(arr@, key) && r is None)
                ==> forall|i: int|
                0 <= i < arr@.len() ==> key(#[trigger] arr@[i]) != Ordering::Equal,
{
    let mut lo: usize = 0;
    let mut hi: usize = arr.len();
    while lo < hi
        invariant
            lo <= hi <= arr@.len(),
            probe_everywhere(cmp),
            forall|key: spec_fn(i64) -> Ordering|
                decides_probe(cmp, key) && #[trigger] probe_sorted(arr@, key) ==> {
                    &&& (forall|i: int|
                        0 <= i < lo ==> key(#[trigger] arr@[i]) == Ordering::Greater)
                    &&& (forall|i: int|
                        hi <= i < arr@.len() ==> key(#[trigger] arr@[i]) == Ordering::Less)
                },
        decreases hi - lo,
    {
        // probe the position the sought value would sit at if the window's
        // values were uniformly distributed, clamped into the window
        let first = arr[lo];
        let last = arr[hi - 1];
        let mut mid = lo;
        if first < val && val < last {
            let num = (val as i128 - first as i128) as u128;
            let den = (last as i128 - first as i128) as u128;
            let span = (hi - 1 - lo) as u128;
            proof {
                let sp = span as int;
                let nu = num as int;
                let de = den as int;
                assert(sp <= 0xffff_ffff_ffff_ffff && nu <= 0xffff_ffff_ffff_ffff);
                assert(sp * nu <= 0xffff_ffff_ffff_ffff * 0xffff_ffff_ffff_ffff)
                    by (nonlinear_arith)
                    requires
                        0 <= sp <= 0xffff_ffff_ffff_ffff,
                        0 <= nu <= 0xffff_ffff_ffff_ffff,
                ;
                assert(sp * nu <= sp * de) by (nonlinear_arith)
                    requires
                        nu <= de,
                        sp >= 0,
                ;
                assert(sp * de / de == sp) by (nonlinear_arith)
                    requires
                        de > 0,
                        sp >= 0,
                ;
                vstd::arithmetic::div_mod::lemma_div_is_ordered(sp * nu, sp * de, de);
            }
            mid = lo + (span * num / den) as usize;
        }
        let probe = cmp(&arr[mid]);
        match probe {
            Ordering::Equal => {
                return Some(mid);
            },
            Ordering::Less => {
                proof {
                    assert forall|key: spec_fn(i64) -> Ordering|
                        decides_probe(cmp, key) && #[trigger] probe_sorted(arr@, key) implies (
                    forall|i: int|
                        mid <= i < arr@.len() ==> key(#[trigger] arr@[i]) == Ordering::Less) by {
                        assert(key(arr@[mid as int]) == Ordering::Less);
                    }
                }
                hi = mid;
            },
            Ordering::Greater => {
                proof {
                    assert forall|key: spec_fn(i64) -> Ordering|
                        decides_probe(cmp, key) && #[trigger] probe_sorted(arr@, key) implies (
                    forall|i: int|
                        0 <= i <= mid ==> key(#[trigger] arr@[i]) == Ordering::Greater) by {
                        assert(key(arr@[mid as int]) == Ordering::Greater);
                    }
                }
                lo = mid + 1;
            },
        }
    }
    None
}

} // verus!
