use vstd::prelude::*;
use vstd::multiset::Multiset;
use vstd::relations::sorted_by;
use vstd::relations::total_ordering;
use core::cmp::Ordering;
use crate::collections::counter::Counter;
use crate::search::quick_select::decides_strictly;
use crate::sort::order::SortingOrder;
use crate::sort::order::cmp_of;
use crate::sort::order::leq_of;
use crate::sort::order::lemma_leq_of_total;
use crate::sort::quick_sort::quick_sort_by;
use crate::utils::partition::comparable_everywhere;

verus! {

broadcast use vstd::multiset::group_multiset_axioms, vstd::seq_lib::group_to_multiset_ensures;

/// The part of a multiset made of the values a sequence mentions.
pub open spec fn picked(total: Multiset<i64>, ks: Seq<i64>) -> Multiset<i64> {
    total.filter(|v: i64| ks.contains(v))
}

/// A multiset counting `n` copies of one value.
pub open spec fn copies(k: i64, n: nat) -> Multiset<i64> {
    Multiset::empty().update(k, n)
}


/// No copies of a value make the empty multiset.
proof fn lemma_copies_zero(k: i64)
    ensures
        copies(k, 0) =~= Multiset::<i64>::empty(),
{
    vstd::multiset::lemma_update_same(Multiset::<i64>::empty(), k, 0);
    assert forall|v: i64| copies(k, 0).count(v) == Multiset::<i64>::empty().count(v) by {
        if v != k {
            vstd::multiset::lemma_update_different(Multiset::<i64>::empty(), k, 0, v);
        }
    }
}

/// One more copy of a value is one more insertion of it.
proof fn lemma_copies_step(k: i64, n: nat)
    ensures
        copies(k, (n + 1) as nat) =~= copies(k, n).insert(k),
{
    vstd::multiset::lemma_update_same(Multiset::<i64>::empty(), k, (n + 1) as nat);
    vstd::multiset::lemma_update_same(Multiset::<i64>::empty(), k, n);
    assert forall|v: i64|
        copies(k, (n + 1) as nat).count(v) == copies(k, n).insert(k).count(v) by {
        if v != k {
            vstd::multiset::lemma_update_different(Multiset::<i64>::empty(), k, (n + 1) as nat, v);
            vstd::multiset::lemma_update_different(Multiset::<i64>::empty(), k, n, v);
        }
    }
}

/// `n` copies of a value hold `n` elements.
proof fn lemma_copies_len(k: i64, n: nat)
    ensures
        copies(k, n).len() == n,
    decreases n,
{
    if n == 0 {
        lemma_copies_zero(k);
    } else {
        lemma_copies_len(k, (n - 1) as nat);
        lemma_copies_step(k, (n - 1) as nat);
    }
}

/// A multiset dominated pointwise by another is no larger.
proof fn lemma_len_le(m1: Multiset<i64>, m2: Multiset<i64>)
    requires
        forall|v: i64| #[trigger] m1.count(v) <= m2.count(v),
    ensures
        m1.len() <= m2.len(),
{
    assert(m2 =~= m1.add(m2.sub(m1)));
}

/// The shared body of the counting sorts: tallies the values, sorts the
/// distinct ones with the given comparator, and rewrites the slice as the
/// tallied runs in that order.
fn counting_sort_core<F: Fn(&i64, &i64) -> bool + Copy>(arr: &mut Vec<i64>, cmp: F)
    requires
        comparable_everywhere(cmp),
    ensures
        final(arr)@.len() == old(arr)@.len(),
        final(arr)@.to_multiset() == old(arr)@.to_multiset(),
        forall|leq: spec_fn(i64, i64) -> bool|
            #![trigger decides_strictly(cmp, leq)]
            total_ordering(leq) && decides_strictly(cmp, leq) ==> sorted_by(final(arr)@, leq),
{
    let ghost orig = arr@;
    // tally every value
    let mut counter = Counter::new();
    let mut i: usize = 0;
    while i < arr.len()
        invariant
            counter.wf(),
            i <= arr@.len(),
            arr@ == orig,
            counter.total() == arr@.subrange(0, i as int).to_multiset(),
        decreases arr@.len() - i,
    {
        proof {
            vstd::seq_lib::to_multiset_len(arr@.subrange(0, i as int));
            assert(counter.total().count(arr@[i as int]) <= counter.total().len());
            assert(arr@.len() == vstd::std_specs::vec::spec_vec_len(arr));
        }
        counter.count(arr[i]);
        proof {
            assert(arr@.subrange(0, i + 1) =~= arr@.subrange(0, i as int).push(arr@[i as int]));
        }
        i = i + 1;
    }
    proof {
        assert(arr@.subrange(0, arr@.len() as int) =~= arr@);
    }
    let ghost total = counter.total();
    // gather and sort the distinct values
    let keys_ref = counter.distinct();
    let mut keys: Vec<i64> = Vec::new();
    let mut i: usize = 0;
    while i < keys_ref.len()
        invariant
            i <= keys_ref@.len(),
            keys@ == keys_ref@.subrange(0, i as int),
        decreases keys_ref@.len() - i,
    {
        keys.push(keys_ref[i]);
        proof {
            assert(keys@ =~= keys_ref@.subrange(0, i + 1));
        }
        i = i + 1;
    }
    proof {
        assert(keys@ =~= keys_ref@);
        keys@.lemma_multiset_has_no_duplicates();
    }
    let ghost unsorted_keys = keys@;
    quick_sort_by(&mut keys, cmp);
    proof {
        keys@.lemma_multiset_has_no_duplicates_conv();
        assert forall|k: i64| keys@.contains(k) <==> total.count(k) > 0 by {
            vstd::seq_lib::to_multiset_contains(keys@, k);
            vstd::seq_lib::to_multiset_contains(unsorted_keys, k);
        }
    }
    // rewrite the slice as the tallied runs, in key order
    proof {
        assert(arr@.len() == vstd::std_specs::vec::spec_vec_len(arr));
    }
    let mut out: usize = 0;
    let mut ki: usize = 0;
    while ki < keys.len()
        invariant
            counter.wf(),
            counter.total() == total,
            total == orig.to_multiset(),
            ki <= keys@.len(),
            out <= arr@.len(),
            arr@.len() <= usize::MAX,
            arr@.len() == orig.len(),
            keys@.no_duplicates(),
            forall|k: i64| keys@.contains(k) <==> total.count(k) > 0,
            comparable_everywhere(cmp),
            arr@.subrange(0, out as int).to_multiset() == picked(
                total,
                keys@.subrange(0, ki as int),
            ),
            out as nat == picked(total, keys@.subrange(0, ki as int)).len(),
            forall|leq: spec_fn(i64, i64) -> bool|
                #![trigger decides_strictly(cmp, leq)]
                total_ordering(leq) && decides_strictly(cmp, leq) ==> {
                    &&& sorted_by(keys@, leq)
                    &&& sorted_by(arr@.subrange(0, out as int), leq)
                    &&& (forall|t: int, kj: int|
                        0 <= t < out && ki <= kj < keys@.len() ==> leq(
                            #[trigger] arr@[t],
                            #[trigger] keys@[kj],
                        ))
                },
        decreases keys@.len() - ki,
    {
        let k = keys[ki];
        let c = counter.get(&k);
        let ghost done = arr@.subrange(0, out as int).to_multiset();
        let ghost out0 = out;
        proof {
            // this key has not been written yet, so its copies are still owed
            assert(!keys@.subrange(0, ki as int).contains(k)) by {
                if keys@.subrange(0, ki as int).contains(k) {
                    let t = choose|t: int|
                        0 <= t < ki && (#[trigger] keys@.subrange(0, ki as int)[t]) == k;
                    assert(keys@[t] == k && keys@[ki as int] == k);
                }
            }
            assert(done.count(k) == 0);
            assert(picked(total, keys@.subrange(0, ki + 1)) =~= done.add(copies(k, c as nat))) by {
                assert forall|v: i64|
                    #![trigger picked(total, keys@.subrange(0, ki + 1)).count(v)]
                    picked(total, keys@.subrange(0, ki + 1)).count(v) == done.add(
                        copies(k, c as nat),
                    ).count(v) by {
                    vstd::multiset::lemma_update_same(Multiset::<i64>::empty(), k, c as nat);
                    if v != k {
                        vstd::multiset::lemma_update_different(
                            Multiset::<i64>::empty(),
                            k,
                            c as nat,
                            v,
                        );
                    }
                    assert(keys@.subrange(0, ki + 1)[ki as int] == k);
                    if keys@.subrange(0, ki + 1).contains(v) {
                        let t = choose|t: int|
                            0 <= t < ki + 1 && (#[trigger] keys@.subrange(0, ki + 1)[t]) == v;
                        if t < ki {
                            assert(keys@.subrange(0, ki as int)[t] == v);
                        }
                    }
                    if keys@.subrange(0, ki as int).contains(v) {
                        let t = choose|t: int|
                            0 <= t < ki && (#[trigger] keys@.subrange(0, ki as int)[t]) == v;
                        assert(keys@.subrange(0, ki + 1)[t] == v);
                    }
                }
            }
            assert(out + c <= arr@.len()) by {
                lemma_len_le(picked(total, keys@.subrange(0, ki + 1)), total);
                vstd::seq_lib::to_multiset_len(orig);
                lemma_copies_len(k, c as nat);
                assert(picked(total, keys@.subrange(0, ki + 1)).len() == done.len() + c);
                vstd::seq_lib::to_multiset_len(arr@.subrange(0, out as int));
            }
            assert(arr@.subrange(0, out as int).to_multiset() == done.add(copies(k, 0))) by {
                lemma_copies_zero(k);
                assert(done.add(copies(k, 0)) =~= done);
            }
        }
        let mut j: usize = 0;
        while j < c
            invariant
                j <= c,
                out == out0 + j,
                out0 + c <= arr@.len(),
                arr@.len() <= usize::MAX,
                arr@.len() == orig.len(),
                keys@.no_duplicates(),
                ki < keys@.len(),
                k == keys@[ki as int],
                comparable_everywhere(cmp),
                arr@.subrange(0, out as int).to_multiset() == done.add(copies(k, j as nat)),
                forall|leq: spec_fn(i64, i64) -> bool|
                    #![trigger decides_strictly(cmp, leq)]
                    total_ordering(leq) && decides_strictly(cmp, leq) ==> {
                        &&& sorted_by(keys@, leq)
                        &&& sorted_by(arr@.subrange(0, out as int), leq)
                        &&& (forall|t: int, kj: int|
                            0 <= t < out && ki <= kj < keys@.len() ==> leq(
                                #[trigger] arr@[t],
                                #[trigger] keys@[kj],
                            ))
                    },
            decreases c - j,
        {
            let ghost pre = arr@;
            arr.set(out, k);
            proof {
                assert(arr@.subrange(0, out + 1) =~= pre.subrange(0, out as int).push(k));
                assert(arr@.subrange(0, out as int) =~= pre.subrange(0, out as int));
                assert(copies(k, (j + 1) as nat) =~= copies(k, j as nat).insert(k)) by {
                    lemma_copies_step(k, j as nat);
                }
                assert forall|leq: spec_fn(i64, i64) -> bool|
                    #![trigger decides_strictly(cmp, leq)]
                    total_ordering(leq) && decides_strictly(cmp, leq) implies {
                    &&& sorted_by(keys@, leq)
                    &&& sorted_by(arr@.subrange(0, out + 1), leq)
                    &&& (forall|t: int, kj: int|
                        0 <= t < out + 1 && ki <= kj < keys@.len() ==> leq(
                            #[trigger] arr@[t],
                            #[trigger] keys@[kj],
                        ))
                } by {
                    assert(sorted_by(keys@, leq));
                    assert(sorted_by(pre.subrange(0, out as int), leq));
                    let prefix = arr@.subrange(0, out + 1);
                    assert forall|t1: int, t2: int|
                        0 <= t1 < t2 < prefix.len() implies leq(prefix[t1], prefix[t2]) by {
                        assert(prefix[t2] == arr@[t2]);
                        if t2 < out {
                            assert(pre.subrange(0, out as int)[t1] == prefix[t1]);
                            assert(pre.subrange(0, out as int)[t2] == prefix[t2]);
                        } else {
                            assert(prefix[t2] == keys@[ki as int]);
                            assert(leq(pre[t1], keys@[ki as int]));
                        }
                    }
                    assert forall|t: int, kj: int|
                        0 <= t < out + 1 && ki <= kj < keys@.len() implies leq(
                        #[trigger] arr@[t],
                        #[trigger] keys@[kj],
                    ) by {
                        if t == out {
                            assert(arr@[t] == keys@[ki as int]);
                            if kj != ki {
                                assert(leq(keys@[ki as int], keys@[kj]));
                            }
                        } else {
                            assert(pre[t] == arr@[t]);
                        }
                    }
                }
            }
            out = out + 1;
            j = j + 1;
        }
        ki = ki + 1;
    }
    proof {
        // every tallied value sits in some key, so everything was written
        assert(picked(total, keys@.subrange(0, keys@.len() as int)) =~= total) by {
            assert forall|v: i64|
                #![trigger picked(total, keys@.subrange(0, keys@.len() as int)).count(v)]
                picked(total, keys@.subrange(0, keys@.len() as int)).count(v) == total.count(
                    v,
                ) by {
                if total.count(v) > 0 {
                    assert(keys@.contains(v));
                    let t = choose|t: int| 0 <= t < keys@.len() && (#[trigger] keys@[t]) == v;
                    assert(keys@.subrange(0, keys@.len() as int)[t] == v);
                }
            }
        }
        vstd::seq_lib::to_multiset_len(orig);
        assert(keys@.subrange(0, keys@.len() as int) =~= keys@);
        assert(out == arr@.len());
        assert(arr@.subrange(0, out as int) =~= arr@);
    }
}

/// Sorts a slice of integers with counting sort in the given order: the
/// result is sorted and keeps the multiset of values.
pub fn counting_sort(arr: &mut Vec<i64>, order: SortingOrder)
    ensures
        final(arr)@.len() == old(arr)@.len(),
        final(arr)@.to_multiset() == old(arr)@.to_multiset(),
        sorted_by(final(arr)@, leq_of(order)),
{
    let f = cmp_of(order);
    counting_sort_core(arr, f);
    proof {
        lemma_leq_of_total(order);
        assert(decides_strictly(f, leq_of(order)));
    }
}

/// The comparator answers the three-way comparison of the total order
/// `leq`: `Less` exactly on strictly ordered pairs, `Greater` exactly on
/// strictly reversed ones, and `Equal` otherwise.
pub open spec fn decides_order<F: Fn(&i64, &i64) -> Ordering>(
    f: F,
    leq: spec_fn(i64, i64) -> bool,
) -> bool {
    forall|a: &i64, b: &i64, o: Ordering|
        #[trigger] call_ensures(f, (a, b), o) ==> {
            &&& (o == Ordering::Less <==> (leq(*a, *b) && !leq(*b, *a)))
            &&& (o == Ordering::Greater <==> (leq(*b, *a) && !leq(*a, *b)))
        }
}

/// Sorts a slice of integers with counting sort, ordering the distinct
/// values by a custom three-way comparator.
///
/// The slice keeps its multiset of values; whenever the comparator answers
/// the three-way comparison of a total order, the result is the slice's
/// sorted copy under that order.
pub fn counting_sort_by<F: Fn(&i64, &i64) -> Ordering + Copy>(arr: &mut Vec<i64>, cmp: F)
    requires
        forall|a: &i64, b: &i64| #[trigger] call_requires(cmp, (a, b)),
    ensures
        final(arr)@.len() == old(arr)@.len(),
        final(arr)@.to_multiset() == old(arr)@.to_multiset(),
        forall|leq: spec_fn(i64, i64) -> bool|
            #![trigger decides_order(cmp, leq)]
            total_ordering(leq) && decides_order(cmp, leq) ==> sorted_by(final(arr)@, leq)
                && final(arr)@ == old(arr)@.sort_by(leq),
{
    let before = |a: &i64, b: &i64| -> (r: bool)
        requires
            call_requires(cmp, (a, b)),
        ensures
            exists|o: Ordering| #[trigger] call_ensures(cmp, (a, b), o) && (r <==> o
                == Ordering::Less),
        {
            matches!(cmp(a, b), Ordering::Less)
        };
    proof {
        assert forall|a: &i64, b: &i64| #[trigger] call_requires(before, (a, b)) by {}
    }
    let ghost orig = arr@;
    counting_sort_core(arr, before);
    proof {
        assert forall|leq: spec_fn(i64, i64) -> bool|
            #![trigger decides_order(cmp, leq)]
            total_ordering(leq) && decides_order(cmp, leq) implies sorted_by(arr@, leq) && arr@
            == orig.sort_by(leq) by {
            assert(decides_strictly(before, leq)) by {
                assert forall|a: &i64, b: &i64, r: bool|
                    #[trigger] call_ensures(before, (a, b), r) implies r == (leq(*a, *b) && !leq(
                    *b,
                    *a,
                )) by {
                    let o = choose|o: Ordering|
                        #[trigger] call_ensures(cmp, (a, b), o) && (r <==> o == Ordering::Less);
                }
            }
            assert(sorted_by(arr@, leq));
            orig.lemma_sort_by_ensures(leq);
            vstd::seq_lib::lemma_sorted_unique(arr@, orig.sort_by(leq), leq);
            assert(arr@ =~= orig.sort_by(leq));
        }
    }
}

} // verus!
