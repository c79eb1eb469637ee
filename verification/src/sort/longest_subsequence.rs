use vstd::prelude::*;
use vstd::pervasive::VecAdditionalExecFns;
use crate::search::binary_first::binary_first_by;
use crate::sort::order::Order;
use crate::sort::order::ordered;
use crate::sort::order::ordered_exec;
use crate::utils::partition::comparable_everywhere;

verus! {

/// Following the recorded predecessors from `j` yields `k` further indices,
/// each smaller than and ordered before its successor.
pub(crate) open spec fn chain_ok<T, F: Fn(&T, &T) -> bool>(
    f: F,
    arr: Seq<T>,
    prev: Seq<usize>,
    j: int,
    k: nat,
) -> bool
    decreases k,
{
    &&& 0 <= j < arr.len()
    &&& if k == 0 {
        true
    } else {
        let p = prev[j] as int;
        &&& 0 <= j < prev.len()
        &&& p < j
        &&& call_ensures(f, (&arr[p], &arr[j]), true)
        &&& chain_ok(f, arr, prev, p, (k - 1) as nat)
    }
}

/// A chain only reads predecessors at or before its end, so rewriting later
/// entries of the predecessor table leaves it intact.
proof fn lemma_chain_frame<T, F: Fn(&T, &T) -> bool>(
    f: F,
    arr: Seq<T>,
    prev1: Seq<usize>,
    prev2: Seq<usize>,
    j: int,
    k: nat,
)
    requires
        chain_ok(f, arr, prev1, j, k),
        prev1.len() == prev2.len(),
        forall|t: int| 0 <= t <= j ==> prev1[t] == prev2[t],
    ensures
        chain_ok(f, arr, prev2, j, k),
    decreases k,
{
    if k > 0 {
        lemma_chain_frame(f, arr, prev1, prev2, prev1[j] as int, (k - 1) as nat);
    }
}


/// The positions `c` form an ordered subsequence within `[0, hi)`: they
/// strictly increase, and each selected value follows its predecessor under
/// `pred`.
pub open spec fn chain_upto<T>(pred: spec_fn(T, T) -> bool, s: Seq<T>, c: Seq<int>, hi: int) -> bool {
    &&& forall|k: int| 0 <= k < c.len() ==> 0 <= #[trigger] c[k] < hi
    &&& forall|k: int| 0 < k < c.len() ==> c[k - 1] < #[trigger] c[k] && pred(s[c[k - 1]], s[c[k]])
}

/// The positions `c` form an ordered subsequence of the whole slice.
pub open spec fn is_chain<T>(pred: spec_fn(T, T) -> bool, s: Seq<T>, c: Seq<int>) -> bool {
    chain_upto(pred, s, c, s.len() as int)
}

/// The comparator answers exactly `pred` on every pair of values.
pub open spec fn decides_pairs<T, F: Fn(&T, &T) -> bool>(
    f: F,
    pred: spec_fn(T, T) -> bool,
) -> bool {
    forall|a: &T, b: &T, r: bool| #[trigger] call_ensures(f, (a, b), r) ==> r == pred(*a, *b)
}

/// The relation orders chains consistently: it is transitive, and whatever
/// follows a value also follows every value not ordered before it. The
/// strict and the weak comparisons of a total order both qualify.
pub open spec fn chain_order<T>(pred: spec_fn(T, T) -> bool) -> bool {
    &&& forall|a: T, b: T, c: T|
        #![trigger pred(a, b), pred(b, c)]
        pred(a, b) && pred(b, c) ==> pred(a, c)
    &&& forall|a: T, b: T, x: T|
        #![trigger pred(b, x), pred(b, a)]
        pred(b, x) && !pred(b, a) ==> pred(a, x)
}

/// Positions of a chain never pass its last one.
proof fn lemma_chain_le_last<T>(pred: spec_fn(T, T) -> bool, s: Seq<T>, c: Seq<int>, hi: int, k: int)
    requires
        chain_upto(pred, s, c, hi),
        0 <= k < c.len(),
    ensures
        c[k] <= c[c.len() - 1],
    decreases c.len() - k,
{
    if k < c.len() - 1 {
        assert(c[k] < c[k + 1]);
        lemma_chain_le_last(pred, s, c, hi, k + 1);
    }
}

/// A chain reaching position `i` splits into its last position and a chain
/// that stays below `i`; one staying below `i` is a chain below `i`.
proof fn lemma_chain_step<T>(pred: spec_fn(T, T) -> bool, s: Seq<T>, c: Seq<int>, i: int)
    requires
        chain_upto(pred, s, c, i + 1),
        c.len() > 0,
    ensures
        forall|k: int| 0 <= k < c.len() ==> #[trigger] c[k] <= c[c.len() - 1],
        c[c.len() - 1] < i ==> chain_upto(pred, s, c, i),
        c[c.len() - 1] == i ==> chain_upto(pred, s, c.drop_last(), i),
        c[c.len() - 1] == i && c.len() >= 2 ==> c.drop_last()[c.len() - 2] == c[c.len() - 2]
            && c[c.len() - 2] < i && pred(s[c[c.len() - 2]], s[i]) && c.drop_last().len() >= 1,
{
    assert forall|k: int| 0 <= k < c.len() implies #[trigger] c[k] <= c[c.len() - 1] by {
        lemma_chain_le_last(pred, s, c, i + 1, k);
    }
    if c[c.len() - 1] == i {
        let c2 = c.drop_last();
        assert forall|k: int| 0 <= k < c2.len() implies 0 <= #[trigger] c2[k] < i by {
            assert(c2[k] == c[k]);
            assert(c[k] < c[k + 1]);
            lemma_chain_le_last(pred, s, c, i + 1, k + 1);
        }
        assert forall|k: int| 0 < k < c2.len() implies c2[k - 1] < #[trigger] c2[k] && pred(
            s[c2[k - 1]],
            s[c2[k]],
        ) by {
            assert(c2[k] == c[k] && c2[k - 1] == c[k - 1]);
        }
    }
}

/// What the tails buffer guarantees after the slice's first `hi` positions
/// have been folded in: its selected values rise pairwise, no chain within
/// the seen part is longer than it, and for every shorter chain the
/// matching tail is followed by everything that follows the chain's end.
pub open spec fn tails_invariant<T>(
    pred: spec_fn(T, T) -> bool,
    s: Seq<T>,
    tails: Seq<usize>,
    hi: int,
) -> bool {
    &&& forall|q: int, q2: int|
        #![trigger tails[q], tails[q2]]
        0 <= q < q2 < tails.len() ==> pred(s[tails[q] as int], s[tails[q2] as int])
    &&& forall|c: Seq<int>| #[trigger] chain_upto(pred, s, c, hi) ==> c.len() <= tails.len()
    &&& forall|c: Seq<int>, x: T|
        #![trigger chain_upto(pred, s, c, hi), pred(s[c.last()], x)]
        chain_upto(pred, s, c, hi) && 1 <= c.len() <= tails.len() && pred(s[c.last()], x)
            ==> pred(s[tails[c.len() - 1] as int], x)
}

/// One seen position, a one-entry tails buffer: only singleton chains fit.
proof fn lemma_tails_init<T>(pred: spec_fn(T, T) -> bool, s: Seq<T>)
    requires
        s.len() >= 1,
    ensures
        tails_invariant(pred, s, seq![0usize], 1),
{
    let tails = seq![0usize];
    assert forall|c: Seq<int>| #[trigger] chain_upto(pred, s, c, 1) implies c.len()
        <= tails.len() by {
        if c.len() > 1 {
            assert(0 <= c[0] < 1 && 0 <= c[1] < 1 && c[0] < c[1]);
        }
    }
    assert forall|c: Seq<int>, x: T|
        #![trigger chain_upto(pred, s, c, 1), pred(s[c.last()], x)]
        chain_upto(pred, s, c, 1) && 1 <= c.len() <= tails.len() && pred(
            s[c.last()],
            x,
        ) implies pred(s[tails[c.len() - 1] as int], x) by {
        assert(0 <= c[0] < 1);
        assert(c.last() == c[0] == 0);
        assert(tails[0] == 0usize);
    }
}

/// Appending the new position to the tails buffer, when its value follows
/// the last tail, carries the guarantees one position further.
proof fn lemma_tails_extend<T>(pred: spec_fn(T, T) -> bool, s: Seq<T>, tails: Seq<usize>, i: int)
    requires
        chain_order(pred),
        tails.len() >= 1,
        0 <= i < s.len(),
        i <= usize::MAX,
        tails_invariant(pred, s, tails, i),
        pred(s[tails[tails.len() - 1] as int], s[i]),
    ensures
        tails_invariant(pred, s, tails.push(i as usize), i + 1),
{
    let t2 = tails.push(i as usize);
    assert((i as usize) as int == i);
    let ll = tails.len() as int;
    // every tail is ordered before the new value
    assert forall|q: int| 0 <= q < ll implies pred(s[tails[q] as int], s[i]) by {
        if q < ll - 1 {
            assert(pred(s[tails[q] as int], s[tails[ll - 1] as int]));
        }
    }
    assert forall|q: int, q2: int|
        #![trigger t2[q], t2[q2]]
        0 <= q < q2 < t2.len() implies pred(s[t2[q] as int], s[t2[q2] as int]) by {
        if q2 == ll {
            assert(t2[q] == tails[q] && t2[q2] == i as usize);
        } else {
            assert(t2[q] == tails[q] && t2[q2] == tails[q2]);
        }
    }
    assert forall|c: Seq<int>| #[trigger] chain_upto(pred, s, c, i + 1) implies c.len()
        <= t2.len() by {
        if c.len() > 0 {
            lemma_chain_step(pred, s, c, i);
            if c[c.len() - 1] < i {
                assert(chain_upto(pred, s, c, i));
            } else {
                assert(chain_upto(pred, s, c.drop_last(), i));
            }
        }
    }
    assert forall|c: Seq<int>, x: T|
        #![trigger chain_upto(pred, s, c, i + 1), pred(s[c.last()], x)]
        chain_upto(pred, s, c, i + 1) && 1 <= c.len() <= t2.len() && pred(
            s[c.last()],
            x,
        ) implies pred(s[t2[c.len() - 1] as int], x) by {
        lemma_chain_step(pred, s, c, i);
        let m = c.len() as int;
        if c[m - 1] == i {
            if m == t2.len() {
                assert(t2[m - 1] == i as usize);
            } else {
                // the matching tail is ordered before the new value
                assert(pred(s[tails[m - 1] as int], s[i]));
                assert(t2[m - 1] == tails[m - 1]);
            }
        } else {
            assert(chain_upto(pred, s, c, i));
            assert(c.len() <= tails.len());
            assert(pred(s[tails[m - 1] as int], x));
            assert(t2[m - 1] == tails[m - 1]);
        }
    }
}

/// Overwriting the leftmost tail that is not ordered before the new value
/// carries the guarantees one position further without growing the buffer.
proof fn lemma_tails_overwrite<T>(
    pred: spec_fn(T, T) -> bool,
    s: Seq<T>,
    tails: Seq<usize>,
    i: int,
    pos: int,
)
    requires
        chain_order(pred),
        tails.len() >= 1,
        0 <= i < s.len(),
        i <= usize::MAX,
        0 <= pos < tails.len(),
        tails_invariant(pred, s, tails, i),
        !pred(s[tails[pos] as int], s[i]),
        pos > 0 ==> pred(s[tails[pos - 1] as int], s[i]),
        !pred(s[tails[tails.len() - 1] as int], s[i]),
    ensures
        tails_invariant(pred, s, tails.update(pos, i as usize), i + 1),
{
    let t2 = tails.update(pos, i as usize);
    assert((i as usize) as int == i);
    let ll = tails.len() as int;
    let v = s[i];
    // tails left of the found position are ordered before the new value
    assert forall|q: int| 0 <= q < pos implies pred(s[tails[q] as int], v) by {
        if q < pos - 1 {
            assert(pred(s[tails[q] as int], s[tails[pos - 1] as int]));
        }
    }
    // and the new value is ordered before the tails right of it
    assert forall|q2: int| pos < q2 < ll implies pred(v, s[tails[q2] as int]) by {
        assert(pred(s[tails[pos] as int], s[tails[q2] as int]));
    }
    assert forall|q: int, q2: int|
        #![trigger t2[q], t2[q2]]
        0 <= q < q2 < t2.len() implies pred(s[t2[q] as int], s[t2[q2] as int]) by {
        if q == pos {
            assert(t2[q2] == tails[q2]);
        } else if q2 == pos {
            assert(t2[q] == tails[q]);
        } else {
            assert(t2[q] == tails[q] && t2[q2] == tails[q2]);
        }
    }
    assert forall|c: Seq<int>| #[trigger] chain_upto(pred, s, c, i + 1) implies c.len()
        <= t2.len() by {
        if c.len() > 0 {
            lemma_chain_step(pred, s, c, i);
            if c[c.len() - 1] < i {
                assert(chain_upto(pred, s, c, i));
            } else {
                let c2 = c.drop_last();
                assert(chain_upto(pred, s, c2, i));
                if c.len() > ll {
                    // a chain of the full length ending here would force the
                    // last tail before the new value
                    assert(c2.len() == ll && c.len() >= 2);
                    assert(pred(s[c2.last()], v));
                    assert(pred(s[tails[ll - 1] as int], v));
                }
            }
        }
    }
    assert forall|c: Seq<int>, x: T|
        #![trigger chain_upto(pred, s, c, i + 1), pred(s[c.last()], x)]
        chain_upto(pred, s, c, i + 1) && 1 <= c.len() <= t2.len() && pred(
            s[c.last()],
            x,
        ) implies pred(s[t2[c.len() - 1] as int], x) by {
        lemma_chain_step(pred, s, c, i);
        let m = c.len() as int;
        if c[m - 1] == i {
            if m - 1 == pos {
                assert(t2[pos] == i as usize);
            } else if m - 1 < pos {
                assert(pred(s[tails[m - 1] as int], v));
                assert(t2[m - 1] == tails[m - 1]);
            } else {
                // no chain this long can end at the new value: its
                // predecessor tail would be ordered before it, against the
                // found position being leftmost
                assert(m >= 2);
                let c2 = c.drop_last();
                assert(chain_upto(pred, s, c2, i) && c2.len() == m - 1 >= 1);
                assert(c2.last() == c[m - 2]);
                assert(pred(s[c2.last()], v));
                assert(pred(s[tails[m - 2] as int], v));
                if m - 2 > pos {
                    assert(pred(s[tails[pos] as int], s[tails[m - 2] as int]));
                    assert(pred(s[tails[pos] as int], v));
                }
            }
        } else {
            assert(chain_upto(pred, s, c, i));
            assert(pred(s[tails[m - 1] as int], x));
            if m - 1 == pos {
                assert(pred(v, x));
                assert(t2[pos] == i as usize);
            } else {
                assert(t2[m - 1] == tails[m - 1]);
            }
        }
    }
}

/// Finds the positions of one longest subsequence whose consecutive elements
/// the comparator accepts, using patience sorting with a binary search over
/// the tails buffer.
///
/// The returned positions are strictly increasing, and the comparator
/// accepted every adjacent pair of the values they select. Whenever the
/// comparator decides a fixed chain-consistent relation, no subsequence
/// ordered by that relation is longer than the result. An empty slice
/// yields an empty result; otherwise at least one position is returned.
pub fn longest_ordered_subsequence_by<T, F: Fn(&T, &T) -> bool + Copy>(
    arr: &Vec<T>,
    is_ordered: F,
) -> (r: Vec<usize>)
    requires
        comparable_everywhere(is_ordered),
    ensures
        arr@.len() == 0 ==> r@.len() == 0,
        arr@.len() > 0 ==> 1 <= r@.len() <= arr@.len(),
        forall|k: int| 0 <= k < r@.len() ==> (#[trigger] r@[k]) < arr@.len(),
        forall|k: int|
            0 < k < r@.len() ==> r@[k - 1] < (#[trigger] r@[k]) && call_ensures(
                is_ordered,
                (&arr@[r@[k - 1] as int], &arr@[r@[k] as int]),
                true,
            ),
        forall|pred: spec_fn(T, T) -> bool|
            #![trigger decides_pairs(is_ordered, pred)]
            decides_pairs(is_ordered, pred) && chain_order(pred) ==> forall|c: Seq<int>|
                #[trigger] is_chain(pred, arr@, c) ==> c.len() <= r@.len(),
{
    let mut result: Vec<usize> = Vec::new();
    if arr.len() == 0 {
        proof {
            assert forall|pred: spec_fn(T, T) -> bool|
                #![trigger decides_pairs(is_ordered, pred)]
                decides_pairs(is_ordered, pred) && chain_order(pred) implies forall|c: Seq<int>|
                #[trigger] is_chain(pred, arr@, c) ==> c.len() <= result@.len() by {
                assert forall|c: Seq<int>| #[trigger] is_chain(pred, arr@, c) implies c.len()
                    <= result@.len() by {
                    if c.len() > 0 {
                        assert(0 <= c[0] < arr@.len());
                    }
                }
            }
        }
        return result;
    }
    let mut prev: Vec<usize> = vec![0; arr.len()];
    result.push(0);
    proof {
        assert(result@ =~= seq![0usize]);
        assert forall|pred: spec_fn(T, T) -> bool|
            #![trigger decides_pairs(is_ordered, pred)]
            decides_pairs(is_ordered, pred) && chain_order(pred) implies tails_invariant(
            pred,
            arr@,
            result@,
            1,
        ) by {
            lemma_tails_init(pred, arr@);
        }
    }

    let mut i: usize = 1;
    while i < arr.len()
        invariant
            1 <= i <= arr@.len(),
            1 <= result@.len() <= i,
            prev@.len() == arr@.len(),
            forall|j: int| 0 <= j < prev@.len() ==> (#[trigger] prev@[j]) < arr@.len(),
            comparable_everywhere(is_ordered),
            forall|k: int| 0 <= k < result@.len() ==> (#[trigger] result@[k]) < i,
            forall|k: int|
                0 <= k < result@.len() ==> chain_ok(
                    is_ordered,
                    arr@,
                    prev@,
                    #[trigger] result@[k] as int,
                    k as nat,
                ),
            forall|pred: spec_fn(T, T) -> bool|
                #![trigger decides_pairs(is_ordered, pred)]
                decides_pairs(is_ordered, pred) && chain_order(pred) ==> tails_invariant(
                    pred,
                    arr@,
                    result@,
                    i as int,
                ),
        decreases arr@.len() - i,
    {
        let last = result[result.len() - 1];
        let ghost res_before = result@;
        let extends = is_ordered(&arr[last], &arr[i]);
        if extends {
            let ghost prev_old = prev@;
            prev.set(i, last);
            proof {
                assert forall|k: int| 0 <= k < result@.len() implies chain_ok(
                    is_ordered,
                    arr@,
                    prev@,
                    #[trigger] result@[k] as int,
                    k as nat,
                ) by {
                    lemma_chain_frame(
                        is_ordered,
                        arr@,
                        prev_old,
                        prev@,
                        result@[k] as int,
                        k as nat,
                    );
                }
                assert(chain_ok(
                    is_ordered,
                    arr@,
                    prev@,
                    i as int,
                    result@.len() as nat,
                ));
            }
            result.push(i);
            proof {
                assert forall|pred: spec_fn(T, T) -> bool|
                    #![trigger decides_pairs(is_ordered, pred)]
                    decides_pairs(is_ordered, pred) && chain_order(pred) implies tails_invariant(
                    pred,
                    arr@,
                    result@,
                    i + 1,
                ) by {
                    assert(call_ensures(is_ordered, (&arr@[last as int], &arr@[i as int]), true));
                    assert(pred(arr@[last as int], arr@[i as int]));
                    assert(res_before[res_before.len() - 1] == last);
                    lemma_tails_extend(pred, arr@, res_before, i as int);
                    assert(result@ == res_before.push(i as usize));
                }
            }
        } else {
            // find the leftmost tail that is not ordered before the new value
            let not_before = |idx: &usize| -> (stops: bool)
                requires
                    *idx < arr@.len(),
                    i < arr@.len(),
                ensures
                    call_ensures(is_ordered, (&arr@[*idx as int], &arr@[i as int]), !stops),
                { !is_ordered(&arr[*idx], &arr[i]) };
            let ghost prev_old = prev@;
            let ghost res_old = result@;
            let pos_opt = binary_first_by(&result, not_before);
            if let Some(pos) = pos_opt {
                if pos > 0 {
                    let p = result[pos - 1];
                    prev.set(i, p);
                }
                result.set(pos, i);
                proof {
                    assert forall|k: int| 0 <= k < result@.len() && k != pos implies chain_ok(
                        is_ordered,
                        arr@,
                        prev@,
                        #[trigger] result@[k] as int,
                        k as nat,
                    ) by {
                        assert(result@[k] == res_old[k]);
                        lemma_chain_frame(
                            is_ordered,
                            arr@,
                            prev_old,
                            prev@,
                            res_old[k] as int,
                            k as nat,
                        );
                    }
                    assert(chain_ok(is_ordered, arr@, prev@, i as int, pos as nat)) by {
                        if pos > 0 {
                            // the tail just left of the found position is
                            // still ordered before the new value
                            assert(call_ensures(not_before, (&res_old[pos - 1],), false));
                            assert(call_ensures(
                                is_ordered,
                                (&arr@[res_old[pos - 1] as int], &arr@[i as int]),
                                true,
                            ));
                            lemma_chain_frame(
                                is_ordered,
                                arr@,
                                prev_old,
                                prev@,
                                res_old[pos - 1] as int,
                                (pos - 1) as nat,
                            );
                        }
                    }
                    assert forall|pred: spec_fn(T, T) -> bool|
                        #![trigger decides_pairs(is_ordered, pred)]
                        decides_pairs(is_ordered, pred) && chain_order(
                            pred,
                        ) implies tails_invariant(pred, arr@, result@, i + 1) by {
                        assert(call_ensures(
                            is_ordered,
                            (&arr@[last as int], &arr@[i as int]),
                            false,
                        ));
                        assert(res_old[res_old.len() - 1] == last);
                        assert(!pred(arr@[res_old[res_old.len() - 1] as int], arr@[i as int]));
                        assert(call_ensures(not_before, (&res_old[pos as int],), true));
                        assert(!pred(arr@[res_old[pos as int] as int], arr@[i as int]));
                        if pos > 0 {
                            assert(call_ensures(not_before, (&res_old[pos - 1],), false));
                            assert(pred(arr@[res_old[pos - 1] as int], arr@[i as int]));
                        }
                        lemma_tails_overwrite(pred, arr@, res_old, i as int, pos as int);
                        assert(result@ == res_old.update(pos as int, i as usize));
                    }
                }
            } else {
                proof {
                    // with a criterion that decides a fixed relation this
                    // cannot happen: the last tail was just rejected, yet a
                    // fruitless search means it was accepted
                    assert forall|pred: spec_fn(T, T) -> bool|
                        #![trigger decides_pairs(is_ordered, pred)]
                        decides_pairs(is_ordered, pred) && chain_order(
                            pred,
                        ) implies tails_invariant(pred, arr@, result@, i + 1) by {
                        assert(call_ensures(
                            is_ordered,
                            (&arr@[last as int], &arr@[i as int]),
                            false,
                        ));
                        assert(res_old[res_old.len() - 1] == last);
                        assert(call_ensures(not_before, (&res_old[res_old.len() - 1],), false));
                        assert(call_ensures(
                            is_ordered,
                            (&arr@[res_old[res_old.len() - 1] as int], &arr@[i as int]),
                            true,
                        ));
                        assert(pred(arr@[last as int], arr@[i as int]));
                        assert(!pred(arr@[last as int], arr@[i as int]));
                    }
                }
            }
        }
        i = i + 1;
    }

    // walk the predecessor chain backward to rebuild the subsequence: the
    // tails buffer itself only carries the right length, not the answer
    let mut u = result.len();
    let mut v = result[result.len() - 1];
    let ghost total = result@.len() as int;
    proof {
        assert forall|pred: spec_fn(T, T) -> bool|
            #![trigger decides_pairs(is_ordered, pred)]
            decides_pairs(is_ordered, pred) && chain_order(pred) implies forall|c: Seq<int>|
            #[trigger] chain_upto(pred, arr@, c, arr@.len() as int) ==> c.len() <= total by {
            assert(tails_invariant(pred, arr@, result@, arr@.len() as int));
        }
    }
    while u != 0
        invariant
            u <= total,
            total == result@.len(),
            forall|pred: spec_fn(T, T) -> bool|
                #![trigger decides_pairs(is_ordered, pred)]
                decides_pairs(is_ordered, pred) && chain_order(pred) ==> forall|c: Seq<int>|
                    #[trigger] chain_upto(pred, arr@, c, arr@.len() as int) ==> c.len() <= total,
            1 <= total <= arr@.len(),
            prev@.len() == arr@.len(),
            forall|j: int| 0 <= j < prev@.len() ==> (#[trigger] prev@[j]) < arr@.len(),
            comparable_everywhere(is_ordered),
            v < arr@.len(),
            u >= 1 ==> chain_ok(is_ordered, arr@, prev@, v as int, (u - 1) as nat),
            1 <= u < total ==> result@[u as int] < arr@.len(),
            1 <= u < total ==> v < result@[u as int] && call_ensures(
                is_ordered,
                (&arr@[v as int], &arr@[result@[u as int] as int]),
                true,
            ),
            forall|k: int| u <= k < total ==> (#[trigger] result@[k]) < arr@.len(),
            forall|k: int|
                u < k < total ==> result@[k - 1] < (#[trigger] result@[k]) && call_ensures(
                    is_ordered,
                    (&arr@[result@[k - 1] as int], &arr@[result@[k] as int]),
                    true,
                ),
        decreases u,
    {
        u = u - 1;
        result.set(u, v);
        proof {
            if u >= 1 {
                assert(chain_ok(is_ordered, arr@, prev@, v as int, u as nat));
                assert(prev@[v as int] < v);
                assert(call_ensures(
                    is_ordered,
                    (&arr@[prev@[v as int] as int], &arr@[v as int]),
                    true,
                ));
                assert(chain_ok(is_ordered, arr@, prev@, prev@[v as int] as int, (u - 1) as nat));
            }
        }
        v = prev[v];
    }
    result
}

/// The positions form an ordered subsequence of the slice: they strictly
/// increase and each selected value follows its predecessor under `order`.
pub open spec fn ordered_chain(order: Order, s: Seq<i64>, c: Seq<int>) -> bool {
    &&& forall|k: int| 0 <= k < c.len() ==> 0 <= #[trigger] c[k] < s.len()
    &&& forall|k: int|
        0 < k < c.len() ==> c[k - 1] < #[trigger] c[k] && ordered(order, s[c[k - 1]], s[c[k]])
}

/// Finds the positions of one longest subsequence ordered by `order`.
///
/// The returned positions are strictly increasing, the values they select
/// are pairwise ordered, and no ordered subsequence of the slice is longer;
/// an empty slice yields an empty result.
#[verifier::rlimit(60)]
pub fn longest_ordered_subsequence(arr: &Vec<i64>, order: Order) -> (r: Vec<usize>)
    ensures
        arr@.len() == 0 ==> r@.len() == 0,
        arr@.len() > 0 ==> 1 <= r@.len() <= arr@.len(),
        forall|k: int| 0 <= k < r@.len() ==> (#[trigger] r@[k]) < arr@.len(),
        forall|k: int|
            0 < k < r@.len() ==> r@[k - 1] < (#[trigger] r@[k]) && ordered(
                order,
                arr@[r@[k - 1] as int],
                arr@[r@[k] as int],
            ),
        forall|c: Seq<int>| #[trigger] ordered_chain(order, arr@, c) ==> c.len() <= r@.len(),
{
    let f = move |a: &i64, b: &i64| -> (res: bool)
        ensures
            res == ordered(order, *a, *b),
        { ordered_exec(order, *a, *b) };
    proof {
        assert forall|a: &i64, b: &i64| #[trigger] call_requires(f, (a, b)) by {}
    }
    let r = longest_ordered_subsequence_by(arr, f);
    proof {
        assert forall|k: int|
            0 < k < r@.len() implies r@[k - 1] < (#[trigger] r@[k]) && ordered(
            order,
            arr@[r@[k - 1] as int],
            arr@[r@[k] as int],
        ) by {
            assert(call_ensures(f, (&arr@[r@[k - 1] as int], &arr@[r@[k] as int]), true));
        }
        let pred = (|a: i64, b: i64| ordered(order, a, b));
        assert(decides_pairs(f, pred));
        assert(chain_order(pred)) by {
            assert forall|a: i64, b: i64, c: i64|
                #![trigger pred(a, b), pred(b, c)]
                pred(a, b) && pred(b, c) implies pred(a, c) by {}
            assert forall|a: i64, b: i64, x: i64|
                #![trigger pred(b, x), pred(b, a)]
                pred(b, x) && !pred(b, a) implies pred(a, x) by {}
        }
        assert forall|c: Seq<int>| #[trigger] ordered_chain(order, arr@, c) implies c.len()
            <= r@.len() by {
            assert(is_chain(pred, arr@, c));
        }
    }
    r
}


/// In a strictly decreasing slice every later value is smaller, no matter
/// how far apart the positions are.
pub proof fn lemma_decreasing_everywhere(s: Seq<i64>, i: int, j: int)
    requires
        crate::sort::order::pairwise_ordered(Order::Decreasing, s),
        0 <= i < j < s.len(),
    ensures
        s[i] > s[j],
    decreases j - i,
{
    if i + 1 < j {
        lemma_decreasing_everywhere(s, i, j - 1);
    }
}

/// A strictly decreasing slice admits no rising pair, so any positions
/// whose values rise from each to the next — as those returned for the
/// increasing order are — can number at most one.
pub proof fn lemma_subsequence_in_decreasing_is_single(s: Seq<i64>, r: Seq<usize>)
    requires
        crate::sort::order::pairwise_ordered(Order::Decreasing, s),
        forall|k: int| 0 <= k < r.len() ==> (#[trigger] r[k]) < s.len(),
        forall|k: int|
            0 < k < r.len() ==> r[k - 1] < (#[trigger] r[k]) && ordered(
                Order::Increasing,
                s[r[k - 1] as int],
                s[r[k] as int],
            ),
    ensures
        r.len() <= 1,
{
    if r.len() > 1 {
        assert(r[0] < r[1] && s[r[0] as int] < s[r[1] as int]);
        lemma_decreasing_everywhere(s, r[0] as int, r[1] as int);
    }
}

} // verus!
