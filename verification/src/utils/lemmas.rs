use vstd::prelude::*;
use vstd::relations::total_ordering;
use vstd::seq_lib::lemma_multiset_commutative;
use vstd::seq_lib::lemma_sorted_unique;
use vstd::relations::sorted_by;

verus! {

/// Updating one position keeps the multiset, provided the removed and the
/// inserted value are exchanged.
pub proof fn lemma_update_to_multiset<T>(s: Seq<T>, i: int, a: T)
    requires
        0 <= i < s.len(),
    ensures
        s.update(i, a).to_multiset() == s.to_multiset().remove(s[i]).insert(a),
{
    assert(s.update(i, a) =~= s.remove(i).insert(i, a));
    vstd::seq_lib::to_multiset_remove(s, i);
    vstd::seq_lib::to_multiset_insert(s.remove(i), i, a);
}

/// Swapping two positions of a sequence keeps its multiset.
pub proof fn lemma_swap_to_multiset<T>(s: Seq<T>, i: int, j: int)
    requires
        0 <= i < s.len(),
        0 <= j < s.len(),
    ensures
        s.update(i, s[j]).update(j, s[i]).to_multiset() == s.to_multiset(),
{
    let s1 = s.update(i, s[j]);
    lemma_update_to_multiset(s, i, s[j]);
    lemma_update_to_multiset(s1, j, s[i]);
    assert(s.to_multiset().contains(s[i])) by {
        vstd::seq_lib::to_multiset_contains(s, s[i]);
        assert(s.contains(s[i]));
    }
    if i == j {
        assert(s.update(i, s[j]).update(j, s[i]) =~= s);
    } else {
        assert(s1[j] == s[j]);
        assert(s1.to_multiset() == s.to_multiset().remove(s[i]).insert(s[j]));
        assert(s1.to_multiset().remove(s1[j]).insert(s[i]) =~= s.to_multiset());
    }
}

/// Swapping two positions inside `[lo, hi)` keeps the multiset of that range
/// and leaves everything outside it untouched.
pub proof fn lemma_swap_in_range<T>(s: Seq<T>, lo: int, hi: int, i: int, j: int)
    requires
        0 <= lo <= i < hi <= s.len(),
        lo <= j < hi,
    ensures
        s.update(i, s[j]).update(j, s[i]).subrange(lo, hi).to_multiset() == s.subrange(
            lo,
            hi,
        ).to_multiset(),
        s.update(i, s[j]).update(j, s[i]).subrange(0, lo) == s.subrange(0, lo),
        s.update(i, s[j]).update(j, s[i]).subrange(hi, s.len() as int) == s.subrange(
            hi,
            s.len() as int,
        ),
{
    let t = s.update(i, s[j]).update(j, s[i]);
    let sub = s.subrange(lo, hi);
    assert(t.subrange(0, lo) =~= s.subrange(0, lo));
    assert(t.subrange(hi, s.len() as int) =~= s.subrange(hi, s.len() as int));
    assert(t.subrange(lo, hi) =~= sub.update(i - lo, sub[j - lo]).update(j - lo, sub[i - lo]));
    lemma_swap_to_multiset(sub, i - lo, j - lo);
}

/// Two ranges with equal multisets hold the same values: every element of the
/// new range already stood somewhere in the old one.
pub proof fn lemma_multiset_elements<T>(s_old: Seq<T>, s_new: Seq<T>)
    requires
        s_new.to_multiset() == s_old.to_multiset(),
    ensures
        forall|k: int| 0 <= k < s_new.len() ==> s_old.contains(#[trigger] s_new[k]),
{
    assert forall|k: int| 0 <= k < s_new.len() implies s_old.contains(#[trigger] s_new[k]) by {
        vstd::seq_lib::to_multiset_contains(s_new, s_new[k]);
        assert(s_new.contains(s_new[k]));
        vstd::seq_lib::to_multiset_contains(s_old, s_new[k]);
    }
}

/// A change confined to `[lo, hi)` that keeps that range's multiset keeps
/// the multiset of the whole sequence.
pub proof fn lemma_frame_multiset<T>(pre: Seq<T>, post: Seq<T>, lo: int, hi: int)
    requires
        pre.len() == post.len(),
        0 <= lo <= hi <= pre.len(),
        post.subrange(0, lo) == pre.subrange(0, lo),
        post.subrange(hi, post.len() as int) == pre.subrange(hi, pre.len() as int),
        post.subrange(lo, hi).to_multiset() == pre.subrange(lo, hi).to_multiset(),
    ensures
        post.to_multiset() == pre.to_multiset(),
{
    let len = pre.len() as int;
    assert(pre =~= pre.subrange(0, lo) + pre.subrange(lo, hi) + pre.subrange(hi, len));
    assert(post =~= post.subrange(0, lo) + post.subrange(lo, hi) + post.subrange(hi, len));
    lemma_multiset_commutative(pre.subrange(0, lo) + pre.subrange(lo, hi), pre.subrange(hi, len));
    lemma_multiset_commutative(pre.subrange(0, lo), pre.subrange(lo, hi));
    lemma_multiset_commutative(
        post.subrange(0, lo) + post.subrange(lo, hi),
        post.subrange(hi, len),
    );
    lemma_multiset_commutative(post.subrange(0, lo), post.subrange(lo, hi));
    assert(post.to_multiset() =~= pre.to_multiset());
}

/// Positions outside `[lo, hi)` hold the same value before and after a
/// change whose frame leaves them untouched.
pub proof fn lemma_frame_pointwise<T>(pre: Seq<T>, post: Seq<T>, lo: int, hi: int)
    requires
        pre.len() == post.len(),
        0 <= lo <= hi <= pre.len(),
        post.subrange(0, lo) == pre.subrange(0, lo),
        post.subrange(hi, post.len() as int) == pre.subrange(hi, pre.len() as int),
    ensures
        forall|i: int| 0 <= i < lo ==> #[trigger] post[i] == pre[i],
        forall|i: int| hi <= i < pre.len() ==> #[trigger] post[i] == pre[i],
{
    let len = pre.len() as int;
    assert forall|i: int| 0 <= i < lo implies #[trigger] post[i] == pre[i] by {
        assert(post.subrange(0, lo)[i] == post[i]);
        assert(pre.subrange(0, lo)[i] == pre[i]);
    }
    assert forall|i: int| hi <= i < len implies #[trigger] post[i] == pre[i] by {
        assert(post.subrange(hi, len)[i - hi] == post[i]);
        assert(pre.subrange(hi, len)[i - hi] == pre[i]);
    }
}

/// A sequence whose position `n` splits it into a lower and an upper part
/// under a total order carries, at `n`, exactly the element that a fully
/// sorted copy of any permutation of it carries there; the parts on either
/// side match the sorted copy's parts as multisets.
pub proof fn lemma_selected_rank<T>(s_old: Seq<T>, s_new: Seq<T>, n: int, leq: spec_fn(T, T) -> bool)
    requires
        total_ordering(leq),
        s_old.len() == s_new.len(),
        0 <= n < s_new.len(),
        s_new.to_multiset() == s_old.to_multiset(),
        forall|i: int| 0 <= i < n ==> leq(#[trigger] s_new[i], s_new[n]),
        forall|i: int| n < i < s_new.len() ==> leq(s_new[n], #[trigger] s_new[i]),
    ensures
        s_old.sort_by(leq)[n] == s_new[n],
        s_old.sort_by(leq).subrange(0, n).to_multiset() == s_new.subrange(0, n).to_multiset(),
        s_old.sort_by(leq).subrange(n + 1, s_old.len() as int).to_multiset() == s_new.subrange(
            n + 1,
            s_new.len() as int,
        ).to_multiset(),
{
    let len = s_new.len() as int;
    let a = s_new.subrange(0, n);
    let c = s_new.subrange(n + 1, len);
    let asorted = a.sort_by(leq);
    let csorted = c.sort_by(leq);
    a.lemma_sort_by_ensures(leq);
    c.lemma_sort_by_ensures(leq);
    let cand = asorted + seq![s_new[n]] + csorted;
    assert(asorted.len() == n && csorted.len() == len - n - 1) by {
        vstd::seq_lib::to_multiset_len(a);
        vstd::seq_lib::to_multiset_len(asorted);
        vstd::seq_lib::to_multiset_len(c);
        vstd::seq_lib::to_multiset_len(csorted);
    }

    assert forall|i: int| 0 <= i < asorted.len() implies leq(#[trigger] asorted[i], s_new[n]) by {
        lemma_multiset_elements(a, asorted);
        let k0 = choose|k0: int| 0 <= k0 < a.len() && a[k0] == asorted[i];
        assert(a[k0] == s_new[k0]);
    }
    assert forall|i: int| 0 <= i < csorted.len() implies leq(s_new[n], #[trigger] csorted[i]) by {
        lemma_multiset_elements(c, csorted);
        let k0 = choose|k0: int| 0 <= k0 < c.len() && c[k0] == csorted[i];
        assert(c[k0] == s_new[n + 1 + k0]);
    }
    assert(sorted_by(cand, leq)) by {
        assert forall|i: int, j: int| 0 <= i < j < cand.len() implies leq(cand[i], cand[j]) by {
            if j < n {
                assert(cand[i] == asorted[i] && cand[j] == asorted[j]);
            } else if j == n {
                assert(cand[j] == s_new[n]);
                assert(leq(asorted[i], s_new[n]));
            } else {
                assert(cand[j] == csorted[j - n - 1]);
                assert(leq(s_new[n], cand[j]));
                if i < n {
                    assert(leq(cand[i], s_new[n]));
                } else if i == n {
                    assert(cand[i] == s_new[n]);
                } else {
                    assert(cand[i] == csorted[i - n - 1] && cand[j] == csorted[j - n - 1]);
                }
            }
        }
    }
    assert(cand.to_multiset() == s_new.to_multiset()) by {
        assert(s_new =~= a + seq![s_new[n]] + c);
        lemma_multiset_commutative(asorted + seq![s_new[n]], csorted);
        lemma_multiset_commutative(asorted, seq![s_new[n]]);
        lemma_multiset_commutative(a + seq![s_new[n]], c);
        lemma_multiset_commutative(a, seq![s_new[n]]);
        assert(cand.to_multiset() =~= s_new.to_multiset());
    }
    s_old.lemma_sort_by_ensures(leq);
    lemma_sorted_unique(cand, s_old.sort_by(leq), leq);
    assert(cand =~= s_old.sort_by(leq));
    assert(cand[n] == s_new[n]);
    assert(s_old.sort_by(leq).subrange(0, n) =~= asorted);
    assert(s_old.sort_by(leq).subrange(n + 1, len) =~= csorted);
}

} // verus!
