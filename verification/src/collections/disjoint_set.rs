use vstd::prelude::*;
use vstd::arithmetic::power2::pow2;
use vstd::set_lib::lemma_len_subset;
use vstd::set_lib::set_int_range;
use std::collections::HashMap;

verus! {

/// One node of the union-find forest: a parent link and a rank bounding the
/// height of the subtree below the node.
#[derive(Clone, Copy)]
pub struct Data {
    pub parent: usize,
    pub rank: u64,
}

impl Data {
    /// A fresh node forming its own singleton tree.
    pub fn new(id: usize) -> (d: Data)
        ensures
            d.parent == id,
            d.rank == 0,
    {
        Data { parent: id, rank: 0 }
    }
}

/// The parent links form a forest: they stay in range, and ranks climb
/// strictly along them, which rules out cycles.
pub open spec fn forest_ok(d: Seq<Data>) -> bool {
    forall|i: int|
        0 <= i < d.len() ==> {
            &&& (#[trigger] d[i]).parent < d.len()
            &&& (d[i].parent != i ==> d[i].rank < d[d[i].parent as int].rank)
        }
}

/// Node `i` is the canonical representative of its tree.
pub open spec fn is_root(d: Seq<Data>, i: int) -> bool {
    0 <= i < d.len() && d[i].parent == i
}

/// Walks up to `fuel` parent links from node `i`.
pub open spec fn root_from(d: Seq<Data>, i: int, fuel: nat) -> int
    decreases fuel,
{
    if fuel == 0 || !(0 <= i < d.len()) {
        i
    } else if d[i].parent == i {
        i
    } else {
        root_from(d, d[i].parent as int, (fuel - 1) as nat)
    }
}

/// The canonical representative of the tree that node `i` belongs to.
pub open spec fn root_of(d: Seq<Data>, i: int) -> int {
    root_from(d, i, d.len() as nat)
}

/// Once the walk has reached a root, more fuel does not change the outcome.
proof fn lemma_root_from_stable(d: Seq<Data>, i: int, f1: nat, f2: nat)
    requires
        is_root(d, root_from(d, i, f1)),
        f1 <= f2,
    ensures
        root_from(d, i, f2) == root_from(d, i, f1),
    decreases f1,
{
    if f1 == 0 {
        // the start itself is a root, so any walk stays there
    } else if 0 <= i < d.len() && d[i].parent != i {
        lemma_root_from_stable(d, d[i].parent as int, (f1 - 1) as nat, (f2 - 1) as nat);
    }
}

/// Ranks climb strictly along parent links, so a walk whose fuel covers the
/// nodes not yet visited always reaches a root, one of rank at least the
/// start's.
proof fn lemma_root_reached(d: Seq<Data>, i: int, seen: Set<int>)
    requires
        forest_ok(d),
        0 <= i < d.len(),
        seen.finite(),
        seen.subset_of(set_int_range(0, d.len() as int)),
        forall|s: int| seen.contains(s) ==> d[s].rank < d[i].rank,
    ensures
        is_root(d, root_from(d, i, (d.len() - seen.len()) as nat)),
        d[i].rank <= d[root_from(d, i, (d.len() - seen.len()) as nat)].rank,
        d[i].parent != i ==> d[i].rank < d[root_from(d, i, (d.len() - seen.len()) as nat)].rank,
    decreases d.len() - seen.len(),
{
    vstd::set_lib::lemma_int_range(0, d.len() as int);
    lemma_len_subset(seen, set_int_range(0, d.len() as int));
    assert(!seen.contains(i));
    assert(seen.len() < d.len()) by {
        assert(seen.insert(i).subset_of(set_int_range(0, d.len() as int)));
        lemma_len_subset(seen.insert(i), set_int_range(0, d.len() as int));
    }
    let fuel = (d.len() - seen.len()) as nat;
    if d[i].parent == i {
    } else {
        let p = d[i].parent as int;
        let seen2 = seen.insert(i);
        lemma_root_reached(d, p, seen2);
        assert(root_from(d, i, fuel) == root_from(d, p, (fuel - 1) as nat));
        assert((d.len() - seen2.len()) as nat == (fuel - 1) as nat);
    }
}

/// The basic facts about representatives in a well-formed forest: they are
/// roots, they absorb one parent step, and their rank dominates.
pub proof fn lemma_root_of_props(d: Seq<Data>, i: int)
    requires
        forest_ok(d),
        0 <= i < d.len(),
    ensures
        is_root(d, root_of(d, i)),
        0 <= root_of(d, i) < d.len(),
        d[i].parent == i ==> root_of(d, i) == i,
        d[i].parent != i ==> root_of(d, i) == root_of(d, d[i].parent as int),
        d[i].rank <= d[root_of(d, i)].rank,
        d[i].parent != i ==> d[i].rank < d[root_of(d, i)].rank,
{
    lemma_root_reached(d, i, Set::empty());
    assert(Set::<int>::empty().len() == 0);
    assert(root_of(d, i) == root_from(d, i, d.len() as nat));
    if d[i].parent != i {
        let p = d[i].parent as int;
        lemma_root_reached(d, p, Set::empty().insert(i));
        assert(Set::<int>::empty().insert(i).len() == 1);
        assert(root_from(d, i, d.len() as nat) == root_from(d, p, (d.len() - 1) as nat));
        lemma_root_from_stable(d, p, (d.len() - 1) as nat, d.len() as nat);
    }
}

/// The set of nodes whose representative is `r`.
pub open spec fn members(d: Seq<Data>, r: int) -> Set<int> {
    Set::new(|i: int| 0 <= i < d.len() && root_of(d, i) == r)
}

/// Member sets are finite and no larger than the forest.
proof fn lemma_members_finite(d: Seq<Data>, r: int)
    ensures
        members(d, r).finite(),
        members(d, r).len() <= d.len(),
{
    vstd::set_lib::lemma_int_range(0, d.len() as int);
    assert(members(d, r).subset_of(set_int_range(0, d.len() as int)));
    vstd::set_lib::lemma_len_subset(members(d, r), set_int_range(0, d.len() as int));
}

/// Union by rank keeps every tree big enough for its root's rank: a tree
/// whose root has rank `k` holds at least `2^k` nodes. This is the invariant
/// that bounds tree heights logarithmically.
pub open spec fn ranks_justified(d: Seq<Data>) -> bool {
    forall|r: int| #[trigger] is_root(d, r) ==> pow2(d[r].rank as nat) <= members(d, r).len()
}

/// A well-formed forest.
pub open spec fn wf_forest(d: Seq<Data>) -> bool {
    forest_ok(d) && ranks_justified(d)
}

/// Two forests of equal size whose representatives, ranks and root flags
/// agree everywhere have the same member sets, so one justifies its ranks
/// exactly when the other does.
proof fn lemma_wf_transfer(d1: Seq<Data>, d2: Seq<Data>)
    requires
        d1.len() == d2.len(),
        forest_ok(d2),
        ranks_justified(d1),
        forall|j: int| 0 <= j < d1.len() ==> root_of(d1, j) == root_of(d2, j),
        forall|j: int| 0 <= j < d1.len() ==> (#[trigger] d1[j]).rank == d2[j].rank,
        forall|j: int| is_root(d1, j) <==> is_root(d2, j),
    ensures
        ranks_justified(d2),
{
    assert forall|r: int| #[trigger] is_root(d2, r) implies pow2(d2[r].rank as nat) <= members(
        d2,
        r,
    ).len() by {
        assert(is_root(d1, r));
        assert(members(d1, r) =~= members(d2, r));
        assert(d1[r].rank == d2[r].rank);
    }
}

/// Two disjoint finite sets together hold exactly the sum of their sizes.
proof fn lemma_len_disjoint_union<A>(s1: Set<A>, s2: Set<A>)
    requires
        s1.finite(),
        s2.finite(),
        s1.disjoint(s2),
    ensures
        s1.union(s2).len() == s1.len() + s2.len(),
    decreases s1.len(),
{
    if s1.is_empty() {
        assert(s1.union(s2) =~= s2);
    } else {
        let a = s1.choose();
        assert(s1.union(s2).remove(a) =~= s1.remove(a).union(s2));
        lemma_len_disjoint_union(s1.remove(a), s2);
        assert(s1.union(s2).contains(a));
    }
}

/// Every number is smaller than two to its power.
proof fn lemma_below_pow2(e: nat)
    ensures
        e < pow2(e),
    decreases e,
{
    vstd::arithmetic::power2::lemma_pow2_pos(e);
    if e > 0 {
        lemma_below_pow2((e - 1) as nat);
        vstd::arithmetic::power2::lemma_pow2_unfold(e);
        vstd::arithmetic::power2::lemma_pow2_pos((e - 1) as nat);
    }
}

/// Appending a fresh singleton root leaves every old node's representative,
/// rank and root flag alone.
proof fn lemma_append_root(d: Seq<Data>)
    requires
        forest_ok(d),
        d.len() < usize::MAX,
    ensures
        ({
            let d2 = d.push(Data { parent: d.len() as usize, rank: 0 });
            &&& forest_ok(d2)
            &&& is_root(d2, d.len() as int)
            &&& root_of(d2, d.len() as int) == d.len() as int
            &&& forall|j: int| 0 <= j < d.len() ==> root_of(d2, j) == #[trigger] root_of(d, j)
            &&& forall|j: int| 0 <= j < d.len() ==> (is_root(d2, j) <==> #[trigger] is_root(d, j))
        }),
{
    let d2 = d.push(Data { parent: d.len() as usize, rank: 0 });
    assert(d2[d.len() as int].parent == d.len());
    assert forall|j: int| 0 <= j < d.len() implies root_of(d2, j) == #[trigger] root_of(d, j) by {
        lemma_append_path(d, d2, j, d2.len() as nat);
        lemma_root_of_props(d, j);
        lemma_root_from_stable(d, j, d.len() as nat, d2.len() as nat);
    }
}

/// A walk through the old part of an extended forest never sees the new
/// node, so it goes exactly as before.
proof fn lemma_append_path(d: Seq<Data>, d2: Seq<Data>, j: int, fuel: nat)
    requires
        forest_ok(d),
        d.len() < usize::MAX,
        d2 == d.push(Data { parent: d.len() as usize, rank: 0 }),
        0 <= j < d.len(),
    ensures
        root_from(d2, j, fuel) == root_from(d, j, fuel),
    decreases fuel,
{
    if fuel > 0 && d[j].parent != j {
        lemma_append_path(d, d2, d[j].parent as int, (fuel - 1) as nat);
    }
}

/// Rewriting one non-root node's parent straight to its representative
/// changes no node's representative, rank or root flag.
proof fn lemma_compress(d: Seq<Data>, c: int)
    requires
        forest_ok(d),
        0 <= c < d.len(),
        d[c].parent != c,
    ensures
        ({
            let d2 = d.update(c, Data { parent: root_of(d, c) as usize, rank: d[c].rank });
            &&& forest_ok(d2)
            &&& forall|j: int| 0 <= j < d.len() ==> root_of(d2, j) == #[trigger] root_of(d, j)
            &&& forall|j: int| is_root(d2, j) <==> #[trigger] is_root(d, j)
        }),
{
    lemma_root_of_props(d, c);
    let r = root_of(d, c);
    let d2 = d.update(c, Data { parent: r as usize, rank: d[c].rank });
    assert(r != c);
    assert(forest_ok(d2)) by {
        assert forall|i: int| 0 <= i < d2.len() implies {
            &&& (#[trigger] d2[i]).parent < d2.len()
            &&& (d2[i].parent != i ==> d2[i].rank < d2[d2[i].parent as int].rank)
        } by {
            if i == c {
                assert(d2[c].parent == r && d[c].rank < d[r].rank);
            } else {
                assert(d2[i] == d[i]);
            }
        }
    }
    assert forall|j: int| 0 <= j < d.len() implies root_of(d2, j) == #[trigger] root_of(d, j) by {
        lemma_compress_path(d, d2, c, j, Set::empty());
        lemma_root_from_stable(d2, j, (d2.len() - 0) as nat, d2.len() as nat);
    }
    assert forall|j: int| is_root(d2, j) <==> #[trigger] is_root(d, j) by {
        if 0 <= j < d.len() && j == c {
            assert(d2[c].parent == r && r != c);
        }
    }
}

/// The walk in the compressed forest lands on the same representative.
proof fn lemma_compress_path(d: Seq<Data>, d2: Seq<Data>, c: int, j: int, seen: Set<int>)
    requires
        forest_ok(d),
        0 <= c < d.len(),
        d[c].parent != c,
        d2 == d.update(c, Data { parent: root_of(d, c) as usize, rank: d[c].rank }),
        0 <= j < d.len(),
        seen.finite(),
        seen.subset_of(set_int_range(0, d.len() as int)),
        forall|s: int| seen.contains(s) ==> d[s].rank < d[j].rank,
    ensures
        root_from(d2, j, (d.len() - seen.len()) as nat) == root_of(d, j),
        is_root(d2, root_of(d, j)),
    decreases d.len() - seen.len(),
{
    vstd::set_lib::lemma_int_range(0, d.len() as int);
    lemma_len_subset(seen, set_int_range(0, d.len() as int));
    assert(!seen.contains(j));
    assert(seen.len() < d.len()) by {
        assert(seen.insert(j).subset_of(set_int_range(0, d.len() as int)));
        lemma_len_subset(seen.insert(j), set_int_range(0, d.len() as int));
    }
    let fuel = (d.len() - seen.len()) as nat;
    lemma_root_of_props(d, j);
    let r = root_of(d, c);
    lemma_root_of_props(d, c);
    assert(r != c);
    assert(d2[r] == d[r]);
    if d[j].parent == j {
        assert(d2[j] == d[j]);
        assert(root_of(d, j) == j);
    } else if j == c {
        assert(d2[c].parent == r);
        assert(root_from(d2, c, fuel) == root_from(d2, r, (fuel - 1) as nat));
        assert(root_from(d2, r, (fuel - 1) as nat) == r);
        assert(root_of(d, c) == r);
    } else {
        let p = d[j].parent as int;
        assert(d2[j] == d[j]);
        lemma_compress_path(d, d2, c, p, seen.insert(j));
        assert(root_from(d2, j, fuel) == root_from(d2, p, (fuel - 1) as nat));
        assert(root_of(d, j) == root_of(d, p));
    }
}

/// Hanging root `b` under root `a`, possibly raising `a`'s rank, redirects
/// exactly `b`'s tree to `a` and keeps the forest well formed.
proof fn lemma_link(d: Seq<Data>, a: int, b: int, new_rank: u64)
    requires
        forest_ok(d),
        is_root(d, a),
        is_root(d, b),
        a != b,
        d[b].rank < new_rank || d[b].rank < d[a].rank,
        d[a].rank <= new_rank,
    ensures
        ({
            let d2 = d.update(b, Data { parent: a as usize, rank: d[b].rank }).update(
                a,
                Data { parent: a as usize, rank: new_rank },
            );
            &&& forest_ok(d2)
            &&& is_root(d2, a)
            &&& forall|j: int|
                0 <= j < d.len() ==> root_of(d2, j) == (if root_of(d, j) == b {
                    a
                } else {
                    root_of(d, j)
                })
            &&& forall|j: int| j != b ==> (is_root(d2, j) <==> #[trigger] is_root(d, j))
        }),
{
    let d2 = d.update(b, Data { parent: a as usize, rank: d[b].rank }).update(
        a,
        Data { parent: a as usize, rank: new_rank },
    );
    assert(forest_ok(d2)) by {
        assert forall|i: int| 0 <= i < d2.len() implies {
            &&& (#[trigger] d2[i]).parent < d2.len()
            &&& (d2[i].parent != i ==> d2[i].rank < d2[d2[i].parent as int].rank)
        } by {
            if i == b {
                assert(d2[b].parent == a && d2[b].rank == d[b].rank && d2[a].rank == new_rank);
            } else if i == a {
            } else {
                assert(d2[i] == d[i]);
                if d[i].parent != i {
                    assert(d[i].rank < d[d[i].parent as int].rank);
                    assert(d2[d[i].parent as int].rank >= d[d[i].parent as int].rank);
                }
            }
        }
    }
    assert forall|j: int| 0 <= j < d.len() implies root_of(d2, j) == (if root_of(d, j) == b {
        a
    } else {
        root_of(d, j)
    }) by {
        lemma_link_path(d, d2, a, b, new_rank, j, Set::empty());
        lemma_root_from_stable(d2, j, (d.len() - 0) as nat, d2.len() as nat);
    }
    assert forall|j: int| j != b implies (is_root(d2, j) <==> #[trigger] is_root(d, j)) by {
        if 0 <= j < d.len() && j != a {
            assert(d2[j] == d[j]);
        }
    }
}

/// The walk in the linked forest lands on the merged representative.
proof fn lemma_link_path(d: Seq<Data>, d2: Seq<Data>, a: int, b: int, new_rank: u64, j: int, seen: Set<int>)
    requires
        forest_ok(d),
        is_root(d, a),
        is_root(d, b),
        a != b,
        d2 == d.update(b, Data { parent: a as usize, rank: d[b].rank }).update(
            a,
            Data { parent: a as usize, rank: new_rank },
        ),
        0 <= j < d.len(),
        seen.finite(),
        seen.subset_of(set_int_range(0, d.len() as int)),
        forall|s: int| seen.contains(s) ==> d[s].rank < d[j].rank,
    ensures
        root_from(d2, j, (d.len() - seen.len()) as nat) == (if root_of(d, j) == b {
            a
        } else {
            root_of(d, j)
        }),
        is_root(d2, root_from(d2, j, (d.len() - seen.len()) as nat)),
    decreases d.len() - seen.len(),
{
    vstd::set_lib::lemma_int_range(0, d.len() as int);
    lemma_len_subset(seen, set_int_range(0, d.len() as int));
    assert(!seen.contains(j));
    assert(seen.len() < d.len()) by {
        assert(seen.insert(j).subset_of(set_int_range(0, d.len() as int)));
        lemma_len_subset(seen.insert(j), set_int_range(0, d.len() as int));
    }
    let fuel = (d.len() - seen.len()) as nat;
    lemma_root_of_props(d, j);
    if j == a {
        assert(d2[a].parent == a);
        assert(root_of(d, a) == a);
    } else if j == b {
        assert(d2[b].parent == a);
        assert(root_from(d2, b, fuel) == root_from(d2, a, (fuel - 1) as nat));
        assert(d2[a].parent == a);
        assert(root_from(d2, a, (fuel - 1) as nat) == a);
        assert(root_of(d, b) == b);
    } else if d[j].parent == j {
        assert(d2[j] == d[j]);
        assert(root_of(d, j) == j);
    } else {
        let p = d[j].parent as int;
        assert(d2[j] == d[j]);
        lemma_link_path(d, d2, a, b, new_rank, p, seen.insert(j));
        assert(root_from(d2, j, fuel) == root_from(d2, p, (fuel - 1) as nat));
        assert(root_of(d, j) == root_of(d, p));
    }
}


/// Linking by rank keeps every tree big enough for its root's rank: the
/// merged tree inherits both member sets, which are disjoint, so a raised
/// rank is paid for by the doubled size.
proof fn lemma_link_justified(d: Seq<Data>, a: int, b: int, new_rank: u64)
    requires
        wf_forest(d),
        is_root(d, a),
        is_root(d, b),
        a != b,
        d[b].rank <= d[a].rank,
        d[a].rank == d[b].rank ==> new_rank == d[a].rank + 1,
        d[a].rank != d[b].rank ==> new_rank == d[a].rank,
    ensures
        wf_forest(
            d.update(b, Data { parent: a as usize, rank: d[b].rank }).update(
                a,
                Data { parent: a as usize, rank: new_rank },
            ),
        ),
{
    lemma_link(d, a, b, new_rank);
    let d2 = d.update(b, Data { parent: a as usize, rank: d[b].rank }).update(
        a,
        Data { parent: a as usize, rank: new_rank },
    );
    assert forall|r: int| #[trigger] is_root(d2, r) implies pow2(d2[r].rank as nat) <= members(
        d2,
        r,
    ).len() by {
        lemma_members_finite(d2, r);
        lemma_members_finite(d, r);
        if r == a {
            let ma = members(d, a);
            let mb = members(d, b);
            assert(members(d2, r) =~= ma.union(mb));
            lemma_members_finite(d, b);
            assert(ma.disjoint(mb));
            lemma_len_disjoint_union(ma, mb);
            assert(pow2(d[a].rank as nat) <= ma.len());
            assert(pow2(d[b].rank as nat) <= mb.len());
            if d[a].rank == d[b].rank {
                vstd::arithmetic::power2::lemma_pow2_unfold(new_rank as nat);
            }
        } else {
            assert(r != b);
            assert(is_root(d, r));
            assert(members(d2, r) =~= members(d, r));
            assert(d2[r].rank == d[r].rank);
        }
    }
}


/// After redirecting one representative onto the other, two elements share
/// a subset exactly when the merged relation says so.
#[verifier::rlimit(100)]
proof fn lemma_union_merges(
    pre: DisjointSet,
    s2: DisjointSet,
    s4: DisjointSet,
    post: DisjointSet,
    a: i64,
    b: i64,
    hi: int,
    lo: int,
)
    requires
        forall|x: i64, y: i64|
            #![trigger s2.same_set(x, y)]
            s2.same_set(x, y) <==> pre.seeded(a, b, x, y),
        forall|x: i64| s2.contains_el(x) <==> pre.contains_el(x) || x == a || x == b,
        forall|x: i64, y: i64|
            #![trigger s4.same_set(x, y)]
            s4.same_set(x, y) <==> s2.same_set(x, y),
        s4.ids@ == s2.ids@,
        post.ids@ == s4.ids@,
        forall|k: i64| s4.ids@.contains_key(k) ==> s4.ids@[k] < s4.data@.len(),
        post.data@.len() == s4.data@.len(),
        s4.contains_el(a),
        s4.contains_el(b),
        s4.rep_of(a) == hi || s4.rep_of(a) == lo,
        s4.rep_of(b) == hi || s4.rep_of(b) == lo,
        s4.rep_of(a) != s4.rep_of(b),
        forall|j: int|
            0 <= j < s4.data@.len() ==> root_of(post.data@, j) == (if root_of(s4.data@, j) == lo {
                hi
            } else {
                root_of(s4.data@, j)
            }),
    ensures
        forall|x: i64, y: i64|
            #![trigger post.same_set(x, y)]
            post.same_set(x, y) <==> pre.joined(a, b, x, y),
{
    assert forall|x: i64, y: i64|
        #![trigger post.same_set(x, y)]
        post.same_set(x, y) <==> pre.joined(a, b, x, y) by {
        if s4.contains_el(x) && s4.contains_el(y) {
            assert(post.rep_of(x) == (if s4.rep_of(x) == lo {
                hi
            } else {
                s4.rep_of(x)
            }));
            assert(post.rep_of(y) == (if s4.rep_of(y) == lo {
                hi
            } else {
                s4.rep_of(y)
            }));
            assert(s4.same_set(x, y) <==> s2.same_set(x, y));
            assert(s4.same_set(x, a) <==> s2.same_set(x, a));
            assert(s4.same_set(x, b) <==> s2.same_set(x, b));
            assert(s4.same_set(a, y) <==> s2.same_set(a, y));
            assert(s4.same_set(b, y) <==> s2.same_set(b, y));
        }
    }
}

/// Implementation of the disjoint-set data structure with path compression
/// and union by rank, over machine integer elements.
///
/// Also known as union-find, it tracks a collection of elements partitioned
/// into disjoint subsets: `union` merges the subsets of two elements, and
/// `in_union` asks whether two elements have been merged into one subset.
pub struct DisjointSet {
    ids: HashMap<i64, usize>,
    data: Vec<Data>,
}

impl DisjointSet {
    /// The bookkeeping is intact: every element maps to one node, and the
    /// nodes form a well-formed forest.
    pub closed spec fn wf(self) -> bool {
        &&& wf_forest(self.data@)
        &&& self.ids@.dom().finite()
        &&& self.ids@.dom().len() == self.data@.len()
        &&& forall|k: i64| self.ids@.contains_key(k) ==> self.ids@[k] < self.data@.len()
    }

    /// The element has been registered in the structure.
    pub closed spec fn contains_el(self, x: i64) -> bool {
        self.ids@.contains_key(x)
    }

    /// The canonical representative of the element's subset.
    pub closed spec fn rep_of(self, x: i64) -> int
        recommends
            self.contains_el(x),
    {
        root_of(self.data@, self.ids@[x] as int)
    }

    /// Both elements are registered and share one subset.
    pub closed spec fn same_set(self, x: i64, y: i64) -> bool {
        self.contains_el(x) && self.contains_el(y) && self.rep_of(x) == self.rep_of(y)
    }

    /// The number of elements registered so far.
    pub closed spec fn el_count(self) -> nat {
        self.ids@.dom().len()
    }

    /// How connectivity looks once `a` and `b` have been registered (as
    /// singletons where they were absent): old subsets are kept, and each
    /// element is at least in a subset with itself.
    pub open spec fn seeded(self, a: i64, b: i64, x: i64, y: i64) -> bool {
        self.same_set(x, y) || (x == y && (self.contains_el(x) || x == a || x == b))
    }

    /// How connectivity looks after the subsets of `a` and `b` have been
    /// merged on top of that: two elements share a subset exactly when they
    /// already did, or when one hangs together with `a` and the other with
    /// `b`.
    pub open spec fn joined(self, a: i64, b: i64, x: i64, y: i64) -> bool {
        ||| self.seeded(a, b, x, y)
        ||| (self.seeded(a, b, x, a) && self.seeded(a, b, b, y))
        ||| (self.seeded(a, b, x, b) && self.seeded(a, b, a, y))
    }

    /// Creates a new, empty `DisjointSet`.
    pub fn new() -> (ds: DisjointSet)
        ensures
            ds.wf(),
            ds.el_count() == 0,
            forall|x: i64| !ds.contains_el(x),
            forall|x: i64, y: i64| !ds.same_set(x, y),
    {
        let ds = DisjointSet { ids: HashMap::new(), data: Vec::new() };
        proof {
            assert(ds.ids@.dom() =~= Set::<i64>::empty());
        }
        ds
    }

    /// Creates an empty `DisjointSet` able to hold at least `capacity`
    /// elements without reallocating.
    pub fn with_capacity(capacity: usize) -> (ds: DisjointSet)
        ensures
            ds.wf(),
            ds.el_count() == 0,
            forall|x: i64| !ds.contains_el(x),
            forall|x: i64, y: i64| !ds.same_set(x, y),
    {
        let ds = DisjointSet {
            ids: HashMap::with_capacity(capacity),
            data: Vec::with_capacity(capacity),
        };
        proof {
            assert(ds.ids@.dom() =~= Set::<i64>::empty());
        }
        ds
    }

    /// Registers the element if it is new and hands back its node: existing
    /// subsets are untouched, a fresh element becomes its own singleton.
    fn make_or_get_set(&mut self, val: i64) -> (id: usize)
        requires
            old(self).wf(),
        ensures
            final(self).wf(),
            (id as int) < final(self).data@.len(),
            final(self).ids@.contains_key(val) && final(self).ids@[val] == id,
            final(self).data@.len() == old(self).data@.len() + (if old(self).contains_el(val) {
                0int
            } else {
                1int
            }),
            forall|k: i64|
                final(self).contains_el(k) <==> old(self).contains_el(k) || k == val,
            forall|k: i64|
                old(self).ids@.contains_key(k) ==> final(self).ids@[k] == old(self).ids@[k],
            forall|j: int|
                0 <= j < old(self).data@.len() ==> root_of(final(self).data@, j) == #[trigger] root_of(
                    old(self).data@,
                    j,
                ),
            forall|x: i64, y: i64|
                final(self).same_set(x, y) <==> old(self).same_set(x, y) || (x == y
                    && final(self).contains_el(x)),
    {
        let id_opt = self.ids.get(&val);
        match id_opt {
            Some(id_ref) => {
                let id = *id_ref;
                proof {
                    assert(self.ids@.contains_key(val) && self.ids@[val] == id);
                    assert forall|x: i64, y: i64|
                        self.same_set(x, y) <==> old(self).same_set(x, y) || (x == y
                            && self.contains_el(x)) by {}
                }
                id
            },
            None => {
                let id = self.data.len();
                proof {
                    assert(self.ids@.dom().len() == self.data@.len());
                }
                self.ids.insert(val, id);
                let ghost d_old = self.data@;
                self.data.push(Data::new(id));
                proof {
                    assert(d_old.len() < usize::MAX) by {
                        assert(self.data@.len() == vstd::std_specs::vec::spec_vec_len(&self.data));
                    }
                    lemma_append_root(d_old);
                    assert(self.data@ == d_old.push(Data { parent: d_old.len() as usize, rank: 0 }));
                    assert(self.ids@.dom() =~= old(self).ids@.dom().insert(val));
                    assert(self.ids@.dom().len() == d_old.len() + 1);
                    // the fresh node is its own singleton subset
                    assert(self.wf()) by {
                        assert(forest_ok(self.data@));
                        assert forall|r: int| #[trigger] is_root(self.data@, r) implies pow2(
                            self.data@[r].rank as nat,
                        ) <= members(self.data@, r).len() by {
                            lemma_members_finite(self.data@, r);
                            lemma_members_finite(d_old, r);
                            if r == d_old.len() {
                                assert(members(self.data@, r).contains(r));
                                assert(Set::<int>::empty().insert(r).subset_of(
                                    members(self.data@, r),
                                ));
                                lemma_len_subset(
                                    Set::<int>::empty().insert(r),
                                    members(self.data@, r),
                                );
                                assert(Set::<int>::empty().insert(r).len() == 1);
                                assert(pow2(0) == 1) by {
                                    vstd::arithmetic::power2::lemma2_to64();
                                }
                            } else {
                                assert(is_root(d_old, r));
                                assert(members(self.data@, r) =~= members(d_old, r)) by {
                                    assert(root_of(self.data@, d_old.len() as int) == d_old.len());
                                }
                            }
                        }
                    }
                    assert forall|x: i64, y: i64|
                        self.same_set(x, y) <==> old(self).same_set(x, y) || (x == y
                            && self.contains_el(x)) by {
                        if self.contains_el(x) && self.contains_el(y) {
                            if x != val && y != val {
                                assert(self.rep_of(x) == old(self).rep_of(x));
                                assert(self.rep_of(y) == old(self).rep_of(y));
                            } else if x == val && y != val {
                                assert(self.rep_of(x) == d_old.len());
                                lemma_root_of_props(d_old, old(self).ids@[y] as int);
                                assert(self.rep_of(y) == old(self).rep_of(y));
                                assert(self.rep_of(y) < d_old.len());
                            } else if x != val && y == val {
                                assert(self.rep_of(y) == d_old.len());
                                lemma_root_of_props(d_old, old(self).ids@[x] as int);
                                assert(self.rep_of(x) == old(self).rep_of(x));
                                assert(self.rep_of(x) < d_old.len());
                            }
                        }
                    }
                }
                id
            },
        }
    }

    /// Walks to the element's root and rewrites every node passed on the
    /// way to point straight at it, flattening future lookups. Nothing the
    /// structure represents changes.
    fn find_with_path_compression(&mut self, id: usize) -> (r: usize)
        requires
            old(self).wf(),
            (id as int) < old(self).data@.len(),
        ensures
            final(self).wf(),
            final(self).ids@ == old(self).ids@,
            final(self).data@.len() == old(self).data@.len(),
            forall|j: int|
                0 <= j < old(self).data@.len() ==> root_of(final(self).data@, j)
                    == #[trigger] root_of(old(self).data@, j),
            r == root_of(old(self).data@, id as int),
            is_root(final(self).data@, r as int),
    {
        let ghost d0 = self.data@;
        proof {
            lemma_root_of_props(d0, id as int);
        }
        let ghost root_ghost = root_of(d0, id as int);
        // first walk: find the root without touching anything
        let mut cur = id;
        while self.data[cur].parent != cur
            invariant
                self.wf(),
                self.data@ == d0,
                (cur as int) < d0.len(),
                root_of(d0, cur as int) == root_ghost,
                0 <= root_ghost < d0.len(),
                is_root(d0, root_ghost),
            decreases d0[root_ghost].rank - d0[cur as int].rank,
        {
            proof {
                lemma_root_of_props(d0, cur as int);
            }
            cur = self.data[cur].parent;
            proof {
                lemma_root_of_props(d0, cur as int);
            }
        }
        let root = cur;
        proof {
            lemma_root_of_props(d0, cur as int);
            assert(root == root_ghost);
        }
        // second walk: point everything on the path straight at the root
        let mut cur = id;
        while cur != root
            invariant
                self.wf(),
                self.ids@ == old(self).ids@,
                self.data@.len() == d0.len(),
                (cur as int) < d0.len(),
                (root as int) < d0.len(),
                forall|j: int|
                    0 <= j < d0.len() ==> root_of(self.data@, j) == #[trigger] root_of(d0, j),
                forall|j: int|
                    0 <= j < d0.len() ==> (#[trigger] self.data@[j]).rank == d0[j].rank,
                root_of(self.data@, cur as int) == root as int,
                is_root(self.data@, root as int),
            decreases self.data@[root as int].rank - self.data@[cur as int].rank,
        {
            proof {
                lemma_root_of_props(self.data@, cur as int);
                assert(self.data@[cur as int].parent != cur);
            }
            let p = self.data[cur].parent;
            let rank = self.data[cur].rank;
            let ghost d_pre = self.data@;
            proof {
                lemma_compress(d_pre, cur as int);
            }
            self.data.set(cur, Data { parent: root, rank });
            proof {
                assert(self.data@ == d_pre.update(
                    cur as int,
                    Data { parent: root_of(d_pre, cur as int) as usize, rank: d_pre[cur as int].rank },
                ));
                lemma_wf_transfer(d_pre, self.data@);
                lemma_root_of_props(d_pre, p as int);
            }
            cur = p;
        }
        root
    }

    /// Creates a subset holding just the given element. If the element
    /// already exists, nothing happens.
    pub fn make_set(&mut self, val: i64)
        requires
            old(self).wf(),
        ensures
            final(self).wf(),
            forall|k: i64| final(self).contains_el(k) <==> old(self).contains_el(k) || k == val,
            final(self).el_count() == old(self).el_count() + (if old(self).contains_el(val) {
                0int
            } else {
                1int
            }),
            forall|x: i64, y: i64|
                final(self).same_set(x, y) <==> old(self).same_set(x, y) || (x == y
                    && final(self).contains_el(x)),
    {
        self.make_or_get_set(val);
    }

    /// Joins the subsets of the two given elements, registering either
    /// element first where it was absent.
    ///
    /// Afterwards two elements share a subset exactly when they already
    /// did, or when one hung together with `a` and the other with `b`;
    /// joining two elements that already share a subset changes nothing.
    #[verifier::rlimit(50)]
    pub fn union(&mut self, a: i64, b: i64)
        requires
            old(self).wf(),
        ensures
            final(self).wf(),
            forall|k: i64|
                final(self).contains_el(k) <==> old(self).contains_el(k) || k == a || k == b,
            final(self).el_count() == old(self).el_count() + (if old(self).contains_el(a) {
                0int
            } else {
                1int
            }) + (if old(self).contains_el(b) || b == a {
                0int
            } else {
                1int
            }),
            forall|x: i64, y: i64|
                #![trigger final(self).same_set(x, y)]
                final(self).same_set(x, y) <==> old(self).joined(a, b, x, y),
    {
        let aid = self.make_or_get_set(a);
        let ghost s1 = *self;
        let bid = self.make_or_get_set(b);
        let ghost s2 = *self;
        proof {
            assert(s2.ids@[a] == aid && s2.ids@[b] == bid);
            assert((aid as int) < s2.data@.len());
            assert(s2.el_count() == old(self).el_count() + (if old(self).contains_el(a) {
                0int
            } else {
                1int
            }) + (if old(self).contains_el(b) || b == a {
                0int
            } else {
                1int
            })) by {
                assert(s1.el_count() == s1.data@.len());
                assert(s2.el_count() == s2.data@.len());
                assert(old(self).el_count() == old(self).data@.len());
            }
            assert forall|x: i64, y: i64| s2.same_set(x, y) <==> old(self).seeded(a, b, x, y) by {}
        }
        let a_root = self.find_with_path_compression(aid);
        let ghost s3 = *self;
        let b_root = self.find_with_path_compression(bid);
        let ghost s4 = *self;
        proof {
            assert(s4.ids@ == s2.ids@);
            assert(s4.el_count() == s2.el_count());
            assert forall|x: i64, y: i64| s4.same_set(x, y) <==> s2.same_set(x, y) by {
                if s4.contains_el(x) && s4.contains_el(y) {
                    assert(s4.rep_of(x) == s2.rep_of(x) && s4.rep_of(y) == s2.rep_of(y));
                }
            }
            assert(a_root == root_of(s2.data@, aid as int));
            assert(root_of(s4.data@, aid as int) == a_root);
            assert(b_root == root_of(s4.data@, bid as int));
            assert(s4.rep_of(a) == a_root && s4.rep_of(b) == b_root);
            assert(is_root(s4.data@, b_root as int));
            assert(is_root(s4.data@, a_root as int)) by {
                lemma_root_of_props(s4.data@, aid as int);
            }
        }
        if a_root == b_root {
            proof {
                assert(s4.same_set(a, b));
                assert forall|x: i64, y: i64|
                    #![trigger self.same_set(x, y)]
                    self.same_set(x, y) <==> old(self).joined(a, b, x, y) by {
                    assert(self.same_set(x, y) <==> s2.same_set(x, y));
                    assert(s2.same_set(a, b));
                }
            }
            return ;
        }
        let swap_roots = self.data[a_root].rank < self.data[b_root].rank;
        let hi = if swap_roots {
            b_root
        } else {
            a_root
        };
        let lo = if swap_roots {
            a_root
        } else {
            b_root
        };
        let hi_rank = self.data[hi].rank;
        let lo_rank = self.data[lo].rank;
        proof {
            // the higher root's rank has room to grow: its tree already
            // holds two to that rank many nodes
            assert(pow2(hi_rank as nat) <= members(s4.data@, hi as int).len()) by {
                assert(is_root(s4.data@, hi as int));
            }
            lemma_members_finite(s4.data@, hi as int);
            lemma_below_pow2(hi_rank as nat);
            assert(s4.data@.len() <= usize::MAX) by {
                assert(s4.data@.len() == vstd::std_specs::vec::spec_vec_len(&self.data));
            }
            assert(hi_rank < u64::MAX);
        }
        let new_rank = if hi_rank == lo_rank {
            hi_rank + 1
        } else {
            hi_rank
        };
        self.data.set(lo, Data { parent: hi, rank: lo_rank });
        self.data.set(hi, Data { parent: hi, rank: new_rank });
        proof {
            let d4 = s4.data@;
            let d5 = self.data@;
            lemma_link(d4, hi as int, lo as int, new_rank);
            lemma_link_justified(d4, hi as int, lo as int, new_rank);
            assert(d5 == d4.update(lo as int, Data { parent: hi, rank: d4[lo as int].rank }).update(
                hi as int,
                Data { parent: hi, rank: new_rank },
            ));
            assert(self.wf());
            // connectivity after the link follows the merged representative
            lemma_union_merges(*old(self), s2, s4, *self, a, b, hi as int, lo as int);
        }
    }

    /// Checks whether the given element has been added to this collection.
    pub fn contains(&self, val: &i64) -> (r: bool)
        requires
            self.wf(),
        ensures
            r == self.contains_el(*val),
    {
        self.ids.contains_key(val)
    }

    /// Checks whether the two given elements are in the same subset; an
    /// element never registered belongs to no subset. Lookups compress the
    /// paths they walk, but what the structure represents stays as it was.
    pub fn in_union(&mut self, a: &i64, b: &i64) -> (r: bool)
        requires
            old(self).wf(),
        ensures
            final(self).wf(),
            r == old(self).same_set(*a, *b),
            final(self).el_count() == old(self).el_count(),
            forall|x: i64| final(self).contains_el(x) <==> old(self).contains_el(x),
            forall|x: i64, y: i64|
                #![trigger final(self).same_set(x, y)]
                final(self).same_set(x, y) <==> old(self).same_set(x, y),
    {
        let aid_opt = self.ids.get(a);
        let aid = match aid_opt {
            Option::None => {
                proof {
                    assert(!self.contains_el(*a));
                }
                return false;
            },
            Option::Some(id_ref) => *id_ref,
        };
        let bid_opt = self.ids.get(b);
        let bid = match bid_opt {
            Option::None => {
                return false;
            },
            Option::Some(id_ref) => *id_ref,
        };
        let ghost s0 = *self;
        let a_root = self.find_with_path_compression(aid);
        let b_root = self.find_with_path_compression(bid);
        proof {
            assert(root_of(self.data@, aid as int) == root_of(s0.data@, aid as int));
            assert forall|x: i64, y: i64|
                #![trigger self.same_set(x, y)]
                self.same_set(x, y) <==> s0.same_set(x, y) by {
                if self.contains_el(x) && self.contains_el(y) {
                    assert(self.rep_of(x) == s0.rep_of(x) && self.rep_of(y) == s0.rep_of(y));
                }
            }
        }
        a_root == b_root
    }

    /// True when no element has been registered yet.
    pub fn is_empty(&self) -> (r: bool)
        requires
            self.wf(),
        ensures
            r == (self.el_count() == 0),
    {
        self.ids.is_empty()
    }

    /// The number of elements registered so far.
    pub fn len(&self) -> (r: usize)
        requires
            self.wf(),
        ensures
            r == self.el_count(),
    {
        self.ids.len()
    }

    /// Removes every element and subset.
    pub fn clear(&mut self)
        requires
            old(self).wf(),
        ensures
            final(self).wf(),
            final(self).el_count() == 0,
            forall|x: i64| !final(self).contains_el(x),
            forall|x: i64, y: i64| !final(self).same_set(x, y),
    {
        self.ids.clear();
        self.data.clear();
        proof {
            assert(self.ids@.dom() =~= Set::<i64>::empty());
        }
    }
}


/// Union by rank justifies a logarithmic height bound: every node's rank
/// stays below two-to-the-rank many nodes, so ranks — and with them the
/// length of any parent chain, along which ranks climb strictly — never
/// exceed the logarithm of the forest's size.
pub proof fn lemma_rank_logarithmic(d: Seq<Data>)
    requires
        wf_forest(d),
    ensures
        forall|i: int| 0 <= i < d.len() ==> pow2((#[trigger] d[i]).rank as nat) <= d.len(),
{
    assert forall|i: int| 0 <= i < d.len() implies pow2((#[trigger] d[i]).rank as nat)
        <= d.len() by {
        lemma_root_of_props(d, i);
        let r = root_of(d, i);
        assert(pow2(d[r].rank as nat) <= members(d, r).len()) by {
            assert(is_root(d, r));
        }
        lemma_members_finite(d, r);
        assert(d[i].rank <= d[r].rank);
        if d[i].rank < d[r].rank {
            vstd::arithmetic::power2::lemma_pow2_strictly_increases(
                d[i].rank as nat,
                d[r].rank as nat,
            );
        }
    }
}

impl DisjointSet {
    /// Sharing a subset is possible only for registered elements: an
    /// element never added belongs to no subset, not even its own.
    pub proof fn lemma_same_set_registered(self, x: i64, y: i64)
        ensures
            self.same_set(x, y) ==> self.contains_el(x) && self.contains_el(y),
    {
    }

    /// Sharing a subset is an equivalence among registered elements: it is
    /// reflexive on them, symmetric, and transitive.
    pub proof fn lemma_same_set_equivalence(self, x: i64, y: i64, z: i64)
        ensures
            self.contains_el(x) ==> self.same_set(x, x),
            self.same_set(x, y) ==> self.same_set(y, x),
            self.same_set(x, y) && self.same_set(y, z) ==> self.same_set(x, z),
    {
    }

    /// Joining two elements that already share a subset leaves connectivity
    /// exactly as it was: the merge that `union` promises collapses to the
    /// old relation.
    pub proof fn lemma_union_idempotent(self, a: i64, b: i64)
        requires
            self.same_set(a, b),
        ensures
            forall|x: i64, y: i64|
                #[trigger] self.joined(a, b, x, y) <==> self.same_set(x, y) || (x == y
                    && self.contains_el(x)),
    {
    }
}

} // verus!
