use vstd::prelude::*;
use vstd::multiset::Multiset;
use std::collections::HashMap;
use crate::utils::lemmas::lemma_swap_to_multiset;
use crate::utils::partition::swap_positions;

verus! {

broadcast use vstd::multiset::group_multiset_axioms;


/// The multiset view counts each value exactly as the table says.
proof fn lemma_total_count(c: Counter, v: i64)
    requires
        c.counts().dom().finite(),
    ensures
        c.counts().contains_key(v) ==> c.total().count(v) == c.counts()[v] as nat,
        !c.counts().contains_key(v) ==> c.total().count(v) == 0,
{
    let m = Map::new(|k: i64| c.map@.contains_key(k), |k: i64| c.map@[k] as nat);
    assert(m.dom() =~= c.map@.dom());
}

/// Counts recurring elements from a provided series, keeping for each
/// distinct value the number of times it was added.
pub struct Counter {
    map: HashMap<i64, usize>,
    keys: Vec<i64>,
}

impl Counter {
    /// How often each seen value was counted.
    pub closed spec fn counts(self) -> Map<i64, usize> {
        self.map@
    }

    /// The distinct values seen so far, in first-seen order.
    pub closed spec fn key_seq(self) -> Seq<i64> {
        self.keys@
    }

    /// The counted values as one multiset.
    pub closed spec fn total(self) -> Multiset<i64> {
        Multiset::from_map(
            Map::new(|k: i64| self.map@.contains_key(k), |k: i64| self.map@[k] as nat),
        )
    }

    /// The distinct values paired with their counts, in first-seen order.
    pub closed spec fn pairs(self) -> Seq<(i64, usize)> {
        Seq::new(self.keys@.len(), |i: int| (self.keys@[i], self.map@[self.keys@[i]]))
    }

    /// The key list and the count table describe each other.
    pub closed spec fn wf(self) -> bool {
        &&& self.map@.dom().finite()
        &&& self.keys@.no_duplicates()
        &&& forall|i: int|
            0 <= i < self.keys@.len() ==> self.map@.contains_key(#[trigger] self.keys@[i])
        &&& forall|k: i64| self.map@.contains_key(k) ==> self.keys@.contains(k)
        &&& forall|k: i64| self.map@.contains_key(k) ==> self.map@[k] >= 1
    }

    /// Creates a new, empty `Counter`.
    pub fn new() -> (r: Counter)
        ensures
            r.wf(),
            r.key_seq().len() == 0,
            forall|k: i64| !r.counts().contains_key(k),
            r.total() == Multiset::<i64>::empty(),
    {
        let r = Counter { map: HashMap::new(), keys: Vec::new() };
        proof {
            assert(r.map@.dom() =~= Set::<i64>::empty());
            assert(r.total() =~= Multiset::<i64>::empty()) by {
                assert forall|v: i64| r.total().count(v) == 0 by {
                    lemma_total_count(r, v);
                }
            }
        }
        r
    }

    /// Creates an empty `Counter` able to hold at least `capacity` distinct
    /// values without reallocating.
    pub fn with_capacity(capacity: usize) -> (r: Counter)
        ensures
            r.wf(),
            r.key_seq().len() == 0,
            forall|k: i64| !r.counts().contains_key(k),
            r.total() == Multiset::<i64>::empty(),
    {
        let r = Counter { map: HashMap::with_capacity(capacity), keys: Vec::with_capacity(capacity) };
        proof {
            assert(r.map@.dom() =~= Set::<i64>::empty());
            assert(r.total() =~= Multiset::<i64>::empty()) by {
                assert forall|v: i64| r.total().count(v) == 0 by {
                    lemma_total_count(r, v);
                }
            }
        }
        r
    }

    /// Counts one more occurrence of the given value.
    pub fn count(&mut self, val: i64)
        requires
            old(self).wf(),
            old(self).total().count(val) < usize::MAX,
        ensures
            final(self).wf(),
            final(self).total() == old(self).total().insert(val),
            final(self).counts().contains_key(val),
            forall|k: i64|
                final(self).counts().contains_key(k) <==> old(self).counts().contains_key(k) || k
                    == val,
            forall|k: i64|
                k != val && old(self).counts().contains_key(k) ==> final(self).counts()[k] == old(
                    self,
                ).counts()[k],
            final(self).counts()[val] == (if old(self).counts().contains_key(val) {
                old(self).counts()[val] + 1
            } else {
                1
            }),
            final(self).key_seq() == (if old(self).counts().contains_key(val) {
                old(self).key_seq()
            } else {
                old(self).key_seq().push(val)
            }),
    {
        proof {
            lemma_total_count(*old(self), val);
        }
        let found = self.map.contains_key(&val);
        if found {
            let c = match self.map.get(&val) {
                Some(c_ref) => *c_ref,
                None => 0,
            };
            self.map.insert(val, c + 1);
            proof {
                assert(self.map@.dom() =~= old(self).map@.dom());
            }
        } else {
            self.map.insert(val, 1);
            self.keys.push(val);
            proof {
                assert(self.map@.dom() =~= old(self).map@.dom().insert(val));
                assert(!old(self).keys@.contains(val)) by {
                    if old(self).keys@.contains(val) {
                        let i = choose|i: int|
                            0 <= i < old(self).keys@.len() && old(self).keys@[i] == val;
                        assert(old(self).map@.contains_key(old(self).keys@[i]));
                    }
                }
                assert(self.keys@.no_duplicates()) by {
                    assert forall|i: int, j: int|
                        0 <= i < j < self.keys@.len() implies self.keys@[i] != self.keys@[j] by {
                        if j == self.keys@.len() - 1 {
                            assert(self.keys@[i] == old(self).keys@[i]);
                            if self.keys@[i] == val {
                                assert(old(self).keys@.contains(val));
                            }
                        }
                    }
                }
                assert forall|i: int|
                    0 <= i < self.keys@.len() implies self.map@.contains_key(
                    #[trigger] self.keys@[i],
                ) by {
                    if i < self.keys@.len() - 1 {
                        assert(self.keys@[i] == old(self).keys@[i]);
                        assert(old(self).map@.contains_key(old(self).keys@[i]));
                    } else {
                        assert(self.keys@[i] == val);
                    }
                }
                assert forall|k: i64|
                    self.map@.contains_key(k) implies self.keys@.contains(k) by {
                    if k == val {
                        assert(self.keys@[self.keys@.len() - 1] == val);
                    } else {
                        assert(old(self).map@.contains_key(k));
                        assert(old(self).keys@.contains(k));
                        let i = choose|i: int|
                            0 <= i < old(self).keys@.len() && old(self).keys@[i] == k;
                        assert(self.keys@[i] == k);
                    }
                }
            }
        }
        proof {
            assert(self.total() =~= old(self).total().insert(val)) by {
                assert forall|v: i64|
                    self.total().count(v) == old(self).total().insert(val).count(v) by {
                    lemma_total_count(*self, v);
                    lemma_total_count(*old(self), v);
                }
            }
        }
    }

    /// The number of times the given value was counted; a value never seen
    /// counts zero times.
    pub fn get(&self, val: &i64) -> (r: usize)
        requires
            self.wf(),
        ensures
            r == (if self.counts().contains_key(*val) {
                self.counts()[*val]
            } else {
                0
            }),
            r as nat == self.total().count(*val),
    {
        proof {
            lemma_total_count(*self, *val);
        }
        match self.map.get(val) {
            Some(c_ref) => *c_ref,
            None => 0,
        }
    }

    /// The distinct values seen so far: each counted value exactly once.
    pub fn distinct(&self) -> (r: &Vec<i64>)
        requires
            self.wf(),
        ensures
            r@ == self.key_seq(),
            r@.no_duplicates(),
            forall|k: i64| r@.contains(k) <==> self.total().count(k) > 0,
    {
        proof {
            assert forall|k: i64| self.keys@.contains(k) implies self.total().count(k) > 0 by {
                lemma_total_count(*self, k);
            }
            assert forall|k: i64| self.total().count(k) > 0 implies self.keys@.contains(k) by {
                lemma_total_count(*self, k);
            }
        }
        &self.keys
    }


    /// Discards one occurrence of the given value; a value counted no
    /// longer, or never, stays at zero.
    fn uncount(&mut self, val: i64)
        requires
            old(self).wf(),
        ensures
            final(self).wf(),
            final(self).total() == old(self).total().remove(val),
    {
        proof {
            lemma_total_count(*old(self), val);
        }
        let c = match self.map.get(&val) {
            Some(c_ref) => *c_ref,
            None => 0,
        };
        if c == 0 {
            proof {
                assert(!self.map@.contains_key(val));
                assert(self.total() =~= old(self).total().remove(val)) by {
                    assert(old(self).total().count(val) == 0);
                }
            }
        } else if c > 1 {
            self.map.insert(val, c - 1);
            proof {
                assert(self.map@.dom() =~= old(self).map@.dom());
                assert(self.total() =~= old(self).total().remove(val)) by {
                    assert forall|v: i64|
                        self.total().count(v) == old(self).total().remove(val).count(v) by {
                        lemma_total_count(*self, v);
                        lemma_total_count(*old(self), v);
                    }
                }
            }
        } else {
            self.map.remove(&val);
            proof {
                assert(self.map@.dom() =~= old(self).map@.dom().remove(val));
                assert(self.keys@.contains(val));
            }
            // drop the value from the key list as well
            let mut i: usize = 0;
            while i < self.keys.len() && self.keys[i] != val
                invariant
                    i <= self.keys@.len(),
                    forall|t: int| 0 <= t < i ==> (#[trigger] self.keys@[t]) != val,
                decreases self.keys@.len() - i,
            {
                i = i + 1;
            }
            proof {
                if i == self.keys@.len() {
                    let t = choose|t: int|
                        0 <= t < self.keys@.len() && self.keys@[t] == val;
                    assert(self.keys@[t] != val);
                }
                assert(self.keys@[i as int] == val);
            }
            let ghost keys_old = self.keys@;
            self.keys.remove(i);
            proof {
                assert forall|a: int, b: int|
                    0 <= a < b < self.keys@.len() implies self.keys@[a] != self.keys@[b] by {
                    let a0: int = if a < i { a } else { a + 1 };
                    let b0: int = if b < i { b } else { b + 1 };
                    assert(self.keys@[a] == keys_old[a0] && self.keys@[b] == keys_old[b0]);
                }
                assert forall|t: int|
                    0 <= t < self.keys@.len() implies self.map@.contains_key(
                    #[trigger] self.keys@[t],
                ) by {
                    let t0: int = if t < i { t } else { t + 1 };
                    assert(self.keys@[t] == keys_old[t0]);
                    assert(keys_old[t0] != val);
                }
                assert forall|k: i64|
                    self.map@.contains_key(k) implies self.keys@.contains(k) by {
                    assert(keys_old.contains(k));
                    let t0 = choose|t0: int| 0 <= t0 < keys_old.len() && keys_old[t0] == k;
                    assert(k != val);
                    assert(t0 != i);
                    if t0 < i {
                        assert(self.keys@[t0] == k);
                    } else {
                        assert(self.keys@[t0 - 1] == k);
                    }
                }
                assert(self.total() =~= old(self).total().remove(val)) by {
                    assert forall|v: i64|
                        self.total().count(v) == old(self).total().remove(val).count(v) by {
                        lemma_total_count(*self, v);
                        lemma_total_count(*old(self), v);
                    }
                }
            }
        }
    }

    /// Adds every occurrence counted by the other counter to this one: the
    /// combined tally is the sum of the two, so the joint counts must fit
    /// the machine range.
    pub fn merge(&mut self, other: &Counter)
        requires
            old(self).wf(),
            other.wf(),
            forall|k: i64|
                #[trigger] old(self).total().count(k) + other.total().count(k) <= usize::MAX,
        ensures
            final(self).wf(),
            final(self).total() == old(self).total().add(other.total()),
    {
        let mut ki: usize = 0;
        while ki < other.keys.len()
            invariant
                self.wf(),
                other.wf(),
                ki <= other.keys@.len(),
                forall|k: i64|
                    #[trigger] old(self).total().count(k) + other.total().count(k) <= usize::MAX,
                forall|v: i64|
                    #[trigger] self.total().count(v) == old(self).total().count(v) + (
                    if other.keys@.subrange(0, ki as int).contains(v) {
                        other.total().count(v)
                    } else {
                        0nat
                    }),
            decreases other.keys@.len() - ki,
        {
            let k = other.keys[ki];
            let c = match other.map.get(&k) {
                Some(c_ref) => *c_ref,
                None => 0,
            };
            proof {
                lemma_total_count(*other, k);
                assert(c == other.total().count(k));
                assert(!other.keys@.subrange(0, ki as int).contains(k)) by {
                    if other.keys@.subrange(0, ki as int).contains(k) {
                        let t = choose|t: int|
                            0 <= t < ki && (#[trigger] other.keys@.subrange(0, ki as int)[t]) == k;
                        assert(other.keys@[t] == k && other.keys@[ki as int] == k);
                    }
                }
            }
            let ghost start = *self;
            let mut j: usize = 0;
            while j < c
                invariant
                    self.wf(),
                    j <= c,
                    c as nat == other.total().count(k),
                    start.total().count(k) + c <= usize::MAX,
                    forall|v: i64|
                        #[trigger] self.total().count(v) == start.total().count(v) + (if v == k {
                            j as nat
                        } else {
                            0nat
                        }),
                decreases c - j,
            {
                self.count(k);
                j = j + 1;
            }
            proof {
                assert forall|v: i64|
                    #[trigger] self.total().count(v) == old(self).total().count(v) + (
                if other.keys@.subrange(0, ki + 1).contains(v) {
                    other.total().count(v)
                } else {
                    0nat
                }) by {
                    if other.keys@.subrange(0, ki + 1).contains(v) {
                        let t = choose|t: int|
                            0 <= t < ki + 1 && (#[trigger] other.keys@.subrange(0, ki + 1)[t]) == v;
                        if t < ki {
                            assert(other.keys@.subrange(0, ki as int)[t] == v);
                        } else {
                            assert(v == k);
                        }
                    } else {
                        assert(!other.keys@.subrange(0, ki as int).contains(v)) by {
                            if other.keys@.subrange(0, ki as int).contains(v) {
                                let t = choose|t: int|
                                    0 <= t < ki && (#[trigger] other.keys@.subrange(
                                        0,
                                        ki as int,
                                    )[t]) == v;
                                assert(other.keys@.subrange(0, ki + 1)[t] == v);
                            }
                        }
                        assert(v != k) by {
                            assert(other.keys@.subrange(0, ki + 1)[ki as int] == k);
                        }
                    }
                }
            }
            ki = ki + 1;
        }
        proof {
            assert(self.total() =~= old(self).total().add(other.total())) by {
                assert forall|v: i64|
                    self.total().count(v) == old(self).total().count(v) + other.total().count(
                    v,
                ) by {
                    lemma_total_count(*other, v);
                    if other.total().count(v) > 0 {
                        assert(other.keys@.contains(v));
                        let t = choose|t: int|
                            0 <= t < other.keys@.len() && other.keys@[t] == v;
                        assert(other.keys@.subrange(0, other.keys@.len() as int)[t] == v);
                    } else {
                        if other.keys@.subrange(0, other.keys@.len() as int).contains(v) {
                            let t = choose|t: int|
                                0 <= t < other.keys@.len() && (#[trigger] other.keys@.subrange(
                                    0,
                                    other.keys@.len() as int,
                                )[t]) == v;
                            assert(other.keys@[t] == v);
                            assert(other.map@.contains_key(v));
                            lemma_total_count(*other, v);
                        }
                    }
                }
            }
        }
    }

    /// Discards, for every value, as many occurrences as the other counter
    /// tallied: the saturating multiset difference, which never drops below
    /// zero.
    pub fn subtract(&mut self, other: &Counter)
        requires
            old(self).wf(),
            other.wf(),
        ensures
            final(self).wf(),
            final(self).total() == old(self).total().sub(other.total()),
    {
        let mut ki: usize = 0;
        while ki < other.keys.len()
            invariant
                self.wf(),
                other.wf(),
                ki <= other.keys@.len(),
                forall|v: i64|
                    #[trigger] self.total().count(v) == (
                    if other.keys@.subrange(0, ki as int).contains(v) {
                        old(self).total().sub(other.total()).count(v)
                    } else {
                        old(self).total().count(v)
                    }),
            decreases other.keys@.len() - ki,
        {
            let k = other.keys[ki];
            let c = match other.map.get(&k) {
                Some(c_ref) => *c_ref,
                None => 0,
            };
            proof {
                lemma_total_count(*other, k);
                assert(c == other.total().count(k));
                assert(!other.keys@.subrange(0, ki as int).contains(k)) by {
                    if other.keys@.subrange(0, ki as int).contains(k) {
                        let t = choose|t: int|
                            0 <= t < ki && (#[trigger] other.keys@.subrange(0, ki as int)[t]) == k;
                        assert(other.keys@[t] == k && other.keys@[ki as int] == k);
                    }
                }
            }
            let ghost start = *self;
            let mut j: usize = 0;
            while j < c
                invariant
                    self.wf(),
                    j <= c,
                    forall|v: i64|
                        #[trigger] self.total().count(v) == (if v == k {
                            if start.total().count(k) >= j as nat {
                                (start.total().count(k) - j) as nat
                            } else {
                                0nat
                            }
                        } else {
                            start.total().count(v)
                        }),
                decreases c - j,
            {
                self.uncount(k);
                j = j + 1;
            }
            proof {
                assert forall|v: i64|
                    #[trigger] self.total().count(v) == (
                if other.keys@.subrange(0, ki + 1).contains(v) {
                    old(self).total().sub(other.total()).count(v)
                } else {
                    old(self).total().count(v)
                }) by {
                    if other.keys@.subrange(0, ki + 1).contains(v) {
                        let t = choose|t: int|
                            0 <= t < ki + 1 && (#[trigger] other.keys@.subrange(0, ki + 1)[t]) == v;
                        if t < ki {
                            assert(other.keys@.subrange(0, ki as int)[t] == v);
                            assert(v != k);
                        } else {
                            assert(v == k);
                        }
                    } else {
                        assert(!other.keys@.subrange(0, ki as int).contains(v)) by {
                            if other.keys@.subrange(0, ki as int).contains(v) {
                                let t = choose|t: int|
                                    0 <= t < ki && (#[trigger] other.keys@.subrange(
                                        0,
                                        ki as int,
                                    )[t]) == v;
                                assert(other.keys@.subrange(0, ki + 1)[t] == v);
                            }
                        }
                        assert(v != k) by {
                            assert(other.keys@.subrange(0, ki + 1)[ki as int] == k);
                        }
                    }
                }
            }
            ki = ki + 1;
        }
        proof {
            assert(self.total() =~= old(self).total().sub(other.total())) by {
                assert forall|v: i64|
                    self.total().count(v) == old(self).total().sub(other.total()).count(v) by {
                    lemma_total_count(*other, v);
                    if other.total().count(v) > 0 {
                        assert(other.keys@.contains(v));
                        let t = choose|t: int|
                            0 <= t < other.keys@.len() && other.keys@[t] == v;
                        assert(other.keys@.subrange(0, other.keys@.len() as int)[t] == v);
                    } else {
                        if other.keys@.subrange(0, other.keys@.len() as int).contains(v) {
                            let t = choose|t: int|
                                0 <= t < other.keys@.len() && (#[trigger] other.keys@.subrange(
                                    0,
                                    other.keys@.len() as int,
                                )[t]) == v;
                            assert(other.keys@[t] == v);
                            assert(other.map@.contains_key(v));
                            lemma_total_count(*other, v);
                        }
                    }
                }
            }
        }
    }

    /// Returns the values paired with their counts, most common first;
    /// values with equal counts are ordered arbitrarily.
    pub fn most_common(&self) -> (r: Vec<(i64, usize)>)
        requires
            self.wf(),
        ensures
            r@.len() == self.key_seq().len(),
            r@.to_multiset() == self.pairs().to_multiset(),
            forall|i: int, j: int| 0 <= i < j < r@.len() ==> (#[trigger] r@[i]).1 >= (#[trigger] r@[j]).1,
    {
        let mut res: Vec<(i64, usize)> = Vec::new();
        let mut i: usize = 0;
        while i < self.keys.len()
            invariant
                self.wf(),
                i <= self.keys@.len(),
                res@ == self.pairs().subrange(0, i as int),
            decreases self.keys@.len() - i,
        {
            let k = self.keys[i];
            let c = self.get(&k);
            res.push((k, c));
            proof {
                assert(res@ =~= self.pairs().subrange(0, i + 1));
            }
            i = i + 1;
        }
        proof {
            assert(res@ =~= self.pairs());
        }
        // selection sort by count, most common first
        let ghost orig = res@;
        let mut i: usize = 0;
        while i < res.len()
            invariant
                i <= res@.len(),
                res@.len() == orig.len(),
                res@.to_multiset() == orig.to_multiset(),
                forall|a: int, b: int|
                    0 <= a < b < i ==> (#[trigger] res@[a]).1 >= (#[trigger] res@[b]).1,
                forall|a: int, b: int|
                    0 <= a < i <= b < res@.len() ==> (#[trigger] res@[a]).1 >= (#[trigger] res@[b]).1,
            decreases res@.len() - i,
        {
            let mut m: usize = i;
            let mut j: usize = i + 1;
            while j < res.len()
                invariant
                    i <= m < j <= res@.len(),
                    forall|t: int| i <= t < j ==> (#[trigger] res@[t]).1 <= res@[m as int].1,
                decreases res@.len() - j,
            {
                if res[j].1 > res[m].1 {
                    m = j;
                }
                j = j + 1;
            }
            let ghost pre = res@;
            swap_positions(&mut res, i, m);
            proof {
                lemma_swap_to_multiset(pre, i as int, m as int);
            }
            i = i + 1;
        }
        res
    }

    /// Consumes the counter and returns the values paired with their
    /// counts, most common first; values with equal counts are ordered
    /// arbitrarily.
    pub fn into_most_common(self) -> (r: Vec<(i64, usize)>)
        requires
            self.wf(),
        ensures
            r@.len() == self.key_seq().len(),
            r@.to_multiset() == self.pairs().to_multiset(),
            forall|i: int, j: int| 0 <= i < j < r@.len() ==> (#[trigger] r@[i]).1 >= (#[trigger] r@[j]).1,
    {
        self.most_common()
    }
}

} // verus!
