use vstd::prelude::*;
use crate::math::prefix_sum::prefix_total;
use crate::math::prefix_sum::span_total;

verus! {

/// Quickly answers sums of consecutive elements of a pushed series: after a
/// linear set-up, each query takes constant time.
pub struct PrefixSum {
    sums: Vec<i64>,
    current_sum: i64,
    values: Ghost<Seq<i64>>,
}

impl PrefixSum {
    /// The series of values pushed so far.
    pub closed spec fn view(self) -> Seq<i64> {
        self.values@
    }

    /// Every stored running total matches the pushed values.
    pub closed spec fn wf(self) -> bool {
        &&& self.sums@.len() == self.values@.len() + 1
        &&& forall|i: int|
            0 <= i <= self.values@.len() ==> self.sums@[i] == prefix_total(self.values@, i)
        &&& self.current_sum == prefix_total(self.values@, self.values@.len() as int)
    }

    /// Creates a new, empty `PrefixSum`.
    pub fn new() -> (r: PrefixSum)
        ensures
            r.wf(),
            r@ == Seq::<i64>::empty(),
    {
        let mut sums: Vec<i64> = Vec::new();
        sums.push(0);
        PrefixSum { sums, current_sum: 0, values: Ghost(Seq::empty()) }
    }

    /// Appends one value to the series; its running total must stay within
    /// the machine range.
    pub fn push(&mut self, val: i64)
        requires
            old(self).wf(),
            i64::MIN <= prefix_total(old(self)@, old(self)@.len() as int) + val <= i64::MAX,
        ensures
            final(self).wf(),
            final(self)@ == old(self)@.push(val),
    {
        self.current_sum = self.current_sum + val;
        self.sums.push(self.current_sum);
        proof {
            self.values@ = self.values@.push(val);
            assert forall|i: int| 0 <= i <= self.values@.len() implies self.sums@[i]
                == prefix_total(self.values@, i) by {
                crate::math::prefix_sum::lemma_prefix_total_grows(old(self).values@, val, i);
            }
        }
    }

    /// The sum of all values between positions `from` and `to`, which must
    /// be in order and within the series; the answered sum must fit the
    /// machine range.
    pub fn between(&self, from: usize, to: usize) -> (r: i64)
        requires
            self.wf(),
            from <= to <= self@.len(),
            i64::MIN <= span_total(self@, from as int, to as int) <= i64::MAX,
        ensures
            r == span_total(self@, from as int, to as int),
    {
        self.sums[to] - self.sums[from]
    }
}

} // verus!
