use vstd::prelude::*;

verus! {

/// The sum of the first `n` values of the sequence.
pub open spec fn prefix_total(s: Seq<i64>, n: int) -> int
    decreases n,
{
    if n <= 0 {
        0
    } else {
        prefix_total(s, n - 1) + s[n - 1]
    }
}

/// The (signed) sum of the values between positions `from` and `to`: for
/// `from <= to` the sum of `s[from..to]`, otherwise its negation.
pub open spec fn span_total(s: Seq<i64>, from: int, to: int) -> int {
    prefix_total(s, to) - prefix_total(s, from)
}

/// Quickly answers sums of consecutive elements of a pushed series: after a
/// linear set-up, each query takes constant time.
pub struct PrefixSum {
    sums: Vec<i64>,
    current_sum: i64,
    values: Ghost<Seq<i64>>,
}

impl PrefixSum {
    /// The series of values pushed so far.
    pub closed spec fn view(self) -> Seq<i64> {
        self.values@
    }

    /// Every stored running total matches the pushed values.
    pub closed spec fn wf(self) -> bool {
        &&& self.sums@.len() == self.values@.len() + 1
        &&& forall|i: int|
            0 <= i <= self.values@.len() ==> self.sums@[i] == prefix_total(self.values@, i)
        &&& self.current_sum == prefix_total(self.values@, self.values@.len() as int)
    }

    /// Creates a new, empty `PrefixSum`.
    pub fn new() -> (r: PrefixSum)
        ensures
            r.wf(),
            r@ == Seq::<i64>::empty(),
    {
        let mut sums: Vec<i64> = Vec::new();
        sums.push(0);
        PrefixSum { sums, current_sum: 0, values: Ghost(Seq::empty()) }
    }

    /// Creates an empty `PrefixSum` with room for at least `capacity`
    /// values before reallocating.
    pub fn with_capacity(capacity: usize) -> (r: PrefixSum)
        ensures
            r.wf(),
            r@ == Seq::<i64>::empty(),
    {
        let mut sums: Vec<i64> = Vec::with_capacity(capacity);
        sums.push(0);
        PrefixSum { sums, current_sum: 0, values: Ghost(Seq::empty()) }
    }

    /// Appends one value to the series; its running total must stay within
    /// the machine range.
    pub fn push(&mut self, val: i64)
        requires
            old(self).wf(),
            i64::MIN <= prefix_total(old(self)@, old(self)@.len() as int) + val <= i64::MAX,
        ensures
            final(self).wf(),
            final(self)@ == old(self)@.push(val),
    {
        self.current_sum = self.current_sum + val;
        self.sums.push(self.current_sum);
        proof {
            self.values@ = self.values@.push(val);
            assert forall|i: int| 0 <= i <= self.values@.len() implies self.sums@[i]
                == prefix_total(self.values@, i) by {
                lemma_prefix_total_grows(old(self).values@, val, i);
            }
        }
    }

    /// The sum of all values between positions `from` and `to`, which must
    /// be in order and within the series; the answered sum must fit the
    /// machine range.
    pub fn between(&self, from: usize, to: usize) -> (r: i64)
        requires
            self.wf(),
            from <= to <= self@.len(),
            i64::MIN <= span_total(self@, from as int, to as int) <= i64::MAX,
        ensures
            r == span_total(self@, from as int, to as int),
    {
        self.sums[to] - self.sums[from]
    }
}

/// Appending a value changes no earlier prefix sum and extends the last.
pub proof fn lemma_prefix_total_grows(s: Seq<i64>, val: i64, i: int)
    requires
        0 <= i <= s.len() + 1,
    ensures
        i <= s.len() ==> prefix_total(s.push(val), i) == prefix_total(s, i),
        i == s.len() + 1 ==> prefix_total(s.push(val), i) == prefix_total(s, s.len() as int) + val,
    decreases i,
{
    if i > 0 {
        lemma_prefix_total_grows(s, val, i - 1);
        if i <= s.len() {
            assert(s.push(val)[i - 1] == s[i - 1]);
        } else {
            assert(s.push(val)[i - 1] == val);
        }
    }
}

} // verus!
