use vstd::prelude::*;

verus! {

/// Iterates over the adjacent pairs of a collection, which is useful for
/// relationships between neighbouring elements: finding the first
/// decreasing pair, checking sortedness, and the like.
pub struct PairIterator<T> {
    items: Vec<T>,
    pos: usize,
}

impl<T: Copy> PairIterator<T> {
    /// The elements whose pairs are walked.
    pub closed spec fn view(self) -> Seq<T> {
        self.items@
    }

    /// The position of the second element of the pair to hand out next.
    pub closed spec fn at(self) -> int {
        self.pos as int
    }

    /// The cursor starts behind the first element and only moves forward.
    pub closed spec fn wf(self) -> bool {
        1 <= self.pos
    }

    /// Starts walking the pairs of the given collection.
    pub fn new(arr: &Vec<T>) -> (r: Self)
        ensures
            r.wf(),
            r@ == arr@,
            r.at() == 1,
    {
        let mut items: Vec<T> = Vec::new();
        let mut i: usize = 0;
        while i < arr.len()
            invariant
                i <= arr@.len(),
                items@ == arr@.subrange(0, i as int),
            decreases arr@.len() - i,
        {
            items.push(arr[i]);
            proof {
                assert(items@ =~= arr@.subrange(0, i + 1));
            }
            i = i + 1;
        }
        proof {
            assert(items@ =~= arr@);
        }
        PairIterator { items, pos: 1 }
    }

    /// Hands out the next adjacent pair, or `None` when the pairs are used
    /// up.
    pub fn next(&mut self) -> (r: Option<(T, T)>)
        requires
            old(self).wf(),
        ensures
            final(self).wf(),
            final(self)@ == old(self)@,
            old(self).at() < old(self)@.len() ==> r == Some(
                (old(self)@[old(self).at() - 1], old(self)@[old(self).at()]),
            ) && final(self).at() == old(self).at() + 1,
            old(self).at() >= old(self)@.len() ==> r is None && final(self).at() == old(
                self,
            ).at(),
    {
        if self.pos < self.items.len() {
            let a = self.items[self.pos - 1];
            let b = self.items[self.pos];
            self.pos = self.pos + 1;
            Some((a, b))
        } else {
            None
        }
    }

    /// Finds the offset, counted from the current position, of the first
    /// remaining pair the criterion accepts, consuming the pairs up to it.
    pub fn position<F: Fn(T, T) -> bool>(&mut self, pred: F) -> (r: Option<usize>)
        requires
            old(self).wf(),
            forall|a: T, b: T| #[trigger] call_requires(pred, (a, b)),
        ensures
            final(self).wf(),
            final(self)@ == old(self)@,
            match r {
                Some(k) => old(self).at() + k < old(self)@.len() && call_ensures(
                    pred,
                    (old(self)@[old(self).at() + k - 1], old(self)@[old(self).at() + k]),
                    true,
                ) && forall|j: int|
                    old(self).at() <= j < old(self).at() + k ==> #[trigger] call_ensures(
                        pred,
                        (old(self)@[j - 1], old(self)@[j]),
                        false,
                    ),
                None => forall|j: int|
                    old(self).at() <= j < old(self)@.len() ==> #[trigger] call_ensures(
                        pred,
                        (old(self)@[j - 1], old(self)@[j]),
                        false,
                    ),
            },
    {
        let start = self.pos;
        while self.pos < self.items.len()
            invariant
                start <= self.pos,
                1 <= start,
                start == old(self).at(),
                self.items@ == old(self)@,
                forall|a: T, b: T| #[trigger] call_requires(pred, (a, b)),
                forall|j: int|
                    start <= j < self.pos ==> #[trigger] call_ensures(
                        pred,
                        (self.items@[j - 1], self.items@[j]),
                        false,
                    ),
            decreases self.items@.len() - self.pos,
        {
            let a = self.items[self.pos - 1];
            let b = self.items[self.pos];
            if pred(a, b) {
                let k = self.pos - start;
                self.pos = self.pos + 1;
                return Some(k);
            }
            self.pos = self.pos + 1;
        }
        None
    }

    /// Checks whether the criterion accepts every remaining pair, consuming
    /// them.
    pub fn all<F: Fn(T, T) -> bool>(&mut self, pred: F) -> (r: bool)
        requires
            old(self).wf(),
            forall|a: T, b: T| #[trigger] call_requires(pred, (a, b)),
        ensures
            final(self).wf(),
            final(self)@ == old(self)@,
            r ==> forall|j: int|
                old(self).at() <= j < old(self)@.len() ==> #[trigger] call_ensures(
                    pred,
                    (old(self)@[j - 1], old(self)@[j]),
                    true,
                ),
            !r ==> exists|j: int|
                old(self).at() <= j < old(self)@.len() && #[trigger] call_ensures(
                    pred,
                    (old(self)@[j - 1], old(self)@[j]),
                    false,
                ),
    {
        let start = self.pos;
        while self.pos < self.items.len()
            invariant
                start <= self.pos,
                1 <= start,
                start == old(self).at(),
                self.items@ == old(self)@,
                forall|a: T, b: T| #[trigger] call_requires(pred, (a, b)),
                forall|j: int|
                    start <= j < self.pos ==> #[trigger] call_ensures(
                        pred,
                        (self.items@[j - 1], self.items@[j]),
                        true,
                    ),
            decreases self.items@.len() - self.pos,
        {
            let a = self.items[self.pos - 1];
            let b = self.items[self.pos];
            if !pred(a, b) {
                self.pos = self.pos + 1;
                return false;
            }
            self.pos = self.pos + 1;
        }
        true
    }
}

} // verus!
