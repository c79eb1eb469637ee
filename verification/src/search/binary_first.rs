use vstd::prelude::*;

verus! {

/// A criterion is monotone over a slice when, once it holds, it keeps
/// holding to the right. Binary search over it then finds its first holding
/// position.
pub open spec fn test_monotone<T>(s: Seq<T>, pred: spec_fn(T) -> bool) -> bool {
    forall|i: int, j: int| 0 <= i <= j < s.len() && pred(#[trigger] s[i]) ==> pred(#[trigger] s[j])
}

/// A position that meets a monotone criterion, while the one before it does
/// not, is the criterion's first holding position.
pub proof fn lemma_flip_is_first<T>(s: Seq<T>, pred: spec_fn(T) -> bool, i: int)
    requires
        test_monotone(s, pred),
        0 <= i < s.len(),
        pred(s[i]),
        i > 0 ==> !pred(s[i - 1]),
    ensures
        forall|j: int| 0 <= j < i ==> !pred(#[trigger] s[j]),
        forall|j: int| i <= j < s.len() ==> pred(#[trigger] s[j]),
{
    assert forall|j: int| 0 <= j < i implies !pred(#[trigger] s[j]) by {
        if pred(s[j]) {
            assert(pred(s[i - 1]));
        }
    }
}

/// Using binary search, finds the position where the given criterion flips
/// from failing to holding.
///
/// It is assumed that the values meeting the criterion sit at the end of the
/// slice. A returned position is one the criterion held on, while it failed
/// on the position just before; `None` means it failed on the last position
/// (or the slice is empty). For a criterion that decides a predicate monotone
/// over the slice, the returned position is therefore exactly the first one
/// where the predicate holds, and `None` means it holds nowhere.
pub fn binary_first_by<T, F: Fn(&T) -> bool>(arr: &Vec<T>, to_left: F) -> (r: Option<usize>)
    requires
        forall|k: int| #![trigger arr@[k]] 0 <= k < arr@.len() ==> call_requires(to_left, (&arr@[k],)),
    ensures
        match r {
            Some(i) => i < arr@.len() && call_ensures(to_left, (&arr@[i as int],), true) && (i > 0
                ==> call_ensures(to_left, (&arr@[i - 1], ), false)),
            None => arr@.len() == 0 || call_ensures(
                to_left,
                (&arr@[arr@.len() - 1], ),
                false,
            ),
        },
{
    let mut lo: usize = 0;
    let mut hi: usize = arr.len();
    while lo < hi
        invariant
            lo <= hi <= arr@.len(),
            forall|k: int| #![trigger arr@[k]] 0 <= k < arr@.len() ==> call_requires(to_left, (&arr@[k],)),
            lo > 0 ==> call_ensures(to_left, (&arr@[lo - 1], ), false),
            hi < arr@.len() ==> call_ensures(to_left, (&arr@[hi as int], ), true),
        decreases hi - lo,
    {
        let mid = lo + (hi - lo) / 2;
        if to_left(&arr[mid]) {
            hi = mid;
        } else {
            lo = mid + 1;
        }
    }
    if lo == arr.len() {
        None
    } else {
        Some(lo)
    }
}

} // verus!
