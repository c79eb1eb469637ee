use vstd::prelude::*;
use crate::utils::lemmas::lemma_swap_to_multiset;
use crate::utils::partition::swap_positions;
use crate::utils::random::random_below;

verus! {

/// Shuffles the elements of the slice with a Fisher-Yates pass, drawing each
/// swap target uniformly at random.
///
/// Whatever the draws, the slice afterwards holds exactly the same multiset
/// of values as before.
pub fn shuffle<T: Copy>(arr: &mut Vec<T>)
    ensures
        final(arr)@.len() == old(arr)@.len(),
        final(arr)@.to_multiset() == old(arr)@.to_multiset(),
{
    let mut i: usize = arr.len();
    while i > 1
        invariant
            i <= arr@.len(),
            arr@.len() == old(arr)@.len(),
            arr@.to_multiset() == old(arr)@.to_multiset(),
        decreases i,
    {
        let j = random_below(i);
        let ghost pre = arr@;
        swap_positions(arr, i - 1, j);
        proof {
            lemma_swap_to_multiset(pre, i - 1, j as int);
        }
        i = i - 1;
    }
}

} // verus!
