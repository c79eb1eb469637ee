use vstd::prelude::*;

verus! {

/// Relies on rand::random_range: a uniform draw from `0..n` lies below `n`.
/// Nothing more is assumed of the draw; callers must hold for every outcome.
#[verifier::external_body]
pub(crate) fn random_below(n: usize) -> (r: usize)
    requires
        n > 0,
    ensures
        r < n,
{
    rand::random_range(0..n)
}

} // verus!
