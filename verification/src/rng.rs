//! Integer randomness, drawn from the `rand` crate behind trusted
//! wrappers.  Nothing is promised of a draw beyond its range.

use vstd::prelude::*;

verus! {

/// Relies on `rand::random::<bool>`: a draw from the two booleans.
#[verifier::external_body]
pub(crate) fn random_bool() -> bool {
    rand::random::<bool>()
}

/// Relies on `rand::random::<usize>`: a draw from all machine words.
#[verifier::external_body]
pub(crate) fn random_usize() -> usize {
    rand::random::<usize>()
}

/// Relies on `rand::Rng::gen_range` on the range `0..n`: a draw below `n`.
#[verifier::external_body]
pub(crate) fn random_below(n: usize) -> (r: usize)
    requires
        n >= 1,
    ensures
        r < n,
{
    rand::Rng::gen_range(&mut rand::thread_rng(), 0..n)
}

} // verus!
