//! Random numbers.

use vstd::prelude::*;

verus! {

/// `fastrand::u32(..)`: a random number, of which nothing is known.
#[verifier::external_body]
fn random_u32() -> u32 {
    fastrand::u32(..)
}

/// So many random numbers.
pub(crate) fn random_draws(n: usize) -> (r: Vec<u32>)
    ensures
        r@.len() == n,
{
    let mut draws: Vec<u32> = Vec::new();
    while draws.len() < n
        invariant
            draws@.len() <= n,
        decreases n - draws@.len(),
    {
        draws.push(random_u32());
    }
    draws
}

/// `fastrand::u64(..)`: a random number, of which nothing is known.
#[verifier::external_body]
pub(crate) fn random_u64() -> u64 {
    fastrand::u64(..)
}

} // verus!
