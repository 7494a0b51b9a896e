//! The randomness source. All randomness of the crate is drawn from
//! `rand`'s thread-local generator through the two wrappers below; nothing
//! is promised of which value comes back beyond its range, so every caller
//! is verified for every outcome.

use vstd::prelude::*;

verus! {

#[verifier::external_type_specification]
#[verifier::external_body]
pub struct ExThreadRng(rand::rngs::ThreadRng);

/// Relies on rand::rng: returns a handle to the thread-local random
/// generator. (The underlying call aborts only if the operating system
/// cannot seed the generator at all.)
#[verifier::external_body]
pub(crate) fn new_rng() -> rand::rngs::ThreadRng {
    rand::rng()
}

/// Relies on rand's RngExt::random_range over `0..n`: returns a uniformly
/// distributed value of the non-empty range, so the result is below `n`.
#[verifier::external_body]
pub(crate) fn rand_below(rng: &mut rand::rngs::ThreadRng, n: usize) -> (r: usize)
    requires
        1 <= n,
    ensures
        r < n,
{
    rand::RngExt::random_range(rng, 0..n)
}

} // verus!
