//! Trusted access to the process's random number generator, used only to
//! pick among moves that the search has already proved equally good, and
//! to draw who goes first.

use vstd::prelude::*;

use rand::Rng;

verus! {

/// Relies on rand::rngs::ThreadRng, declared here so its values can pass
/// through signatures; it is opaque to the proofs.
#[verifier::external_type_specification]
#[verifier::external_body]
pub struct ExThreadRng(rand::rngs::ThreadRng);

/// Relies on rand::thread_rng: a handle to the thread-local generator.
#[verifier::external_body]
pub(crate) fn fresh_rng() -> rand::rngs::ThreadRng {
    rand::thread_rng()
}

/// Relies on rand::Rng::gen_range over `0..n`, which returns a value of
/// the half-open range and panics only when the range is empty.
#[verifier::external_body]
pub(crate) fn rng_below(rng: &mut rand::rngs::ThreadRng, n: usize) -> (r: usize)
    requires
        n > 0,
    ensures
        r < n,
{
    rng.gen_range(0..n)
}

/// Relies on rand::Rng::gen for bool: a coin flip; nothing is promised of
/// which side comes up.
#[verifier::external_body]
pub(crate) fn rng_bool(rng: &mut rand::rngs::ThreadRng) -> bool {
    rng.gen()
}

} // verus!
