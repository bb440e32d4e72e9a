//! The pseudo-random generator used by the search, from the `rand` crate,
//! behind trusted declarations: the generator's state is opaque here, and the
//! contracts state only what holds of every draw.

use vstd::prelude::*;

verus! {

#[verifier::external_type_specification]
#[verifier::external_body]
pub struct ExStdRng(rand::rngs::StdRng);

/// Relies on rand's `SeedableRng::seed_from_u64` for `StdRng`: builds a
/// generator deterministically from a 64-bit seed; total, never panics.
#[verifier::external_body]
pub(crate) fn rng_from_seed(seed: u64) -> (r: rand::rngs::StdRng) {
    <rand::rngs::StdRng as rand::SeedableRng>::seed_from_u64(seed)
}

/// Relies on rand's `SeedableRng::from_entropy` for `StdRng`: builds a
/// generator from operating-system entropy. It panics only when the system's
/// entropy source fails, which no input can cause or avoid.
#[verifier::external_body]
pub(crate) fn rng_from_entropy() -> (r: rand::rngs::StdRng) {
    <rand::rngs::StdRng as rand::SeedableRng>::from_entropy()
}

/// Relies on rand's `Rng::gen_range` over `0..bound`: returns a value of that
/// half-open range. It panics exactly when the range is empty, which the
/// `requires` rules out.
#[verifier::external_body]
pub(crate) fn rng_below(rng: &mut rand::rngs::StdRng, bound: u64) -> (r: u64)
    requires
        bound >= 1,
    ensures
        r < bound,
{
    rand::Rng::gen_range(rng, 0..bound)
}

} // verus!
