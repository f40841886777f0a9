use vstd::prelude::*;

verus! {

/// rand's standard pseudo-random generator, held opaquely. A generator built
/// from a fixed seed replays the same stream on every run, which is what
/// makes seeded simulations reproducible.
#[verifier::external_type_specification]
#[verifier::external_body]
pub struct ExStdRng(rand::rngs::StdRng);

/// Relies on rand's `SeedableRng::seed_from_u64` for `StdRng`: builds a
/// generator whose stream is a function of the seed alone.
#[verifier::external_body]
pub(crate) fn rng_from_seed(seed: u64) -> rand::rngs::StdRng {
    rand::SeedableRng::seed_from_u64(seed)
}

/// Relies on rand's `Rng::gen_range` over the half-open range `0..bound`:
/// returns a value drawn from that range, so strictly below `bound`. It
/// panics only on an empty range, which the precondition excludes.
#[verifier::external_body]
pub(crate) fn rng_below(rng: &mut rand::rngs::StdRng, bound: usize) -> (r: usize)
    requires
        bound > 0,
    ensures
        r < bound,
{
    rand::Rng::gen_range(rng, 0..bound)
}

} // verus!
