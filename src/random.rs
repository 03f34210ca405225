//! Random draws for the search, taken from a seeded generator owned by the caller.
use vstd::prelude::*;
use rand::Rng;
use rand::SeedableRng;

verus! {

#[verifier::external_type_specification]
#[verifier::external_body]
pub struct ExStdRng(rand::rngs::StdRng);

/// Relies on `rand::SeedableRng::seed_from_u64` for `StdRng`: a generator
/// whose whole stream is fixed by the seed, so that a run can be replayed.
#[verifier::external_body]
pub fn seeded_rng(seed: u64) -> (r: rand::rngs::StdRng) {
    rand::rngs::StdRng::seed_from_u64(seed)
}

/// Relies on `rand::Rng::gen_range` over `0..bound`: a value below `bound`
/// (the call panics on an empty range, which `requires` rules out).
#[verifier::external_body]
pub fn below(rng: &mut rand::rngs::StdRng, bound: usize) -> (r: usize)
    requires
        bound > 0,
    ensures
        r < bound,
{
    rng.gen_range(0..bound)
}

/// Relies on `rand::Rng::gen::<bool>`: a fair coin flip.
#[verifier::external_body]
pub fn coin(rng: &mut rand::rngs::StdRng) -> (r: bool) {
    rng.gen::<bool>()
}

} // verus!
