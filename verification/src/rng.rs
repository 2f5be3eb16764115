//! Random number generators for the simulations.
use vstd::prelude::*;

verus! {

/// The generator type of `rand`, held opaquely: only `rand` looks inside it.
#[verifier::external_type_specification]
#[verifier::external_body]
pub struct ExSmallRng(rand::rngs::SmallRng);

/// `SmallRng` rather than `StdRng`, as "mostly random" is more than enough.
pub type Rng = rand::rngs::SmallRng;

/// Generates a new random number generator using system entropy.
///
/// Calls `rand::rng()` and `SeedableRng::from_rng` on it. Nothing is stated
/// of the generator: its state comes from the operating system.
#[verifier::external_body]
pub fn from_entropy() -> Rng {
    <Rng as rand::SeedableRng>::from_rng(&mut rand::rng())
}

/// Generates a new random number generator from a seed. Used by the tests,
/// which need a simulation to replay identically rather than to look random.
///
/// Calls `SeedableRng::seed_from_u64`. The generator is opaque here, so no
/// clause states that one seed always gives the same generator.
#[verifier::external_body]
pub fn seeded(seed: u64) -> Rng {
    <Rng as rand::SeedableRng>::seed_from_u64(seed)
}

/// A fair coin: `RngExt::random::<bool>`. Any outcome is possible, so
/// nothing is stated of it.
#[verifier::external_body]
pub(crate) fn random_bool(rng: &mut Rng) -> bool {
    rand::RngExt::random::<bool>(rng)
}

/// A value drawn from `0..bound` by `RngExt::random_range`, which panics on
/// an empty range. Which value comes out is up to the generator; that it lies
/// in the range is what `rand` documents.
#[verifier::external_body]
pub(crate) fn random_below(rng: &mut Rng, bound: u32) -> (r: u32)
    requires
        bound > 0,
    ensures
        r < bound,
{
    rand::RngExt::random_range(rng, 0..bound)
}

} // verus!
