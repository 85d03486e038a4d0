//! Draws from a generator that the caller owns and seeds.
use rand::rngs::StdRng;
use rand::Rng;
use rand::SeedableRng;
use vstd::prelude::*;

verus! {

#[verifier::external_type_specification]
#[verifier::external_body]
pub struct ExStdRng(rand::rngs::StdRng);

/// Calls `Rng::gen_range` of the `rand` crate, which returns an integer that
/// is at least `low` and below `high`, and panics unless `low < high`.
/// The contract claims that range and nothing about which value comes.
#[verifier::external_body]
pub(crate) fn draw_range(rng: &mut StdRng, low: i128, high: i128) -> (r: i128)
    requires
        low < high,
    ensures
        low <= r < high,
{
    rng.gen_range(low, high)
}

/// Calls `Rng::gen_ratio` of the `rand` crate, which returns `true` with a
/// chance of `numerator` in `denominator`, and panics if the denominator is
/// zero or below the numerator. The contract claims only the two certain
/// cases: always `true` when the two are equal, never when the numerator is
/// zero.
#[verifier::external_body]
pub(crate) fn draw_ratio(rng: &mut StdRng, numerator: u32, denominator: u32) -> (b: bool)
    requires
        denominator > 0,
        numerator <= denominator,
    ensures
        numerator == denominator ==> b,
        numerator == 0 ==> !b,
{
    rng.gen_ratio(numerator, denominator)
}

/// Calls `SeedableRng::seed_from_u64` of the `rand` crate for its standard
/// generator. The contract claims nothing of the generator that comes.
#[verifier::external_body]
pub(crate) fn seeded(seed: u64) -> (rng: StdRng) {
    StdRng::seed_from_u64(seed)
}

} // verus!
