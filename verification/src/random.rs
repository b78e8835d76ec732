//! The source of randomness, and what is drawn from it.
//!
//! Nothing is stated of the values drawn but the range that they lie in: every
//! contract of this library holds whatever comes out of the generator.

use rand::rngs::StdRng;
use rand::{Rng, SeedableRng};
use vstd::prelude::*;

verus! {

/// The standard generator of the `rand` crate, an opaque value that is passed
/// on to the functions below.
#[verifier::external_type_specification]
#[verifier::external_body]
pub struct ExStdRng(rand::rngs::StdRng);

/// Draws sixteen bytes with `Rng::gen`. Nothing is claimed of them.
#[verifier::external_body]
pub(crate) fn draw_nonce(rng: &mut StdRng) -> (nonce: [u8; 16]) {
    rng.gen()
}

/// Draws thirty-two bytes with `Rng::gen`. Nothing is claimed of them.
#[verifier::external_body]
pub(crate) fn draw_bytes32(rng: &mut StdRng) -> (bytes: [u8; 32]) {
    rng.gen()
}

/// Draws a 64-bit number with `Rng::gen`. Nothing is claimed of it.
#[verifier::external_body]
pub(crate) fn draw_u64(rng: &mut StdRng) -> (raw: u64) {
    rng.gen()
}

/// Draws a number with `Rng::gen_range`: some number from the lower bound up to,
/// but not reaching, the upper bound. The function panics on an empty range.
#[verifier::external_body]
pub(crate) fn draw_between(rng: &mut StdRng, low: u64, high: u64) -> (drawn: u64)
    requires
        low < high,
    ensures
        low <= drawn < high,
{
    rng.gen_range(low..high)
}

/// Throws a die with `Rng::gen_range` on 32-bit numbers: some number from zero up
/// to, but not reaching, the number of sides. The function panics on an empty range.
#[verifier::external_body]
pub(crate) fn draw_die(rng: &mut StdRng, sides: i32) -> (drawn: i32)
    requires
        sides > 0,
    ensures
        0 <= drawn < sides,
{
    rng.gen_range(0..sides)
}

/// A generator from a seed, by `SeedableRng::seed_from_u64`. Nothing is claimed
/// of what it will draw.
#[verifier::external_body]
pub(crate) fn seeded(seed: u64) -> (rng: StdRng) {
    StdRng::seed_from_u64(seed)
}

} // verus!
