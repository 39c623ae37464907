//! Randomness for game use: a seeded generator state and helpers that draw
//! from it, kept behind a small trusted boundary.

use vstd::prelude::*;

pub mod chances;
pub mod pool;

verus! {

#[verifier::external_type_specification]
#[verifier::external_body]
pub struct ExLcg64Xsh32(rand_pcg::Lcg64Xsh32);

/// Relies on `rand_pcg::Pcg32::seed_from_u64` (via `rand::SeedableRng`):
/// builds a generator from the seed.
#[verifier::external_body]
fn pcg_seed_from_u64(seed: u64) -> rand_pcg::Pcg32 {
    <rand_pcg::Pcg32 as rand::SeedableRng>::seed_from_u64(seed)
}

/// Relies on `rand_pcg::Pcg32::from_entropy` (via `rand::SeedableRng`): builds
/// a generator from operating-system entropy, aborting when none can be read.
#[verifier::external_body]
fn pcg_from_entropy() -> rand_pcg::Pcg32 {
    <rand_pcg::Pcg32 as rand::SeedableRng>::from_entropy()
}

/// Relies on `rand_core::RngCore::next_u64`: draws the generator's next
/// value; nothing is promised of it.
#[verifier::external_body]
fn pcg_next_u64(rng: &mut rand_pcg::Pcg32) -> u64 {
    rand::RngCore::next_u64(rng)
}

/// Relies on `rand::Rng::gen_range` on the range `0..bound`: panics on an
/// empty range, otherwise returns a value of the range, so the bound must be
/// positive and the result is below it.
#[verifier::external_body]
pub(crate) fn pcg_gen_below(rng: &mut rand_pcg::Pcg32, bound: u64) -> (r: u64)
    requires
        bound > 0,
    ensures
        r < bound,
{
    rand::Rng::gen_range(rng, 0..bound)
}

/// The state of the game's random number generator.
#[derive(Debug)]
pub struct LuckState {
    pub(crate) state: rand_pcg::Pcg32,
}

impl LuckState {
    /// A fresh seed drawn from operating-system entropy.
    pub fn new_seed() -> u64 {
        let mut rng = pcg_from_entropy();
        pcg_next_u64(&mut rng)
    }

    /// A generator state deterministically derived from the seed.
    pub fn new(seed: u64) -> Self {
        LuckState { state: pcg_seed_from_u64(seed) }
    }
}

} // verus!
