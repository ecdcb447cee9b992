//! The hasher and the random source of the sampler: `ahash::RandomState`
//! and `rand::rngs::SmallRng`.
//!
//! Both are trusted. The hasher's keys come from the clock when the sampler
//! is made, and its output differs between machines, so nothing is said of a
//! hash value beyond its type; nothing is said of a random draw either.
use vstd::prelude::*;
use ahash::RandomState;
use rand::rngs::SmallRng;
use rand::{Rng, SeedableRng};

verus! {

/// `ahash::RandomState`, the keys of a hasher.
#[verifier::external_type_specification]
#[verifier::external_body]
pub struct ExRandomState(RandomState);

/// `rand::rngs::SmallRng`, a small fast random generator.
#[verifier::external_type_specification]
#[verifier::external_body]
pub struct ExSmallRng(SmallRng);

/// `RandomState::with_seeds`: a hasher keyed by `seed` four times.
#[verifier::external_body]
pub(crate) fn hasher_with_seed(seed: u64) -> RandomState {
    RandomState::with_seeds(seed, seed, seed, seed)
}

/// `RandomState::hash_one`: the hash of `x` under the hasher's keys. The value
/// depends on the keys and on the machine; nothing is stated of it.
#[verifier::external_body]
pub(crate) fn hash_one<T: std::hash::Hash>(hasher: &RandomState, x: T) -> u64 {
    hasher.hash_one(x)
}

/// `SeedableRng::seed_from_u64`: a generator seeded by `seed`. It reads
/// nothing from the system and does not fail.
#[verifier::external_body]
pub(crate) fn small_rng_from_seed(seed: u64) -> SmallRng {
    SmallRng::seed_from_u64(seed)
}

/// `Rng::gen::<u32>`: a random `u32`; any value may come back.
#[verifier::external_body]
pub(crate) fn random_u32(rng: &mut SmallRng) -> u32 {
    rng.gen::<u32>()
}

} // verus!
