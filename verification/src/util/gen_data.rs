//! Random flows for trying the sampler out.
use vstd::prelude::*;
use rand::Rng;
use rand::rngs::ThreadRng;

verus! {

/// `rand::rngs::ThreadRng`, the thread's random generator.
#[verifier::external_type_specification]
#[verifier::external_body]
pub struct ExThreadRng(ThreadRng);

/// `Rng::gen_range(lo..=hi)`: a random value from `lo` to `hi`, both
/// included (as the documentation of `gen_range` says); which one is left
/// to chance. It panics on an empty range, which `requires` leaves out.
#[verifier::external_body]
fn gen_range_inclusive(rng: &mut ThreadRng, lo: u64, hi: u64) -> (r: u64)
    requires
        lo <= hi,
    ensures
        lo <= r <= hi,
{
    rng.gen_range(lo..=hi)
}

/// A random flow key of five bytes, and a timestamp from 1 to 1000 after
/// `previous_timestamp`, drawn from `rng`.
pub fn random_flow(rng: &mut ThreadRng, previous_timestamp: &u64) -> (r: (Vec<u8>, u64))
    requires
        *previous_timestamp <= u64::MAX - 1000,
    ensures
        r.0@.len() == 5,
        *previous_timestamp + 1 <= r.1 <= *previous_timestamp + 1000,
{
    let mut flow_key: Vec<u8> = Vec::new();
    let mut i: usize = 0;
    while i < 5
        invariant
            i <= 5,
            flow_key@.len() == i,
        decreases 5 - i,
    {
        let b = gen_range_inclusive(rng, 0, 255);
        flow_key.push(b as u8);
        i = i + 1;
    }
    let timestamp = *previous_timestamp + gen_range_inclusive(rng, 1, 1000);
    (flow_key, timestamp)
}

} // verus!
