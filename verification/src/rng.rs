//! The shared deterministic random generator and its entropy seeding,
//! behind trusted wrappers.
//!
//! The generator is threaded through the pipeline by reference, never held
//! as ambient global state, so that its consumption is reproducible given a
//! fixed seed and a fixed input sequence. Nothing is promised of the drawn
//! values; everything verified about the simulation holds for every draw.

use vstd::prelude::*;
use rand::RngCore;
use rand::SeedableRng;

verus! {

/// The deterministic generator's state type, from the outside crate.
#[verifier::external_type_specification]
#[verifier::external_body]
pub struct ExPcg32(rand_pcg::Lcg64Xsh32);

/// Relies on getrandom::getrandom: fills 8 bytes with operating-system
/// entropy. Nothing is promised of the value; a failure is reported as
/// `None` so the caller can fall back to a fixed seed.
#[verifier::external_body]
pub(crate) fn os_entropy_u64() -> (r: Option<u64>) {
    let mut buf: [u8; 8] = [0u8; 8];
    match getrandom::getrandom(&mut buf) {
        Ok(()) => Some(u64::from_le_bytes(buf)),
        Err(_) => None,
    }
}

/// Relies on `SeedableRng::seed_from_u64` for `rand_pcg::Pcg32`: builds the
/// generator deterministically from the seed.
#[verifier::external_body]
pub(crate) fn pcg_from_seed(seed: u64) -> (r: rand_pcg::Pcg32) {
    rand_pcg::Pcg32::seed_from_u64(seed)
}

/// Relies on `RngCore::next_u32` for `rand_pcg::Pcg32`: advances the
/// generator and returns the next draw. Nothing is promised of the value.
#[verifier::external_body]
pub(crate) fn pcg_next_u32(rng: &mut rand_pcg::Pcg32) -> (r: u32) {
    rng.next_u32()
}

} // verus!
