//! The pseudo-random generator used for label selection: an owned,
//! injectable handle rather than an ambient global source.

use vstd::prelude::*;

verus! {

/// Declares rand's `StdRng` so that a sequence can hold its generator as
/// an ordinary field; the type is opaque to the verifier.
#[verifier::external_type_specification]
#[verifier::external_body]
pub struct ExStdRng(rand::rngs::StdRng);

/// Relies on rand's `SeedableRng::from_entropy`: a fresh generator seeded
/// from the operating system's entropy source.
#[verifier::external_body]
pub(crate) fn fresh_rng() -> (r: rand::rngs::StdRng) {
    <rand::rngs::StdRng as rand::SeedableRng>::from_entropy()
}

/// Relies on rand's `SeedableRng::seed_from_u64`: a generator whose draws
/// are a fixed function of the seed, for reproducible label selection.
#[verifier::external_body]
pub(crate) fn seeded_rng(seed: u64) -> (r: rand::rngs::StdRng) {
    <rand::rngs::StdRng as rand::SeedableRng>::seed_from_u64(seed)
}

/// Relies on rand's `Clone` for `StdRng`: a copy of the generator handle
/// (nothing is stated of the values either handle will produce).
#[verifier::external_body]
pub(crate) fn clone_rng(rng: &rand::rngs::StdRng) -> (r: rand::rngs::StdRng) {
    rng.clone()
}

/// Relies on rand's `Rng::gen_range` over an inclusive range: the result
/// lies in `lo..=hi`; a non-empty range never makes the call panic.
#[verifier::external_body]
pub(crate) fn rng_range_incl(rng: &mut rand::rngs::StdRng, lo: u64, hi: u64) -> (r: u64)
    requires
        lo <= hi,
    ensures
        lo <= r <= hi,
{
    rand::Rng::gen_range(rng, lo..=hi)
}

} // verus!
