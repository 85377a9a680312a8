//! The pseudo-random generator behind layer selection.

use vstd::prelude::*;
use rand::rngs::StdRng;

verus! {

#[verifier::external_type_specification]
#[verifier::external_body]
pub struct ExStdRng(StdRng);

/// `SeedableRng::seed_from_u64` on `StdRng`: a generator whose stream is
/// fixed by `seed`. Nothing is claimed of the stream.
#[verifier::external_body]
pub(crate) fn seeded_generator(seed: u64) -> StdRng {
    rand::SeedableRng::seed_from_u64(seed)
}

/// `SeedableRng::from_rng` on `StdRng` with the operating system's source:
/// a freshly seeded generator, or `None` when the system gives no entropy.
#[verifier::external_body]
pub(crate) fn system_generator() -> Option<StdRng> {
    <StdRng as rand::SeedableRng>::from_rng(rand::rngs::OsRng).ok()
}

/// `RngCore::next_u64`: the next 64 bits of the stream. Any value may come.
#[verifier::external_body]
pub(crate) fn next_word(rng: &mut StdRng) -> u64 {
    rand::RngCore::next_u64(rng)
}

} // verus!
