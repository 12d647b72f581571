//! The seeded random stream behind the uniform-random phase of the corpus.
//!
//! The generator state is an outside type and is opaque here: nothing is
//! assumed of the drawn values beyond their range, and the callers' contracts
//! hold whatever the stream returns.

use vstd::prelude::*;

verus! {

/// The standard seedable generator of the `rand` crate, carried opaquely.
#[verifier::external_type_specification]
#[verifier::external_body]
pub struct ExStdRng(rand::rngs::StdRng);

/// Relies on `rand_core::SeedableRng::seed_from_u64`: builds the standard
/// generator from a word-sized seed, never panicking.
#[verifier::external_body]
pub(crate) fn rng_from_seed(seed: u64) -> rand::rngs::StdRng {
    <rand::rngs::StdRng as rand::SeedableRng>::seed_from_u64(seed)
}

/// Relies on `rand::RngExt::random_range` over an inclusive integer range:
/// the draw lies in `[lo, hi]`; the call panics only on an empty range, which
/// the precondition rules out.
#[verifier::external_body]
pub(crate) fn random_in_range(rng: &mut rand::rngs::StdRng, lo: i64, hi: i64) -> (r: i64)
    requires
        lo <= hi,
    ensures
        lo <= r <= hi,
{
    rand::RngExt::random_range(rng, lo..=hi)
}

} // verus!
