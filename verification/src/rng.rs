//! Randomness for quest generation. The generator is injected as an explicit
//! handle, so callers (and tests) control seeding.

use vstd::prelude::*;

verus! {

/// The `rand` crate's standard generator, declared so its values can pass
/// through verified signatures; its internals stay opaque.
#[verifier::external_type_specification]
#[verifier::external_body]
pub struct ExStdRng(rand::rngs::StdRng);

/// Relies on `rand::Rng::gen_range` over the inclusive range `lo..=hi`: the
/// result lies within the range. It panics only on an empty range, which
/// `requires` rules out. Which value comes back depends on the generator's
/// state, so nothing more is promised.
#[verifier::external_body]
pub(crate) fn rng_range_u32(rng: &mut rand::rngs::StdRng, lo: u32, hi: u32) -> (r: u32)
    requires
        lo <= hi,
    ensures
        lo <= r <= hi,
{
    rand::Rng::gen_range(rng, lo..=hi)
}

} // verus!
