//! The seeded random source: `rand`'s standard generator behind a trusted
//! range-sampling wrapper.
//!
//! Both generators draw every random value through [`rand_range`], in a fixed,
//! documented order, so a caller that seeds the generator itself reproduces a
//! level exactly.

use vstd::prelude::*;
use rand::Rng;
use rand::rngs::StdRng;

verus! {

/// Declares rand's `StdRng` so generator signatures can carry the caller's
/// seeded random source; the library assumes nothing about its state.
#[verifier::external_type_specification]
#[verifier::external_body]
pub struct ExStdRng(StdRng);

/// Relies on rand::Rng::gen_range over the `i32` range `low..high`: it panics
/// on an empty range and otherwise returns a value drawn from `[low, high)`.
/// Nothing else is assumed of the draw.
#[verifier::external_body]
pub(crate) fn rand_range(rng: &mut StdRng, low: i32, high: i32) -> (r: i32)
    requires
        low < high,
    ensures
        low <= r < high,
{
    rng.gen_range(low..high)
}

} // verus!
