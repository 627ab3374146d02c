//! The random source of the library: a seedable generator of the `rand`
//! crate, drawn from through a few trusted functions. Nothing is assumed of
//! a drawn number beyond the range it was asked for, so every search that
//! draws is verified for every outcome of the draw.
use rand::rngs::StdRng;
use rand::Rng;
use rand::SeedableRng;
use vstd::prelude::*;

verus! {

/// `rand::rngs::StdRng`, carried through the library as an opaque value.
#[verifier::external_type_specification]
#[verifier::external_body]
pub struct ExStdRng(rand::rngs::StdRng);

/// `SeedableRng::seed_from_u64` for `StdRng`: a generator whose stream is
/// fixed by `seed`. Nothing is claimed of the stream.
#[verifier::external_body]
pub(crate) fn seeded_rng(seed: u64) -> StdRng {
    StdRng::seed_from_u64(seed)
}

/// `Rng::gen_range` on the half-open range `low..high` of `i32`. The call
/// panics on an empty range, which `requires` leaves out; the number drawn
/// lies in the range. By the crate's source the inclusive range
/// `low..=high - 1` draws exactly as this one does.
#[verifier::external_body]
pub(crate) fn random_i32(rng: &mut StdRng, low: i32, high: i32) -> (r: i32)
    requires
        low < high,
    ensures
        low <= r < high,
{
    rng.gen_range(low..high)
}

/// `Rng::gen_range` on the half-open range `0..len` of `usize`. The call
/// panics on an empty range, which `requires` leaves out; the index drawn
/// lies below `len`.
#[verifier::external_body]
pub(crate) fn random_index(rng: &mut StdRng, len: usize) -> (r: usize)
    requires
        len > 0,
    ensures
        r < len,
{
    rng.gen_range(0..len)
}

/// `Rng::gen` for `u64`: any number may be drawn.
#[verifier::external_body]
pub(crate) fn random_u64(rng: &mut StdRng) -> u64 {
    rng.gen()
}

/// `Rng::gen` for `usize`: any number may be drawn.
#[verifier::external_body]
pub(crate) fn random_usize(rng: &mut StdRng) -> usize {
    rng.gen()
}

} // verus!
