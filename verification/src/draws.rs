//! Random draws of whole numbers, from the `rand` crate.

use rand::rngs::StdRng;
use rand::{Rng, SeedableRng};
use vstd::prelude::*;

verus! {

/// The generator behind all draws.
#[verifier::external_type_specification]
#[verifier::external_body]
pub struct ExStdRng(StdRng);

/// The generator that `StdRng::seed_from_u64` starts from a number.
pub uninterp spec fn started(seed: u64) -> StdRng;

/// `StdRng::seed_from_u64`: a generator started from a number. The state that it starts in
/// follows from the number alone, so that the same seed starts the same generator.
#[verifier::external_body]
pub(crate) fn seeded(seed: u64) -> (r: StdRng)
    ensures
        r == started(seed),
{
    StdRng::seed_from_u64(seed)
}

/// What `Rng::gen_range` gives for the range from `lo` to below `hi` of `u32`, and the generator
/// that it leaves behind.
pub uninterp spec fn drawn_u32(source: StdRng, lo: u32, hi: u32) -> (u32, StdRng);

/// What `Rng::gen_range` gives for the range from `lo` to below `hi` of `u64`, and the generator
/// that it leaves behind.
pub uninterp spec fn drawn_u64(source: StdRng, lo: u64, hi: u64) -> (u64, StdRng);

/// What `Rng::gen_range` gives for the range from `lo` to below `hi` of `usize`, and the generator
/// that it leaves behind, on a machine whose `usize` has `bits` bits.
pub uninterp spec fn drawn_usize(source: StdRng, lo: usize, hi: usize, bits: u32) -> (
    usize,
    StdRng,
);

/// What `Rng::gen_range` gives for the range from `lo` up to and including `hi` of `u8`, and the
/// generator that it leaves behind.
pub uninterp spec fn drawn_u8(source: StdRng, lo: u8, hi: u8) -> (u8, StdRng);

/// `Rng::gen_range` on a half-open range of `u32`: some number in the range. The number, and the
/// state that the generator comes to, follow from the state that it was in and from the range. An
/// empty range would panic.
#[verifier::external_body]
pub(crate) fn draw_u32(rng: &mut StdRng, lo: u32, hi: u32) -> (r: u32)
    requires
        lo < hi,
    ensures
        lo <= r < hi,
        r == drawn_u32(*old(rng), lo, hi).0,
        *final(rng) == drawn_u32(*old(rng), lo, hi).1,
{
    rng.gen_range(lo..hi)
}

/// `Rng::gen_range` on a half-open range of `u64`: some number in the range. The number, and the
/// state that the generator comes to, follow from the state that it was in and from the range. An
/// empty range would panic.
#[verifier::external_body]
pub(crate) fn draw_u64(rng: &mut StdRng, lo: u64, hi: u64) -> (r: u64)
    requires
        lo < hi,
    ensures
        lo <= r < hi,
        r == drawn_u64(*old(rng), lo, hi).0,
        *final(rng) == drawn_u64(*old(rng), lo, hi).1,
{
    rng.gen_range(lo..hi)
}

/// `Rng::gen_range` on a half-open range of `usize`: some number in the range. The number, and the
/// state that the generator comes to, follow from the state that it was in, from the range and
/// from the width of `usize`: the sampler draws a word of that width. An empty range would panic.
#[verifier::external_body]
pub(crate) fn draw_usize(rng: &mut StdRng, lo: usize, hi: usize) -> (r: usize)
    requires
        lo < hi,
    ensures
        lo <= r < hi,
        r == drawn_usize(*old(rng), lo, hi, usize::BITS).0,
        *final(rng) == drawn_usize(*old(rng), lo, hi, usize::BITS).1,
{
    rng.gen_range(lo..hi)
}

/// `Rng::gen_range` on a closed range of `u8`: some number in the range. The number, and the state
/// that the generator comes to, follow from the state that it was in and from the range. An empty
/// range would panic.
#[verifier::external_body]
pub(crate) fn draw_u8(rng: &mut StdRng, lo: u8, hi: u8) -> (r: u8)
    requires
        lo <= hi,
    ensures
        lo <= r <= hi,
        r == drawn_u8(*old(rng), lo, hi).0,
        *final(rng) == drawn_u8(*old(rng), lo, hi).1,
{
    rng.gen_range(lo..=hi)
}

} // verus!
