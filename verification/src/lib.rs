//! A pluggable block-compression library for arrays of fixed-width elements.
//!
//! An element is an opaque byte pattern of a fixed width; every codec works on
//! a flat byte buffer whose length is a multiple of that width. The codecs
//! share one `Compressor` interface and can be composed: a run-length codec
//! with a fixed or a variable-width count field, a delta codec, a dictionary
//! lookup codec, a hybrid selector that keeps the smallest candidate output,
//! and a chunking decorator that compresses independent chunks in parallel.

use vstd::prelude::*;

pub mod algorithms;
pub mod compressor;

verus! {

/// The xorshift-style mixing function used to generate scattered sample data.
pub open spec fn spec_pseudo_random(seed: u32) -> u32 {
    let a = seed ^ (seed << 13);
    let b = a ^ (a >> 17);
    let c = b ^ (b << 5);
    let d = vstd::wrapping::u32_specs::wrapping_mul(c, 0x322adf);
    let e = d ^ (d >> 11);
    vstd::wrapping::u32_specs::wrapping_add(e, 0x9e3779b9)
}

/// Deterministic pseudo-random mixer for driver programs that want
/// reproducible scattered data sets.
pub fn pseudo_random(seed: u32) -> (value: u32)
    ensures
        value == spec_pseudo_random(seed),
{
    let mut value = seed;
    value ^= value << 13;
    value ^= value >> 17;
    value ^= value << 5;
    value = value.wrapping_mul(0x322adf);
    value ^= value >> 11;
    value = value.wrapping_add(0x9e3779b9);
    value
}

} // verus!
