//! Uniform random choices, drawn with the `rand` crate.

use vstd::prelude::*;
use rand::Rng;

verus! {

/// Draws an index uniformly from `0..n` with
/// `rand::thread_rng().gen_range(0, n)`.
///
/// `gen_range` returns a value in `[low, high)` and panics when
/// `low >= high`, so `n` must be positive; the contract claims only the
/// range of the result. `thread_rng` panics when the operating system
/// offers no entropy at all, which no clause here can rule out.
#[verifier::external_body]
pub(crate) fn uniform_index(n: usize) -> (r: usize)
    requires
        n > 0,
    ensures
        r < n,
{
    rand::thread_rng().gen_range(0, n)
}

/// The bit pattern of `1.0f32`; a pattern below it encodes a value in `[0, 1)`.
pub const ONE_BITS: u32 = 0x3f80_0000;

/// Draws a single-precision value uniformly from `[0, 1)` with
/// `rand::thread_rng().next_f32()` and hands back its bit pattern.
///
/// In `rand` 0.4, `next_f32` sets the exponent of `1.0` under 23 random
/// mantissa bits and subtracts `1.0`, which gives a value in `[0, 1)`
/// that is never `-0.0`: its bit pattern is below that of `1.0`. This is
/// the value that `Range::new(0., 1.)` samples, `0 + 1 * next_f32()`.
#[verifier::external_body]
pub(crate) fn uniform_unit_bits() -> (b: u32)
    ensures
        b < ONE_BITS,
{
    rand::thread_rng().next_f32().to_bits()
}

} // verus!
