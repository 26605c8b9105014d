//! Single-precision floating-point values held as their IEEE-754 binary32
//! bit patterns, and the order on them that Rust's `<` on `f32` computes.

use vstd::prelude::*;

verus! {

/// The sign bit of a binary32 bit pattern.
pub const SIGN_BIT: u32 = 0x8000_0000;

/// The bit pattern of positive infinity; every larger magnitude is a NaN.
pub const INFINITY_BITS: u32 = 0x7f80_0000;

/// The bit pattern of `0.0f32`.
pub const ZERO_BITS: u32 = 0;

/// The bits of `b` without its sign bit.
pub open spec fn magnitude(b: u32) -> int {
    if b >= SIGN_BIT {
        b - SIGN_BIT
    } else {
        b as int
    }
}

/// `b` encodes a NaN.
pub open spec fn is_nan(b: u32) -> bool {
    magnitude(b) > INFINITY_BITS
}

/// The place of a non-NaN value on the real line: for binary32 the
/// magnitude bits grow with the absolute value, so this key is strictly
/// monotone in the value, and `+0.0` and `-0.0` share the key `0`.
pub open spec fn order_key(b: u32) -> int {
    if b >= SIGN_BIT {
        -magnitude(b)
    } else {
        magnitude(b)
    }
}

/// What `f32::from_bits(a) < f32::from_bits(b)` evaluates to.
pub open spec fn f32_lt(a: u32, b: u32) -> bool {
    !is_nan(a) && !is_nan(b) && order_key(a) < order_key(b)
}

/// Computes `order_key(b)`.
pub fn float_order_key(b: u32) -> (k: i64)
    ensures
        k == order_key(b),
{
    if b >= SIGN_BIT {
        -((b - SIGN_BIT) as i64)
    } else {
        b as i64
    }
}

/// Tests whether `b` encodes a NaN.
pub fn float_is_nan(b: u32) -> (r: bool)
    ensures
        r == is_nan(b),
{
    let m: u32 = if b >= SIGN_BIT { b - SIGN_BIT } else { b };
    m > INFINITY_BITS
}

/// Evaluates `f32::from_bits(a) < f32::from_bits(b)` on the bit patterns.
pub fn float_less(a: u32, b: u32) -> (r: bool)
    ensures
        r == f32_lt(a, b),
{
    !float_is_nan(a) && !float_is_nan(b) && float_order_key(a) < float_order_key(b)
}

} // verus!
