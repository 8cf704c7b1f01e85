//! Ordering of 32-bit float bit patterns.
//!
//! Scores are carried as IEEE-754 single-precision bit patterns. On such a
//! pattern the numeric comparison of the encoded floats is pure integer
//! arithmetic: for non-NaN values the sign bit and the magnitude bits order
//! exactly as the floats do (infinities included; the two zeros have equal
//! keys). NaN patterns compare greater-than nothing and are exceeded by
//! nothing, which is how the scorer treats incomparable scores: as ties.

use vstd::prelude::*;

verus! {

/// Magnitude bits of the pattern: the value with the sign bit cleared.
pub open spec fn f32_mag(x: u32) -> int {
    if x >= 0x8000_0000 {
        x - 0x8000_0000
    } else {
        x as int
    }
}

/// True when the pattern encodes a NaN: magnitude above that of infinity.
pub open spec fn f32_is_nan_bits(x: u32) -> bool {
    f32_mag(x) > 0x7f80_0000
}

/// Sort key: magnitude, negated for negative patterns. For non-NaN
/// patterns `f32_key(a) > f32_key(b)` holds exactly when the float encoded
/// by `a` is numerically greater than the float encoded by `b`.
pub open spec fn f32_key(x: u32) -> int {
    if x >= 0x8000_0000 {
        -f32_mag(x)
    } else {
        f32_mag(x)
    }
}

/// Strict "greater" on score patterns; false whenever either side is NaN.
pub open spec fn f32_gt_bits(a: u32, b: u32) -> bool {
    &&& !f32_is_nan_bits(a)
    &&& !f32_is_nan_bits(b)
    &&& f32_key(a) > f32_key(b)
}

/// Magnitude bits of the pattern.
pub fn mag_bits(x: u32) -> (r: u32)
    ensures
        r == f32_mag(x),
{
    if x >= 0x8000_0000 {
        x - 0x8000_0000
    } else {
        x
    }
}

/// True when the pattern encodes a NaN.
pub fn is_nan_bits(x: u32) -> (r: bool)
    ensures
        r == f32_is_nan_bits(x),
{
    mag_bits(x) > 0x7f80_0000
}

/// Strict "greater" on score patterns.
pub fn gt_bits(a: u32, b: u32) -> (r: bool)
    ensures
        r == f32_gt_bits(a, b),
{
    if is_nan_bits(a) || is_nan_bits(b) {
        return false;
    }
    let ma = mag_bits(a);
    let mb = mag_bits(b);
    let neg_a = a >= 0x8000_0000;
    let neg_b = b >= 0x8000_0000;
    if neg_a && neg_b {
        ma < mb
    } else if neg_a {
        false
    } else if neg_b {
        !(ma == 0 && mb == 0)
    } else {
        ma > mb
    }
}

} // verus!
