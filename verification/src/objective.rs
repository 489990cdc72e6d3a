//! Objective values as IEEE 754 binary64 bit patterns, with the order that `<` and `max`
//! give them.
use vstd::prelude::*;

verus! {

/// The sign bit of a binary64 bit pattern.
pub const SIGN_BIT: u64 = 0x8000_0000_0000_0000u64;

/// Bit pattern of positive infinity; also the largest magnitude that is not a NaN.
pub const INFINITY: u64 = 0x7FF0_0000_0000_0000u64;

/// Bit pattern of negative infinity.
pub const NEG_INFINITY: u64 = 0xFFF0_0000_0000_0000u64;

/// The absolute-value part of a bit pattern: every bit but the sign.
pub open spec fn magnitude(b: u64) -> int {
    if b >= SIGN_BIT {
        b - SIGN_BIT
    } else {
        b as int
    }
}

/// Whether the bit pattern encodes a NaN: exponent all ones and a non-zero fraction.
pub open spec fn spec_is_nan(b: u64) -> bool {
    magnitude(b) > INFINITY
}

/// Whether the bit pattern encodes positive or negative infinity.
pub open spec fn spec_is_infinite(b: u64) -> bool {
    magnitude(b) == INFINITY
}

/// The position of a value on the number line. For values that are not NaN, binary64
/// numbers are ordered as their keys are: the magnitude bits grow with the value, and the
/// sign bit mirrors it. Both zeros have key 0.
pub open spec fn key(b: u64) -> int {
    if b >= SIGN_BIT {
        -magnitude(b)
    } else {
        magnitude(b)
    }
}

/// `a < b` on binary64 values: false whenever either side is NaN.
pub open spec fn spec_lt(a: u64, b: u64) -> bool {
    !spec_is_nan(a) && !spec_is_nan(b) && key(a) < key(b)
}

/// `a <= b` on binary64 values: false whenever either side is NaN.
pub open spec fn spec_le(a: u64, b: u64) -> bool {
    !spec_is_nan(a) && !spec_is_nan(b) && key(a) <= key(b)
}

/// The maximum of two values, ignoring NaN: if `a` is NaN or smaller than `b` it is `b`,
/// otherwise `a` (so of two values that compare equal, the first is kept).
pub open spec fn spec_max(a: u64, b: u64) -> u64 {
    if spec_is_nan(a) || spec_lt(a, b) {
        b
    } else {
        a
    }
}

/// Whether the bit pattern encodes a NaN.
pub fn is_nan(b: u64) -> (r: bool)
    ensures
        r == spec_is_nan(b),
{
    let m: u64 = if b >= SIGN_BIT { b - SIGN_BIT } else { b };
    m > INFINITY
}

/// Whether the bit pattern encodes positive or negative infinity.
pub fn is_infinite(b: u64) -> (r: bool)
    ensures
        r == spec_is_infinite(b),
{
    let m: u64 = if b >= SIGN_BIT { b - SIGN_BIT } else { b };
    m == INFINITY
}

/// The key of a bit pattern (see [`key`]): its position on the number line.
pub fn value_key(b: u64) -> (k: i64)
    ensures
        k == key(b),
{
    if b >= SIGN_BIT {
        let m: u64 = b - SIGN_BIT;
        0i64 - (m as i64)
    } else {
        b as i64
    }
}

/// `a < b` on binary64 values.
pub fn lt(a: u64, b: u64) -> (r: bool)
    ensures
        r == spec_lt(a, b),
{
    if is_nan(a) || is_nan(b) {
        false
    } else {
        value_key(a) < value_key(b)
    }
}

/// The maximum of two values, ignoring NaN (see [`spec_max`]).
pub fn max(a: u64, b: u64) -> (r: u64)
    ensures
        r == spec_max(a, b),
{
    if is_nan(a) || lt(a, b) {
        b
    } else {
        a
    }
}

} // verus!
