//! IEEE-754 numbers handled by their bits.
//!
//! The sign is the top bit and the rest orders magnitudes, so ordering and
//! clamping need no arithmetic on the numbers themselves.

use vstd::prelude::*;

verus! {

/// Bits of positive infinity.
pub const F32_INFINITY: u32 = 0x7f80_0000;

/// Bits of negative infinity.
pub const F32_NEG_INFINITY: u32 = 0xff80_0000;

/// Neither infinite nor a NaN: the exponent field is not all ones.
pub open spec fn f32_finite(bits: u32) -> bool {
    bits % 0x8000_0000 < F32_INFINITY
}

/// A NaN: the exponent field is all ones and the fraction is not zero.
pub open spec fn f32_nan(bits: u32) -> bool {
    bits % 0x8000_0000 > F32_INFINITY
}

/// Orders every number that is not a NaN; both zeros share rank 0.
pub open spec fn f32_rank(bits: u32) -> int {
    if bits < 0x8000_0000 {
        bits as int
    } else {
        0x8000_0000 - bits
    }
}

/// `a < b`, false where either is a NaN.
pub open spec fn f32_lt(a: u32, b: u32) -> bool {
    !f32_nan(a) && !f32_nan(b) && f32_rank(a) < f32_rank(b)
}

/// `a <= b`, false where either is a NaN.
pub open spec fn f32_le(a: u32, b: u32) -> bool {
    !f32_nan(a) && !f32_nan(b) && f32_rank(a) <= f32_rank(b)
}

/// `x` moved to the nearer bound where it lies outside `low..=high`.
pub open spec fn f32_clamped(x: u32, low: u32, high: u32) -> u32 {
    if f32_lt(x, low) {
        low
    } else if f32_lt(high, x) {
        high
    } else {
        x
    }
}

/// Finite and inside `low..=high`.
pub open spec fn f32_in_range(x: u32, low: u32, high: u32) -> bool {
    f32_finite(x) && f32_le(low, x) && f32_le(x, high)
}

/// Clamping a finite number to a finite, ordered range puts it inside.
pub proof fn lemma_clamped_in_range(x: u32, low: u32, high: u32)
    requires
        f32_finite(x),
        f32_finite(low),
        f32_finite(high),
        f32_le(low, high),
    ensures
        f32_in_range(f32_clamped(x, low, high), low, high),
{
}

/// Clamping leaves a number inside the range alone.
pub proof fn lemma_clamped_keeps(x: u32, low: u32, high: u32)
    requires
        f32_in_range(x, low, high),
    ensures
        f32_clamped(x, low, high) == x,
{
}

/// Neither infinite nor a NaN.
pub fn is_finite(bits: u32) -> (r: bool)
    ensures
        r == f32_finite(bits),
    no_unwind
{
    bits % 0x8000_0000 < F32_INFINITY
}

/// A NaN.
pub fn is_nan(bits: u32) -> (r: bool)
    ensures
        r == f32_nan(bits),
    no_unwind
{
    bits % 0x8000_0000 > F32_INFINITY
}

fn rank(bits: u32) -> (r: i64)
    ensures
        r == f32_rank(bits),
    no_unwind
{
    if bits < 0x8000_0000 {
        bits as i64
    } else {
        0x8000_0000i64 - bits as i64
    }
}

/// `a < b` as numbers.
pub fn less(a: u32, b: u32) -> (r: bool)
    ensures
        r == f32_lt(a, b),
    no_unwind
{
    !is_nan(a) && !is_nan(b) && rank(a) < rank(b)
}

/// `a <= b` as numbers.
pub fn less_or_equal(a: u32, b: u32) -> (r: bool)
    ensures
        r == f32_le(a, b),
    no_unwind
{
    !is_nan(a) && !is_nan(b) && rank(a) <= rank(b)
}

/// `x` moved to the nearer bound where it lies outside `low..=high`.
pub fn clamp(x: u32, low: u32, high: u32) -> (r: u32)
    ensures
        r == f32_clamped(x, low, high),
    no_unwind
{
    if less(x, low) {
        low
    } else if less(high, x) {
        high
    } else {
        x
    }
}

/// Finite and inside `low..=high`.
pub fn in_range(x: u32, low: u32, high: u32) -> (r: bool)
    ensures
        r == f32_in_range(x, low, high),
{
    is_finite(x) && less_or_equal(low, x) && less_or_equal(x, high)
}

} // verus!
