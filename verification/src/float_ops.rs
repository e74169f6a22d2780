//! Arithmetic on IEEE 754 binary32 values carried as `u32` bit patterns.
//!
//! The rounding arithmetic (add, sub, mul, div, sqrt, ordered comparison)
//! is done by the `const_soft_float` crate, a software implementation of
//! IEEE 754 binary32; each such operation is a pure function of its
//! operands' bit patterns, so its result is given a name that contracts
//! can speak of. Operations that the IEEE 754 encoding fixes bit by bit
//! (sign tests, absolute value, sign transfer, NaN tests) are implemented
//! and specified here directly over the bit pattern.

use const_soft_float::soft_f32::SoftF32;
use vstd::prelude::*;

verus! {

/// Mask of the sign bit of a binary32 encoding.
pub const SIGN_MASK: u32 = 0x8000_0000;

/// Mask of the exponent and significand bits of a binary32 encoding.
pub const MAGNITUDE_MASK: u32 = 0x7fff_ffff;

/// Exponent-all-ones magnitude: the encoding of positive infinity.
pub const POS_INFINITY_BITS: u32 = 0x7f80_0000;

/// The encoding of 1.0.
pub const ONE_BITS: u32 = 0x3f80_0000;

/// The encoding of -1.0.
pub const NEG_ONE_BITS: u32 = 0xbf80_0000;

/// The result of IEEE 754 binary32 addition, on bit patterns.
pub uninterp spec fn spec_f32_add(a: u32, b: u32) -> u32;

/// The result of IEEE 754 binary32 subtraction, on bit patterns.
pub uninterp spec fn spec_f32_sub(a: u32, b: u32) -> u32;

/// The result of IEEE 754 binary32 multiplication, on bit patterns.
pub uninterp spec fn spec_f32_mul(a: u32, b: u32) -> u32;

/// The result of IEEE 754 binary32 division, on bit patterns.
pub uninterp spec fn spec_f32_div(a: u32, b: u32) -> u32;

/// The result of IEEE 754 binary32 square root, on bit patterns.
pub uninterp spec fn spec_f32_sqrt(a: u32) -> u32;

/// Whether IEEE 754 binary32 ordered comparison puts `a` strictly above `b`
/// (false whenever either operand is NaN).
pub uninterp spec fn spec_f32_gt(a: u32, b: u32) -> bool;

/// Relies on const_soft_float's SoftF32::add: IEEE 754 binary32 addition
/// (round to nearest, ties to even), a function of the operand bit patterns.
#[verifier::external_body]
pub(crate) fn f32_add(a: u32, b: u32) -> (r: u32)
    ensures
        r == spec_f32_add(a, b),
{
    SoftF32::from_bits(a).add(SoftF32::from_bits(b)).to_bits()
}

/// Relies on const_soft_float's SoftF32::sub: IEEE 754 binary32 subtraction
/// (round to nearest, ties to even), a function of the operand bit patterns.
#[verifier::external_body]
pub(crate) fn f32_sub(a: u32, b: u32) -> (r: u32)
    ensures
        r == spec_f32_sub(a, b),
{
    SoftF32::from_bits(a).sub(SoftF32::from_bits(b)).to_bits()
}

/// Relies on const_soft_float's SoftF32::mul: IEEE 754 binary32 multiplication
/// (round to nearest, ties to even), a function of the operand bit patterns.
#[verifier::external_body]
pub(crate) fn f32_mul(a: u32, b: u32) -> (r: u32)
    ensures
        r == spec_f32_mul(a, b),
{
    SoftF32::from_bits(a).mul(SoftF32::from_bits(b)).to_bits()
}

/// Relies on const_soft_float's SoftF32::div: IEEE 754 binary32 division
/// (round to nearest, ties to even), a function of the operand bit patterns;
/// dividing a zero by a zero is an invalid operation and returns NaN.
#[verifier::external_body]
pub(crate) fn f32_div(a: u32, b: u32) -> (r: u32)
    ensures
        r == spec_f32_div(a, b),
        (a & MAGNITUDE_MASK) == 0 && (b & MAGNITUDE_MASK) == 0 ==> spec_f32_is_nan(r),
{
    SoftF32::from_bits(a).div(SoftF32::from_bits(b)).to_bits()
}

/// Relies on const_soft_float's SoftF32::sqrt: IEEE 754 binary32 square root
/// (round to nearest, ties to even), a function of the operand bit pattern.
#[verifier::external_body]
pub(crate) fn f32_sqrt(a: u32) -> (r: u32)
    ensures
        r == spec_f32_sqrt(a),
{
    SoftF32::from_bits(a).sqrt().to_bits()
}

/// Relies on const_soft_float's SoftF32::cmp: the IEEE 754 ordered comparison,
/// which reports Greater exactly when neither operand is NaN and `a` is the
/// numerically larger value, a function of the operand bit patterns.
#[verifier::external_body]
pub(crate) fn f32_gt(a: u32, b: u32) -> (r: bool)
    ensures
        r == spec_f32_gt(a, b),
{
    matches!(SoftF32::from_bits(a).cmp(SoftF32::from_bits(b)), Some(core::cmp::Ordering::Greater))
}

/// A binary32 encoding is NaN exactly when its exponent bits are all ones
/// and its significand is nonzero, i.e. its magnitude bits exceed those of
/// infinity.
pub open spec fn spec_f32_is_nan(bits: u32) -> bool {
    (bits & MAGNITUDE_MASK) > POS_INFINITY_BITS
}

pub fn f32_is_nan(bits: u32) -> (r: bool)
    ensures
        r == spec_f32_is_nan(bits),
{
    (bits & MAGNITUDE_MASK) > POS_INFINITY_BITS
}

/// Whether the sign bit of the encoding is set (true for negative values
/// and for negative zero).
pub open spec fn spec_f32_sign_negative(bits: u32) -> bool {
    (bits & SIGN_MASK) == SIGN_MASK
}

pub fn f32_sign_negative(bits: u32) -> (r: bool)
    ensures
        r == spec_f32_sign_negative(bits),
{
    (bits & SIGN_MASK) == SIGN_MASK
}

/// Absolute value of a binary32 encoding: the same value with the sign bit
/// cleared.
pub open spec fn spec_f32_abs(bits: u32) -> u32 {
    bits & MAGNITUDE_MASK
}

pub fn f32_abs(bits: u32) -> (r: u32)
    ensures
        r == spec_f32_abs(bits),
{
    bits & MAGNITUDE_MASK
}

/// The sign of a non-NaN binary32 value as the encoding of 1.0 or -1.0,
/// going by the sign bit alone, so negative zero counts as negative.
pub open spec fn spec_f32_signum(bits: u32) -> u32 {
    if spec_f32_sign_negative(bits) {
        NEG_ONE_BITS
    } else {
        ONE_BITS
    }
}

pub fn f32_signum(bits: u32) -> (r: u32)
    ensures
        r == spec_f32_signum(bits),
{
    if f32_sign_negative(bits) {
        NEG_ONE_BITS
    } else {
        ONE_BITS
    }
}

/// The magnitude of `mag` together with the sign bit of `sign_src`.
pub open spec fn spec_f32_copysign(mag: u32, sign_src: u32) -> u32 {
    (mag & MAGNITUDE_MASK) | (sign_src & SIGN_MASK)
}

pub fn f32_copysign(mag: u32, sign_src: u32) -> (r: u32)
    ensures
        r == spec_f32_copysign(mag, sign_src),
{
    (mag & MAGNITUDE_MASK) | (sign_src & SIGN_MASK)
}

} // verus!
