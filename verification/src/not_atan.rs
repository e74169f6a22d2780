//! A monotonic substitute for the two-argument arctangent.
//!
//! `not_atan2(y, x)` maps the ratio `y / x` into [-PI, PI] while keeping
//! almost the same order as the true arctangent: when the true results of
//! two input pairs differ by more than a few units in the last place, the
//! substitute orders them the same way. No ordering is promised when both
//! inputs are zero or both are infinite. It costs one division and one
//! reciprocal instead of a transcendental evaluation, which is all the
//! neighbor selection needs, since only relative order is consulted.

use crate::float_ops::{
    f32_abs, f32_add, f32_copysign, f32_div, f32_is_nan, f32_mul, f32_sign_negative, f32_signum,
    f32_sub, spec_f32_abs, spec_f32_add, spec_f32_copysign, spec_f32_div, spec_f32_is_nan,
    spec_f32_mul, spec_f32_sign_negative, spec_f32_signum, spec_f32_sub, ONE_BITS,
};
use vstd::prelude::*;

verus! {

/// The encoding of the binary32 value nearest PI.
pub const PI_BITS: u32 = 0x4049_0fdb;

/// The encoding of the binary32 value nearest PI, negated.
pub const NEG_PI_BITS: u32 = 0xc049_0fdb;

/// The encoding of the binary32 value nearest PI / 2; exactly half the value
/// encoded by `PI_BITS`.
pub const HALF_PI_BITS: u32 = 0x3fc9_0fdb;

/// The encoding of positive zero.
pub const ZERO_BITS: u32 = 0x0000_0000;

/// The angle substitute, defined over the bit patterns of `y` and `x`.
///
/// Let `alpha = y / x`. When `alpha` is NaN (both arguments zero, both
/// infinite, or either NaN) the result is zero. Otherwise
/// `normalized = (PI/2) * sign(alpha) * (1 - 1 / (1 + |alpha|))`, confined
/// to (-PI/2, PI/2). When the sign bit of `x` is clear (positive values and
/// positive zero) that is the result; otherwise PI with the sign of `y`
/// (sign bit included, so negative zero counts as negative) is added,
/// which moves the result into the outer half of the range.
pub open spec fn spec_not_atan2(y: u32, x: u32) -> u32 {
    let alpha = spec_f32_div(y, x);
    if spec_f32_is_nan(alpha) {
        ZERO_BITS
    } else {
        let normalized = spec_f32_mul(
            spec_f32_mul(HALF_PI_BITS, spec_f32_signum(alpha)),
            spec_f32_sub(ONE_BITS, spec_f32_div(ONE_BITS, spec_f32_add(ONE_BITS, spec_f32_abs(alpha)))),
        );
        if !spec_f32_sign_negative(x) {
            normalized
        } else {
            spec_f32_add(normalized, spec_f32_copysign(PI_BITS, y))
        }
    }
}

/// Compares angles without computing them: a monotonic substitute for the
/// two-argument arctangent, on binary32 bit patterns. When both arguments
/// encode zeros there is no angle to rank, and the result is exactly the
/// encoding of zero, never NaN.
pub fn not_atan2(y: u32, x: u32) -> (r: u32)
    ensures
        r == spec_not_atan2(y, x),
        spec_f32_abs(y) == 0 && spec_f32_abs(x) == 0 ==> r == ZERO_BITS,
{
    let alpha = f32_div(y, x);
    if f32_is_nan(alpha) {
        return ZERO_BITS;
    }
    let normalized = f32_mul(
        f32_mul(HALF_PI_BITS, f32_signum(alpha)),
        f32_sub(ONE_BITS, f32_div(ONE_BITS, f32_add(ONE_BITS, f32_abs(alpha)))),
    );
    if !f32_sign_negative(x) {
        normalized
    } else {
        f32_add(normalized, f32_copysign(PI_BITS, y))
    }
}

} // verus!
