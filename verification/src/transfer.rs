//! The sRGB transfer curve between linear light and the stored fraction:
//! a straight piece near zero and a power law above it.
//!
//! Raising to a power is left to the caller. Each direction takes the
//! power as an argument and does the rest: it chooses the piece and applies
//! the scale and offset around the power.

use vstd::prelude::*;

use crate::arith::{
    at_least, difference, ge, minus, over, plus, product, quotient, sum, times,
};

verus! {

/// 0.0031308: linear light from here on is encoded by the power law.
pub const ENCODE_KNEE: u64 = 0x3f69_a5c3_7387_b719;

/// 0.04045: stored fractions from here on are decoded by the power law.
pub const DECODE_KNEE: u64 = 0x3fa4_b5dc_c63f_1412;

/// 1.055
pub const SCALE: u64 = 0x3ff0_e147_ae14_7ae1;

/// 0.055
pub const OFFSET: u64 = 0x3fac_28f5_c28f_5c29;

/// 12.92
pub const SLOPE: u64 = 0x4029_d70a_3d70_a3d7;

/// 2.4: the exponent of the decoding power law; encoding raises to one over
/// it.
pub const GAMMA: u64 = 0x4003_3333_3333_3333;

/// The stored fraction of linear light `x`, where `root` is `x` raised to
/// `1 / 2.4`: `1.055 * root - 0.055` from the knee on, `12.92 * x` below it.
pub open spec fn encoded(x: u64, root: u64) -> u64 {
    if at_least(x, ENCODE_KNEE) {
        difference(product(SCALE, root), OFFSET)
    } else {
        product(SLOPE, x)
    }
}

/// What is raised to 2.4 to decode the stored fraction `x`:
/// `(x + 0.055) / 1.055`.
pub open spec fn decoding_base(x: u64) -> u64 {
    quotient(sum(x, OFFSET), SCALE)
}

/// The linear light of the stored fraction `x`, where `power` is
/// `decoding_base(x)` raised to 2.4: `power` from the knee on, `x / 12.92`
/// below it.
pub open spec fn decoded(x: u64, power: u64) -> u64 {
    if at_least(x, DECODE_KNEE) {
        power
    } else {
        quotient(x, SLOPE)
    }
}

/// Encodes linear light, given its root.
pub fn from_linear(x: u64, root: u64) -> (r: u64)
    ensures
        r == encoded(x, root),
{
    if ge(x, ENCODE_KNEE) {
        return minus(times(SCALE, root), OFFSET);
    }
    times(SLOPE, x)
}

/// Gives what the caller is to raise to 2.4 before decoding `x`.
pub fn to_linear_base(x: u64) -> (r: u64)
    ensures
        r == decoding_base(x),
{
    over(plus(x, OFFSET), SCALE)
}

/// Decodes a stored fraction, given the power of its base.
pub fn to_linear(x: u64, power: u64) -> (r: u64)
    ensures
        r == decoded(x, power),
{
    if ge(x, DECODE_KNEE) {
        return power;
    }
    over(x, SLOPE)
}

} // verus!
