//! IEEE 754 binary64 values, carried as their sixty-four bits.
//!
//! Every number of this library is held as a bit pattern in a `u64`: one
//! sign bit, eleven bits of biased exponent, fifty-two bits of fraction. The
//! value of a finite pattern is `significand * 2^exponent`, negated when the
//! sign bit is set. This module reads a pattern's parts and names the
//! patterns of the constants that the conversions use.

use vstd::prelude::*;

verus! {

/// The sign bit.
pub const SIGN: u64 = 0x8000_0000_0000_0000;

/// Positive infinity; every larger magnitude is a NaN.
pub const INFINITY: u64 = 0x7ff0_0000_0000_0000;

/// The quiet NaN that every operation gives where it has no number to give.
pub const NAN: u64 = 0x7ff8_0000_0000_0000;

/// 0, with the sign bit clear.
pub const ZERO: u64 = 0;

/// 0.5
pub const HALF: u64 = 0x3fe0_0000_0000_0000;

/// 1
pub const ONE: u64 = 0x3ff0_0000_0000_0000;

/// 2
pub const TWO: u64 = 0x4000_0000_0000_0000;

/// 3
pub const THREE: u64 = 0x4008_0000_0000_0000;

/// 4
pub const FOUR: u64 = 0x4010_0000_0000_0000;

/// 6, the sixths of a turn by which hue is counted.
pub const SIX: u64 = 0x4018_0000_0000_0000;

/// 60, the degrees of a sixth of a turn.
pub const SIXTY: u64 = 0x404e_0000_0000_0000;

/// 180, the degrees of half a turn.
pub const HALF_TURN: u64 = 0x4066_8000_0000_0000;

/// 255, the largest byte.
pub const BYTE_MAX: u64 = 0x406f_e000_0000_0000;

/// 360, the degrees of a full turn.
pub const TURN: u64 = 0x4076_8000_0000_0000;

/// 540, a turn and a half.
pub const TURN_AND_HALF: u64 = 0x4080_e000_0000_0000;

/// Two to the fifty-second: the implicit leading bit of a normal significand.
pub const HIDDEN: u64 = 0x0010_0000_0000_0000;

/// Two to the fifty-third: significands lie below it.
pub const LIMIT: u64 = 0x0020_0000_0000_0000;

/// The pattern without its sign bit.
pub open spec fn magnitude(bits: u64) -> nat {
    if bits >= SIGN {
        (bits - SIGN) as nat
    } else {
        bits as nat
    }
}

/// Whether the sign bit is set, as it is for minus zero too.
pub open spec fn is_negative(bits: u64) -> bool {
    bits >= SIGN
}

/// Whether the pattern is no number.
pub open spec fn is_nan(bits: u64) -> bool {
    magnitude(bits) > INFINITY
}

/// Whether the pattern is an infinity.
pub open spec fn is_infinite(bits: u64) -> bool {
    magnitude(bits) == INFINITY
}

/// Whether the pattern is a number other than an infinity.
pub open spec fn is_finite(bits: u64) -> bool {
    magnitude(bits) < INFINITY
}

/// The exponent field.
pub open spec fn biased_exponent(bits: u64) -> nat {
    magnitude(bits) / (HIDDEN as nat)
}

/// The fraction field.
pub open spec fn fraction(bits: u64) -> nat {
    magnitude(bits) % (HIDDEN as nat)
}

/// The integer `m` in `m * 2^e`: the fraction, with the implicit bit unless
/// the pattern is subnormal.
pub open spec fn significand(bits: u64) -> nat {
    if biased_exponent(bits) == 0 {
        fraction(bits)
    } else {
        (fraction(bits) + HIDDEN) as nat
    }
}

/// The integer `e` in `m * 2^e`.
pub open spec fn exponent(bits: u64) -> int {
    if biased_exponent(bits) == 0 {
        -1074
    } else {
        biased_exponent(bits) - 1075
    }
}

/// The pattern with the given magnitude and sign.
pub open spec fn signed(mag: nat, neg: bool) -> u64 {
    if neg {
        (mag + SIGN) as u64
    } else {
        mag as u64
    }
}

/// The pattern of the opposite sign.
pub open spec fn negated(bits: u64) -> u64 {
    signed(magnitude(bits), !is_negative(bits))
}

pub(crate) fn magnitude_of(bits: u64) -> (r: u64)
    ensures
        r == magnitude(bits),
        r < SIGN,
{
    if bits >= SIGN {
        bits - SIGN
    } else {
        bits
    }
}

pub(crate) fn with_sign(mag: u64, neg: bool) -> (r: u64)
    requires
        mag < SIGN,
    ensures
        r == signed(mag as nat, neg),
        magnitude(r) == mag,
        is_negative(r) == neg,
{
    if neg {
        mag + SIGN
    } else {
        mag
    }
}

pub(crate) fn significand_of(bits: u64) -> (r: u64)
    requires
        is_finite(bits),
    ensures
        r == significand(bits),
        r < LIMIT,
        r == 0 <==> magnitude(bits) == 0,
{
    let mag = magnitude_of(bits);
    if mag / HIDDEN == 0 {
        mag % HIDDEN
    } else {
        mag % HIDDEN + HIDDEN
    }
}

pub(crate) fn exponent_of(bits: u64) -> (r: i64)
    requires
        is_finite(bits),
    ensures
        r == exponent(bits),
        -1074 <= r <= 971,
{
    let mag = magnitude_of(bits);
    if mag / HIDDEN == 0 {
        -1074
    } else {
        (mag / HIDDEN) as i64 - 1075
    }
}

} // verus!
