//! Channels and bytes: a byte `b` stands for the channel `b / 255`, and a
//! channel `x` for the byte nearest to `x * 255`.

use vstd::arithmetic::div_mod::{
    lemma_div_is_ordered, lemma_div_multiples_vanish, lemma_fundamental_div_mod,
    lemma_fundamental_div_mod_converse, lemma_mod_bound, lemma_mod_multiples_basic,
};
use vstd::arithmetic::mul::lemma_mul_is_commutative;
use vstd::arithmetic::power2::*;
use vstd::bits::*;
use vstd::prelude::*;

use crate::arith::{
    lemma_magnitude_of_parts, lemma_round_of_pattern, over, product, quotient, times,
};
use crate::binary64::{
    exponent, exponent_of, is_finite, is_infinite, is_nan, is_negative, magnitude, signed,
    significand, significand_of, BYTE_MAX, HIDDEN, INFINITY, LIMIT, ONE,
};
use crate::whole::{lemma_whole_parts, whole};
use crate::rounding::{
    bit_length, cut, div_round_even, lemma_bit_length_at_least, lemma_bit_length_at_most,
    lemma_bit_length_bounds, lemma_div_below, lemma_div_round_even_is_nearest,
    lemma_div_round_even_scale, lemma_no_places, lemma_round_magnitude_bound,
    lemma_round_magnitude_scale,
    lemma_rounded_significand_bounds, round_magnitude, round_pack, rounded_significand,
};

verus! {

/// The channel that a byte stands for.
pub open spec fn unit_of_byte(b: u8) -> u64 {
    quotient(whole(b as nat), BYTE_MAX)
}

/// The integer nearest to `m * 2^e`, a tie to the larger one.
pub open spec fn round_half_up(m: nat, e: int) -> nat {
    if e >= 0 {
        (m * pow2(e as nat)) as nat
    } else {
        ((2 * m + pow2((-e) as nat)) / (2 * pow2((-e) as nat))) as nat
    }
}

/// The value rounded to the nearest integer, a tie away from zero, and
/// brought into `0..=255`. A NaN gives 0, and so does every value with the
/// sign bit set.
pub open spec fn nearest_byte(y: u64) -> nat {
    if is_nan(y) || is_negative(y) {
        0
    } else if is_infinite(y) {
        255
    } else {
        let n = round_half_up(significand(y), exponent(y));
        if n > 255 {
            255
        } else {
            n
        }
    }
}

/// The byte that a channel stands for.
pub open spec fn byte_of_unit(x: u64) -> nat {
    nearest_byte(product(x, BYTE_MAX))
}

/// What `round_half_up` gives is the nearest integer, and of two equally
/// near the larger: the value `m * 2^e` lies at most a half below it and
/// less than a half above.
pub proof fn lemma_round_half_up_is_nearest(m: nat, e: int)
    ensures
        e >= 0 ==> round_half_up(m, e) == m * pow2(e as nat),
        e < 0 ==> (2 * round_half_up(m, e) - 1) * pow2((-e) as nat) <= 2 * m < (2 * round_half_up(
            m,
            e,
        ) + 1) * pow2((-e) as nat),
{
    if e < 0 {
        let w = pow2((-e) as nat) as int;
        let n = (2 * m + w) / (2 * w);
        lemma_pow2_pos((-e) as nat);
        lemma_fundamental_div_mod(2 * m + w, 2 * w);
        lemma_mod_bound(2 * m + w, 2 * w);
        assert(n >= 0) by (nonlinear_arith)
            requires
                n == (2 * m + w) / (2 * w),
                w > 0,
                m >= 0,
        ;
        assert((2 * n - 1) * w <= 2 * m < (2 * n + 1) * w) by (nonlinear_arith)
            requires
                2 * m + w == (2 * w) * n + (2 * m + w) % (2 * w),
                0 <= (2 * m + w) % (2 * w) < 2 * w,
        ;
    }
}

/// The channel of a byte other than 0 and 255: a normal value below one,
/// whose significand is the byte over 255 rounded at the place that the
/// byte's length gives.
proof fn lemma_unit_of_byte_parts(b: u8)
    requires
        0 < b < 255,
    ensures
        ({
            let j = bit_length(b as nat);
            let x = unit_of_byte(b);
            let y = div_round_even((b * pow2((61 - j) as nat)) as nat, 255);
            &&& 1 <= j <= 8
            &&& is_finite(x)
            &&& !is_negative(x)
            &&& HIDDEN <= y < LIMIT
            &&& significand(x) == y
            &&& exponent(x) == j - 61
        }),
{
    let j = bit_length(b as nat);
    let a = whole(b as nat);
    let x = unit_of_byte(b);
    let up = pow2((61 - j) as nat);
    let y = div_round_even((b * up) as nat, 255);
    lemma2_to64();
    lemma2_to64_rest();
    lemma_whole_parts(b as nat);
    lemma_bit_length_bounds(b as nat);
    lemma_bit_length_at_most(b as nat, 8);
    let m = significand(a);
    assert(significand(BYTE_MAX) == 255 * pow2(45));
    assert(exponent(BYTE_MAX) == -45);
    let top = pow2((53 - j) as nat);
    lemma_pow2_adds((j - 1) as nat, (53 - j) as nat);
    lemma_pow2_adds(j, (53 - j) as nat);
    lemma_pow2_pos((53 - j) as nat);
    assert(pow2(52) <= m < pow2(53)) by (nonlinear_arith)
        requires
            m == b * top,
            pow2((j - 1) as nat) <= b < pow2(j),
            pow2(52) == pow2((j - 1) as nat) * top,
            pow2(53) == pow2(j) * top,
            top > 0,
    ;
    lemma_bit_length_at_most(m, 53);
    lemma_bit_length_at_least(m, 52);
    let num = m * pow2(62);
    let den = (255 * pow2(45)) as nat;
    let e0 = j - 70;
    assert(quotient(a, BYTE_MAX) == round_magnitude(num, den, e0) as u64) by {
        lemma_round_magnitude_bound(num, den, e0);
    }
    // the dividend in terms of the byte
    lemma_pow2_adds((53 - j) as nat, 8);
    lemma_pow2_adds(45, 9);
    lemma_pow2_adds(45, 62);
    assert(num == (b * up) * pow2(54)) by (nonlinear_arith)
        requires
            num == m * pow2(62),
            m == b * top,
            up == top * pow2(8),
            pow2(62) == pow2(8) * pow2(54),
    {
        lemma_pow2_adds(8, 54);
    }
    // the byte between the powers of two, after its lift to eight digits
    let lifted = b * pow2((8 - j) as nat);
    lemma_pow2_adds((j - 1) as nat, (8 - j) as nat);
    lemma_pow2_adds(j, (8 - j) as nat);
    lemma_pow2_pos((8 - j) as nat);
    assert(128 <= lifted <= 254) by {
        let w = pow2((8 - j) as nat) as int;
        assert(pow2((j - 1) as nat) * w <= b * w && (b + 1) * w <= pow2(j) * w)
            by (nonlinear_arith)
            requires
                pow2((j - 1) as nat) <= b < pow2(j),
                w > 0,
        ;
        assert((b + 1) * w == b * w + w) by (nonlinear_arith);
        if j == 8 {
            assert(b * w == b) by (nonlinear_arith)
                requires
                    w == 1,
            ;
        } else {
            lemma_pow2_strictly_increases(0, (8 - j) as nat);
        }
    }
    lemma_pow2_adds((8 - j) as nat, 53);
    assert(b * up == lifted * pow2(53)) by (nonlinear_arith)
        requires
            lifted == b * pow2((8 - j) as nat),
            up == pow2((8 - j) as nat) * pow2(53),
    ;
    // the quotient has sixty-two digits
    let t = num / den;
    assert(num == lifted * pow2(107)) by (nonlinear_arith)
        requires
            num == (b * up) * pow2(54),
            b * up == lifted * pow2(53),
            pow2(107) == pow2(53) * pow2(54),
    {
        lemma_pow2_adds(53, 54);
    }
    assert(den * pow2(61) <= num < den * pow2(62)) by (nonlinear_arith)
        requires
            num == lifted * pow2(107),
            den == 255 * pow2(45),
            128 <= lifted <= 254,
            pow2(107) == pow2(45) * pow2(62),
            pow2(62) == 2 * pow2(61),
            pow2(45) > 0,
            pow2(61) > 0,
    ;
    lemma_div_is_ordered((den * pow2(61)) as int, num as int, den as int);
    lemma_div_multiples_vanish(pow2(61) as int, den as int);
    lemma_div_below(num as int, den as int, pow2(62) as int);
    lemma_bit_length_at_most(t, 62);
    lemma_bit_length_at_least(t, 61);
    assert(cut(num, den, e0) == 9);
    assert(den * pow2(9) == 255 * pow2(54)) by (nonlinear_arith)
        requires
            den == 255 * pow2(45),
            pow2(54) == pow2(45) * pow2(9),
    ;
    lemma_div_round_even_scale((b * up) as nat, 255, pow2(54));
    // the rounded significand is a normal one
    let q = (b * up) as int / 255;
    assert(q >= HIDDEN && q < LIMIT - 1) by {
        assert(b * up >= 128 * pow2(53) && b * up <= 254 * pow2(53)) by (nonlinear_arith)
            requires
                b * up == lifted * pow2(53),
                128 <= lifted <= 254,
                pow2(53) > 0,
        ;
    }
}

/// A value whose significand is a byte with zeros behind it rounds to that
/// byte.
proof fn lemma_nearest_byte_of_pattern(p: u64, b: u8, j: nat)
    requires
        0 < b,
        1 <= j <= 8,
        is_finite(p),
        !is_negative(p),
        significand(p) == b * pow2((53 - j) as nat),
        exponent(p) == j - 53,
    ensures
        nearest_byte(p) == b,
{
    let w = pow2((53 - j) as nat) as int;
    let m = significand(p) as int;
    lemma_pow2_pos((53 - j) as nat);
    assert(2 * m + w == b * (2 * w) + w) by (nonlinear_arith)
        requires
            m == b * w,
    ;
    lemma_fundamental_div_mod_converse(2 * m + w, 2 * w, b as int, w);
}

/// The full byte stands for one.
pub proof fn lemma_unit_of_full_byte()
    ensures
        unit_of_byte(255) == ONE,
{
    lemma2_to64();
    lemma2_to64_rest();
    assert(significand(BYTE_MAX) == 255 * pow2(45));
    assert(exponent(BYTE_MAX) == -45);
    lemma_whole_parts(255);
    lemma_bit_length_at_most(255, 8);
    lemma_bit_length_at_least(255, 7);
    lemma_magnitude_of_parts(whole(255));
    assert(whole(255) == BYTE_MAX);
    let m = significand(BYTE_MAX);
    lemma_bit_length_at_most(m, 53);
    lemma_bit_length_at_least(m, 52);
    let num = m * pow2(62);
    lemma_pow2_adds(10, 52);
    assert(num == pow2(52) * (m * pow2(10)) && num == pow2(62) * m) by (nonlinear_arith)
        requires
            num == m * pow2(62),
            pow2(62) == pow2(10) * pow2(52),
    ;
    lemma_div_multiples_vanish(pow2(62) as int, m as int);
    lemma_bit_length_at_most(pow2(62), 63);
    lemma_bit_length_at_least(pow2(62), 62);
    assert(cut(num, m, -62) == 10);
    lemma_div_multiples_vanish(pow2(52) as int, (m * pow2(10)) as int);
    lemma_mod_multiples_basic(pow2(52) as int, (m * pow2(10)) as int);
    lemma_mul_is_commutative(pow2(52) as int, (m * pow2(10)) as int);
    assert(div_round_even(num, (m * pow2(10)) as nat) == pow2(52));
}

/// A byte made a channel and the channel made a byte again is the byte.
#[verifier::rlimit(40)]
pub proof fn lemma_byte_round_trip(b: u8)
    ensures
        byte_of_unit(unit_of_byte(b)) == b,
{
    lemma2_to64();
    lemma2_to64_rest();
    assert(significand(BYTE_MAX) == 255 * pow2(45));
    assert(exponent(BYTE_MAX) == -45);
    if b == 0 {
        assert(whole(0) == 0);
        assert(unit_of_byte(0) == 0);
        assert(product(0, BYTE_MAX) == 0);
        let w = pow2(1074) as int;
        lemma_pow2_pos(1074);
        assert((2 * 0 + w) / (2 * w) == 0) by (nonlinear_arith)
            requires
                w > 0,
        ;
    } else if b == 255 {
        lemma_unit_of_full_byte();
        assert(significand(ONE) == pow2(52) && exponent(ONE) == -52);
        let m = significand(BYTE_MAX);
        lemma_mul_is_commutative(pow2(52) as int, m as int);
        lemma_round_magnitude_scale(m, -45, 52);
        lemma_round_of_pattern(BYTE_MAX);
        assert(product(ONE, BYTE_MAX) == BYTE_MAX);
        lemma_nearest_byte_of_pattern(BYTE_MAX, 255, 8);
    } else {
        lemma_unit_of_byte_parts(b);
        let j = bit_length(b as nat);
        let x = unit_of_byte(b);
        let y = significand(x);
        let up = pow2((61 - j) as nat);
        let w = pow2((53 - j) as nat);
        let whole_part = b * w;
        let p = 255 * y;
        lemma_div_round_even_is_nearest((b * up) as nat, 255);
        lemma_pow2_adds((53 - j) as nat, 8);
        lemma_pow2_adds((j - 1) as nat, (53 - j) as nat);
        lemma_pow2_adds(j, (53 - j) as nat);
        lemma_pow2_pos((53 - j) as nat);
        lemma_bit_length_bounds(b as nat);
        assert(b * up == whole_part * 256) by (nonlinear_arith)
            requires
                whole_part == b * w,
                up == w * 256,
        ;
        assert(HIDDEN <= whole_part < LIMIT) by (nonlinear_arith)
            requires
                whole_part == b * w,
                pow2((j - 1) as nat) <= b < pow2(j),
                HIDDEN == pow2((j - 1) as nat) * w,
                LIMIT == pow2(j) * w,
                w > 0,
        ;
        let delta = p - whole_part * 256;
        assert(-127 <= delta <= 127);
        assert(y * (255 * pow2(45)) == p * pow2(45)) by (nonlinear_arith)
            requires
                p == 255 * y,
        ;
        lemma_round_magnitude_scale(p as nat, j - 61, 45);
        lemma_rounded_significand_bounds(p as nat, j - 61);
        lemma_round_magnitude_bound(p as nat, 1, j - 61);
        let prod = product(x, BYTE_MAX);
        assert(prod == round_magnitude(p as nat, 1, j - 61));
        if p >= pow2(60) {
            lemma_bit_length_at_most(p as nat, 61);
            lemma_bit_length_at_least(p as nat, 60);
            if delta >= 0 {
                lemma_fundamental_div_mod_converse(p as int, 256, whole_part, delta);
            } else {
                lemma_fundamental_div_mod_converse(p as int, 256, whole_part - 1, 256 + delta);
            }
            assert(rounded_significand(p as nat, j - 61) == whole_part);
            assert(prod == (j + 1021) * HIDDEN + whole_part);
            lemma_nearest_byte_of_pattern(prod, b, j);
        } else {
            lemma_bit_length_at_most(p as nat, 60);
            lemma_bit_length_at_least(p as nat, 59);
            assert(whole_part == HIDDEN);
            lemma_fundamental_div_mod_converse(p as int, 128, LIMIT - 1, 128 + delta);
            assert(rounded_significand(p as nat, j - 61) == LIMIT);
            assert(prod == (j + 1022) * HIDDEN);
            lemma_nearest_byte_of_pattern(prod, b, j);
        }
    }
}

/// The pattern of a byte's value.
pub fn from_whole(b: u8) -> (r: u64)
    ensures
        r == whole(b as nat),
{
    if b == 0 {
        0
    } else {
        round_pack(b as u128, 1, 0)
    }
}

/// Converts a byte to a channel.
pub fn unit_from_byte(b: u8) -> (r: u64)
    ensures
        r == unit_of_byte(b),
{
    over(from_whole(b), BYTE_MAX)
}

/// Rounds a value to the nearest byte.
pub fn to_nearest_byte(y: u64) -> (r: u8)
    ensures
        r == nearest_byte(y),
{
    if y > INFINITY {
        return 0;
    }
    if y == INFINITY {
        return 255;
    }
    let m = significand_of(y);
    let e = exponent_of(y);
    proof {
        lemma2_to64();
        lemma2_to64_rest();
    }
    if e >= -44 {
        proof {
            if e >= 0 {
                lemma_pow2_pos(e as nat);
                let w = pow2(e as nat) as int;
                assert(m * w >= 255) by (nonlinear_arith)
                    requires
                        m >= 255,
                        w >= 1,
                ;
            } else {
                let w = pow2((-e) as nat) as int;
                lemma_pow2_pos((-e) as nat);
                if -e < 44 {
                    lemma_pow2_strictly_increases((-e) as nat, 44);
                }
                assert((2 * m + w) / (2 * w) >= 255) by (nonlinear_arith)
                    requires
                        m >= 255 * w,
                        w > 0,
                ;
            }
        }
        return 255;
    }
    let k = (-e) as u64;
    if k >= 63 {
        proof {
            let w = pow2(k as nat) as int;
            if k > 63 {
                lemma_pow2_strictly_increases(63, k as nat);
            }
            assert((2 * m + w) / (2 * w) == 0) by (nonlinear_arith)
                requires
                    0 <= 2 * m < w,
            ;
        }
        return 0;
    }
    proof {
        lemma_pow2_strictly_increases(k as nat, 63);
        lemma_u64_shl_is_mul(1, k);
    }
    let half = 1u64 << k;
    let n = (2 * m + half) / (2 * half);
    if n > 255 {
        255
    } else {
        n as u8
    }
}

/// Converts a channel to a byte.
pub fn unit_to_byte(x: u64) -> (r: u8)
    ensures
        r == byte_of_unit(x),
{
    to_nearest_byte(times(x, BYTE_MAX))
}

} // verus!
