//! Angles in degrees: bringing one into a single turn, and moving from one
//! to another along the shorter arc.

use vstd::arithmetic::div_mod::{
    lemma_fundamental_div_mod, lemma_fundamental_div_mod_converse, lemma_mod_bound,
    lemma_mod_multiples_vanish, lemma_truncate_middle,
};
use vstd::arithmetic::mul::lemma_mul_is_commutative;
use vstd::arithmetic::power2::{
    lemma2_to64, lemma2_to64_rest, lemma_pow2_adds, lemma_pow2_pos,
    lemma_pow2_strictly_increases, pow2,
};
use vstd::prelude::*;

use crate::arith::{
    difference, equal, lemma_magnitude_of_parts, lemma_remainder_bound,
    lemma_remainder_by_exponents, lemma_sum_commutes,
    lemma_sum_with_larger_opposite, less, lt, minus, plus, product, rem, remainder, sum, times,
};
use crate::binary64::{
    exponent, is_finite, is_nan, is_negative, magnitude, signed, significand, HALF_TURN, HIDDEN,
    LIMIT, TURN,
    TURN_AND_HALF, ZERO,
};
use crate::whole::{
    integer, lemma_difference_of_integers, lemma_product_of_integers,
    lemma_sum_of_integer_and_zero, lemma_sum_of_integers, lemma_whole_parts, whole,
};
use crate::rounding::{
    bit_length, lemma_bit_length_at_least, lemma_bit_length_at_most, lemma_bit_length_bounds, lemma_round_magnitude_bound,
    lemma_no_places, lemma_round_magnitude_scale,
};

verus! {

/// The angle brought into `[0, 360)`: its remainder by a turn, raised by a
/// turn where that is negative.
pub open spec fn normalized_angle(t: u64) -> u64 {
    let r = remainder(t, TURN);
    if less(r, ZERO) {
        sum(r, TURN)
    } else {
        r
    }
}

/// The way from `a0` to `a1` brought into `[-180, 180)`: the shorter of the
/// two arcs, and the backward one where they are equal.
pub open spec fn shorter_arc(a0: u64, a1: u64) -> u64 {
    difference(
        remainder(sum(remainder(difference(a1, a0), TURN), TURN_AND_HALF), TURN),
        HALF_TURN,
    )
}

/// The angle the fraction `t` of the way from `a0` to `a1` along the
/// shorter arc.
pub open spec fn interpolated_angle(a0: u64, a1: u64, t: u64) -> u64 {
    remainder(sum(sum(a0, product(t, shorter_arc(a0, a1))), TURN), TURN)
}

/// Every finite angle is brought to a number from 0 up to 360, and one that
/// is not negative to a number below 360. For a negative angle the end is
/// not left out: one so small that adding a turn to it rounds to a turn
/// comes out as 360.
pub proof fn lemma_normalized_angle_in_closed_turn(t: u64)
    requires
        is_finite(t),
    ensures
        is_finite(normalized_angle(t)),
        !less(normalized_angle(t), ZERO),
        !less(TURN, normalized_angle(t)),
        !is_negative(t) ==> less(normalized_angle(t), TURN),
{
    let r = remainder(t, TURN);
    lemma_remainder_bound(t, TURN);
    if less(r, ZERO) {
        lemma_sum_with_larger_opposite(r, TURN);
    }
}

/// Where the sum that the last remainder is taken of is a number, the
/// interpolated angle is a number less than a turn from zero, on the side of
/// that sum: from 0 up to but not 360 where the sum is not negative.
pub proof fn lemma_interpolated_angle_within_turn(a0: u64, a1: u64, t: u64)
    requires
        is_finite(sum(sum(a0, product(t, shorter_arc(a0, a1))), TURN)),
    ensures
        is_finite(interpolated_angle(a0, a1, t)),
        magnitude(interpolated_angle(a0, a1, t)) < magnitude(TURN),
        !is_negative(sum(sum(a0, product(t, shorter_arc(a0, a1))), TURN)) ==> !less(
            interpolated_angle(a0, a1, t),
            ZERO,
        ) && less(interpolated_angle(a0, a1, t), TURN),
{
    lemma_remainder_bound(sum(sum(a0, product(t, shorter_arc(a0, a1))), TURN), TURN);
}

/// The shorter way from one whole number of degrees to another: the
/// difference of the two brought into `[-180, 180)`.
pub open spec fn shorter_way(a0: int, a1: int) -> int {
    (a1 - a0 + 180) % 360 - 180
}

/// The constants of this module are the patterns of their whole numbers.
proof fn lemma_turn_constants()
    ensures
        integer(180) == HALF_TURN,
        integer(360) == TURN,
        integer(540) == TURN_AND_HALF,
{
    lemma2_to64();
    lemma2_to64_rest();
    lemma_whole_parts(180);
    lemma_bit_length_at_most(180, 8);
    lemma_bit_length_at_least(180, 7);
    lemma_magnitude_of_parts(whole(180));
    lemma_whole_parts(360);
    lemma_bit_length_at_most(360, 9);
    lemma_bit_length_at_least(360, 8);
    lemma_magnitude_of_parts(whole(360));
    lemma_whole_parts(540);
    lemma_bit_length_at_most(540, 10);
    lemma_bit_length_at_least(540, 9);
    lemma_magnitude_of_parts(whole(540));
}

/// What is left of a whole number by 360, with the number's sign, raised by
/// 540.
pub open spec fn raised(n: int) -> int {
    if n < 0 {
        540 - (-n) % 360
    } else {
        540 + n % 360
    }
}

/// What is left of a whole number of degrees by a turn, raised by a turn
/// and a half.
proof fn lemma_remainder_raised(n: int)
    requires
        -LIMIT < n < LIMIT,
    ensures
        sum(remainder(integer(n), TURN), TURN_AND_HALF) == integer(raised(n)),
{
    lemma_remainder_of_whole_angle(n);
    lemma_turn_constants();
    assert(whole(0) == 0);
    if n < 0 {
        let c = (-n) % 360;
        if c == 0 {
            lemma_sum_of_integer_and_zero(540, remainder(integer(n), TURN));
            lemma_sum_commutes(remainder(integer(n), TURN), TURN_AND_HALF);
        } else {
            assert(remainder(integer(n), TURN) == integer(-c));
            lemma_sum_of_integers(-c, 540);
        }
    } else {
        assert(remainder(integer(n), TURN) == integer(n % 360));
        lemma_sum_of_integers(n % 360, 540);
    }
}

/// The shorter way in terms of the raised remainder, and its range.
proof fn lemma_shorter_way(a0: int, a1: int)
    ensures
        raised(a1 - a0) % 360 - 180 == shorter_way(a0, a1),
        180 < raised(a1 - a0) < 900,
        -180 <= shorter_way(a0, a1) < 180,
        (shorter_way(a0, a1) - (a1 - a0)) % 360 == 0,
        (a0 + shorter_way(a0, a1) + 360) % 360 == a1 % 360,
        (a0 + 360) % 360 == a0 % 360,
{
    let n = a1 - a0;
    let q = (n + 180) / 360;
    lemma_fundamental_div_mod(n + 180, 360);
    lemma_mod_bound(n + 180, 360);
    assert(shorter_way(a0, a1) - n == 360 * (-q));
    lemma_mod_multiples_vanish(-q, 0, 360);
    lemma_mod_multiples_vanish(1 - q, a1, 360);
    assert(a0 + shorter_way(a0, a1) + 360 == 360 * (1 - q) + a1);
    lemma_mod_multiples_vanish(1, a0, 360);
    if n < 0 {
        let k = (-n) / 360;
        lemma_fundamental_div_mod(-n, 360);
        lemma_mod_bound(-n, 360);
        assert(raised(n) == 360 * (1 + k) + (n + 180));
        lemma_mod_multiples_vanish(1 + k, n + 180, 360);
    } else {
        let k = n / 360;
        lemma_fundamental_div_mod(n, 360);
        lemma_mod_bound(n, 360);
        assert(raised(n) == 360 * (1 - k) + (n + 180));
        lemma_mod_multiples_vanish(1 - k, n + 180, 360);
    }
}

/// The last two steps of the shorter arc: the remainder by a turn, less half
/// a turn.
proof fn lemma_remainder_lowered(k: int)
    requires
        0 <= k < 900,
    ensures
        difference(remainder(integer(k), TURN), HALF_TURN) == integer(k % 360 - 180),
{
    lemma_turn_constants();
    lemma_remainder_of_whole_angle(k);
    lemma_difference_of_integers(k % 360, 180);
}

/// Between whole numbers of degrees the shorter arc is the shorter way: the
/// difference of the two, less or more whole turns, from -180 up to but not
/// 180.
pub proof fn lemma_shorter_arc_of_whole_angles(a0: int, a1: int)
    requires
        -HIDDEN < a0 < HIDDEN,
        -HIDDEN < a1 < HIDDEN,
    ensures
        shorter_arc(integer(a0), integer(a1)) == integer(shorter_way(a0, a1)),
        -180 <= shorter_way(a0, a1) < 180,
        (shorter_way(a0, a1) - (a1 - a0)) % 360 == 0,
{
    let n = a1 - a0;
    lemma_shorter_way(a0, a1);
    lemma_difference_of_integers(a1, a0);
    lemma_remainder_raised(n);
    lemma_remainder_lowered(raised(n));
}

/// Between whole numbers of degrees, a whole number of times the way is
/// exact: the angle reached is the start and so many times the shorter way,
/// brought into one turn. The sum before the last remainder must not be
/// negative, as it is not for a start from -180 on and a fraction from 0 to
/// 1.
pub proof fn lemma_interpolated_whole_angles(a0: int, a1: int, t: int)
    requires
        -0x4000_0000 < a0 < 0x4000_0000,
        -0x4000_0000 < a1 < 0x4000_0000,
        -0x4000_0000 < t < 0x4000_0000,
        a0 + t * shorter_way(a0, a1) + 360 >= 0,
    ensures
        interpolated_angle(integer(a0), integer(a1), integer(t)) == whole(
            ((a0 + t * shorter_way(a0, a1) + 360) % 360) as nat,
        ),
{
    let way = shorter_way(a0, a1);
    let step = t * way;
    lemma_shorter_arc_of_whole_angles(a0, a1);
    assert(-0x100_0000_0000 < step < 0x100_0000_0000) by (nonlinear_arith)
        requires
            step == t * way,
            -0x4000_0000 < t < 0x4000_0000,
            -180 <= way < 180,
    ;
    lemma_product_of_integers(t, way);
    let moved = product(integer(t), integer(way));
    assert(sum(integer(a0), moved) == integer(a0 + step)) by {
        if t != 0 && way != 0 {
            lemma_sum_of_integers(a0, step);
        } else {
            assert(step == 0) by (nonlinear_arith)
                requires
                    step == t * way,
                    t == 0 || way == 0,
            ;
            assert(whole(0) == 0);
            lemma_sum_of_integer_and_zero(a0, moved);
        }
    }
    lemma_turn_constants();
    lemma_sum_of_integers(a0 + step, 360);
    lemma_remainder_of_whole_angle(a0 + step + 360);
}

/// Between whole numbers of degrees the way starts at the start and ends at
/// the end, each brought into one turn.
pub proof fn lemma_interpolated_ends(a0: int, a1: int)
    requires
        -180 <= a0 < 0x4000_0000,
        -0x4000_0000 < a1 < 0x4000_0000,
    ensures
        interpolated_angle(integer(a0), integer(a1), integer(0)) == whole((a0 % 360) as nat),
        interpolated_angle(integer(a0), integer(a1), integer(1)) == whole((a1 % 360) as nat),
{
    lemma_shorter_way(a0, a1);
    lemma_interpolated_whole_angles(a0, a1, 0);
    lemma_interpolated_whole_angles(a0, a1, 1);
}

/// Whatever the angle, what it is brought to is a number from 0 up to 360
/// or no number at all; it is a number just when the angle is finite.
pub proof fn lemma_normalized_angle_in_closed_turn_or_nan(t: u64)
    ensures
        is_nan(normalized_angle(t)) || (is_finite(normalized_angle(t)) && !less(
            normalized_angle(t),
            ZERO,
        ) && !less(TURN, normalized_angle(t))),
        is_nan(normalized_angle(t)) <==> !is_finite(t),
{
    if is_finite(t) {
        lemma_normalized_angle_in_closed_turn(t);
    }
}

/// What is left of a whole number of degrees by a turn is what is left of
/// the number by 360, with the number's sign.
pub proof fn lemma_remainder_of_whole_angle(n: int)
    requires
        -LIMIT < n < LIMIT,
    ensures
        remainder(integer(n), TURN) == if n < 0 {
            signed(whole(((-n) % 360) as nat) as nat, true)
        } else {
            whole((n % 360) as nat)
        },
{
    let a = if n < 0 {
        (-n) as nat
    } else {
        n as nat
    };
    let t = integer(n);
    lemma2_to64();
    lemma2_to64_rest();
    assert(significand(TURN) == 360 * pow2(44));
    assert(exponent(TURN) == -44);
    if a == 0 {
        lemma_remainder_by_exponents(t, TURN);
    }
    if a > 0 {
        let b = bit_length(a);
        lemma_whole_parts(a);
        lemma_bit_length_bounds(a);
        assert(is_finite(t) && significand(t) == significand(whole(a)) && exponent(t)
            == exponent(whole(a)) && is_negative(t) == (n < 0));
        lemma_remainder_by_exponents(t, TURN);
        if b < 9 {
            if b < 8 {
                lemma_pow2_strictly_increases(b, 8);
            }
            assert(a % 360 == a);
        } else {
            let gap = (b - 9) as nat;
            let m = significand(t);
            lemma_pow2_adds((53 - b) as nat, gap);
            assert(m * pow2(gap) == a * pow2(44)) by (nonlinear_arith)
                requires
                    m == a * pow2((53 - b) as nat),
                    pow2(44) == pow2((53 - b) as nat) * pow2(gap),
            ;
            lemma_truncate_middle(a as int, pow2(44) as int, 360);
            lemma_mul_is_commutative(a as int, pow2(44) as int);
            lemma_mul_is_commutative(360, pow2(44) as int);
            let c = a % 360;
            lemma_mul_is_commutative(c as int, pow2(44) as int);
            lemma_round_magnitude_scale(c, 0, 44);
            lemma_round_magnitude_bound(c, 1, 0);
        }
    }
}

/// A whole number of degrees below a turn, taken negative, and a turn add up
/// to what the number lacks of a turn.
pub proof fn lemma_negative_whole_angle_raised(c: nat)
    requires
        0 < c < 360,
    ensures
        sum(signed(whole(c) as nat, true), TURN) == whole((360 - c) as nat),
{
    let x = signed(whole(c) as nat, true);
    let b = bit_length(c);
    let rest = (360 - c) as nat;
    lemma2_to64();
    lemma2_to64_rest();
    assert(significand(TURN) == 360 * pow2(44));
    assert(exponent(TURN) == -44);
    lemma_whole_parts(c);
    lemma_bit_length_at_most(c, 9);
    assert(is_finite(x) && significand(x) == significand(whole(c)) && exponent(x) == exponent(
        whole(c),
    ) && is_negative(x));
    lemma_round_magnitude_bound(rest, 1, 0);
    if b == 9 {
        lemma_no_places(significand(x) as int);
        assert(360 * pow2(44) - c * pow2(44) == rest * pow2(44)) by (nonlinear_arith)
            requires
                rest == 360 - c,
        ;
        lemma_round_magnitude_scale(rest, 0, 44);
    } else {
        let gap = (9 - b) as nat;
        let up = pow2((53 - b) as nat);
        lemma_pow2_adds(44, gap);
        lemma_pow2_pos((53 - b) as nat);
        assert(significand(TURN) * pow2(gap) == 360 * up) by (nonlinear_arith)
            requires
                significand(TURN) == 360 * pow2(44),
                up == pow2(44) * pow2(gap),
        ;
        assert(360 * up - c * up == rest * up && 360 * up > c * up) by (nonlinear_arith)
            requires
                rest == 360 - c,
                rest > 0,
                up > 0,
        ;
        lemma_round_magnitude_scale(rest, 0, (53 - b) as nat);
    }
}

/// What an angle is brought to, told by what is left of it by a turn.
proof fn lemma_normalized_by_remainder(t: u64, k: nat)
    requires
        k < 360,
        is_finite(remainder(t, TURN)),
        magnitude(remainder(t, TURN)) == whole(k) || (is_negative(remainder(t, TURN)) && sum(
            remainder(t, TURN),
            TURN,
        ) == whole(k)),
        is_negative(remainder(t, TURN)) && magnitude(remainder(t, TURN)) != 0 ==> sum(
            remainder(t, TURN),
            TURN,
        ) == whole(k),
        is_negative(remainder(t, TURN)) && magnitude(remainder(t, TURN)) == 0 ==> k == 0,
        !is_negative(remainder(t, TURN)) ==> remainder(t, TURN) == whole(k),
        is_finite(whole(k)),
        !is_negative(whole(k)),
        whole(0) == 0,
    ensures
        equal(normalized_angle(t), whole(k)),
        magnitude(normalized_angle(t)) == whole(k),
        is_negative(normalized_angle(t)) ==> is_negative(remainder(t, TURN)) && k == 0,
{
}

/// What is left of a negative number by 360, taken from 0 up, is what its
/// magnitude lacks of the next multiple of 360.
proof fn lemma_remainder_of_negative(n: int)
    requires
        n < 0,
    ensures
        (-n) % 360 == 0 ==> n % 360 == 0,
        (-n) % 360 != 0 ==> n % 360 == 360 - (-n) % 360,
{
    let q = (-n) / 360;
    let c = (-n) % 360;
    lemma_fundamental_div_mod(-n, 360);
    lemma_mod_bound(-n, 360);
    if c == 0 {
        lemma_fundamental_div_mod_converse(n, 360, -q, 0);
    } else {
        lemma_fundamental_div_mod_converse(n, 360, -q - 1, 360 - c);
    }
}

/// The pattern of a whole number is finite and not negative, and zero only
/// for zero.
proof fn lemma_whole_is_a_number(k: nat)
    requires
        k < LIMIT,
    ensures
        is_finite(whole(k)),
        !is_negative(whole(k)),
        magnitude(whole(k)) == whole(k),
        k > 0 ==> whole(k) != 0,
        k == 0 ==> whole(k) == 0,
{
    if k > 0 {
        lemma_whole_parts(k);
    }
}

/// A whole number of degrees is brought to what is left of it by 360, taken
/// from 0 up to 359. For a negative multiple of a turn that zero has its
/// sign bit set.
pub proof fn lemma_normalized_whole_angle(n: int)
    requires
        -LIMIT < n < LIMIT,
    ensures
        equal(normalized_angle(integer(n)), whole((n % 360) as nat)),
        magnitude(normalized_angle(integer(n))) == whole((n % 360) as nat),
        is_negative(normalized_angle(integer(n))) ==> n < 0 && n % 360 == 0,
{
    let k = (n % 360) as nat;
    lemma_remainder_of_whole_angle(n);
    lemma_whole_is_a_number(k);
    lemma_whole_is_a_number(0);
    if n < 0 {
        let c = ((-n) % 360) as nat;
        lemma_whole_is_a_number(c);
        lemma_remainder_of_negative(n);
        if c > 0 {
            lemma_negative_whole_angle_raised(c);
        }
    }
    lemma_normalized_by_remainder(integer(n), k);
}

/// A whole number of degrees is brought into `[0, 360)`.
pub proof fn lemma_whole_angle_in_turn(n: int)
    requires
        -LIMIT < n < LIMIT,
    ensures
        !less(normalized_angle(integer(n)), ZERO),
        less(normalized_angle(integer(n)), TURN),
{
    lemma_normalized_whole_angle(n);
    let k = (n % 360) as nat;
    lemma2_to64();
    lemma2_to64_rest();
    if k > 0 {
        lemma_whole_parts(k);
        lemma_bit_length_at_most(k, 9);
        lemma_magnitude_of_parts(whole(k));
        let b = bit_length(k);
        if b == 9 {
            assert(k * pow2(44) < 360 * pow2(44));
        }
    }
}

/// Whole turns added to a whole number of degrees do not change what it is
/// brought to.
pub proof fn lemma_whole_angle_period(n: int, k: int)
    requires
        -LIMIT < n < LIMIT,
        -LIMIT < n + 360 * k < LIMIT,
    ensures
        equal(normalized_angle(integer(n + 360 * k)), normalized_angle(integer(n))),
{
    lemma_normalized_whole_angle(n);
    lemma_normalized_whole_angle(n + 360 * k);
    lemma_mod_multiples_vanish(k, n, 360);
}

/// Brings an angle into a single turn.
pub fn normalize_angle(t: u64) -> (r: u64)
    ensures
        r == normalized_angle(t),
{
    let r = rem(t, TURN);
    if lt(r, ZERO) {
        plus(r, TURN)
    } else {
        r
    }
}

/// Interpolates between two angles along the shorter arc.
pub fn interp_angle(a0: u64, a1: u64, t: u64) -> (r: u64)
    ensures
        r == interpolated_angle(a0, a1, t),
{
    let delta = minus(rem(plus(rem(minus(a1, a0), TURN), TURN_AND_HALF), TURN), HALF_TURN);
    rem(plus(plus(a0, times(t, delta)), TURN), TURN)
}

} // verus!
