//! Conversions between red, green and blue and the hue-based
//! representations: HSL, HSV and HWB. Hues are in degrees, everything else is
//! a fraction of one.

use vstd::prelude::*;

use crate::angle::{
    lemma_normalized_angle_in_closed_turn_or_nan, normalize_angle, normalized_angle,
};
use crate::arith::{
    at_least, difference, eq, equal, ge, larger, lemma_difference_of_equals,
    lemma_extremes_of_equals, less, lt, maximum, minimum, minus, over, plus, product, quotient,
    rem, remainder, smaller, sum, times,
};
use crate::arith::{
    lemma_exponent_orders_magnitude, lemma_product_by_two, lemma_remainder_bound,
    lemma_sum_of_same_sign, lemma_sum_of_unequal_opposites, lemma_sum_with_larger_opposite,
    lemma_sum_with_zero,
};
use crate::binary64::{
    exponent, is_finite, is_nan, is_negative, magnitude, negated, significand, FOUR, HALF, ONE,
    SIX, SIXTY, THREE, TURN, TWO, ZERO,
};
use crate::rounding::{bit_length, lemma_round_magnitude_bound};
use vstd::arithmetic::power2::{lemma2_to64, pow2};

verus! {

/// The value brought into `[0, 1]`; a NaN stays.
pub open spec fn clamped(t: u64) -> u64 {
    if less(t, ZERO) {
        ZERO
    } else if less(ONE, t) {
        ONE
    } else {
        t
    }
}

/// The remainder of `x` by `n` with the sign of `n`.
pub open spec fn wrapped(x: u64, n: u64) -> u64 {
    remainder(sum(remainder(x, n), n), n)
}

/// One channel of a colour given by the two levels `n1` and `n2` between
/// which every channel moves, at the place `h` on the hue circle counted in
/// sixths of a turn: rising in the first sixth, at `n2` in the next two,
/// falling in the fourth, at `n1` in the last two.
pub open spec fn hue_channel(n1: u64, n2: u64, h: u64) -> u64 {
    let h = wrapped(h, SIX);
    if less(h, ONE) {
        sum(n1, product(difference(n2, n1), h))
    } else if less(h, THREE) {
        n2
    } else if less(h, FOUR) {
        sum(n1, product(difference(n2, n1), difference(FOUR, h)))
    } else {
        n1
    }
}

/// Red, green and blue of a hue, a saturation and a lightness.
pub open spec fn hsl_rgb(h: u64, s: u64, l: u64) -> (u64, u64, u64) {
    if equal(s, ZERO) {
        (l, l, l)
    } else {
        let n2 = if less(l, HALF) {
            product(l, sum(ONE, s))
        } else {
            difference(sum(l, s), product(l, s))
        };
        let n1 = difference(product(TWO, l), n2);
        let h = quotient(h, SIXTY);
        (hue_channel(n1, n2, sum(h, TWO)), hue_channel(n1, n2, h), hue_channel(
            n1,
            n2,
            difference(h, TWO),
        ))
    }
}

/// One channel of a hue's pure colour, thinned by whiteness and blackness.
pub open spec fn tinted(c: u64, white: u64, black: u64) -> u64 {
    sum(product(c, difference(difference(ONE, white), black)), white)
}

/// Red, green and blue of a hue, a whiteness and a blackness.
pub open spec fn hwb_rgb(hue: u64, white: u64, black: u64) -> (u64, u64, u64) {
    if at_least(sum(white, black), ONE) {
        let l = quotient(white, sum(white, black));
        (l, l, l)
    } else {
        let (r, g, b) = hsl_rgb(hue, ONE, HALF);
        (tinted(r, white, black), tinted(g, white, black), tinted(b, white, black))
    }
}

/// Hue, saturation and lightness of a hue, a saturation and a value.
pub open spec fn hsv_hsl(h: u64, s: u64, v: u64) -> (u64, u64, u64) {
    let l = quotient(product(difference(TWO, s), v), TWO);
    let s = if !equal(l, ZERO) {
        if equal(l, ONE) {
            ZERO
        } else if less(l, HALF) {
            quotient(product(s, v), product(l, TWO))
        } else {
            quotient(product(s, v), difference(TWO, product(l, TWO)))
        }
    } else {
        s
    };
    (h, s, l)
}

/// Red, green and blue of a hue, a saturation and a value.
pub open spec fn hsv_rgb(h: u64, s: u64, v: u64) -> (u64, u64, u64) {
    let (h, s, l) = hsv_hsl(h, s, v);
    hsl_rgb(h, s, l)
}

/// The greatest of three channels.
pub open spec fn greatest(r: u64, g: u64, b: u64) -> u64 {
    maximum(r, maximum(g, b))
}

/// The least of three channels.
pub open spec fn least(r: u64, g: u64, b: u64) -> u64 {
    minimum(r, minimum(g, b))
}

/// The hue of a colour that is not grey, from its greatest channel `top` and
/// the spread `d` between that and the least.
pub open spec fn hue_of(r: u64, g: u64, b: u64, top: u64, d: u64) -> u64 {
    let dr = quotient(difference(top, r), d);
    let dg = quotient(difference(top, g), d);
    let db = quotient(difference(top, b), d);
    let h = if equal(r, top) {
        difference(db, dg)
    } else if equal(g, top) {
        difference(sum(TWO, dr), db)
    } else {
        difference(sum(FOUR, dg), dr)
    };
    normalized_angle(remainder(product(h, SIXTY), TURN))
}

/// Hue, saturation and value of red, green and blue.
pub open spec fn rgb_hsv(r: u64, g: u64, b: u64) -> (u64, u64, u64) {
    let v = greatest(r, g, b);
    let d = difference(v, least(r, g, b));
    if equal(d, ZERO) {
        (ZERO, ZERO, v)
    } else {
        (hue_of(r, g, b, v, d), quotient(d, v), v)
    }
}

/// Hue, saturation and lightness of red, green and blue.
pub open spec fn rgb_hsl(r: u64, g: u64, b: u64) -> (u64, u64, u64) {
    let min = least(r, g, b);
    let max = greatest(r, g, b);
    let l = quotient(sum(max, min), TWO);
    if equal(min, max) {
        (ZERO, ZERO, l)
    } else {
        let d = difference(max, min);
        let s = if less(l, HALF) {
            quotient(d, sum(max, min))
        } else {
            quotient(d, difference(difference(TWO, max), min))
        };
        (hue_of(r, g, b, max, d), s, l)
    }
}

/// Hue, whiteness and blackness of red, green and blue.
pub open spec fn rgb_hwb(r: u64, g: u64, b: u64) -> (u64, u64, u64) {
    (rgb_hsl(r, g, b).0, least(r, g, b), difference(ONE, greatest(r, g, b)))
}

/// Brings a value into `[0, 1]`.
pub fn clamp0_1(t: u64) -> (r: u64)
    ensures
        r == clamped(t),
{
    if lt(t, ZERO) {
        ZERO
    } else if lt(ONE, t) {
        ONE
    } else {
        t
    }
}

/// Takes the remainder of `x` by `n` with the sign of `n`.
pub fn modulo(x: u64, n: u64) -> (r: u64)
    ensures
        r == wrapped(x, n),
{
    rem(plus(rem(x, n), n), n)
}

/// Gives one channel of the colour between the levels `n1` and `n2` at the
/// place `h` on the hue circle, counted in sixths of a turn.
pub fn hue_to_rgb(n1: u64, n2: u64, h: u64) -> (r: u64)
    ensures
        r == hue_channel(n1, n2, h),
{
    let h = modulo(h, SIX);
    if lt(h, ONE) {
        return plus(n1, times(minus(n2, n1), h));
    }
    if lt(h, THREE) {
        return n2;
    }
    if lt(h, FOUR) {
        return plus(n1, times(minus(n2, n1), minus(FOUR, h)));
    }
    n1
}

/// Converts a hue in degrees, a saturation and a lightness to red, green
/// and blue.
pub fn hsl_to_rgb(h: u64, s: u64, l: u64) -> (r: (u64, u64, u64))
    ensures
        r == hsl_rgb(h, s, l),
{
    if eq(s, ZERO) {
        return (l, l, l);
    }
    let n2 = if lt(l, HALF) {
        times(l, plus(ONE, s))
    } else {
        minus(plus(l, s), times(l, s))
    };
    let n1 = minus(times(TWO, l), n2);
    let h = over(h, SIXTY);
    let r = hue_to_rgb(n1, n2, plus(h, TWO));
    let g = hue_to_rgb(n1, n2, h);
    let b = hue_to_rgb(n1, n2, minus(h, TWO));
    (r, g, b)
}

fn tint(c: u64, white: u64, black: u64) -> (r: u64)
    ensures
        r == tinted(c, white, black),
{
    plus(times(c, minus(minus(ONE, white), black)), white)
}

/// Converts a hue in degrees, a whiteness and a blackness to red, green and
/// blue.
pub fn hwb_to_rgb(hue: u64, white: u64, black: u64) -> (r: (u64, u64, u64))
    ensures
        r == hwb_rgb(hue, white, black),
{
    if ge(plus(white, black), ONE) {
        let l = over(white, plus(white, black));
        return (l, l, l);
    }
    let (r, g, b) = hsl_to_rgb(hue, ONE, HALF);
    (tint(r, white, black), tint(g, white, black), tint(b, white, black))
}

/// Converts a hue, a saturation and a value to the hue, saturation and
/// lightness of the same colour.
pub fn hsv_to_hsl(h: u64, s: u64, v: u64) -> (r: (u64, u64, u64))
    ensures
        r == hsv_hsl(h, s, v),
{
    let l = over(times(minus(TWO, s), v), TWO);
    let s = if !eq(l, ZERO) {
        if eq(l, ONE) {
            ZERO
        } else if lt(l, HALF) {
            over(times(s, v), times(l, TWO))
        } else {
            over(times(s, v), minus(TWO, times(l, TWO)))
        }
    } else {
        s
    };
    (h, s, l)
}

/// Converts a hue in degrees, a saturation and a value to red, green and
/// blue.
pub fn hsv_to_rgb(h: u64, s: u64, v: u64) -> (r: (u64, u64, u64))
    ensures
        r == hsv_rgb(h, s, v),
{
    let (h, s, l) = hsv_to_hsl(h, s, v);
    hsl_to_rgb(h, s, l)
}

fn hue_from(r: u64, g: u64, b: u64, top: u64, d: u64) -> (h: u64)
    ensures
        h == hue_of(r, g, b, top, d),
{
    let dr = over(minus(top, r), d);
    let dg = over(minus(top, g), d);
    let db = over(minus(top, b), d);
    let h = if eq(r, top) {
        minus(db, dg)
    } else if eq(g, top) {
        minus(plus(TWO, dr), db)
    } else {
        minus(plus(FOUR, dg), dr)
    };
    normalize_angle(rem(times(h, SIXTY), TURN))
}

/// Converts red, green and blue to a hue in degrees, a saturation and a
/// value.
pub fn rgb_to_hsv(r: u64, g: u64, b: u64) -> (hsv: (u64, u64, u64))
    ensures
        hsv == rgb_hsv(r, g, b),
{
    let v = larger(r, larger(g, b));
    let d = minus(v, smaller(r, smaller(g, b)));
    if eq(d, ZERO) {
        return (ZERO, ZERO, v);
    }
    let s = over(d, v);
    (hue_from(r, g, b, v, d), s, v)
}

/// Converts red, green and blue to a hue in degrees, a saturation and a
/// lightness.
pub fn rgb_to_hsl(r: u64, g: u64, b: u64) -> (hsl: (u64, u64, u64))
    ensures
        hsl == rgb_hsl(r, g, b),
{
    let min = smaller(r, smaller(g, b));
    let max = larger(r, larger(g, b));
    let l = over(plus(max, min), TWO);
    if eq(min, max) {
        return (ZERO, ZERO, l);
    }
    let d = minus(max, min);
    let s = if lt(l, HALF) {
        over(d, plus(max, min))
    } else {
        over(d, minus(minus(TWO, max), min))
    };
    (hue_from(r, g, b, max, d), s, l)
}

/// Converts red, green and blue to a hue in degrees, a whiteness and a
/// blackness.
pub fn rgb_to_hwb(r: u64, g: u64, b: u64) -> (hwb: (u64, u64, u64))
    ensures
        hwb == rgb_hwb(r, g, b),
{
    let (hue, _, _) = rgb_to_hsl(r, g, b);
    let white = smaller(r, smaller(g, b));
    let black = minus(ONE, larger(r, larger(g, b)));
    (hue, white, black)
}

/// What is left of a finite value by six, wrapped, lies from 0 up to but
/// not 6, whatever the sign of the value.
pub proof fn lemma_wrapped_in_six(x: u64)
    requires
        is_finite(x),
    ensures
        is_finite(wrapped(x, SIX)),
        !less(wrapped(x, SIX), ZERO),
        less(wrapped(x, SIX), SIX),
{
    let left = remainder(x, SIX);
    lemma_remainder_bound(x, SIX);
    lemma_exponent_orders_magnitude(left, SIX);
    if is_negative(left) {
        lemma_sum_with_larger_opposite(left, SIX);
    } else {
        lemma_sum_of_same_sign(left, SIX);
    }
    lemma_remainder_bound(sum(left, SIX), SIX);
}

/// What `clamped` gives lies in `[0, 1]`, unless it is the NaN it was given.
pub proof fn lemma_clamped_in_unit(t: u64)
    ensures
        is_nan(clamped(t)) || (!less(clamped(t), ZERO) && !less(ONE, clamped(t))),
        is_nan(clamped(t)) <==> is_nan(t),
{
}

/// The hue reported for red, green and blue is a number from 0 up to 360,
/// unless it is no number at all.
pub proof fn lemma_hue_in_closed_turn(r: u64, g: u64, b: u64)
    ensures
        is_nan(rgb_hsv(r, g, b).0) || (!less(rgb_hsv(r, g, b).0, ZERO) && !less(
            TURN,
            rgb_hsv(r, g, b).0,
        )),
        is_nan(rgb_hsl(r, g, b).0) || (!less(rgb_hsl(r, g, b).0, ZERO) && !less(
            TURN,
            rgb_hsl(r, g, b).0,
        )),
        rgb_hwb(r, g, b).0 == rgb_hsl(r, g, b).0,
{
    let v = greatest(r, g, b);
    let least = least(r, g, b);
    let d = difference(v, least);
    let dr = quotient(difference(v, r), d);
    let dg = quotient(difference(v, g), d);
    let db = quotient(difference(v, b), d);
    lemma_normalized_angle_in_closed_turn_or_nan(
        remainder(product(difference(db, dg), SIXTY), TURN),
    );
    lemma_normalized_angle_in_closed_turn_or_nan(
        remainder(product(difference(sum(TWO, dr), db), SIXTY), TURN),
    );
    lemma_normalized_angle_in_closed_turn_or_nan(
        remainder(product(difference(sum(FOUR, dg), dr), SIXTY), TURN),
    );
}

/// Without saturation a hue, a saturation and a lightness give grey: each
/// channel is the lightness, whatever the hue.
pub proof fn lemma_hsl_without_saturation(h: u64, s: u64, l: u64)
    requires
        equal(s, ZERO),
    ensures
        hsl_rgb(h, s, l) == (l, l, l),
{
}

/// Without saturation a hue, a saturation and a finite value give grey:
/// each channel is the lightness that the value converts to, whatever the
/// hue.
pub proof fn lemma_hsv_without_saturation(h: u64, s: u64, v: u64)
    requires
        equal(s, ZERO),
        is_finite(v),
    ensures
        hsv_rgb(h, s, v) == (hsv_hsl(h, s, v).2, hsv_hsl(h, s, v).2, hsv_hsl(h, s, v).2),
        equal(hsv_hsl(h, s, v).1, ZERO),
{
    let twice = product(difference(TWO, s), v);
    let l = quotient(twice, TWO);
    let none = product(s, v);
    lemma2_to64();
    lemma_sum_with_zero(TWO, negated(s));
    assert(difference(TWO, s) == TWO);
    assert(magnitude(none) == 0 && !is_nan(none));
    assert(!is_nan(twice)) by {
        if magnitude(v) != 0 {
            lemma_round_magnitude_bound(
                significand(TWO) * significand(v),
                1,
                exponent(TWO) + exponent(v),
            );
        }
    }
    assert(!is_nan(l)) by {
        if is_finite(twice) && magnitude(twice) != 0 {
            let lift = (115 - bit_length(significand(twice))) as nat;
            lemma_round_magnitude_bound(
                significand(twice) * pow2(lift),
                significand(TWO),
                exponent(twice) - exponent(TWO) - lift,
            );
        }
    }
    if !equal(l, ZERO) && !equal(l, ONE) {
        if is_finite(l) {
            lemma_product_by_two(l);
        }
        let double = product(l, TWO);
        assert(!is_nan(double) && magnitude(double) != 0);
        if !less(l, HALF) {
            assert(!is_negative(l));
            assert(double != TWO);
            if is_finite(double) {
                lemma_sum_of_unequal_opposites(TWO, negated(double));
            }
            let rest = difference(TWO, double);
            assert(!is_nan(rest) && magnitude(rest) != 0);
        }
    }
}

/// Whiteness and blackness that add up to one or more give grey, whatever
/// the hue: each channel is the whiteness's share of the two.
pub proof fn lemma_hwb_filled(h: u64, w: u64, b: u64)
    requires
        at_least(sum(w, b), ONE),
    ensures
        hwb_rgb(h, w, b) == (
            quotient(w, sum(w, b)),
            quotient(w, sum(w, b)),
            quotient(w, sum(w, b)),
        ),
{
}

/// A grey, three equal finite channels, has hue 0 and saturation 0 in each
/// of the hue-based representations.
pub proof fn lemma_grey_has_hue_zero(x: u64)
    requires
        is_finite(x),
    ensures
        rgb_hsv(x, x, x) == (ZERO, ZERO, x),
        rgb_hsl(x, x, x).0 == ZERO,
        rgb_hsl(x, x, x).1 == ZERO,
        rgb_hwb(x, x, x).0 == ZERO,
        rgb_hwb(x, x, x).1 == x,
{
    lemma_extremes_of_equals(x);
    lemma_difference_of_equals(x);
}

} // verus!
