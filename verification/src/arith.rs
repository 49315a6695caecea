//! The arithmetic of binary64 values on their bit patterns.
//!
//! Each operation gives the exact result rounded once, to the nearest value
//! with a tie to the even significand. Where the result is not a number the
//! pattern `NAN` is given, whatever NaN the operands were. Each is stated as
//! a spec function over whole numbers and computed in whole numbers; the
//! executable function's contract is that it gives what the spec function
//! says.

use vstd::arithmetic::div_mod::*;
use vstd::arithmetic::mul::*;
use vstd::arithmetic::power2::*;
use vstd::prelude::*;

use crate::binary64::{
    exponent, exponent_of, is_finite, is_infinite, is_nan, is_negative, magnitude, magnitude_of,
    negated, signed, significand, significand_of, with_sign, HIDDEN, INFINITY, LIMIT, NAN, SIGN,
    TWO,
};
use crate::rounding::{
    bit_length, lemma_bit_length_at_least, lemma_bit_length_at_most, lemma_bit_length_bounds,
    lemma_bit_length_shift, lemma_no_places, lemma_round_magnitude_bound,
    lemma_round_magnitude_monotone,
    lemma_round_magnitude_orders_patterns, lemma_round_magnitude_positive,
    lemma_round_magnitude_ratio_scale, lemma_round_magnitude_scale, length_of, power_of_two,
    round_magnitude, round_pack,
};

verus! {

/// `a * b`: no number where either is none or an infinity meets a zero; an
/// infinity where either is one; a zero where either is one; else the
/// product of the significands at the sum of the exponents, rounded. The sign
/// is negative just when the signs differ.
pub open spec fn product(a: u64, b: u64) -> u64 {
    let neg = is_negative(a) != is_negative(b);
    if is_nan(a) || is_nan(b) {
        NAN
    } else if is_infinite(a) || is_infinite(b) {
        if magnitude(a) == 0 || magnitude(b) == 0 {
            NAN
        } else {
            signed(INFINITY as nat, neg)
        }
    } else if magnitude(a) == 0 || magnitude(b) == 0 {
        signed(0, neg)
    } else {
        signed(
            round_magnitude(significand(a) * significand(b), 1, exponent(a) + exponent(b)),
            neg,
        )
    }
}

/// Multiplies two values.
pub fn times(a: u64, b: u64) -> (r: u64)
    ensures
        r == product(a, b),
{
    let neg = (a >= SIGN) != (b >= SIGN);
    let ma = magnitude_of(a);
    let mb = magnitude_of(b);
    if ma > INFINITY || mb > INFINITY {
        return NAN;
    }
    if ma == INFINITY || mb == INFINITY {
        if ma == 0 || mb == 0 {
            return NAN;
        }
        return with_sign(INFINITY, neg);
    }
    if ma == 0 || mb == 0 {
        return with_sign(0, neg);
    }
    let m1 = significand_of(a) as u128;
    let m2 = significand_of(b) as u128;
    assert(1 <= m1 * m2 < 0x0400_0000_0000_0000_0000_0000_0000) by (nonlinear_arith)
        requires
            1 <= m1 < 0x0020_0000_0000_0000,
            1 <= m2 < 0x0020_0000_0000_0000,
    ;
    let mag = round_pack(m1 * m2, 1, exponent_of(a) + exponent_of(b));
    with_sign(mag, neg)
}

/// `a / b`: no number where either is none, or both are infinities or both
/// zeros; an infinity where `a` is one or `b` is zero; a zero where `a` is
/// zero or `b` an infinity; else the quotient of the significands at the
/// difference of the exponents, rounded. The dividend's significand is first
/// brought to 115 digits, so that the place of rounding lies within the
/// quotient; how far it is brought does not matter. The sign is negative just
/// when the signs differ.
pub open spec fn quotient(a: u64, b: u64) -> u64 {
    let neg = is_negative(a) != is_negative(b);
    if is_nan(a) || is_nan(b) {
        NAN
    } else if is_infinite(a) {
        if is_infinite(b) {
            NAN
        } else {
            signed(INFINITY as nat, neg)
        }
    } else if is_infinite(b) {
        signed(0, neg)
    } else if magnitude(b) == 0 {
        if magnitude(a) == 0 {
            NAN
        } else {
            signed(INFINITY as nat, neg)
        }
    } else if magnitude(a) == 0 {
        signed(0, neg)
    } else {
        let lift = (115 - bit_length(significand(a))) as nat;
        signed(
            round_magnitude(
                significand(a) * pow2(lift),
                significand(b),
                exponent(a) - exponent(b) - lift,
            ),
            neg,
        )
    }
}

/// How far the dividend is lifted does not matter to the quotient: with any
/// number of further binary places it rounds to the same.
pub proof fn lemma_quotient_with_any_lift(a: u64, b: u64, k: nat)
    requires
        is_finite(a),
        is_finite(b),
        magnitude(a) != 0,
        magnitude(b) != 0,
    ensures
        ({
            let lift = (115 - bit_length(significand(a))) as nat;
            round_magnitude(
                significand(a) * pow2(lift + k),
                significand(b),
                exponent(a) - exponent(b) - (lift + k),
            ) == round_magnitude(
                significand(a) * pow2(lift),
                significand(b),
                exponent(a) - exponent(b) - lift,
            )
        }),
{
    let m1 = significand(a);
    let m2 = significand(b);
    let len = bit_length(m1);
    let lift = (115 - len) as nat;
    let pw = pow2(lift) as int;
    let num = m1 * pow2(lift);
    let e = exponent(a) - exponent(b) - lift;
    lemma2_to64();
    lemma2_to64_rest();
    lemma_magnitude_of_parts(a);
    lemma_magnitude_of_parts(b);
    lemma_bit_length_bounds(m1);
    lemma_bit_length_at_most(m1, 53);
    lemma_pow2_adds((len - 1) as nat, lift);
    lemma_pow2_adds(53, 53);
    lemma_pow2_pos(lift);
    lemma_pow2_strictly_increases(106, 114);
    let low = pow2((len - 1) as nat) as int;
    assert(low * pw <= m1 * pw) by (nonlinear_arith)
        requires
            low <= m1,
            pw > 0,
    ;
    assert(m2 * LIMIT <= pow2(106)) by (nonlinear_arith)
        requires
            0 < m2 < LIMIT,
            pow2(106) == LIMIT * LIMIT,
    ;
    assert(num / m2 >= LIMIT) by (nonlinear_arith)
        requires
            num >= m2 * LIMIT,
            m2 > 0,
    ;
    lemma_bit_length_at_least(num / m2, 53);
    lemma_pow2_adds(lift, k);
    assert(m1 * pow2(lift + k) == num * pow2(k)) by (nonlinear_arith)
        requires
            num == m1 * pow2(lift),
            pow2(lift + k) == pow2(lift) * pow2(k),
    ;
    lemma_round_magnitude_ratio_scale(num, m2, e, k);
}

/// Divides `a` by `b`.
pub fn over(a: u64, b: u64) -> (r: u64)
    ensures
        r == quotient(a, b),
{
    let neg = (a >= SIGN) != (b >= SIGN);
    let ma = magnitude_of(a);
    let mb = magnitude_of(b);
    if ma > INFINITY || mb > INFINITY {
        return NAN;
    }
    if ma == INFINITY {
        if mb == INFINITY {
            return NAN;
        }
        return with_sign(INFINITY, neg);
    }
    if mb == INFINITY {
        return with_sign(0, neg);
    }
    if mb == 0 {
        if ma == 0 {
            return NAN;
        }
        return with_sign(INFINITY, neg);
    }
    if ma == 0 {
        return with_sign(0, neg);
    }
    let m1 = significand_of(a) as u128;
    let m2 = significand_of(b) as u128;
    let len = length_of(m1);
    proof {
        lemma2_to64();
        lemma2_to64_rest();
        lemma_bit_length_bounds(m1 as nat);
        lemma_bit_length_at_most(m1 as nat, 53);
    }
    let lift = 115 - len;
    let pw = power_of_two(lift);
    proof {
        lemma_pow2_adds(len as nat, lift as nat);
        lemma_pow2_adds((len - 1) as nat, lift as nat);
        lemma_pow2_adds(64, 51);
        lemma_pow2_adds(53, 53);
        let top = pow2(len as nat) as int;
        let low = pow2((len - 1) as nat) as int;
        assert(low * pw <= m1 * pw < top * pw) by (nonlinear_arith)
            requires
                low <= m1 < top,
                pw > 0,
        ;
        assert(m2 * LIMIT <= pow2(106)) by (nonlinear_arith)
            requires
                0 < m2 < LIMIT,
                pow2(106) == LIMIT * LIMIT,
        ;
        lemma_pow2_strictly_increases(106, 114);
    }
    let num = m1 * pw;
    proof {
        assert(num / m2 >= LIMIT) by (nonlinear_arith)
            requires
                num >= m2 * LIMIT,
                m2 > 0,
        ;
    }
    let mag = round_pack(num, m2, exponent_of(a) - exponent_of(b) - (lift as i64));
    with_sign(mag, neg)
}

/// The sum of two finite values of which `a` has no smaller an exponent:
/// both significands are brought to the smaller exponent, added or taken
/// from one another there without error, and the result rounded. Where the
/// two cancel the sum is zero with the sign bit clear.
pub open spec fn finite_sum(a: u64, b: u64) -> u64 {
    let gap = (exponent(a) - exponent(b)) as nat;
    let big = significand(a) * pow2(gap);
    let small = significand(b);
    if is_negative(a) == is_negative(b) {
        signed(round_magnitude(big + small, 1, exponent(b)), is_negative(a))
    } else if big > small {
        signed(round_magnitude((big - small) as nat, 1, exponent(b)), is_negative(a))
    } else if big < small {
        signed(round_magnitude((small - big) as nat, 1, exponent(b)), is_negative(b))
    } else {
        0
    }
}

/// `a + b`: no number where either is none or the two are infinities of
/// opposite sign; an infinity where either is one; else the sum of the two
/// finite values, rounded.
pub open spec fn sum(a: u64, b: u64) -> u64 {
    if is_nan(a) || is_nan(b) {
        NAN
    } else if is_infinite(a) {
        if is_infinite(b) && is_negative(a) != is_negative(b) {
            NAN
        } else {
            a
        }
    } else if is_infinite(b) {
        b
    } else if exponent(a) >= exponent(b) {
        finite_sum(a, b)
    } else {
        finite_sum(b, a)
    }
}

/// `a - b`.
pub open spec fn difference(a: u64, b: u64) -> u64 {
    sum(a, negated(b))
}

fn finite_plus(a: u64, b: u64) -> (r: u64)
    requires
        is_finite(a),
        is_finite(b),
        exponent(a) >= exponent(b),
    ensures
        r == finite_sum(a, b),
{
    let e1 = exponent_of(a);
    let e2 = exponent_of(b);
    let gap = e1 - e2;
    if gap > 64 {
        proof {
            lemma_sum_with_far_smaller(a, b);
        }
        return a;
    }
    let m1 = significand_of(a) as u128;
    let m2 = significand_of(b) as u128;
    let pw = power_of_two(gap as u32);
    proof {
        lemma2_to64();
        lemma2_to64_rest();
        if gap < 64 {
            lemma_pow2_strictly_increases(gap as nat, 64);
        }
        assert(m1 * pw < 0x0020_0000_0000_0000_0000_0000_0000_0000) by (nonlinear_arith)
            requires
                0 <= m1 < 0x0020_0000_0000_0000,
                0 < pw <= 0x1_0000_0000_0000_0000,
        ;
    }
    let big = m1 * pw;
    let na = a >= SIGN;
    let nb = b >= SIGN;
    if na == nb {
        let n = big + m2;
        if n == 0 {
            return with_sign(0, na);
        }
        with_sign(round_pack(n, 1, e2), na)
    } else if big > m2 {
        with_sign(round_pack(big - m2, 1, e2), na)
    } else if big < m2 {
        with_sign(round_pack(m2 - big, 1, e2), nb)
    } else {
        0
    }
}

/// Adds two values.
pub fn plus(a: u64, b: u64) -> (r: u64)
    ensures
        r == sum(a, b),
{
    let ma = magnitude_of(a);
    let mb = magnitude_of(b);
    if ma > INFINITY || mb > INFINITY {
        return NAN;
    }
    if ma == INFINITY {
        if mb == INFINITY && (a >= SIGN) != (b >= SIGN) {
            return NAN;
        }
        return a;
    }
    if mb == INFINITY {
        return b;
    }
    if exponent_of(a) >= exponent_of(b) {
        finite_plus(a, b)
    } else {
        finite_plus(b, a)
    }
}

/// Gives the value of the opposite sign.
pub fn opposite(a: u64) -> (r: u64)
    ensures
        r == negated(a),
{
    if a >= SIGN {
        a - SIGN
    } else {
        a + SIGN
    }
}

/// Subtracts `b` from `a`.
pub fn minus(a: u64, b: u64) -> (r: u64)
    ensures
        r == difference(a, b),
{
    plus(a, opposite(b))
}

/// `a % b`: what is left of `a` when the largest whole multiple of `b` that
/// fits into it is taken away, with the sign of `a`. Both significands are
/// brought to the smaller exponent, where the remainder is one of whole
/// numbers; it is exact.
pub open spec fn remainder(a: u64, b: u64) -> u64 {
    if is_nan(a) || is_nan(b) || is_infinite(a) || magnitude(b) == 0 {
        NAN
    } else if is_infinite(b) {
        a
    } else {
        let low = if exponent(a) <= exponent(b) {
            exponent(a)
        } else {
            exponent(b)
        };
        let left = (significand(a) * pow2((exponent(a) - low) as nat)) % (significand(b) * pow2(
            (exponent(b) - low) as nat,
        ));
        signed(round_magnitude(left, 1, low), is_negative(a))
    }
}

/// The remainder by a finite divisor other than zero, told apart by the
/// exponents: a dividend with the smaller exponent is smaller than the
/// divisor and is left as it is.
pub proof fn lemma_remainder_by_exponents(a: u64, b: u64)
    requires
        is_finite(a),
        is_finite(b),
        magnitude(b) != 0,
    ensures
        exponent(a) < exponent(b) ==> remainder(a, b) == a,
        exponent(a) >= exponent(b) ==> remainder(a, b) == signed(
            round_magnitude(
                (significand(a) * pow2((exponent(a) - exponent(b)) as nat)) % significand(b),
                1,
                exponent(b),
            ),
            is_negative(a),
        ),
{
    let m = significand(a);
    let d = significand(b);
    lemma2_to64();
    lemma_magnitude_of_parts(a);
    lemma_magnitude_of_parts(b);
    if exponent(a) < exponent(b) {
        let k = (exponent(b) - exponent(a)) as nat;
        let w = pow2(k) as int;
        lemma_pow2_strictly_increases(0, k);
        lemma_no_places(m as int);
        assert(d * w >= 2 * HIDDEN) by (nonlinear_arith)
            requires
                d >= HIDDEN,
                w >= 2,
        ;
        lemma_small_mod(m, (d * w) as nat);
        lemma_round_of_pattern(a);
    } else {
        lemma_no_places(d as int);
    }
}

/// Takes the remainder of `a` by `b`.
pub fn rem(a: u64, b: u64) -> (r: u64)
    ensures
        r == remainder(a, b),
{
    let ma = magnitude_of(a);
    let mb = magnitude_of(b);
    if ma > INFINITY || mb > INFINITY || ma == INFINITY || mb == 0 {
        return NAN;
    }
    if mb == INFINITY {
        return a;
    }
    let e1 = exponent_of(a);
    let e2 = exponent_of(b);
    proof {
        lemma_remainder_by_exponents(a, b);
    }
    if e1 < e2 {
        return a;
    }
    let m1 = significand_of(a);
    let m2 = significand_of(b);
    let gap = e1 - e2;
    let mut left = m1 % m2;
    let mut i: i64 = 0;
    proof {
        lemma2_to64();
        lemma_no_places(m1 as int);
    }
    while i < gap
        invariant
            0 <= i <= gap,
            0 < m2 < LIMIT,
            left == (m1 * pow2(i as nat)) % (m2 as int),
        decreases gap - i,
    {
        proof {
            let x = m1 * pow2(i as nat);
            lemma_pow2_unfold((i + 1) as nat);
            assert(m1 * pow2((i + 1) as nat) == 2 * x) by (nonlinear_arith)
                requires
                    pow2((i + 1) as nat) == 2 * pow2(i as nat),
                    x == m1 * pow2(i as nat),
            ;
            lemma_mul_mod_noop_right(2, x, m2 as int);
        }
        left = (2 * left) % m2;
        i = i + 1;
    }
    if left == 0 {
        return with_sign(0, a >= SIGN);
    }
    with_sign(round_pack(left as u128, 1, e2), a >= SIGN)
}

/// Where a value stands in the order of the numbers; both zeros stand at 0.
pub open spec fn rank(a: u64) -> int {
    if is_negative(a) {
        -magnitude(a)
    } else {
        magnitude(a) as int
    }
}

/// `a < b`: false where either is a NaN.
pub open spec fn less(a: u64, b: u64) -> bool {
    !is_nan(a) && !is_nan(b) && rank(a) < rank(b)
}

/// `a == b`: false where either is a NaN; the two zeros are equal.
pub open spec fn equal(a: u64, b: u64) -> bool {
    !is_nan(a) && !is_nan(b) && rank(a) == rank(b)
}

/// Tests `a < b`.
pub fn lt(a: u64, b: u64) -> (r: bool)
    ensures
        r == less(a, b),
{
    let ma = magnitude_of(a);
    let mb = magnitude_of(b);
    if ma > INFINITY || mb > INFINITY {
        return false;
    }
    if a >= SIGN {
        if b >= SIGN {
            ma > mb
        } else {
            ma > 0 || mb > 0
        }
    } else {
        b < SIGN && ma < mb
    }
}

/// Tests `a == b`.
pub fn eq(a: u64, b: u64) -> (r: bool)
    ensures
        r == equal(a, b),
{
    let ma = magnitude_of(a);
    let mb = magnitude_of(b);
    if ma > INFINITY || mb > INFINITY {
        return false;
    }
    a == b || (ma == 0 && mb == 0)
}

/// `a >= b`: false where either is a NaN.
pub open spec fn at_least(a: u64, b: u64) -> bool {
    less(b, a) || equal(a, b)
}

/// Tests `a >= b`.
pub fn ge(a: u64, b: u64) -> (r: bool)
    ensures
        r == at_least(a, b),
{
    lt(b, a) || eq(a, b)
}

/// `a.max(b)`: the other operand where one is a NaN, else the greater; the
/// first where they are equal.
pub open spec fn maximum(a: u64, b: u64) -> u64 {
    if is_nan(a) {
        b
    } else if less(a, b) {
        b
    } else {
        a
    }
}

/// `a.min(b)`: the other operand where one is a NaN, else the smaller; the
/// first where they are equal.
pub open spec fn minimum(a: u64, b: u64) -> u64 {
    if is_nan(a) {
        b
    } else if less(b, a) {
        b
    } else {
        a
    }
}

/// Gives the greater of two values.
pub fn larger(a: u64, b: u64) -> (r: u64)
    ensures
        r == maximum(a, b),
{
    if magnitude_of(a) > INFINITY || lt(a, b) {
        b
    } else {
        a
    }
}

/// Gives the smaller of two values.
pub fn smaller(a: u64, b: u64) -> (r: u64)
    ensures
        r == minimum(a, b),
{
    if magnitude_of(a) > INFINITY || lt(b, a) {
        b
    } else {
        a
    }
}

/// A finite pattern is told by its significand and exponent.
pub proof fn lemma_magnitude_of_parts(x: u64)
    requires
        is_finite(x),
    ensures
        magnitude(x) == if significand(x) >= HIDDEN {
            (exponent(x) + 1074) * HIDDEN + significand(x)
        } else {
            significand(x) as int
        },
        significand(x) < LIMIT,
        significand(x) < HIDDEN ==> exponent(x) == -1074,
        -1074 <= exponent(x) <= 971,
{
}

/// Rounding a value that a pattern holds gives that pattern.
pub proof fn lemma_round_of_pattern(x: u64)
    requires
        is_finite(x),
    ensures
        round_magnitude(significand(x), 1, exponent(x)) == magnitude(x),
{
    let m = significand(x);
    lemma_magnitude_of_parts(x);
    lemma2_to64();
    lemma2_to64_rest();
    assert(m / 1 == m);
    assert(m % 1 == 0);
    lemma_no_places(1 as int);
    if m >= HIDDEN {
        lemma_bit_length_at_most(m, 53);
        lemma_bit_length_at_least(m, 52);
    } else if m > 0 {
        lemma_bit_length_at_most(m, 52);
    }
}

/// Twice a finite value is the value one exponent higher.
pub proof fn lemma_product_by_two(x: u64)
    requires
        is_finite(x),
        magnitude(x) != 0,
    ensures
        product(x, TWO) == signed(
            round_magnitude(significand(x), 1, exponent(x) + 1),
            is_negative(x),
        ),
        !is_nan(product(x, TWO)),
        magnitude(product(x, TWO)) != 0,
        significand(x) >= HIDDEN ==> magnitude(product(x, TWO)) == if magnitude(x) + HIDDEN
            >= INFINITY {
            INFINITY as int
        } else {
            magnitude(x) + HIDDEN
        },
        significand(x) < HIDDEN ==> magnitude(product(x, TWO)) == 2 * magnitude(x),
{
    let m = significand(x);
    let e = exponent(x);
    lemma2_to64();
    lemma2_to64_rest();
    lemma_magnitude_of_parts(x);
    assert(significand(TWO) == pow2(52));
    assert(exponent(TWO) == -51);
    lemma_round_magnitude_scale(m, e + 1, 52);
    lemma_round_magnitude_positive(m, e + 1);
    lemma_round_magnitude_bound(m, 1, e + 1);
    assert(m / 1 == m);
    assert(m % 1 == 0);
    lemma_no_places(1 as int);
    if m >= HIDDEN {
        lemma_bit_length_at_most(m, 53);
        lemma_bit_length_at_least(m, 52);
    } else {
        lemma_bit_length_at_most(m, 52);
        assert(m * pow2(1) == 2 * m);
    }
}

/// Two finite values of opposite sign and different magnitude do not cancel:
/// their sum is a number other than zero.
pub proof fn lemma_sum_of_unequal_opposites(a: u64, b: u64)
    requires
        is_finite(a),
        is_finite(b),
        is_negative(a) != is_negative(b),
        magnitude(a) != magnitude(b),
    ensures
        !is_nan(sum(a, b)),
        magnitude(sum(a, b)) != 0,
{
    if exponent(a) >= exponent(b) {
        lemma_finite_sum_of_unequal_opposites(a, b);
    } else {
        lemma_finite_sum_of_unequal_opposites(b, a);
    }
}

proof fn lemma_finite_sum_of_unequal_opposites(a: u64, b: u64)
    requires
        is_finite(a),
        is_finite(b),
        exponent(a) >= exponent(b),
        is_negative(a) != is_negative(b),
        magnitude(a) != magnitude(b),
    ensures
        !is_nan(finite_sum(a, b)),
        magnitude(finite_sum(a, b)) != 0,
{
    let gap = (exponent(a) - exponent(b)) as nat;
    let w = pow2(gap) as int;
    let big = significand(a) * pow2(gap);
    let small = significand(b);
    lemma_magnitude_of_parts(a);
    lemma_magnitude_of_parts(b);
    lemma2_to64();
    lemma_pow2_pos(gap);
    if gap == 0 {
        lemma_no_places(significand(a) as int);
    } else {
        lemma_pow2_strictly_increases(0, gap);
        assert(significand(a) * w >= 2 * HIDDEN) by (nonlinear_arith)
            requires
                significand(a) >= HIDDEN,
                w >= 2,
        ;
    }
    assert(big != small);
    let n = if big > small {
        (big - small) as nat
    } else {
        (small - big) as nat
    };
    lemma_round_magnitude_positive(n, exponent(b));
    lemma_round_magnitude_bound(n, 1, exponent(b));
}

/// A finite value and a zero add up to the value.
pub proof fn lemma_sum_with_zero(x: u64, z: u64)
    requires
        is_finite(x),
        magnitude(x) != 0,
        magnitude(z) == 0,
    ensures
        sum(x, z) == x,
        sum(z, x) == x,
{
    let gap = (exponent(x) - exponent(z)) as nat;
    lemma_magnitude_of_parts(x);
    lemma_round_of_pattern(x);
    lemma_round_magnitude_scale(significand(x), exponent(x), gap);
    assert(significand(x) * pow2(gap) > 0) by (nonlinear_arith)
        requires
            significand(x) > 0,
            pow2(gap) > 0,
    {
        lemma_pow2_pos(gap);
    }
    if gap == 0 {
        lemma2_to64();
        lemma_no_places(significand(x) as int);
    }
}

/// A second operand more than sixty-four binary places below the first lies
/// under any rounding of the first, and the sum is the first.
pub proof fn lemma_sum_with_far_smaller(a: u64, b: u64)
    requires
        is_finite(a),
        is_finite(b),
        exponent(a) - exponent(b) > 64,
    ensures
        finite_sum(a, b) == a,
{
    let gap = (exponent(a) - exponent(b)) as nat;
    let m = significand(a);
    let small = significand(b);
    let w = pow2(gap);
    let big = m * w;
    let e = exponent(b);
    lemma_magnitude_of_parts(a);
    lemma_magnitude_of_parts(b);
    lemma2_to64();
    lemma2_to64_rest();
    lemma_pow2_strictly_increases(64, gap);
    lemma_pow2_pos(gap);
    lemma_bit_length_at_most(m, 53);
    lemma_bit_length_at_least(m, 52);
    lemma_bit_length_shift(m, gap);
    lemma_pow2_adds(52, gap);
    lemma_pow2_adds(53, gap);
    assert(HIDDEN * w <= big <= (LIMIT - 1) * w) by (nonlinear_arith)
        requires
            HIDDEN <= m <= LIMIT - 1,
            big == m * w,
            w > 0,
    ;
    assert((LIMIT - 1) * w == LIMIT * w - w && LIMIT * w == 2 * (HIDDEN * w))
        by (nonlinear_arith);
    if is_negative(a) == is_negative(b) || small == 0 {
        let n = if is_negative(a) == is_negative(b) {
            big + small
        } else {
            big
        };
        lemma_bit_length_at_most(n, (53 + gap) as nat);
        lemma_bit_length_at_least(n, (52 + gap) as nat);
        assert(n / 1 == n);
        assert(1 * w == w);
        lemma_fundamental_div_mod_converse(n as int, w as int, m as int, (n - big) as int);
    } else if m > HIDDEN {
        let n = (big - small) as nat;
        assert(HIDDEN * w <= big - w) by (nonlinear_arith)
            requires
                HIDDEN + 1 <= m,
                big == m * w,
                w > 0,
        ;
        lemma_bit_length_at_most(n, (53 + gap) as nat);
        lemma_bit_length_at_least(n, (52 + gap) as nat);
        assert(n / 1 == n);
        assert(1 * w == w);
        assert(n == (m - 1) * w + (w - small)) by (nonlinear_arith)
            requires
                n == big - small,
                big == m * w,
        ;
        lemma_fundamental_div_mod_converse(n as int, w as int, m - 1, w - small);
    } else {
        let n = (big - small) as nat;
        let half = pow2((gap - 1) as nat);
        lemma_pow2_unfold(gap);
        lemma_pow2_strictly_increases(63, (gap - 1) as nat);
        lemma_pow2_adds(52, (gap - 1) as nat);
        lemma_pow2_adds(51, (gap - 1) as nat);
        assert(HIDDEN * half == 2 * (pow2(51) * half)) by (nonlinear_arith)
            requires
                HIDDEN == 2 * pow2(51),
        ;
        assert(n == (LIMIT - 1) * half + (half - small) && LIMIT * half == 2 * (HIDDEN * half)
            && (LIMIT - 1) * half == LIMIT * half - half && big == LIMIT * half)
            by (nonlinear_arith)
            requires
                n == big - small,
                big == m * w,
                m == HIDDEN,
                w == 2 * half,
        ;
        lemma_bit_length_at_most(n, (52 + gap) as nat);
        lemma_bit_length_at_least(n, (51 + gap) as nat);
        assert(n / 1 == n);
        assert(1 * half == half);
        lemma_fundamental_div_mod_converse(n as int, half as int, LIMIT - 1, half - small);
    }
}

/// Of two finite values the one with the smaller exponent has the smaller
/// magnitude, and the one with the smaller magnitude no larger an exponent.
pub proof fn lemma_exponent_orders_magnitude(a: u64, b: u64)
    requires
        is_finite(a),
        is_finite(b),
    ensures
        exponent(a) < exponent(b) ==> magnitude(a) < magnitude(b),
        magnitude(a) <= magnitude(b) ==> exponent(a) <= exponent(b),
        magnitude(a) <= magnitude(b) && exponent(a) == exponent(b) ==> significand(a)
            <= significand(b),
{
    lemma_magnitude_of_parts(a);
    lemma_magnitude_of_parts(b);
}

/// What is left of a finite value by a finite divisor other than zero is a
/// number smaller in magnitude than the divisor, with the sign of the
/// dividend.
pub proof fn lemma_remainder_bound(a: u64, b: u64)
    requires
        is_finite(a),
        is_finite(b),
        magnitude(b) != 0,
    ensures
        is_finite(remainder(a, b)),
        magnitude(remainder(a, b)) < magnitude(b),
        is_negative(remainder(a, b)) == is_negative(a),
{
    lemma_exponent_orders_magnitude(a, b);
    lemma_remainder_by_exponents(a, b);
    lemma_magnitude_of_parts(b);
    if exponent(a) >= exponent(b) {
        let gap = (exponent(a) - exponent(b)) as nat;
        let whole = significand(a) * pow2(gap);
        let left = whole % significand(b);
        lemma_mod_bound(whole as int, significand(b) as int);
        lemma_round_magnitude_orders_patterns(left, significand(b), exponent(b));
        lemma_round_of_pattern(b);
    }
}

/// A negative finite value and a positive one of no smaller magnitude add
/// up to a number that is not negative and no larger than the positive one.
pub proof fn lemma_sum_with_larger_opposite(x: u64, y: u64)
    requires
        is_finite(x),
        is_finite(y),
        is_negative(x),
        !is_negative(y),
        magnitude(x) <= magnitude(y),
    ensures
        is_finite(sum(x, y)),
        !is_negative(sum(x, y)),
        magnitude(sum(x, y)) <= magnitude(y),
{
    lemma_exponent_orders_magnitude(x, y);
    lemma_magnitude_of_parts(x);
    lemma_magnitude_of_parts(y);
    lemma_round_of_pattern(y);
    lemma2_to64();
    let m = significand(y);
    let e = exponent(y);
    if exponent(x) >= e {
        lemma_no_places(significand(x) as int);
        if significand(x) < m {
            lemma_round_magnitude_monotone((m - significand(x)) as nat, m, e);
        }
    } else {
        let gap = (e - exponent(x)) as nat;
        let w = pow2(gap) as int;
        let big = m * pow2(gap);
        lemma_pow2_strictly_increases(0, gap);
        assert(m * w >= 2 * HIDDEN) by (nonlinear_arith)
            requires
                m >= HIDDEN,
                w >= 2,
        ;
        lemma_round_magnitude_monotone((big - significand(x)) as nat, big, exponent(x));
        lemma_round_magnitude_scale(m, e, gap);
    }
}

/// Two finite values of one sign, neither as large as two to the 1023rd,
/// add up to a finite value of that sign.
pub proof fn lemma_sum_of_same_sign(a: u64, b: u64)
    requires
        is_finite(a),
        is_finite(b),
        is_negative(a) == is_negative(b),
        exponent(a) < 970,
        exponent(b) < 970,
    ensures
        is_finite(sum(a, b)),
        is_negative(sum(a, b)) == is_negative(a),
{
    if exponent(a) >= exponent(b) {
        lemma_finite_sum_of_same_sign(a, b);
    } else {
        lemma_finite_sum_of_same_sign(b, a);
    }
}

proof fn lemma_finite_sum_of_same_sign(a: u64, b: u64)
    requires
        is_finite(a),
        is_finite(b),
        is_negative(a) == is_negative(b),
        exponent(b) <= exponent(a) < 970,
    ensures
        is_finite(finite_sum(a, b)),
        is_negative(finite_sum(a, b)) == is_negative(a),
{
    let gap = (exponent(a) - exponent(b)) as nat;
    let w = pow2(gap) as int;
    let n = significand(a) * pow2(gap) + significand(b);
    let top = pow2(54 + gap);
    let e = exponent(b);
    lemma_magnitude_of_parts(a);
    lemma_magnitude_of_parts(b);
    lemma2_to64();
    lemma2_to64_rest();
    lemma_pow2_pos(gap);
    lemma_pow2_adds(54, gap);
    assert(n <= top) by (nonlinear_arith)
        requires
            n == significand(a) * w + significand(b),
            significand(a) < LIMIT,
            significand(b) < LIMIT,
            top == pow2(54) * w,
            pow2(54) == 2 * LIMIT,
            w >= 1,
    ;
    lemma_round_magnitude_monotone(n, top, e);
    assert(top == 1 * pow2(54 + gap));
    lemma_round_magnitude_scale(1, e + 54 + gap, 54 + gap);
    let high = e + 54 + gap;
    assert(round_magnitude(1, 1, high) == (high + 1023) * HIDDEN) by {
        reveal_with_fuel(bit_length, 2);
        assert(1nat / 1 == 1);
        assert(1 * pow2(52) == pow2(52));
    }
}

/// The sum does not depend on the order of its operands, where it is a
/// number.
pub proof fn lemma_sum_commutes(a: u64, b: u64)
    requires
        is_finite(a),
        is_finite(b),
    ensures
        sum(a, b) == sum(b, a),
{
    if exponent(a) == exponent(b) {
        lemma_no_places(significand(a) as int);
        lemma_no_places(significand(b) as int);
    }
}

/// A finite value less itself is zero, with the sign bit clear.
pub proof fn lemma_difference_of_equals(x: u64)
    requires
        is_finite(x),
    ensures
        difference(x, x) == 0,
{
    lemma2_to64();
    lemma_no_places(significand(x) as int);
    assert(magnitude(negated(x)) == magnitude(x));
}

/// Of a value and itself, the greater and the smaller are that value.
pub proof fn lemma_extremes_of_equals(x: u64)
    ensures
        maximum(x, x) == x,
        minimum(x, x) == x,
{
}

} // verus!
