//! Whole numbers as binary64 values. Every whole number of magnitude below
//! two to the fifty-third has a pattern of its own, and on such numbers the
//! arithmetic of `arith` is that of the whole numbers: sums and products that
//! stay below two to the fifty-third are exact.

use vstd::arithmetic::power2::{
    lemma2_to64, lemma2_to64_rest, lemma_pow2_adds, lemma_pow2_pos, pow2,
};
use vstd::prelude::*;

use crate::arith::{
    difference, equal, finite_sum, lemma_magnitude_of_parts, lemma_sum_with_zero, product, sum,
};
use crate::binary64::{
    exponent, is_finite, is_negative, magnitude, negated, signed, significand, LIMIT,
};
use crate::rounding::{
    bit_length, lemma_bit_length_at_most, lemma_bit_length_bounds, lemma_bit_length_monotone,
    lemma_no_places, lemma_round_magnitude_bound, lemma_round_magnitude_scale,
    lemma_rounded_significand_bounds, round_magnitude,
};

verus! {

/// The pattern of a whole number below two to the fifty-third.
pub open spec fn whole(n: nat) -> u64 {
    round_magnitude(n, 1, 0) as u64
}

/// The pattern of a whole number of either sign, of magnitude below two to
/// the fifty-third.
pub open spec fn integer(n: int) -> u64 {
    if n < 0 {
        signed(whole((-n) as nat) as nat, true)
    } else {
        whole(n as nat)
    }
}

/// The pattern of a whole number other than zero is that of a normal
/// value: the number's digits moved to the top of the significand, and the
/// exponent that brings them back.
pub proof fn lemma_whole_parts(a: nat)
    requires
        0 < a < LIMIT,
    ensures
        is_finite(whole(a)),
        !is_negative(whole(a)),
        magnitude(whole(a)) != 0,
        1 <= bit_length(a) <= 53,
        significand(whole(a)) == a * pow2((53 - bit_length(a)) as nat),
        exponent(whole(a)) == bit_length(a) - 53,
{
    let b = bit_length(a);
    let up = pow2((53 - b) as nat) as int;
    lemma2_to64();
    lemma2_to64_rest();
    lemma_bit_length_bounds(a);
    lemma_bit_length_at_most(a, 53);
    lemma_rounded_significand_bounds(a, 0);
    lemma_pow2_pos((53 - b) as nat);
    lemma_pow2_adds(b, (53 - b) as nat);
    assert(a * up < pow2(b) * up) by (nonlinear_arith)
        requires
            a < pow2(b),
            up > 0,
    ;
    assert(a / 1 == a);
    assert(a % 1 == 0);
    lemma_no_places(a as int);
}

/// The magnitude of a whole number.
pub open spec fn size(n: int) -> nat {
    if n < 0 {
        (-n) as nat
    } else {
        n as nat
    }
}

/// The parts of the pattern of a whole number other than zero, of either
/// sign.
pub proof fn lemma_integer_parts(n: int)
    requires
        -LIMIT < n < LIMIT,
        n != 0,
    ensures
        is_finite(integer(n)),
        is_negative(integer(n)) == (n < 0),
        magnitude(integer(n)) == whole(size(n)),
        1 <= bit_length(size(n)) <= 53,
        significand(integer(n)) == size(n) * pow2((53 - bit_length(size(n))) as nat),
        exponent(integer(n)) == bit_length(size(n)) - 53,
{
    lemma_whole_parts(size(n));
}

/// The sum of two whole numbers, where it stays below two to the
/// fifty-third, is exact.
pub proof fn lemma_sum_of_integers(a: int, b: int)
    requires
        -LIMIT < a < LIMIT,
        -LIMIT < b < LIMIT,
        -LIMIT < a + b < LIMIT,
    ensures
        sum(integer(a), integer(b)) == integer(a + b),
{
    assert(whole(0) == 0);
    if a == 0 || b == 0 {
        if a != 0 {
            lemma_integer_parts(a);
            lemma_sum_with_zero(integer(a), integer(b));
        } else if b != 0 {
            lemma_integer_parts(b);
            lemma_sum_with_zero(integer(b), integer(a));
        } else {
            lemma_no_places(0);
        }
    } else {
        lemma_integer_parts(a);
        lemma_integer_parts(b);
        if exponent(integer(a)) >= exponent(integer(b)) {
            lemma_finite_sum_of_integers(a, b);
        } else {
            lemma_finite_sum_of_integers(b, a);
        }
    }
}

proof fn lemma_finite_sum_of_integers(a: int, b: int)
    requires
        -LIMIT < a < LIMIT,
        -LIMIT < b < LIMIT,
        -LIMIT < a + b < LIMIT,
        a != 0,
        b != 0,
        bit_length(size(a)) >= bit_length(size(b)),
    ensures
        finite_sum(integer(a), integer(b)) == integer(a + b),
{
    let la = bit_length(size(a));
    let lb = bit_length(size(b));
    let gap = (la - lb) as nat;
    let up = pow2((53 - lb) as nat);
    let big = significand(integer(a)) * pow2(gap);
    let small = significand(integer(b));
    let total = size(a + b);
    lemma_integer_parts(a);
    lemma_integer_parts(b);
    lemma_pow2_adds((53 - la) as nat, gap);
    lemma_pow2_pos((53 - lb) as nat);
    assert(big == size(a) * up) by (nonlinear_arith)
        requires
            big == significand(integer(a)) * pow2(gap),
            significand(integer(a)) == size(a) * pow2((53 - la) as nat),
            up == pow2((53 - la) as nat) * pow2(gap),
    ;
    assert(small == size(b) * up);
    lemma_round_magnitude_scale(total, 0, (53 - lb) as nat);
    lemma_round_magnitude_bound(total, 1, 0);
    assert(whole(0) == 0);
    if (a < 0) == (b < 0) {
        assert(big + small == total * up) by (nonlinear_arith)
            requires
                big == size(a) * up,
                small == size(b) * up,
                total == size(a) + size(b),
        ;
    } else if size(a) > size(b) {
        assert(big - small == total * up && big > small) by (nonlinear_arith)
            requires
                big == size(a) * up,
                small == size(b) * up,
                total == size(a) - size(b),
                size(a) > size(b),
                up > 0,
        ;
    } else if size(a) < size(b) {
        assert(small - big == total * up && big < small) by (nonlinear_arith)
            requires
                big == size(a) * up,
                small == size(b) * up,
                total == size(b) - size(a),
                size(a) < size(b),
                up > 0,
        ;
    } else {
        assert(big == small);
    }
}

/// The pattern of the opposite sign is that of the opposite number.
pub proof fn lemma_negated_integer(n: int)
    requires
        -LIMIT < n < LIMIT,
        n != 0,
    ensures
        negated(integer(n)) == integer(-n),
{
    lemma_whole_parts(size(n));
}

/// The difference of two whole numbers, where it stays below two to the
/// fifty-third, is exact.
pub proof fn lemma_difference_of_integers(a: int, b: int)
    requires
        -LIMIT < a < LIMIT,
        -LIMIT < b < LIMIT,
        -LIMIT < a - b < LIMIT,
    ensures
        difference(integer(a), integer(b)) == integer(a - b),
{
    assert(whole(0) == 0);
    if b != 0 {
        lemma_negated_integer(b);
        lemma_sum_of_integers(a, -b);
    } else if a != 0 {
        lemma_integer_parts(a);
        lemma_sum_with_zero(integer(a), negated(integer(b)));
    } else {
        lemma_no_places(0);
    }
}

/// A finite value and a zero add up to the value as a number, whatever the
/// signs of the zeros.
pub proof fn lemma_sum_of_integer_and_zero(a: int, z: u64)
    requires
        -LIMIT < a < LIMIT,
        magnitude(z) == 0,
    ensures
        sum(integer(a), z) == integer(a),
{
    assert(whole(0) == 0);
    if a != 0 {
        lemma_integer_parts(a);
        lemma_sum_with_zero(integer(a), z);
    } else {
        lemma_no_places(0);
    }
}

/// The product of two whole numbers, where it stays below two to the
/// fifty-third, is exact. A product that is zero has the sign that the signs
/// of the two give, so it is stated as a number.
pub proof fn lemma_product_of_integers(a: int, b: int)
    requires
        -LIMIT < a < LIMIT,
        -LIMIT < b < LIMIT,
        -LIMIT < a * b < LIMIT,
    ensures
        equal(product(integer(a), integer(b)), integer(a * b)),
        a != 0 && b != 0 ==> product(integer(a), integer(b)) == integer(a * b),
{
    assert(whole(0) == 0);
    if a == 0 || b == 0 {
        assert(a * b == 0) by (nonlinear_arith)
            requires
                a == 0 || b == 0,
        ;
        if a != 0 {
            lemma_integer_parts(a);
        }
        if b != 0 {
            lemma_integer_parts(b);
        }
    } else {
        let la = bit_length(size(a));
        let lb = bit_length(size(b));
        let total = size(a * b);
        let lift = (106 - la - lb) as nat;
        lemma_integer_parts(a);
        lemma_integer_parts(b);
        lemma_pow2_adds((53 - la) as nat, (53 - lb) as nat);
        assert(total == size(a) * size(b) && total > 0 && (a * b < 0) == ((a < 0) != (b < 0)))
            by (nonlinear_arith)
            requires
                a != 0,
                b != 0,
                total == size(a * b),
                size(a) == if a < 0 {
                    -a
                } else {
                    a
                },
                size(b) == if b < 0 {
                    -b
                } else {
                    b
                },
                size(a * b) == if a * b < 0 {
                    -(a * b)
                } else {
                    a * b
                },
        ;
        let x = size(a) as int;
        let y = size(b) as int;
        let p = pow2((53 - la) as nat) as int;
        let q = pow2((53 - lb) as nat) as int;
        assert((x * p) * (y * q) == (x * y) * (p * q)) by (nonlinear_arith);
        assert(significand(integer(a)) * significand(integer(b)) == total * pow2(lift));
        lemma_round_magnitude_scale(total, 0, lift);
        lemma_round_magnitude_bound(total, 1, 0);
        lemma_whole_parts(total);
    }
}

} // verus!
