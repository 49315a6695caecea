//! Rounding a non-negative rational to binary64: to the nearest value, a tie
//! to the one with an even significand.
//!
//! Every operation of `arith` states its exact result as a quotient of whole
//! numbers times a power of two and hands it to `round_magnitude`. The lemmas
//! here say what that rounding is: it leaves a value that a pattern holds as
//! it is, depends on the value alone and not on how it is written, keeps the
//! order, and stays within half a unit in the last place.

use vstd::arithmetic::div_mod::*;
use vstd::arithmetic::mul::*;
use vstd::arithmetic::power2::*;
use vstd::prelude::*;

use crate::binary64::{HIDDEN, INFINITY, LIMIT};

verus! {

/// The number of binary digits of `n`; zero has none.
pub open spec fn bit_length(n: nat) -> nat
    decreases n,
{
    if n == 0 {
        0
    } else {
        (1 + bit_length(n / 2)) as nat
    }
}

/// `p / d` rounded to the nearest integer, a tie to the even neighbour.
pub open spec fn div_round_even(p: nat, d: nat) -> nat {
    let q = p / d;
    let r = p % d;
    if 2 * r < d || (2 * r == d && q % 2 == 0) {
        q
    } else {
        (q + 1) as nat
    }
}

/// The binary places cut off when `(num / den) * 2^e` is rounded: as many
/// as leave fifty-three digits, and more where the exponent would fall
/// below that of the subnormals. Negative when digits are to be gained.
pub open spec fn cut(num: nat, den: nat, e: int) -> int {
    let spare = bit_length(num / den) - 53;
    if spare >= -1074 - e {
        spare
    } else {
        -1074 - e
    }
}

/// The magnitude pattern of `(num / den) * 2^e` rounded to binary64, for a
/// quotient of at least one or a numerator of zero: the pattern of the
/// nearest value, of two equally near the one with the even significand, and
/// that of infinity where the rounded value is too large to be finite. The
/// quotient is rounded once, at the place `cut` gives: to fifty-three digits,
/// or to the fewer that a subnormal has. A significand that rounds up to two
/// to the fifty-third carries into the exponent.
pub open spec fn round_magnitude(num: nat, den: nat, e: int) -> nat {
    let s = cut(num, den, e);
    let y = if s >= 0 {
        div_round_even(num, (den * pow2(s as nat)) as nat)
    } else {
        div_round_even((num * pow2((-s) as nat)) as nat, den)
    };
    let bits = (e + s + 1074) * HIDDEN + y;
    if num / den == 0 {
        0
    } else if bits >= INFINITY {
        INFINITY as nat
    } else {
        bits as nat
    }
}

/// No binary places leave a number as it is.
pub proof fn lemma_no_places(x: int)
    ensures
        x * pow2(0) == x,
{
    lemma2_to64();
    assert(x * pow2(0) == x) by (nonlinear_arith)
        requires
            pow2(0) == 1,
    ;
}

/// A number with `bit_length` digits lies between the powers of two.
pub proof fn lemma_bit_length_bounds(n: nat)
    requires
        n > 0,
    ensures
        pow2((bit_length(n) - 1) as nat) <= n < pow2(bit_length(n)),
    decreases n,
{
    lemma2_to64();
    if n == 1 {
        reveal_with_fuel(bit_length, 2);
    } else {
        lemma_bit_length_bounds(n / 2);
        lemma_pow2_unfold(bit_length(n));
        lemma_pow2_unfold((bit_length(n) - 1) as nat);
    }
}

/// A number below `2^k` has at most `k` digits.
pub proof fn lemma_bit_length_at_most(n: nat, k: nat)
    requires
        n < pow2(k),
    ensures
        bit_length(n) <= k,
{
    if n > 0 && bit_length(n) > k {
        lemma_bit_length_bounds(n);
        if bit_length(n) - 1 > k {
            lemma_pow2_strictly_increases(k, (bit_length(n) - 1) as nat);
        }
    }
}

/// A number of at least `2^k` has more than `k` digits.
pub proof fn lemma_bit_length_at_least(n: nat, k: nat)
    requires
        n >= pow2(k),
    ensures
        bit_length(n) > k,
{
    lemma_pow2_pos(k);
    lemma_bit_length_bounds(n);
    if bit_length(n) < k {
        lemma_pow2_strictly_increases(bit_length(n), k);
    }
}

/// What `round_magnitude` gives is a magnitude, at most that of infinity.
pub proof fn lemma_round_magnitude_bound(num: nat, den: nat, e: int)
    ensures
        round_magnitude(num, den, e) <= INFINITY,
{
}

/// A whole multiple of the smallest subnormal does not round to zero.
pub proof fn lemma_round_magnitude_positive(num: nat, e: int)
    requires
        num > 0,
        e >= -1074 || num >= pow2((-1074 - e) as nat),
    ensures
        round_magnitude(num, 1, e) > 0,
{
    let s = cut(num, 1, e);
    lemma2_to64();
    lemma2_to64_rest();
    lemma_bit_length_bounds(num);
    assert(num / 1 == num);
    if s < 0 {
        let up = pow2((-s) as nat) as int;
        lemma_pow2_pos((-s) as nat);
        assert(num * up > 0) by (nonlinear_arith)
            requires
                num > 0,
                up > 0,
        ;
    } else {
        let d = pow2(s as nat) as int;
        lemma_pow2_pos(s as nat);
        assert(1 * d == d);
        let q = num as int / d;
        assert(q >= 1) by {
            if s == bit_length(num) - 53 {
                lemma_pow2_adds(s as nat, 52);
                lemma_div_is_ordered(pow2((s + 52) as nat) as int, num as int, d);
                lemma_div_multiples_vanish(pow2(52) as int, d);
                lemma_mul_is_commutative(pow2(52) as int, d);
            } else {
                lemma_div_is_ordered(d, num as int, d);
                lemma_div_multiples_vanish(1, d);
            }
        }
    }
}

/// What `div_round_even` gives is the nearest integer: it lies no more than
/// a half from the quotient, and where it lies just a half from it, it is
/// even.
pub proof fn lemma_div_round_even_is_nearest(p: nat, d: nat)
    requires
        d > 0,
    ensures
        2 * (div_round_even(p, d) * d - p) <= d,
        2 * (p - div_round_even(p, d) * d) <= d,
        2 * (div_round_even(p, d) * d - p) == d || 2 * (p - div_round_even(p, d) * d) == d
            ==> div_round_even(p, d) % 2 == 0,
{
    let q = p as int / d as int;
    let r = p as int % d as int;
    let y = div_round_even(p, d) as int;
    lemma_fundamental_div_mod(p as int, d as int);
    lemma_mod_bound(p as int, d as int);
    assert(y * d - p == (y - q) * d - r) by (nonlinear_arith)
        requires
            p == d * q + r,
    ;
    if y == q {
        assert((y - q) * d == 0) by (nonlinear_arith)
            requires
                y - q == 0,
        ;
    } else {
        assert((y - q) * d == d) by (nonlinear_arith)
            requires
                y - q == 1,
        ;
    }
}

/// `k` more binary places make a number `k` digits longer.
pub proof fn lemma_bit_length_shift(n: nat, k: nat)
    requires
        n > 0,
    ensures
        bit_length(n * pow2(k)) == bit_length(n) + k,
{
    let b = bit_length(n);
    let w = pow2(k) as int;
    lemma_bit_length_bounds(n);
    lemma_pow2_adds((b - 1) as nat, k);
    lemma_pow2_adds(b, k);
    lemma_pow2_pos(k);
    let low = pow2((b - 1) as nat) as int;
    let top = pow2(b) as int;
    assert(low * w <= n * w < top * w) by (nonlinear_arith)
        requires
            low <= n < top,
            w > 0,
    ;
    lemma_bit_length_at_most(n * pow2(k), b + k);
    lemma_bit_length_at_least(n * pow2(k), (b - 1 + k) as nat);
}

/// Rounding a quotient is not changed by a factor common to both sides.
pub proof fn lemma_div_round_even_scale(p: nat, d: nat, c: nat)
    requires
        d > 0,
        c > 0,
    ensures
        div_round_even(p * c, d * c) == div_round_even(p, d),
{
    let q = p as int / d as int;
    let r = p as int % d as int;
    let pc = (p * c) as int;
    let dc = (d * c) as int;
    lemma_fundamental_div_mod(p as int, d as int);
    assert(pc == q * dc + c * r) by (nonlinear_arith)
        requires
            p == d * q + r,
            pc == p * c,
            dc == d * c,
    ;
    assert(0 <= c * r < dc) by (nonlinear_arith)
        requires
            0 <= r < d,
            c > 0,
            dc == d * c,
    ;
    lemma_fundamental_div_mod_converse(pc, dc, q, c * r);
    assert((2 * (c * r) < dc) == (2 * r < d) && (2 * (c * r) == dc) == (2 * r == d))
        by (nonlinear_arith)
        requires
            c > 0,
            dc == d * c,
    ;
}

/// What is rounded is a value: `num * 2^k` at an exponent `k` lower rounds
/// as `num` does.
pub proof fn lemma_round_magnitude_scale(num: nat, e: int, k: nat)
    ensures
        round_magnitude(num * pow2(k), 1, e - k) == round_magnitude(num, 1, e),
{
    let w = pow2(k);
    let big = num * w;
    lemma_pow2_pos(k);
    assert(num / 1 == num);
    assert(big / 1 == big);
    if num == 0 {
        assert(big == 0) by (nonlinear_arith)
            requires
                big == num * w,
                num == 0,
        ;
    } else {
        assert(big > 0) by (nonlinear_arith)
            requires
                big == num * w,
                num > 0,
                w > 0,
        ;
        lemma_bit_length_shift(num, k);
        let s = cut(num, 1, e);
        assert(cut(big, 1, e - k) == s + k);
        if s >= 0 {
            let d = pow2(s as nat);
            lemma_pow2_pos(s as nat);
            lemma_pow2_adds(s as nat, k);
            lemma_div_round_even_scale(num, d, w);
            assert(1 * d == d);
            assert(1 * pow2((s + k) as nat) == d * w);
        } else if s + k <= 0 {
            let up = pow2((-s - k) as nat);
            lemma_pow2_adds(k, (-s - k) as nat);
            assert(big * up == num * pow2((-s) as nat)) by (nonlinear_arith)
                requires
                    big == num * w,
                    pow2((-s) as nat) == w * up,
            ;
            if s + k == 0 {
                lemma2_to64();
                lemma_no_places(1 as int);
                assert(big % 1 == 0);
                assert(big * up == big) by (nonlinear_arith)
                    requires
                        up == 1,
                ;
            }
        } else {
            let d = pow2((s + k) as nat);
            let up = pow2((-s) as nat);
            lemma_pow2_pos((s + k) as nat);
            lemma_pow2_adds((-s) as nat, (s + k) as nat);
            let y = num * up;
            assert(big == y * d) by (nonlinear_arith)
                requires
                    big == num * w,
                    w == up * d,
                    y == num * up,
            ;
            lemma_div_multiples_vanish(y as int, d as int);
            lemma_mod_multiples_basic(y as int, d as int);
            lemma_mul_is_commutative(y as int, d as int);
            assert(1 * d == d);
        }
    }
}

/// What is rounded is a value: with the rounding place inside the quotient,
/// `num * 2^k` over `den` at an exponent `k` lower rounds as `num` over `den`
/// does.
pub proof fn lemma_round_magnitude_ratio_scale(num: nat, den: nat, e: int, k: nat)
    requires
        0 < den <= num,
        cut(num, den, e) >= 0,
    ensures
        round_magnitude(num * pow2(k), den, e - k) == round_magnitude(num, den, e),
{
    let w = pow2(k);
    let t = num / den;
    let r = num % den;
    let big = num * w;
    let t2 = big / den;
    let s = cut(num, den, e);
    lemma_pow2_pos(k);
    lemma_fundamental_div_mod(num as int, den as int);
    lemma_mod_bound(num as int, den as int);
    assert(t >= 1) by (nonlinear_arith)
        requires
            t == num / den,
            0 < den <= num,
    ;
    let extra = (r * w) / den;
    lemma_fundamental_div_mod((r * w) as int, den as int);
    lemma_mod_bound((r * w) as int, den as int);
    assert(0 <= extra < w) by (nonlinear_arith)
        requires
            0 <= r < den,
            w > 0,
            r * w == den * extra + (r * w) % den,
            0 <= (r * w) % den < den,
    ;
    assert(big == (t * w + extra) * den + (r * w) % den) by (nonlinear_arith)
        requires
            big == num * w,
            num == den * t + r,
            r * w == den * extra + (r * w) % den,
    ;
    lemma_fundamental_div_mod_converse(
        big as int,
        den as int,
        (t * w + extra) as int,
        ((r * w) % den) as int,
    );
    assert(t2 == t * w + extra);
    let b = bit_length(t);
    lemma_bit_length_bounds(t);
    lemma_pow2_adds((b - 1) as nat, k);
    lemma_pow2_adds(b, k);
    let low = pow2((b - 1) as nat) as int;
    let top = pow2(b) as int;
    assert(low * w <= t * w && (t + 1) * w <= top * w) by (nonlinear_arith)
        requires
            low <= t < top,
            w > 0,
    ;
    assert((t + 1) * w == t * w + w) by (nonlinear_arith);
    lemma_bit_length_at_most(t2, b + k);
    lemma_bit_length_at_least(t2, (b - 1 + k) as nat);
    assert(cut(big, den, e - k) == s + k);
    let d = (den * pow2(s as nat)) as nat;
    lemma_pow2_pos(s as nat);
    lemma_pow2_adds(s as nat, k);
    assert(d > 0) by (nonlinear_arith)
        requires
            d == den * pow2(s as nat),
            den > 0,
            pow2(s as nat) > 0,
    ;
    assert(den * pow2((s + k) as nat) == d * w) by (nonlinear_arith)
        requires
            d == den * pow2(s as nat),
            pow2((s + k) as nat) == pow2(s as nat) * w,
    ;
    lemma_div_round_even_scale(num, d, w);
}

/// A larger number is no shorter.
pub proof fn lemma_bit_length_monotone(n1: nat, n2: nat)
    requires
        n1 <= n2,
    ensures
        bit_length(n1) <= bit_length(n2),
{
    if n1 > 0 && bit_length(n1) > bit_length(n2) {
        lemma_bit_length_bounds(n1);
        lemma_bit_length_bounds(n2);
        if bit_length(n2) < bit_length(n1) - 1 {
            lemma_pow2_strictly_increases(bit_length(n2), (bit_length(n1) - 1) as nat);
        }
    }
}

/// A larger dividend rounds to no smaller a quotient.
pub proof fn lemma_div_round_even_monotone(less: nat, more: nat, d: nat)
    requires
        less <= more,
        d > 0,
    ensures
        div_round_even(less, d) <= div_round_even(more, d),
{
    lemma_div_is_ordered(less as int, more as int, d as int);
    lemma_fundamental_div_mod(less as int, d as int);
    lemma_fundamental_div_mod(more as int, d as int);
    lemma_mod_bound(less as int, d as int);
    lemma_mod_bound(more as int, d as int);
    let q1 = less as int / d as int;
    let q2 = more as int / d as int;
    if q1 == q2 {
        assert(less as int % d as int <= more as int % d as int) by (nonlinear_arith)
            requires
                less <= more,
                less == d * q1 + less as int % d as int,
                more == d * q1 + more as int % d as int,
        ;
    }
}

/// The significand that rounding leaves: what `round_magnitude` puts beside
/// the exponent.
pub open spec fn rounded_significand(num: nat, e: int) -> nat {
    let s = cut(num, 1, e);
    if s >= 0 {
        div_round_even(num, pow2(s as nat))
    } else {
        (num * pow2((-s) as nat)) as nat
    }
}

/// The rounded significand has at most fifty-three digits, counting two to
/// the fifty-third as one of them, and has all of them unless the value is
/// subnormal.
pub proof fn lemma_rounded_significand_bounds(num: nat, e: int)
    requires
        num > 0,
    ensures
        rounded_significand(num, e) <= LIMIT,
        cut(num, 1, e) == bit_length(num) - 53 ==> rounded_significand(num, e) >= HIDDEN,
        round_magnitude(num, 1, e) == if (e + cut(num, 1, e) + 1074) * HIDDEN
            + rounded_significand(num, e) >= INFINITY {
            INFINITY as int
        } else {
            (e + cut(num, 1, e) + 1074) * HIDDEN + rounded_significand(num, e)
        },
{
    let s = cut(num, 1, e);
    let b = bit_length(num);
    assert(num / 1 == num);
    lemma2_to64();
    lemma2_to64_rest();
    lemma_bit_length_bounds(num);
    if s >= 0 {
        let d = pow2(s as nat) as int;
        assert(1 * d == d);
        lemma_pow2_pos(s as nat);
        if b > s {
            lemma_pow2_adds(s as nat, (b - s) as nat);
            lemma_div_below(num as int, d, pow2((b - s) as nat) as int);
            if b - s < 53 {
                lemma_pow2_strictly_increases((b - s) as nat, 53);
            }
        } else {
            if b < s {
                lemma_pow2_strictly_increases(b, s as nat);
            }
            lemma_basic_div(num as int, d);
        }
        if s == b - 53 {
            lemma_pow2_adds(s as nat, 52);
            lemma_div_is_ordered(pow2((s + 52) as nat) as int, num as int, d);
            lemma_div_multiples_vanish(pow2(52) as int, d);
            lemma_mul_is_commutative(pow2(52) as int, d);
        }
    } else {
        let up = pow2((-s) as nat) as int;
        lemma_pow2_pos((-s) as nat);
        if -s < 53 - b {
            lemma_pow2_strictly_increases((-s) as nat, (53 - b) as nat);
        }
        lemma_pow2_adds(b, (53 - b) as nat);
        lemma_mul_below(num as int, up, pow2(b) as int, pow2((53 - b) as nat) as int);
        if s == b - 53 {
            lemma_pow2_adds((b - 1) as nat, (53 - b) as nat);
            let low = pow2((b - 1) as nat) as int;
            assert(low * up <= num * up) by (nonlinear_arith)
                requires
                    low <= num,
                    up > 0,
            ;
        }
    }
}

/// Rounding keeps the order: a larger value at the same exponent rounds to
/// no smaller a pattern.
pub proof fn lemma_round_magnitude_monotone(n1: nat, n2: nat, e: int)
    requires
        n1 <= n2,
    ensures
        round_magnitude(n1, 1, e) <= round_magnitude(n2, 1, e),
{
    assert(n1 / 1 == n1);
    assert(n2 / 1 == n2);
    if n1 > 0 {
        let s1 = cut(n1, 1, e);
        let s2 = cut(n2, 1, e);
        lemma_bit_length_monotone(n1, n2);
        lemma_rounded_significand_bounds(n1, e);
        lemma_rounded_significand_bounds(n2, e);
        let y1 = rounded_significand(n1, e);
        let y2 = rounded_significand(n2, e);
        if s1 == s2 {
            if s1 >= 0 {
                lemma_pow2_pos(s1 as nat);
                lemma_div_round_even_monotone(n1, n2, pow2(s1 as nat));
            } else {
                let up = pow2((-s1) as nat) as int;
                assert(n1 * up <= n2 * up) by (nonlinear_arith)
                    requires
                        n1 <= n2,
                        up >= 0,
                ;
            }
        } else {
            assert(s1 < s2);
            assert(y2 >= HIDDEN);
            assert((e + s1 + 1074) * HIDDEN + y1 <= (e + s2 + 1074) * HIDDEN + y2);
        }
    }
}

/// Of two values that patterns hold at the same exponent, the smaller has
/// the smaller pattern.
pub proof fn lemma_round_magnitude_orders_patterns(n1: nat, n2: nat, e: int)
    requires
        n1 < n2 < LIMIT,
        -1074 <= e <= 971,
    ensures
        round_magnitude(n1, 1, e) < round_magnitude(n2, 1, e) < INFINITY,
{
    assert(n1 / 1 == n1);
    assert(n2 / 1 == n2);
    lemma2_to64();
    lemma2_to64_rest();
    lemma_bit_length_at_most(n1, 53);
    lemma_bit_length_at_most(n2, 53);
    lemma_bit_length_monotone(n1, n2);
    lemma_rounded_significand_bounds(n2, e);
    let s2 = cut(n2, 1, e);
    let y2 = rounded_significand(n2, e);
    lemma_bit_length_bounds(n2);
    assert(y2 < LIMIT) by {
        let up = pow2((-s2) as nat) as int;
        let b = bit_length(n2);
        lemma_pow2_pos((-s2) as nat);
        if -s2 < 53 - b {
            lemma_pow2_strictly_increases((-s2) as nat, (53 - b) as nat);
        }
        lemma_pow2_adds(b, (53 - b) as nat);
        lemma_mul_below(n2 as int, up, pow2(b) as int, pow2((53 - b) as nat) as int);
        lemma_no_places(n2 as int);
    }
    if n1 > 0 {
        lemma_rounded_significand_bounds(n1, e);
        let s1 = cut(n1, 1, e);
        let y1 = rounded_significand(n1, e);
        lemma_bit_length_bounds(n1);
        assert(y1 < LIMIT) by {
            let up = pow2((-s1) as nat) as int;
            let b = bit_length(n1);
            lemma_pow2_pos((-s1) as nat);
            if -s1 < 53 - b {
                lemma_pow2_strictly_increases((-s1) as nat, (53 - b) as nat);
            }
            lemma_pow2_adds(b, (53 - b) as nat);
            lemma_mul_below(n1 as int, up, pow2(b) as int, pow2((53 - b) as nat) as int);
            lemma_no_places(n1 as int);
        }
        if s1 == s2 {
            let up = pow2((-s1) as nat) as int;
            lemma_pow2_pos((-s1) as nat);
            assert(n1 * up < n2 * up) by (nonlinear_arith)
                requires
                    n1 < n2,
                    up > 0,
            ;
            lemma_no_places(n1 as int);
            lemma_no_places(n2 as int);
        } else {
            assert(y2 >= HIDDEN);
            assert((e + s1 + 1074) * HIDDEN + y1 < (e + s2 + 1074) * HIDDEN + y2);
        }
    } else {
        lemma_round_magnitude_positive(n2, e);
    }
}

pub(crate) fn length_of(p: u128) -> (r: u32)
    ensures
        r == bit_length(p as nat),
        r <= 128,
{
    let mut t = p;
    let mut s: u32 = 0;
    proof {
        lemma2_to64();
        lemma2_to64_rest();
        lemma_pow2_adds(64, 64);
    }
    while t > 0
        invariant
            s <= 128,
            t < pow2((128 - s) as nat),
            bit_length(p as nat) == s + bit_length(t as nat),
        decreases t,
    {
        proof {
            lemma2_to64();
            assert(s < 128);
            lemma_pow2_unfold((128 - s) as nat);
        }
        s = s + 1;
        t = t / 2;
    }
    s
}

pub(crate) fn power_of_two(k: u32) -> (r: u128)
    requires
        k < 127,
    ensures
        r == pow2(k as nat),
        r > 0,
{
    let mut d: u128 = 1;
    let mut i: u32 = 0;
    proof {
        lemma2_to64();
        lemma2_to64_rest();
        lemma_pow2_adds(64, 63);
    }
    while i < k
        invariant
            i <= k < 127,
            d == pow2(i as nat),
            d > 0,
            pow2(127) == 0x8000_0000_0000_0000_0000_0000_0000_0000,
        decreases k - i,
    {
        proof {
            lemma_pow2_unfold((i + 1) as nat);
            lemma_pow2_strictly_increases((i + 1) as nat, 127);
        }
        d = d * 2;
        i = i + 1;
    }
    d
}

pub(crate) fn rounded_quotient(p: u128, d: u128) -> (r: u128)
    requires
        0 < d <= u128::MAX / 2,
        p <= u128::MAX / 2,
    ensures
        r == div_round_even(p as nat, d as nat),
{
    assert(p / d <= p) by (nonlinear_arith)
        requires
            d > 0,
    ;
    let q = p / d;
    let r = p % d;
    if 2 * r < d || (2 * r == d && q % 2 == 0) {
        q
    } else {
        q + 1
    }
}

pub proof fn lemma_div_below(t: int, p: int, q: int)
    by (nonlinear_arith)
    requires
        0 <= t < p * q,
        p > 0,
    ensures
        t / p < q,
{
}

proof fn lemma_mul_below(t: int, u: int, p: int, q: int)
    by (nonlinear_arith)
    requires
        0 <= t < p,
        0 < u <= q,
    ensures
        t * u < p * q,
{
}

proof fn lemma_numerator_below(num: int, den: int, bound: int)
    by (nonlinear_arith)
    requires
        0 <= num,
        0 < den,
        num / den < bound,
    ensures
        num < den * bound,
{
}

/// Rounds `(num / den) * 2^e` to binary64 and gives the magnitude pattern.
pub(crate) fn round_pack(num: u128, den: u128, e: i64) -> (r: u64)
    requires
        0 < den <= LIMIT,
        den <= num < 0x0100_0000_0000_0000_0000_0000_0000_0000,
        den > 1 ==> LIMIT <= num / den,
        -5000 <= e <= 5000,
    ensures
        r == round_magnitude(num as nat, den as nat, e as int),
        r <= INFINITY,
{
    let t = num / den;
    let len = length_of(t) as i64;
    proof {
        lemma2_to64();
        lemma2_to64_rest();
        lemma_pow2_adds(64, 56);
        assert(t >= 1) by (nonlinear_arith)
            requires
                t == num / den,
                0 < den <= num,
        ;
        assert(t <= num) by (nonlinear_arith)
            requires
                t == num / den,
                0 < den,
                0 <= num,
        ;
        lemma_bit_length_bounds(t as nat);
        lemma_bit_length_at_most(t as nat, 120);
        if den > 1 {
            lemma_bit_length_at_least(t as nat, 53);
        }
    }
    let spare = len - 53;
    let s = if spare >= -1074 - e {
        spare
    } else {
        -1074 - e
    };
    assert(s == cut(num as nat, den as nat, e as int));
    let y: u128;
    if s < 0 {
        let up = power_of_two((-s) as u32);
        proof {
            if -s < 53 - len {
                lemma_pow2_strictly_increases((-s) as nat, (53 - len) as nat);
            }
            lemma_pow2_adds(len as nat, (53 - len) as nat);
            lemma_mul_below(
                t as int,
                up as int,
                pow2(len as nat) as int,
                pow2((53 - len) as nat) as int,
            );
        }
        y = t * up;
    } else if s > len {
        proof {
            let big = pow2(s as nat) as int;
            let small = pow2(len as nat) as int;
            lemma_pow2_unfold((len + 1) as nat);
            if s > len + 1 {
                lemma_pow2_strictly_increases((len + 1) as nat, s as nat);
            }
            lemma_numerator_below(num as int, den as int, small);
            assert(2 * num < den * big) by (nonlinear_arith)
                requires
                    num < den * small,
                    2 * small <= big,
                    den > 0,
            ;
            lemma_basic_div(num as int, den * big);
            lemma_small_mod(num as nat, (den * big) as nat);
        }
        y = 0;
    } else {
        let pw = power_of_two(s as u32);
        proof {
            lemma_pow2_pos(s as nat);
            if s < 120 {
                lemma_pow2_strictly_increases(s as nat, 120);
            }
            if s < len {
                lemma_pow2_strictly_increases(s as nat, len as nat);
            }
            lemma_pow2_unfold(len as nat);
            assert(den * pw <= 2 * num) by (nonlinear_arith)
                requires
                    t == num / den,
                    0 < den,
                    0 <= num,
                    0 < pw <= 2 * t,
            ;
            lemma_div_denominator(num as int, den as int, pw as int);
            lemma_pow2_adds(s as nat, (len - s) as nat);
            lemma_div_below(t as int, pw as int, pow2((len - s) as nat) as int);
            if len - s < 53 {
                lemma_pow2_strictly_increases((len - s) as nat, 53);
            }
        }
        let d = den * pw;
        y = rounded_quotient(num, d);
    }
    assert(y <= LIMIT);
    let q = e + s;
    if q + 1074 >= 2047 {
        INFINITY
    } else {
        let bits = ((q + 1074) as u64) * HIDDEN + (y as u64);
        if bits >= INFINITY {
            INFINITY
        } else {
            bits
        }
    }
}

} // verus!
