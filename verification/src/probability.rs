//! Probabilities: the binary64 values from zero to one.

use crate::arithmetic::{difference, integer, one, product, quotient};
use crate::binary64::{
    lemma_magnitude_fields,
    lemma_magnitude_order,
    Binary64,
    ONE_BITS,
};
use crate::rounding::{
    lemma_magnitude_classes,
    in_binade,
    infinity_magnitude,
    is_rounding,
    lemma_round_bounds,
    lemma_round_exact,
    lemma_round_monotone,
    lemma_round_scaling,
    lemma_rounded,
    lemma_rounding_bounded_above,
    lemma_rounding_descaled,
    lemma_rounding_error,
    lemma_rounding_exists,
    round_half_even,
    rounded,
    rounded_magnitude,
    unit,
};
use vstd::arithmetic::div_mod::{lemma_fundamental_div_mod, lemma_fundamental_div_mod_converse};
use vstd::arithmetic::power2::{
    lemma2_to64,
    lemma2_to64_rest,
    lemma_pow2_adds,
    lemma_pow2_pos,
    lemma_pow2_strictly_increases,
    lemma_pow2_unfold,
    pow2,
};
use vstd::prelude::*;

verus! {

/// `x` is a number, not below zero and not above one. Negative zero is one
/// of them: it is not below zero.
pub open spec fn is_probability(x: Binary64) -> bool {
    !x.is_nan() && 0 <= x.scaled() <= unit()
}

/// The complementary probability `1 - x`, as binary64 arithmetic gives it.
pub open spec fn complement(x: Binary64) -> Binary64 {
    difference(one(), x)
}

/// The fraction that a percentage stands for: `x / 100`, as binary64
/// arithmetic gives it.
pub open spec fn hundredth(x: Binary64) -> Binary64 {
    quotient(x, 100)
}

/// `x` is the binary64 value nearest to the ratio `n / d`.
pub open spec fn nearest_to_ratio(x: Binary64, n: int, d: int) -> bool {
    x == rounded(false, n * unit(), d)
}

/// The model of `1.0` is the unit.
pub proof fn lemma_one()
    ensures
        one().scaled() == unit(),
        is_probability(one()),
{
    assert(one().exponent_field() == 1023);
    assert(one().fraction_field() == 0);
    lemma2_to64_rest();
    lemma_pow2_adds(52, 1022);
}

/// One is far below the weight of infinity.
proof fn lemma_unit_is_finite()
    ensures
        0 < unit() < infinity_magnitude(),
{
    lemma_pow2_pos(1074);
    lemma_pow2_strictly_increases(1074, 2046);
    let u = pow2(1074) as int;
    let v = pow2(2046) as int;
    assert(u < 0x0010_0000_0000_0000 * v) by (nonlinear_arith)
        requires
            0 < u < v,
    ;
}

/// The probabilities are the encodings from `+0.0` up to `1.0`, and `-0.0`.
pub proof fn lemma_probability_bits(x: Binary64)
    ensures
        is_probability(x) <==> (x.bits <= 0x3ff0_0000_0000_0000 || x.bits == 0x8000_0000_0000_0000),
{
    lemma_one();
    lemma_magnitude_order(x, one());
    lemma_magnitude_fields(x);
}

/// Whether `x` is a probability.
pub fn in_unit_interval(x: Binary64) -> (r: bool)
    ensures
        r == is_probability(x),
{
    let zero = Binary64::from_bits(0);
    let one = Binary64::from_bits(ONE_BITS);
    proof {
        lemma_one();
        lemma_magnitude_fields(zero);
    }
    zero.le(x) && x.le(one)
}

/// The complement of a probability is a probability.
pub proof fn lemma_complement_is_probability(x: Binary64)
    requires
        is_probability(x),
    ensures
        is_probability(complement(x)),
{
    lemma_one();
    lemma_probability_bits(x);
    let r = complement(x);
    let d = one().scaled() - x.scaled();
    if d == 0 {
        lemma_magnitude_fields(r);
    } else {
        lemma_rounding_exists(false, d, 1);
        let e = choose|e: nat| #[trigger]
            in_binade(d, 1, e) && r.magnitude() as int == rounded_magnitude(d, 1, e);
        lemma_rounded_below_unit(d, e);
    }
}

/// What is at most one rounds to at most one.
proof fn lemma_rounded_below_unit(d: int, e: nat)
    requires
        0 <= d <= unit(),
        in_binade(d, 1, e),
    ensures
        rounded_magnitude(d, 1, e) <= unit(),
        e <= 1022,
{
    let p = pow2(e) as int;
    lemma_pow2_pos(e);
    lemma2_to64_rest();
    lemma_pow2_adds(52, 1022);
    if e > 1022 {
        lemma_pow2_strictly_increases(1022, e);
        let low = pow2(1022) as int;
        assert(0x0010_0000_0000_0000 * low < 0x0010_0000_0000_0000 * p * 1) by (nonlinear_arith)
            requires
                low < p,
        ;
    }
    let k = (1022 - e) as nat;
    lemma_pow2_adds(k, e);
    let c = 0x0010_0000_0000_0000 * (pow2(k) as int);
    assert(c * p == unit()) by (nonlinear_arith)
        requires
            c == 0x0010_0000_0000_0000 * pow2(k),
            pow2(1022) == pow2(k) * p,
            unit() == 0x0010_0000_0000_0000 * pow2(1022),
    ;
    lemma_round_monotone(d, p, c);
    let m = round_half_even(d, p);
    assert(m * p <= c * p) by (nonlinear_arith)
        requires
            m <= c,
            p > 0,
    ;
    lemma_pow2_strictly_increases(1022, 2046);
    lemma_pow2_pos(1022);
    let low = pow2(1022) as int;
    let high = pow2(2046) as int;
    assert(0x0010_0000_0000_0000 * low < 0x0010_0000_0000_0000 * high) by (nonlinear_arith)
        requires
            low < high,
    ;
}

/// The complement `1 - x`, computed. That of a probability is a probability.
pub fn complement_of(x: Binary64) -> (r: Binary64)
    ensures
        r == complement(x),
        is_probability(x) ==> is_probability(r),
{
    proof {
        if is_probability(x) {
            lemma_complement_is_probability(x);
        }
    }
    Binary64::from_bits(ONE_BITS).minus(x)
}

/// A positive normal encoding is the nearest to `n / d` when its
/// significand is the rounded quotient `n * 2^j / d`, for the `j` that puts
/// the quotient between `2^52` and `2^53`.
pub proof fn lemma_nearest_to_ratio(x: Binary64, n: int, d: int, j: nat)
    requires
        0 <= n,
        0 < d,
        j <= 1073,
        !x.sign(),
        x.exponent_field() == 1075 - j,
        0x0010_0000_0000_0000 * d <= n * pow2(j) < 0x0020_0000_0000_0000 * d,
        x.significand() == round_half_even(n * pow2(j), d),
    ensures
        nearest_to_ratio(x, n, d),
{
    let e = (1074 - j) as nat;
    let pe = pow2(e) as int;
    let pj = pow2(j) as int;
    let num = n * unit();
    lemma_pow2_adds(j, e);
    lemma_pow2_pos(e);
    assert(num == (n * pj) * pe) by (nonlinear_arith)
        requires
            num == n * (pj * pe),
    ;
    lemma_round_scaling(n * pj, d, pe);
    assert(num < 0x0020_0000_0000_0000 * pe * d && 0x0010_0000_0000_0000 * pe * d <= num)
        by (nonlinear_arith)
        requires
            num == (n * pj) * pe,
            0x0010_0000_0000_0000 * d <= n * pj < 0x0020_0000_0000_0000 * d,
            pe > 0,
    ;
    assert(in_binade(num, d, e));
    lemma_magnitude_fields(x);
    lemma_magnitude_classes(x);
    assert(is_rounding(x, false, num, d));
    lemma_rounded(x, false, num, d);
}

/// A finite value is the rounding of its own magnitude.
pub proof fn lemma_rounds_to_itself(x: Binary64)
    requires
        x.is_finite(),
    ensures
        x == rounded(x.sign(), x.magnitude() as int, 1),
{
    let e = x.scale();
    let p = pow2(e) as int;
    let m = x.significand() as int;
    lemma_pow2_pos(e);
    lemma_magnitude_fields(x);
    lemma_round_exact(m, p);
    assert(m * p < 0x0020_0000_0000_0000 * p * 1) by (nonlinear_arith)
        requires
            m < 0x0020_0000_0000_0000,
            p > 0,
    ;
    assert(m >= 0x0010_0000_0000_0000 ==> 0x0010_0000_0000_0000 * p * 1 <= m * p)
        by (nonlinear_arith)
        requires
            p > 0,
    ;
    assert(in_binade(m * p, 1, e));
    lemma_magnitude_classes(x);
    assert(is_rounding(x, x.sign(), x.magnitude() as int, 1));
    lemma_rounded(x, x.sign(), x.magnitude() as int, 1);
}

/// From one half up the complement is exact: no rounding takes place.
pub proof fn lemma_complement_exact(x: Binary64)
    requires
        is_probability(x),
        2 * x.scaled() >= unit(),
    ensures
        complement(x).scaled() == unit() - x.scaled(),
        is_probability(complement(x)),
{
    lemma_one();
    lemma_unit_is_finite();
    lemma_complement_is_probability(x);
    lemma2_to64_rest();
    lemma_pow2_adds(52, 1022);
    lemma_pow2_unfold(1022);
    lemma_pow2_pos(1021);
    let h = pow2(1021) as int;
    assert(unit() == 0x0020_0000_0000_0000 * h);
    let d = unit() - x.scaled();
    let r = complement(x);
    if d == 0 {
        lemma_magnitude_fields(r);
    } else {
        let half = Binary64 { bits: 0x3fe0_0000_0000_0000 };
        assert(half.exponent_field() == 1022);
        assert(half.fraction_field() == 0);
        assert(half.magnitude() == 0x0010_0000_0000_0000 * h);
        lemma_magnitude_order(half, x);
        lemma_magnitude_order(x, one());
        lemma_magnitude_fields(x);
        assert(x.exponent_field() == 1022);
        let m = x.significand() as int;
        let c = 0x0020_0000_0000_0000 - m;
        assert(d == c * h) by (nonlinear_arith)
            requires
                d == 0x0020_0000_0000_0000 * h - m * h,
                c == 0x0020_0000_0000_0000 - m,
        ;
        lemma_rounding_exists(false, d, 1);
        let e = choose|e: nat| #[trigger]
            in_binade(d, 1, e) && r.magnitude() as int == rounded_magnitude(d, 1, e);
        lemma_rounded_below_unit(d, e);
        let pe = pow2(e) as int;
        lemma_pow2_pos(e);
        if e > 1021 {
            if e > 1022 {
                lemma_pow2_strictly_increases(1022, e);
            }
            assert(d < 0x0010_0000_0000_0000 * pe * 1) by (nonlinear_arith)
                requires
                    d == c * h,
                    0 < c <= 0x0010_0000_0000_0000,
                    pe >= 2 * h,
                    h > 0,
            ;
        }
        let k = (1021 - e) as nat;
        lemma_pow2_adds(k, e);
        let f = c * pow2(k);
        assert(d == f * pe) by (nonlinear_arith)
            requires
                d == c * h,
                h == pow2(k) * pe,
                f == c * pow2(k),
        ;
        lemma_pow2_pos(k);
        assert(f >= 0) by (nonlinear_arith)
            requires
                f == c * pow2(k),
                c > 0,
        ;
        lemma_round_exact(f, pe);
        assert(1 * pow2(e) == pe);
    }
}

/// Up to one half the complement lies from one half up, and within half a
/// spacing of the exact difference: the spacing there is `2^-53`.
pub proof fn lemma_complement_near(x: Binary64)
    requires
        is_probability(x),
        2 * x.scaled() <= unit(),
    ensures
        is_probability(complement(x)),
        2 * complement(x).scaled() >= unit(),
        -pow2(1021) <= 2 * (complement(x).scaled() - (unit() - x.scaled())) <= pow2(1021),
{
    lemma_one();
    lemma_unit_is_finite();
    lemma_complement_is_probability(x);
    lemma2_to64_rest();
    lemma_pow2_adds(52, 1022);
    lemma_pow2_unfold(1022);
    lemma_pow2_pos(1021);
    let h = pow2(1021) as int;
    assert(unit() == 0x0020_0000_0000_0000 * h);
    let d = unit() - x.scaled();
    let r = complement(x);
    lemma_rounding_exists(false, d, 1);
    let e = choose|e: nat| #[trigger]
        in_binade(d, 1, e) && r.magnitude() as int == rounded_magnitude(d, 1, e);
    lemma_rounded_below_unit(d, e);
    let pe = pow2(e) as int;
    lemma_pow2_pos(e);
    if e < 1021 {
        lemma_pow2_unfold(e + 1);
        if e + 1 < 1021 {
            lemma_pow2_strictly_increases(e + 1, 1021);
        }
        assert(0x0020_0000_0000_0000 * pe * 1 <= d) by (nonlinear_arith)
            requires
                2 * d >= 0x0020_0000_0000_0000 * h,
                2 * pe <= h,
                pe > 0,
        ;
    }
    if e > 1021 {
        assert(e == 1022);
        assert(d == 0x0010_0000_0000_0000 * pe);
        lemma_round_exact(0x0010_0000_0000_0000, pe);
    }
    let k = (1022 - e) as nat;
    lemma_pow2_adds(k, e);
    lemma2_to64();
    assert(k == 0 || k == 1);
    assert(pow2(k) == k + 1);
    let m = round_half_even(d, pe);
    assert(1 * pow2(e) == pe);
    lemma_round_bounds(d, pe);
    // rounding stays from one half up
    let c = 0x0008_0000_0000_0000 * (pow2(k) as int);
    assert(c * pe == 0x0010_0000_0000_0000 * h) by (nonlinear_arith)
        requires
            c == 0x0008_0000_0000_0000 * pow2(k),
            2 * h == pow2(k) * pe,
    ;
    lemma_round_monotone(d, pe, c);
    assert(m * pe >= c * pe) by (nonlinear_arith)
        requires
            m >= c,
            pe > 0,
    ;
    assert(2 * pe * m == 2 * (m * pe)) by (nonlinear_arith);
    assert(pe <= 2 * h);
}

/// Converting a probability to its complement and back returns to it within
/// one part in a thousand million, and exactly from one half up.
pub proof fn lemma_complement_round_trip(p: Binary64)
    requires
        is_probability(p),
    ensures
        is_probability(complement(complement(p))),
        -unit() <= 1_000_000_000 * (complement(complement(p)).scaled() - p.scaled()) <= unit(),
        2 * p.scaled() >= unit() ==> complement(complement(p)) == p,
{
    lemma_one();
    lemma2_to64();
    lemma2_to64_rest();
    lemma_pow2_adds(52, 1022);
    lemma_pow2_adds(53, 1021);
    lemma_pow2_pos(1021);
    let s = complement(p);
    let back = complement(s);
    if 2 * p.scaled() >= unit() {
        lemma_complement_exact(p);
        lemma_complement_is_probability(s);
        lemma_probability_bits(p);
        lemma_magnitude_fields(p);
        lemma_rounds_to_itself(p);
    } else {
        lemma_complement_near(p);
        lemma_complement_exact(s);
        let err = back.scaled() - p.scaled();
        let h = pow2(1021) as int;
        assert(-h <= 2 * err <= h);
        assert(unit() == 0x0020_0000_0000_0000 * h);
        assert(-unit() <= 1_000_000_000 * err <= unit()) by (nonlinear_arith)
            requires
                -h <= 2 * err <= h,
                unit() == 0x0020_0000_0000_0000 * h,
                h > 0,
        ;
    }
}

/// A finite value whose hundredfold is a finite value is the hundredth of
/// that value.
proof fn lemma_hundredth_exact(x: Binary64, y: Binary64)
    requires
        x.is_finite(),
        y.is_finite(),
        y.sign() == x.sign(),
        y.magnitude() == 100 * x.magnitude(),
    ensures
        hundredth(y) == x,
{
    let e = x.scale();
    let p = pow2(e) as int;
    let m = x.significand() as int;
    let num = y.magnitude() as int;
    lemma_pow2_pos(e);
    lemma_magnitude_fields(x);
    assert(num == m * (100 * p)) by (nonlinear_arith)
        requires
            num == 100 * (m * p),
    ;
    lemma_round_exact(m, 100 * p);
    assert(num < 0x0020_0000_0000_0000 * p * 100) by (nonlinear_arith)
        requires
            num == m * (100 * p),
            m < 0x0020_0000_0000_0000,
            p > 0,
    ;
    assert(m >= 0x0010_0000_0000_0000 ==> 0x0010_0000_0000_0000 * p * 100 <= num)
        by (nonlinear_arith)
        requires
            num == m * (100 * p),
            p > 0,
    ;
    assert(in_binade(num, 100, e));
    lemma_magnitude_classes(x);
    assert(is_rounding(x, x.sign(), num, 100));
    lemma_rounded(x, x.sign(), num, 100);
}

/// A percentage that is exactly a hundred times a probability stands for
/// that probability: its hundredth is the same number, and the same
/// encoding unless the two are zeros of different sign.
pub proof fn lemma_hundredth_of_hundredfold(x: Binary64, y: Binary64)
    requires
        is_probability(x),
        !y.is_nan(),
        y.scaled() == 100 * x.scaled(),
    ensures
        is_probability(hundredth(y)),
        hundredth(y).same_number(x),
        y.sign() == x.sign() ==> hundredth(y) == x,
{
    lemma_one();
    lemma_probability_bits(x);
    lemma_magnitude_fields(x);
    lemma_magnitude_fields(y);
    lemma_magnitude_classes(y);
    lemma_pow2_pos(1074);
    lemma_pow2_strictly_increases(1074, 2046);
    let u = pow2(1074) as int;
    let v = pow2(2046) as int;
    assert(100 * u < 0x0010_0000_0000_0000 * v) by (nonlinear_arith)
        requires
            0 < u < v,
    ;
    assert(y.is_finite());
    if y.sign() == x.sign() {
        lemma_hundredth_exact(x, y);
    } else {
        assert(y.is_zero());
        lemma_hundredth_exact(y, y);
    }
}

/// The hundredfold of a probability, as binary64 arithmetic gives it.
pub open spec fn hundredfold(x: Binary64) -> Binary64 {
    product(integer(100), x)
}

/// The integer 100 is a binary64 value.
proof fn lemma_hundred()
    ensures
        integer(100) == (Binary64 { bits: 0x4059_0000_0000_0000 }),
        integer(100).magnitude() == 100 * unit(),
{
    let hundred = Binary64 { bits: 0x4059_0000_0000_0000 };
    assert(hundred.exponent_field() == 1029);
    assert(hundred.fraction_field() == 0x0009_0000_0000_0000);
    lemma2_to64_rest();
    lemma_pow2_adds(46, 1028);
    let p = pow2(1028) as int;
    assert(0x0019_0000_0000_0000 * p == 100 * (0x4000_0000_0000 * p)) by (nonlinear_arith);
    lemma_rounds_to_itself(hundred);
}

/// A percentage computed as a hundred times a probability stands for that
/// probability within one part in a thousand million: the product and the
/// quotient are each rounded once.
pub proof fn lemma_hundredth_of_product(x: Binary64)
    requires
        is_probability(x),
    ensures
        is_probability(hundredth(hundredfold(x))),
        -unit() <= 1_000_000_000 * (hundredth(hundredfold(x)).scaled() - x.scaled()) <= unit(),
{
    lemma_one();
    lemma_hundred();
    lemma_unit_is_finite();
    lemma_probability_bits(x);
    lemma_magnitude_fields(x);
    lemma2_to64_rest();
    lemma_pow2_adds(46, 1028);
    lemma_pow2_adds(52, 1022);
    let u = unit();
    let mx = x.magnitude() as int;
    let s = x.sign();
    assert(mx <= u);
    let y = hundredfold(x);
    assert(!integer(100).sign());
    assert(integer(100).is_finite());
    assert(x.is_finite());
    assert(y == rounded(s, (100 * u) * mx, u));
    assert((100 * u) * mx == (100 * mx) * u) by (nonlinear_arith);
    assert(100 * mx >= 0);
    lemma_rounding_exists(s, (100 * mx) * u, u);
    lemma_rounding_descaled(y, s, 100 * mx, 1, u);
    let phundred = pow2(1028) as int;
    assert(100 * mx <= 0x0019_0000_0000_0000 * phundred * 1) by (nonlinear_arith)
        requires
            mx <= u,
            u == 0x4000_0000_0000 * phundred,
    ;
    lemma_rounding_bounded_above(y, s, 100 * mx, 1, 0x0019_0000_0000_0000, 1028);
    let my = y.magnitude() as int;
    assert(my <= 100 * u) by (nonlinear_arith)
        requires
            my <= 0x0019_0000_0000_0000 * phundred,
            u == 0x4000_0000_0000 * phundred,
    ;
    lemma_rounding_error(y, s, 100 * mx, 1);
    let h = hundredth(y);
    assert(h == rounded(s, my, 100));
    lemma_rounding_exists(s, my, 100);
    let pone = pow2(1022) as int;
    assert(my <= 0x0010_0000_0000_0000 * pone * 100) by (nonlinear_arith)
        requires
            my <= 100 * u,
            u == 0x0010_0000_0000_0000 * pone,
    ;
    lemma_rounding_bounded_above(h, s, my, 100, 0x0010_0000_0000_0000, 1022);
    lemma_rounding_error(h, s, my, 100);
    let mh = h.magnitude() as int;
    assert(mh <= u);
    lemma_magnitude_fields(h);
    lemma_pow2_pos(1022);
    assert(-u <= 1_000_000_000 * (mh - mx) <= u) by (nonlinear_arith)
        requires
            0x0020_0000_0000_0000 * (1 * my - 100 * mx) <= 100 * mx || 2 * (1 * my - 100 * mx)
                <= 1,
            0x0020_0000_0000_0000 * (100 * mx - 1 * my) <= 100 * mx || 2 * (100 * mx - 1 * my)
                <= 1,
            0x0020_0000_0000_0000 * (100 * mh - my) <= my || 2 * (100 * mh - my) <= 100,
            0x0020_0000_0000_0000 * (my - 100 * mh) <= my || 2 * (my - 100 * mh) <= 100,
            0 <= mx <= u,
            0 <= my <= 100 * u,
            u >= 0x0010_0000_0000_0000,
    ;
    if s {
        assert(mx == 0);
        assert(mh == 0) by (nonlinear_arith)
            requires
                mx == 0,
                0x0020_0000_0000_0000 * (1 * my - 100 * mx) <= 100 * mx || 2 * (1 * my - 100 * mx)
                    <= 1,
                0x0020_0000_0000_0000 * (100 * mh - my) <= my || 2 * (100 * mh - my) <= 100,
                my >= 0,
                mh >= 0,
        ;
    }
}

/// The percentages that stand for a probability are the numbers from zero to
/// one hundred, and the negative numbers so small that their hundredth
/// rounds to negative zero: those down to fifty times the smallest
/// subnormal.
pub proof fn lemma_percentage_accepted(y: Binary64)
    ensures
        is_probability(hundredth(y)) <==> !y.is_nan() && -50 <= y.scaled() <= 100 * unit(),
{
    lemma_one();
    lemma_hundred();
    lemma_unit_is_finite();
    lemma2_to64();
    lemma2_to64_rest();
    lemma_pow2_adds(46, 1028);
    lemma_pow2_adds(52, 1022);
    lemma_pow2_adds(6, 1022);
    lemma_pow2_pos(1022);
    let u = unit();
    let pone = pow2(1022) as int;
    let phundred = pow2(1028) as int;
    lemma_magnitude_classes(y);
    lemma_magnitude_fields(y);
    let v = pow2(2046) as int;
    lemma_pow2_strictly_increases(1074, 2046);
    assert(100 * u < 0x0010_0000_0000_0000 * v) by (nonlinear_arith)
        requires
            0 < u < v,
    ;
    if y.is_nan() || y.is_infinite() {
        return ;
    }
    let s = y.sign();
    let my = y.magnitude() as int;
    let h = hundredth(y);
    lemma_rounding_exists(s, my, 100);
    lemma_magnitude_fields(h);
    let e = choose|e: nat| #[trigger]
        in_binade(my, 100, e) && h.magnitude() as int == rounded_magnitude(my, 100, e);
    let pe = pow2(e) as int;
    lemma_pow2_pos(e);
    let m = round_half_even(my, 100 * pe);
    let mh = h.magnitude() as int;
    lemma_round_monotone(my, 100 * pe, 0x0010_0000_0000_0000);
    lemma_round_monotone(my, 100 * pe, 1);
    lemma_round_monotone(my, 100 * pe, 0);
    assert(0x0010_0000_0000_0000 * (100 * pe) == 0x0010_0000_0000_0000 * pe * 100)
        by (nonlinear_arith);
    assert(m >= 0);
    assert(m >= 1 ==> m * pe >= 1) by (nonlinear_arith)
        requires
            pe >= 1,
    ;
    if s {
        // negative, or negative zero: a probability only when it vanishes
        if my <= 50 {
            lemma_fundamental_div_mod_converse(my, 100, 0, my);
            assert(!(0x0010_0000_0000_0000 * pe * 100 <= my)) by (nonlinear_arith)
                requires
                    my <= 50,
                    pe >= 1,
            ;
            assert(e == 0);
            assert(100 * pe == 100);
            assert(m == 0);
            assert(m * pe == 0) by (nonlinear_arith)
                requires
                    m == 0,
            ;
        } else {
            if e == 0 {
                assert(100 * pe == 100);
                lemma_fundamental_div_mod(my, 100);
                assert(m >= 1);
            } else {
                assert(m >= 1);
            }
            assert(mh >= 1);
        }
    } else if my <= 100 * u {
        assert(my <= 0x0010_0000_0000_0000 * pone * 100) by (nonlinear_arith)
            requires
                my <= 100 * u,
                u == 0x0010_0000_0000_0000 * pone,
        ;
        lemma_rounding_bounded_above(h, s, my, 100, 0x0010_0000_0000_0000, 1022);
    } else {
        // above one hundred: at least the next value, whose hundredth
        // rounds up from one
        let hundred = Binary64 { bits: 0x4059_0000_0000_0000 };
        let next = Binary64 { bits: 0x4059_0000_0000_0001 };
        assert(next.exponent_field() == 1029);
        assert(next.fraction_field() == 0x0009_0000_0000_0001);
        assert(next.magnitude() == 0x0019_0000_0000_0001 * phundred);
        lemma_magnitude_order(hundred, y);
        lemma_magnitude_order(next, y);
        assert(my >= (0x0640_0000_0000_0000 + 64) * pone) by (nonlinear_arith)
            requires
                my >= 0x0019_0000_0000_0001 * phundred,
                phundred == 64 * pone,
        ;
        if e < 1022 {
            lemma_pow2_unfold(e + 1);
            if e + 1 < 1022 {
                lemma_pow2_strictly_increases(e + 1, 1022);
            }
            assert(0x0020_0000_0000_0000 * pe * 100 <= 100 * u) by (nonlinear_arith)
                requires
                    2 * pe <= pone,
                    u == 0x0010_0000_0000_0000 * pone,
            ;
        } else if e == 1022 {
            lemma_fundamental_div_mod(my, 100 * pe);
            let q = my / (100 * pe);
            let r = my % (100 * pe);
            assert(q >= 0x0010_0000_0000_0000 && (q > 0x0010_0000_0000_0000 || 2 * r > 100 * pe))
                by (nonlinear_arith)
                requires
                    my == (100 * pe) * q + r,
                    0 <= r < 100 * pe,
                    my >= (0x0640_0000_0000_0000 + 64) * pe,
                    pe > 0,
            ;
            assert(m >= 0x0010_0000_0000_0001);
            assert(m * pe > u) by (nonlinear_arith)
                requires
                    m >= 0x0010_0000_0000_0001,
                    u == 0x0010_0000_0000_0000 * pe,
                    pe > 0,
            ;
        } else {
            lemma_pow2_unfold(1023);
            if e > 1023 {
                lemma_pow2_strictly_increases(1023, e);
            }
            assert(m * pe > u) by (nonlinear_arith)
                requires
                    m >= 0x0010_0000_0000_0000,
                    u == 0x0010_0000_0000_0000 * pone,
                    pe >= 2 * pone,
                    pone > 0,
            ;
        }
        assert(mh > u);
    }
}

} // verus!
