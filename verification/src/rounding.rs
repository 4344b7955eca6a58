//! Rounding to nearest, ties to even, stated on exact integers.
//!
//! A non-negative real is given as a quotient `num / den` on the scale of
//! [`Binary64::scaled`]. Its correctly rounded magnitude is found in two
//! steps: the binade `e` of the quotient fixes the spacing `2^e` of the
//! representable numbers around it, and the quotient is rounded to a multiple
//! of that spacing.

use crate::binary64::{lemma_magnitude_of_sum, lemma_magnitude_order, Binary64};
use vstd::arithmetic::div_mod::{lemma_fundamental_div_mod, lemma_fundamental_div_mod_converse};
use vstd::arithmetic::mul::lemma_mul_strictly_positive;
use vstd::arithmetic::power2::{
    lemma2_to64,
    lemma_pow2_adds,
    lemma_pow2_pos,
    lemma_pow2_strictly_increases,
    lemma_pow2_unfold,
    pow2,
};
use vstd::prelude::*;

verus! {

/// The integer nearest to `num / den`; of two equally near, the even one.
pub open spec fn round_half_even(num: int, den: int) -> int {
    let q = num / den;
    let r = num % den;
    if 2 * r < den || (2 * r == den && q % 2 == 0) {
        q
    } else {
        q + 1
    }
}

/// `num / den` lies in the binade whose representable numbers are `2^e`
/// apart: below `2^53 * 2^e`, and, unless `e` is the subnormal spacing 0,
/// at least `2^52 * 2^e`.
pub open spec fn in_binade(num: int, den: int, e: nat) -> bool {
    &&& num < 0x0020_0000_0000_0000 * pow2(e) * den
    &&& e > 0 ==> 0x0010_0000_0000_0000 * pow2(e) * den <= num
}

/// The number one on the scale of the model, `2^1074`.
pub open spec fn unit() -> int {
    pow2(1074) as int
}

/// The magnitude of infinity on the scale of the model, `2^2098`.
pub open spec fn infinity_magnitude() -> int {
    0x0010_0000_0000_0000 * (pow2(2046) as int)
}

/// A rounded magnitude beyond the finite range becomes that of infinity.
pub open spec fn clamp_magnitude(m: int) -> int {
    if m >= infinity_magnitude() {
        infinity_magnitude()
    } else {
        m
    }
}

/// `num / den` rounded to a multiple of the spacing `2^e`.
pub open spec fn rounded_magnitude(num: int, den: int, e: nat) -> int {
    clamp_magnitude(round_half_even(num, den * pow2(e)) * pow2(e))
}

/// `mag` is the magnitude that `num / den` rounds to.
pub open spec fn rounds_to(mag: int, num: int, den: int) -> bool {
    exists|e: nat| #[trigger] in_binade(num, den, e) && mag == rounded_magnitude(num, den, e)
}

/// `r` is the correctly rounded encoding of the number whose sign is
/// `negative` and whose magnitude is `num / den`.
pub open spec fn is_rounding(r: Binary64, negative: bool, num: int, den: int) -> bool {
    &&& r.sign() == negative
    &&& !r.is_nan()
    &&& rounds_to(r.magnitude() as int, num, den)
}

/// The finite values are those whose magnitude is below the weight of
/// infinity, which only the infinities have; the NaNs lie above.
pub proof fn lemma_magnitude_classes(x: Binary64)
    ensures
        x.is_finite() <==> x.magnitude() < infinity_magnitude(),
        x.is_infinite() <==> x.magnitude() == infinity_magnitude(),
{
    let top = Binary64 { bits: 0x7ff0_0000_0000_0000 };
    assert(top.exponent_field() == 2047);
    assert(top.fraction_field() == 0);
    lemma_magnitude_order(x, top);
    lemma_magnitude_order(top, x);
}

/// The encoding that the number of sign `negative` and magnitude
/// `num / den` rounds to. [`lemma_rounded`] shows that there is at most one.
pub open spec fn rounded(negative: bool, num: int, den: int) -> Binary64 {
    choose|r: Binary64| is_rounding(r, negative, num, den)
}

/// A number rounds to one encoding only: whatever satisfies
/// [`is_rounding`] is [`rounded`].
pub proof fn lemma_rounded(r: Binary64, negative: bool, num: int, den: int)
    requires
        den > 0,
        is_rounding(r, negative, num, den),
    ensures
        r == rounded(negative, num, den),
{
    let other = rounded(negative, num, den);
    let e1 = choose|e: nat| #[trigger]
        in_binade(num, den, e) && r.magnitude() as int == rounded_magnitude(num, den, e);
    let e2 = choose|e: nat| #[trigger]
        in_binade(num, den, e) && other.magnitude() as int == rounded_magnitude(num, den, e);
    lemma_binade_unique(num, den, e1, e2);
    lemma_magnitude_order(r, other);
    assert(r.bits == other.bits);
}

/// A quotient has one binade.
pub proof fn lemma_binade_unique(num: int, den: int, e1: nat, e2: nat)
    requires
        den > 0,
        in_binade(num, den, e1),
        in_binade(num, den, e2),
    ensures
        e1 == e2,
{
    if e1 < e2 {
        lemma_binade_apart(num, den, e1, e2);
    } else if e2 < e1 {
        lemma_binade_apart(num, den, e2, e1);
    }
}

/// A binade ends where the next one begins, or before.
proof fn lemma_binade_apart(num: int, den: int, lo: nat, hi: nat)
    requires
        den > 0,
        lo < hi,
    ensures
        0x0020_0000_0000_0000 * pow2(lo) * den <= 0x0010_0000_0000_0000 * pow2(hi) * den,
{
    lemma_pow2_unfold(lo + 1);
    if lo + 1 < hi {
        lemma_pow2_strictly_increases(lo + 1, hi);
    }
    let pl = pow2(lo) as int;
    let pn = pow2(lo + 1) as int;
    let ph = pow2(hi) as int;
    assert(0x0020_0000_0000_0000 * pl * den <= 0x0010_0000_0000_0000 * ph * den)
        by (nonlinear_arith)
        requires
            pn == 2 * pl,
            pn <= ph,
            den > 0,
    ;
}

/// Rounding does not depend on the unit: numerator and denominator may be
/// scaled together.
pub proof fn lemma_round_scaling(num: int, den: int, k: int)
    requires
        num >= 0,
        den > 0,
        k > 0,
    ensures
        round_half_even(num * k, den * k) == round_half_even(num, den),
{
    let q = num / den;
    let r = num % den;
    lemma_fundamental_div_mod(num, den);
    lemma_mul_strictly_positive(den, k);
    assert(num * k == q * (den * k) + r * k) by (nonlinear_arith)
        requires
            num == den * q + r,
    ;
    assert(0 <= r * k < den * k) by (nonlinear_arith)
        requires
            0 <= r < den,
            k > 0,
    ;
    lemma_fundamental_div_mod_converse(num * k, den * k, q, r * k);
    assert(2 * (r * k) < den * k <==> 2 * r < den) by (nonlinear_arith)
        requires
            k > 0,
    ;
    assert(2 * (r * k) == den * k <==> 2 * r == den) by (nonlinear_arith)
        requires
            k > 0,
    ;
}

/// A multiple of the spacing rounds to itself.
pub proof fn lemma_round_exact(m: int, den: int)
    requires
        m >= 0,
        den > 0,
    ensures
        round_half_even(m * den, den) == m,
{
    lemma_fundamental_div_mod_converse(m * den, den, m, 0);
}

/// A rounded quotient is computed from the quotient and remainder of one
/// integer division.
pub proof fn lemma_round_bounds(num: int, den: int)
    requires
        num >= 0,
        den > 0,
    ensures
        num / den <= round_half_even(num, den) <= num / den + 1,
        2 * den * round_half_even(num, den) <= 2 * num + den,
        2 * num <= 2 * den * round_half_even(num, den) + den,
{
    let q = num / den;
    let r = num % den;
    lemma_fundamental_div_mod(num, den);
    assert(2 * den * q == 2 * (den * q)) by (nonlinear_arith);
    assert(2 * den * (q + 1) == 2 * (den * q) + 2 * den) by (nonlinear_arith);
}

/// Rounding never passes a multiple of the spacing: what is at most `k`
/// spacings rounds to at most `k`, and what is at least `k` to at least `k`.
pub proof fn lemma_round_monotone(num: int, den: int, k: int)
    requires
        num >= 0,
        den > 0,
    ensures
        num <= k * den ==> round_half_even(num, den) <= k,
        num >= k * den ==> round_half_even(num, den) >= k,
{
    let q = num / den;
    let r = num % den;
    lemma_fundamental_div_mod(num, den);
    if num <= k * den {
        assert(q < k || (q == k && r == 0)) by (nonlinear_arith)
            requires
                num == den * q + r,
                0 <= r < den,
                num <= k * den,
        ;
    }
    if num >= k * den {
        assert(q >= k) by (nonlinear_arith)
            requires
                num == den * q + r,
                0 <= r < den,
                num >= k * den,
        ;
    }
}

/// The encoding of sign `negative`, scale `s` and significand `m`, or
/// infinity where the two are beyond the finite range.
pub open spec fn packed(negative: bool, s: nat, m: nat) -> Binary64 {
    let raw = s * 0x0010_0000_0000_0000 + m;
    let abs = if s >= 2047 || raw >= 0x7ff0_0000_0000_0000 {
        0x7ff0_0000_0000_0000
    } else {
        raw
    };
    Binary64 {
        bits: if negative {
            (abs + 0x8000_0000_0000_0000) as u64
        } else {
            abs as u64
        },
    }
}

/// [`packed`] has the magnitude `m * 2^s`, clamped at infinity. The
/// significand may be `2^53`, as a rounding may leave it.
pub proof fn lemma_packed(negative: bool, s: nat, m: nat)
    requires
        m <= 0x0020_0000_0000_0000,
        s > 0 ==> m >= 0x0010_0000_0000_0000,
    ensures
        packed(negative, s, m).sign() == negative,
        !packed(negative, s, m).is_nan(),
        packed(negative, s, m).magnitude() == clamp_magnitude((m * pow2(s)) as int),
{
    let r = packed(negative, s, m);
    let raw = s * 0x0010_0000_0000_0000 + m;
    let p = pow2(s) as int;
    let ptop = pow2(2046) as int;
    lemma_pow2_pos(s);
    lemma_pow2_pos(2046);
    if s >= 2047 || raw >= 0x7ff0_0000_0000_0000 {
        assert(r.is_infinite());
        lemma_magnitude_classes(r);
        if s >= 2046 {
            if s > 2046 {
                lemma_pow2_strictly_increases(2046, s);
            }
            assert(m * p >= 0x0010_0000_0000_0000 * ptop) by (nonlinear_arith)
                requires
                    m >= 0x0010_0000_0000_0000,
                    p >= ptop,
                    ptop > 0,
            ;
        } else {
            assert(s == 2045 && m == 0x0020_0000_0000_0000);
            lemma_pow2_unfold(2046);
            assert(m * p == 0x0010_0000_0000_0000 * ptop) by (nonlinear_arith)
                requires
                    m == 0x0020_0000_0000_0000,
                    ptop == 2 * p,
            ;
        }
    } else {
        assert(r.abs_bits() == raw);
        lemma_magnitude_of_sum(r, m, s);
        lemma_magnitude_classes(r);
    }
}

/// Some binade holds the quotient: the search goes up from `e`.
proof fn lemma_binade_exists(num: int, den: int, e: nat) -> (found: nat)
    requires
        num >= 0,
        den > 0,
        e > 0 ==> 0x0010_0000_0000_0000 * pow2(e) * den <= num,
    ensures
        in_binade(num, den, found),
    decreases num - 0x0010_0000_0000_0000 * pow2(e) * den,
{
    if num < 0x0020_0000_0000_0000 * pow2(e) * den {
        e
    } else {
        lemma_pow2_unfold(e + 1);
        lemma_pow2_pos(e);
        let p = pow2(e) as int;
        assert(0x0010_0000_0000_0000 * (2 * p) * den == 0x0020_0000_0000_0000 * p * den)
            by (nonlinear_arith);
        assert(0x0010_0000_0000_0000 * p * den < 0x0020_0000_0000_0000 * p * den)
            by (nonlinear_arith)
            requires
                p > 0,
                den > 0,
        ;
        lemma_binade_exists(num, den, e + 1)
    }
}

/// Every non-negative quotient has a rounding, so [`rounded`] is one.
pub proof fn lemma_rounding_exists(negative: bool, num: int, den: int)
    requires
        num >= 0,
        den > 0,
    ensures
        is_rounding(rounded(negative, num, den), negative, num, den),
{
    let e = lemma_binade_exists(num, den, 0);
    let p = pow2(e) as int;
    lemma_pow2_pos(e);
    lemma_mul_strictly_positive(den, p);
    let m = round_half_even(num, den * p);
    assert(0x0020_0000_0000_0000 * p * den == 0x0020_0000_0000_0000 * (den * p))
        by (nonlinear_arith);
    assert(0x0010_0000_0000_0000 * p * den == 0x0010_0000_0000_0000 * (den * p))
        by (nonlinear_arith);
    lemma_round_monotone(num, den * p, 0x0020_0000_0000_0000);
    lemma_round_monotone(num, den * p, 0x0010_0000_0000_0000);
    lemma_round_monotone(num, den * p, 0);
    lemma_packed(negative, e, m as nat);
    let r = packed(negative, e, m as nat);
    assert(in_binade(num, den, e) && r.magnitude() as int == rounded_magnitude(num, den, e));
    assert(is_rounding(r, negative, num, den));
}

/// A rounding does not depend on the unit in which numerator and
/// denominator are given.
pub proof fn lemma_rounding_scaled(r: Binary64, negative: bool, num: int, den: int, k: int)
    requires
        num >= 0,
        den > 0,
        k > 0,
        is_rounding(r, negative, num, den),
    ensures
        is_rounding(r, negative, num * k, den * k),
{
    let e = choose|e: nat| #[trigger]
        in_binade(num, den, e) && r.magnitude() as int == rounded_magnitude(num, den, e);
    let p = pow2(e) as int;
    lemma_pow2_pos(e);
    lemma_mul_strictly_positive(den, p);
    lemma_round_scaling(num, den * p, k);
    assert((den * k) * p == (den * p) * k) by (nonlinear_arith);
    assert(num * k < 0x0020_0000_0000_0000 * p * (den * k)) by (nonlinear_arith)
        requires
            num < 0x0020_0000_0000_0000 * p * den,
            k > 0,
    ;
    assert(0x0010_0000_0000_0000 * p * den <= num ==> 0x0010_0000_0000_0000 * p * (den * k)
        <= num * k) by (nonlinear_arith)
        requires
            k > 0,
    ;
    assert(in_binade(num * k, den * k, e));
    assert(r.magnitude() as int == rounded_magnitude(num * k, den * k, e));
}

/// What is less than half of the smallest subnormal rounds to zero.
pub proof fn lemma_rounds_to_zero(r: Binary64, num: int, den: int)
    requires
        0 <= 2 * num < den,
        r.is_zero(),
    ensures
        is_rounding(r, r.sign(), num, den),
{
    lemma2_to64();
    lemma_fundamental_div_mod_converse(num, den, 0, num);
    assert(den * pow2(0) == den);
    assert(round_half_even(num, den * pow2(0)) == 0);
    let pzero = pow2(0) as int;
    assert(num < 0x0020_0000_0000_0000 * pzero * den) by (nonlinear_arith)
        requires
            pzero == 1,
            0 <= 2 * num < den,
    ;
    assert(in_binade(num, den, 0));
    lemma_pow2_pos(2046);
    assert(r.significand() == 0);
    assert(r.magnitude() == 0) by (nonlinear_arith)
        requires
            r.magnitude() == r.significand() * pow2(r.scale()),
            r.significand() == 0,
    ;
    assert(r.magnitude() as int == rounded_magnitude(num, den, 0));
}

/// A quotient in the binade `s` moves to the binade `s + j` when it is
/// multiplied by `2^j`, and is rounded to the same significand there. A
/// subnormal quotient has no such freedom: it may not be normal after all.
pub proof fn lemma_binade_shift(num: int, den: int, s: nat, j: nat)
    requires
        num >= 0,
        den > 0,
        in_binade(num, den, s),
        s > 0 || j == 0,
    ensures
        in_binade(num * pow2(j), den, s + j),
        round_half_even(num * pow2(j), den * pow2(s + j)) == round_half_even(
            num,
            den * pow2(s),
        ),
{
    let pj = pow2(j) as int;
    let ps = pow2(s) as int;
    lemma_pow2_pos(j);
    lemma_pow2_pos(s);
    lemma_pow2_adds(s, j);
    lemma_mul_strictly_positive(den, ps);
    lemma_round_scaling(num, den * ps, pj);
    assert(den * (ps * pj) == (den * ps) * pj) by (nonlinear_arith);
    assert(num * pj < 0x0020_0000_0000_0000 * (ps * pj) * den) by (nonlinear_arith)
        requires
            num < 0x0020_0000_0000_0000 * ps * den,
            pj > 0,
    ;
    assert(0x0010_0000_0000_0000 * ps * den <= num ==> 0x0010_0000_0000_0000 * (ps * pj) * den
        <= num * pj) by (nonlinear_arith)
        requires
            pj > 0,
    ;
}

/// The converse of [`lemma_rounding_scaled`]: a common factor of numerator
/// and denominator may be dropped.
pub proof fn lemma_rounding_descaled(r: Binary64, negative: bool, num: int, den: int, k: int)
    requires
        num >= 0,
        den > 0,
        k > 0,
        is_rounding(r, negative, num * k, den * k),
    ensures
        is_rounding(r, negative, num, den),
{
    let plain = rounded(negative, num, den);
    lemma_rounding_exists(negative, num, den);
    lemma_rounding_scaled(plain, negative, num, den, k);
    lemma_mul_strictly_positive(den, k);
    lemma_rounded(plain, negative, num * k, den * k);
    lemma_rounded(r, negative, num * k, den * k);
}

/// A correctly rounded finite result is within half a spacing of the exact
/// quotient: within one part in `2^53` of it, or, where the result is
/// subnormal, within half of the smallest subnormal.
pub proof fn lemma_rounding_error(r: Binary64, negative: bool, num: int, den: int)
    requires
        num >= 0,
        den > 0,
        r.is_finite(),
        is_rounding(r, negative, num, den),
    ensures
        0x0020_0000_0000_0000 * (den * r.magnitude() - num) <= num || 2 * (den * r.magnitude()
            - num) <= den,
        0x0020_0000_0000_0000 * (num - den * r.magnitude()) <= num || 2 * (num - den
            * r.magnitude()) <= den,
{
    let e = choose|e: nat| #[trigger]
        in_binade(num, den, e) && r.magnitude() as int == rounded_magnitude(num, den, e);
    let p = pow2(e) as int;
    lemma_pow2_pos(e);
    lemma_mul_strictly_positive(den, p);
    let m = round_half_even(num, den * p);
    lemma_round_bounds(num, den * p);
    lemma_magnitude_classes(r);
    let mag = r.magnitude() as int;
    assert(mag == m * p);
    let err = den * mag - num;
    assert(2 * err <= den * p && -2 * err <= den * p) by (nonlinear_arith)
        requires
            err == den * (m * p) - num,
            2 * (den * p) * m <= 2 * num + den * p,
            2 * num <= 2 * (den * p) * m + den * p,
    ;
    if e == 0 {
        lemma2_to64();
        assert(den * p == den) by (nonlinear_arith)
            requires
                p == 1,
        ;
    } else {
        assert(0x0020_0000_0000_0000 * err <= num && 0x0020_0000_0000_0000 * (-err) <= num)
            by (nonlinear_arith)
            requires
                2 * err <= den * p,
                -2 * err <= den * p,
                0x0010_0000_0000_0000 * p * den <= num,
        ;
    }
}

/// Rounding does not pass a representable bound: a quotient that is at most
/// the finite magnitude `bm * 2^bs` rounds to at most that magnitude.
pub proof fn lemma_rounding_bounded_above(
    r: Binary64,
    negative: bool,
    num: int,
    den: int,
    bm: int,
    bs: nat,
)
    requires
        num >= 0,
        den > 0,
        0x0010_0000_0000_0000 <= bm < 0x0020_0000_0000_0000,
        bs <= 2045,
        num <= bm * pow2(bs) * den,
        is_rounding(r, negative, num, den),
    ensures
        r.magnitude() <= bm * pow2(bs),
        r.is_finite(),
{
    let e = choose|e: nat| #[trigger]
        in_binade(num, den, e) && r.magnitude() as int == rounded_magnitude(num, den, e);
    let p = pow2(e) as int;
    let pb = pow2(bs) as int;
    lemma_pow2_pos(e);
    lemma_pow2_pos(bs);
    lemma_mul_strictly_positive(den, p);
    if e > bs {
        lemma_pow2_unfold(bs + 1);
        if e > bs + 1 {
            lemma_pow2_strictly_increases(bs + 1, e);
        }
        assert(bm * pb * den < 0x0010_0000_0000_0000 * p * den) by (nonlinear_arith)
            requires
                bm < 0x0020_0000_0000_0000,
                p >= 2 * pb,
                pb > 0,
                den > 0,
        ;
    }
    let k = (bs - e) as nat;
    lemma_pow2_adds(k, e);
    lemma_pow2_pos(k);
    let c = bm * pow2(k);
    assert(c * (den * p) == bm * pb * den) by (nonlinear_arith)
        requires
            c == bm * pow2(k),
            pb == pow2(k) * p,
    ;
    lemma_round_monotone(num, den * p, c);
    let m = round_half_even(num, den * p);
    assert(m * p <= bm * pb) by (nonlinear_arith)
        requires
            m <= c,
            c == bm * pow2(k),
            pb == pow2(k) * p,
            p > 0,
    ;
    // the bound is finite, so nothing is clamped
    if bs < 2045 {
        lemma_pow2_strictly_increases(bs, 2045);
    }
    lemma_pow2_unfold(2046);
    let plast = pow2(2045) as int;
    assert(bm * pb < 0x0010_0000_0000_0000 * (2 * plast)) by (nonlinear_arith)
        requires
            bm < 0x0020_0000_0000_0000,
            0 < pb <= plast,
    ;
    lemma_magnitude_classes(r);
}

} // verus!
