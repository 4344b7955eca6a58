//! Correctly rounded arithmetic on binary64 encodings, computed with
//! integers alone.

use crate::binary64::{
    lemma_magnitude_fields,
    lemma_magnitude_order,
    Binary64,
    HIDDEN_BIT,
    INFINITY_BITS,
    NAN_BITS,
    SIGN_BIT,
};
use crate::rounding::{
    lemma_magnitude_classes,
    clamp_magnitude,
    in_binade,
    infinity_magnitude,
    is_rounding,
    lemma_binade_shift,
    lemma_packed,
    lemma_round_exact,
    lemma_round_scaling,
    lemma_rounded,
    lemma_rounding_scaled,
    lemma_rounds_to_zero,
    packed,
    round_half_even,
    rounded,
    rounded_magnitude,
    rounds_to,
    unit,
};
use vstd::arithmetic::div_mod::{lemma_fundamental_div_mod, lemma_fundamental_div_mod_converse};
use vstd::arithmetic::power2::{
    lemma2_to64,
    lemma2_to64_rest,
    lemma_pow2_adds,
    lemma_pow2_pos,
    lemma_pow2_strictly_increases,
    lemma_pow2_unfold,
    pow2,
};
use vstd::prelude::*;

verus! {

/// The canonical quiet NaN, which every invalid operation here returns.
pub open spec fn nan() -> Binary64 {
    Binary64 { bits: 0x7ff8_0000_0000_0000 }
}

/// The encoding of `1.0`.
pub open spec fn one() -> Binary64 {
    Binary64 { bits: 0x3ff0_0000_0000_0000 }
}

/// Positive or negative zero.
pub open spec fn signed_zero(negative: bool) -> Binary64 {
    Binary64 { bits: if negative { 0x8000_0000_0000_0000 } else { 0 } }
}

/// Positive or negative infinity.
pub open spec fn signed_infinity(negative: bool) -> Binary64 {
    Binary64 { bits: if negative { 0xfff0_0000_0000_0000 } else { 0x7ff0_0000_0000_0000 } }
}

/// The IEEE 754 difference `a - b` under rounding to nearest, ties to even.
/// Equal finite operands give `+0.0`, except that `-0.0 - +0.0` is `-0.0`.
pub open spec fn difference(a: Binary64, b: Binary64) -> Binary64 {
    if a.is_nan() || b.is_nan() {
        nan()
    } else if a.is_infinite() {
        if b.is_infinite() && a.sign() == b.sign() {
            nan()
        } else {
            a
        }
    } else if b.is_infinite() {
        signed_infinity(!b.sign())
    } else {
        let d = a.scaled() - b.scaled();
        if d == 0 {
            signed_zero(a.sign() && !b.sign())
        } else if d < 0 {
            rounded(true, -d, 1)
        } else {
            rounded(false, d, 1)
        }
    }
}

/// The IEEE 754 quotient of `x` by the exact non-negative integer `divisor`.
pub open spec fn quotient(x: Binary64, divisor: u64) -> Binary64 {
    if x.is_nan() {
        nan()
    } else if divisor == 0 {
        if x.is_zero() {
            nan()
        } else {
            signed_infinity(x.sign())
        }
    } else if x.is_infinite() {
        x
    } else {
        rounded(x.sign(), x.magnitude() as int, divisor as int)
    }
}

/// The value with its sign reversed; a NaN stays a NaN.
pub open spec fn negation(x: Binary64) -> Binary64 {
    Binary64 {
        bits: if x.bits >= 0x8000_0000_0000_0000 {
            (x.bits - 0x8000_0000_0000_0000) as u64
        } else {
            (x.bits + 0x8000_0000_0000_0000) as u64
        },
    }
}

/// The IEEE 754 sum `a + b`: the difference of `a` and the negation of `b`.
pub open spec fn sum(a: Binary64, b: Binary64) -> Binary64 {
    difference(a, negation(b))
}

/// The IEEE 754 product `a * b`.
pub open spec fn product(a: Binary64, b: Binary64) -> Binary64 {
    if a.is_nan() || b.is_nan() {
        nan()
    } else if a.is_infinite() || b.is_infinite() {
        if a.is_zero() || b.is_zero() {
            nan()
        } else {
            signed_infinity(a.sign() != b.sign())
        }
    } else {
        rounded(a.sign() != b.sign(), (a.magnitude() * b.magnitude()) as int, unit())
    }
}

/// The IEEE 754 quotient `a / b`.
pub open spec fn ratio(a: Binary64, b: Binary64) -> Binary64 {
    if a.is_nan() || b.is_nan() {
        nan()
    } else if a.is_infinite() {
        if b.is_infinite() {
            nan()
        } else {
            signed_infinity(a.sign() != b.sign())
        }
    } else if b.is_infinite() {
        signed_zero(a.sign() != b.sign())
    } else if b.is_zero() {
        if a.is_zero() {
            nan()
        } else {
            signed_infinity(a.sign() != b.sign())
        }
    } else {
        rounded(a.sign() != b.sign(), a.magnitude() * unit(), b.magnitude() as int)
    }
}

/// The binary64 value nearest to the integer `n`.
pub open spec fn integer(n: u64) -> Binary64 {
    rounded(false, n * unit(), 1)
}

/// The power `2^k` as a machine integer.
fn power_of_two(k: u64) -> (p: u128)
    requires
        k <= 120,
    ensures
        p == pow2(k as nat),
        p <= 0x0100_0000_0000_0000_0000_0000_0000_0000,
{
    let mut p: u128 = 1;
    let mut i: u64 = 0;
    proof {
        lemma2_to64();
        lemma_large_powers();
    }
    while i < k
        invariant
            i <= k <= 120,
            p == pow2(i as nat),
            pow2(120) == 0x0100_0000_0000_0000_0000_0000_0000_0000,
        decreases k - i,
    {
        proof {
            lemma_pow2_unfold((i + 1) as nat);
            if i + 1 < 120 {
                lemma_pow2_strictly_increases((i + 1) as nat, 120);
            }
        }
        p = p * 2;
        i = i + 1;
    }
    proof {
        if k < 120 {
            lemma_pow2_strictly_increases(k as nat, 120);
        }
    }
    p
}

/// The two powers of two beyond `2^64` that bound the intermediate values.
proof fn lemma_large_powers()
    ensures
        pow2(120) == 0x0100_0000_0000_0000_0000_0000_0000_0000,
        pow2(68) == 0x0010_0000_0000_0000_0000,
{
    lemma2_to64();
    lemma2_to64_rest();
    lemma_pow2_adds(64, 56);
    lemma_pow2_adds(64, 4);
}

/// Significand and scale of a finite encoding.
fn decode(x: Binary64) -> (p: (u64, u64))
    requires
        !x.is_nan(),
    ensures
        p.0 == x.significand(),
        p.1 == x.scale(),
        p.0 < 0x0020_0000_0000_0000,
        p.1 <= 2046,
        p.1 > 0 ==> p.0 >= 0x0010_0000_0000_0000,
        x.is_finite() ==> p.1 <= 2045,
{
    let a: u64 = x.magnitude_bits();
    let e: u64 = a / HIDDEN_BIT;
    let f: u64 = a % HIDDEN_BIT;
    if e == 0 {
        (f, 0)
    } else {
        (f + HIDDEN_BIT, e - 1)
    }
}

/// The encoding with the given sign, significand `m` and scale `s`, or
/// infinity where that is out of range.
fn pack(negative: bool, s: u64, m: u64) -> (r: Binary64)
    requires
        m <= 0x0020_0000_0000_0000,
        s > 0 ==> m >= 0x0010_0000_0000_0000,
        s <= 4000,
    ensures
        r == packed(negative, s as nat, m as nat),
        r.sign() == negative,
        !r.is_nan(),
        r.magnitude() == clamp_magnitude(m * pow2(s as nat)),
{
    let abs: u64 = if s >= 2047 || s * HIDDEN_BIT + m >= INFINITY_BITS {
        INFINITY_BITS
    } else {
        s * HIDDEN_BIT + m
    };
    proof {
        lemma_packed(negative, s as nat, m as nat);
    }
    Binary64 { bits: if negative { abs + SIGN_BIT } else { abs } }
}

/// The binade of `value / den`, and the significand that the quotient is
/// rounded to there.
fn reduce(value: u128, den: u128) -> (r: (u64, u64))
    requires
        0 < den < 0x0400_0000_0000_0000_0000_0000_0000_0000,
        value < 0x0100_0000_0000_0000_0000_0000_0000_0000,
    ensures
        in_binade(value as int, den as int, r.1 as nat),
        r.0 == round_half_even(value as int, den * pow2(r.1 as nat)),
        r.0 <= 0x0020_0000_0000_0000,
        r.1 > 0 ==> r.0 >= 0x0010_0000_0000_0000,
        r.1 <= 68,
{
    let mut d: u128 = den;
    let mut s: u64 = 0;
    proof {
        lemma2_to64();
        lemma_large_powers();
    }
    while s < 68 && value / d >= 0x0020_0000_0000_0000
        invariant
            s <= 68,
            0 < d < 0x0400_0000_0000_0000_0000_0000_0000_0000,
            d == den * pow2(s as nat),
            s > 0 ==> 0x0010_0000_0000_0000 * d <= value,
            value < 0x0100_0000_0000_0000_0000_0000_0000_0000,
            pow2(68) == 0x0010_0000_0000_0000_0000,
        decreases 68 - s,
    {
        proof {
            lemma_pow2_unfold((s + 1) as nat);
            lemma_fundamental_div_mod(value as int, d as int);
            let qq = (value / d) as int;
            assert(d * qq >= d * 0x0020_0000_0000_0000) by (nonlinear_arith)
                requires
                    qq >= 0x0020_0000_0000_0000,
                    d > 0,
            ;
            let ps = pow2(s as nat) as int;
            assert(den * (2 * ps) == 2 * (den * ps)) by (nonlinear_arith);
        }
        d = d * 2;
        s = s + 1;
    }
    let quotient: u128 = value / d;
    let rest: u128 = value % d;
    proof {
        lemma_fundamental_div_mod(value as int, d as int);
        let qq = quotient as int;
        let ps = pow2(s as nat) as int;
        if s == 68 {
            assert(d >= 0x0010_0000_0000_0000_0000) by (nonlinear_arith)
                requires
                    d == den * ps,
                    den >= 1,
                    ps == 0x0010_0000_0000_0000_0000,
            ;
        }
        assert(qq < 0x0020_0000_0000_0000);
        assert(s > 0 ==> qq >= 0x0010_0000_0000_0000) by (nonlinear_arith)
            requires
                value == d * qq + rest,
                rest < d,
                s > 0 ==> 0x0010_0000_0000_0000 * d <= value,
                d > 0,
        ;
        assert(value < 0x0020_0000_0000_0000 * ps * den) by (nonlinear_arith)
            requires
                value == d * qq + rest,
                rest < d,
                qq < 0x0020_0000_0000_0000,
                d == den * ps,
        ;
        assert(s > 0 ==> 0x0010_0000_0000_0000 * ps * den <= value) by (nonlinear_arith)
            requires
                s > 0 ==> 0x0010_0000_0000_0000 * d <= value,
                d == den * ps,
        ;
    }
    let up: bool = 2 * rest > d || (2 * rest == d && quotient % 2 == 1);
    let m: u64 = if up {
        (quotient + 1) as u64
    } else {
        quotient as u64
    };
    (m, s)
}

/// The encoding nearest to `value / den` with the given sign.
fn round_ratio(negative: bool, value: u128, den: u128) -> (r: Binary64)
    requires
        0 < den < 0x0400_0000_0000_0000_0000_0000_0000_0000,
        value < 0x0100_0000_0000_0000_0000_0000_0000_0000,
    ensures
        is_rounding(r, negative, value as int, den as int),
{
    let (m, s) = reduce(value, den);
    let r = pack(negative, s, m);
    proof {
        assert(r.magnitude() as int == rounded_magnitude(value as int, den as int, s as nat));
    }
    r
}

/// The encoding nearest to `value * 2^q` with the given sign.
fn round_pack(negative: bool, value: u128, q: u64) -> (r: Binary64)
    requires
        value < 0x0100_0000_0000_0000_0000_0000_0000_0000,
        q <= 3900,
    ensures
        is_rounding(r, negative, value * pow2(q as nat), 1),
{
    let ghost num: int = value * pow2(q as nat);
    if value < 0x0020_0000_0000_0000 {
        let mut m: u64 = value as u64;
        let mut s: u64 = q;
        while s > 0 && m < 0x0010_0000_0000_0000
            invariant
                m < 0x0020_0000_0000_0000,
                s <= q,
                m * pow2(s as nat) == num,
            decreases s,
        {
            proof {
                lemma_pow2_unfold(s as nat);
                let p = pow2((s - 1) as nat) as int;
                assert((2 * m) * p == m * (2 * p)) by (nonlinear_arith);
            }
            m = m * 2;
            s = s - 1;
        }
        let r = pack(negative, s, m);
        proof {
            let p = pow2(s as nat) as int;
            lemma_pow2_pos(s as nat);
            lemma_round_exact(m as int, p);
            assert(1 * pow2(s as nat) == p);
            assert(m * p < 0x0020_0000_0000_0000 * p * 1) by (nonlinear_arith)
                requires
                    m < 0x0020_0000_0000_0000,
                    p > 0,
            ;
            assert(m >= 0x0010_0000_0000_0000 ==> 0x0010_0000_0000_0000 * p * 1 <= m * p)
                by (nonlinear_arith)
                requires
                    p > 0,
            ;
            assert(in_binade(num, 1, s as nat));
            assert(r.magnitude() as int == rounded_magnitude(num, 1, s as nat));
        }
        r
    } else {
        let (m, s) = reduce(value, 1);
        proof {
            lemma2_to64();
            let base = pow2(0) as int;
            assert(!(value < 0x0020_0000_0000_0000 * base * 1)) by (nonlinear_arith)
                requires
                    base == 1,
                    value >= 0x0020_0000_0000_0000,
            ;
            assert(s > 0);
        }
        let r = pack(negative, s + q, m);
        proof {
            lemma_binade_shift(value as int, 1, s as nat, q as nat);
            assert(r.magnitude() as int == rounded_magnitude(num, 1, (s + q) as nat));
        }
        r
    }
}

/// A term below a quarter of the spacing does not move a rounded sum or
/// difference off the number `m * 2^q` that it is added to or taken from.
proof fn lemma_negligible(m: int, q: nat, t: int, adding: bool)
    requires
        0x0010_0000_0000_0000 <= m < 0x0020_0000_0000_0000,
        q >= 1,
        0 <= t,
        4 * t < pow2(q),
        m * pow2(q) < infinity_magnitude(),
    ensures
        rounds_to(
            m * pow2(q),
            if adding {
                m * pow2(q) + t
            } else {
                m * pow2(q) - t
            },
            1,
        ),
{
    let p = pow2(q) as int;
    let num = if adding {
        m * p + t
    } else {
        m * p - t
    };
    lemma_pow2_pos(q);
    if adding || t == 0 {
        assert(num == m * p + t);
        lemma_fundamental_div_mod_converse(num, p, m, t);
        assert(1 * pow2(q) == p);
        assert(round_half_even(num, p) == m);
        assert(num < 0x0020_0000_0000_0000 * p * 1 && 0x0010_0000_0000_0000 * p * 1 <= num)
            by (nonlinear_arith)
            requires
                num == m * p + t,
                0 <= t < p,
                0x0010_0000_0000_0000 <= m < 0x0020_0000_0000_0000,
        ;
        assert(in_binade(num, 1, q));
    } else if m > 0x0010_0000_0000_0000 {
        assert(num == (m - 1) * p + (p - t)) by (nonlinear_arith)
            requires
                num == m * p - t,
        ;
        lemma_fundamental_div_mod_converse(num, p, m - 1, p - t);
        assert(1 * pow2(q) == p);
        assert(round_half_even(num, p) == m);
        assert(num < 0x0020_0000_0000_0000 * p * 1 && 0x0010_0000_0000_0000 * p * 1 <= num)
            by (nonlinear_arith)
            requires
                num == (m - 1) * p + (p - t),
                0 < t < p,
                0x0010_0000_0000_0000 < m < 0x0020_0000_0000_0000,
        ;
        assert(in_binade(num, 1, q));
    } else {
        let e = (q - 1) as nat;
        let h = pow2(e) as int;
        lemma_pow2_unfold(q);
        lemma_pow2_pos(e);
        assert(num == 0x001f_ffff_ffff_ffff * h + (h - t)) by (nonlinear_arith)
            requires
                num == m * p - t,
                m == 0x0010_0000_0000_0000,
                p == 2 * h,
        ;
        lemma_fundamental_div_mod_converse(num, h, 0x001f_ffff_ffff_ffff, h - t);
        assert(1 * pow2(e) == h);
        assert(round_half_even(num, h) == 0x0020_0000_0000_0000);
        assert(0x0020_0000_0000_0000 * h == m * p) by (nonlinear_arith)
            requires
                m == 0x0010_0000_0000_0000,
                p == 2 * h,
        ;
        assert(num < 0x0020_0000_0000_0000 * h * 1 && 0x0010_0000_0000_0000 * h * 1 <= num)
            by (nonlinear_arith)
            requires
                num == 0x001f_ffff_ffff_ffff * h + (h - t),
                0 < t < h,
        ;
        assert(in_binade(num, 1, e));
    }
}

impl Binary64 {
    /// The quotient of the value by a non-negative integer, correctly
    /// rounded.
    pub fn divided_by(self, divisor: u64) -> (r: Binary64)
        ensures
            r == quotient(self, divisor),
    {
        let a: u64 = self.magnitude_bits();
        let negative: bool = self.is_sign_negative();
        if a > INFINITY_BITS {
            return Binary64 { bits: NAN_BITS };
        }
        if divisor == 0 {
            if a == 0 {
                return Binary64 { bits: NAN_BITS };
            }
            return Binary64 { bits: if negative { INFINITY_BITS + SIGN_BIT } else { INFINITY_BITS } };
        }
        if a == INFINITY_BITS {
            return self;
        }
        let (m, q) = decode(self);
        let bound: u128 = (divisor as u128) * 0x0010_0000_0000_0000;
        let mut n: u128 = m as u128;
        let mut k: u64 = 0;
        proof {
            lemma2_to64();
        }
        while k < q && n < bound
            invariant
                k <= q,
                n == m * pow2(k as nat),
                n < 2 * bound,
                bound == divisor * 0x0010_0000_0000_0000,
            decreases q - k,
        {
            proof {
                lemma_pow2_unfold((k + 1) as nat);
                let p = pow2(k as nat) as int;
                assert(m * (2 * p) == 2 * (m * p)) by (nonlinear_arith);
            }
            n = n * 2;
            k = k + 1;
        }
        let quotient: u128 = n / (divisor as u128);
        let rest: u128 = n % (divisor as u128);
        proof {
            lemma_fundamental_div_mod(n as int, divisor as int);
            let qq = quotient as int;
            assert(qq < 0x0020_0000_0000_0000) by (nonlinear_arith)
                requires
                    n == divisor * qq + rest,
                    n < 2 * (divisor * 0x0010_0000_0000_0000),
                    divisor > 0,
            ;
            assert(n >= bound ==> qq >= 0x0010_0000_0000_0000) by (nonlinear_arith)
                requires
                    n == divisor * qq + rest,
                    rest < divisor,
                    bound == divisor * 0x0010_0000_0000_0000,
                    divisor > 0,
            ;
        }
        let up: bool = 2 * rest > (divisor as u128) || (2 * rest == (divisor as u128) && quotient
            % 2 == 1);
        let rounded: u64 = if up {
            (quotient + 1) as u64
        } else {
            quotient as u64
        };
        let r = pack(negative, q - k, rounded);
        proof {
            let e = (q - k) as nat;
            let pe = pow2(e) as int;
            let pk = pow2(k as nat) as int;
            lemma_pow2_pos(e);
            lemma_pow2_adds(k as nat, e);
            assert(self.magnitude() == n * pe) by (nonlinear_arith)
                requires
                    self.magnitude() == m * pow2(q as nat),
                    pow2(q as nat) == pk * pe,
                    n == m * pk,
            ;
            assert(rounded == round_half_even(n as int, divisor as int));
            lemma_round_scaling(n as int, divisor as int, pe);
            assert(n * pe < 0x0020_0000_0000_0000 * pe * divisor) by (nonlinear_arith)
                requires
                    n < 2 * (divisor * 0x0010_0000_0000_0000),
                    pe > 0,
            ;
            assert(n >= bound ==> 0x0010_0000_0000_0000 * pe * divisor <= n * pe)
                by (nonlinear_arith)
                requires
                    bound == divisor * 0x0010_0000_0000_0000,
                    pe > 0,
            ;
            assert(in_binade(self.magnitude() as int, divisor as int, e));
            lemma_rounded(r, negative, self.magnitude() as int, divisor as int);
        }
        r
    }

    /// The difference `self - other`, correctly rounded.
    pub fn minus(self, other: Binary64) -> (r: Binary64)
        ensures
            r == difference(self, other),
    {
        let a: u64 = self.magnitude_bits();
        let b: u64 = other.magnitude_bits();
        let sa: bool = self.is_sign_negative();
        let sb: bool = other.is_sign_negative();
        if a > INFINITY_BITS || b > INFINITY_BITS {
            return Binary64 { bits: NAN_BITS };
        }
        if a == INFINITY_BITS {
            if b == INFINITY_BITS && sa == sb {
                return Binary64 { bits: NAN_BITS };
            }
            return self;
        }
        if b == INFINITY_BITS {
            return Binary64 { bits: if sb { INFINITY_BITS } else { INFINITY_BITS + SIGN_BIT } };
        }
        let (ma, qa) = decode(self);
        let (mb, qb) = decode(other);
        let a_larger: bool = a >= b;
        let adding: bool = sa != sb;
        let negative: bool = if adding || a_larger {
            sa
        } else {
            !sa
        };
        proof {
            lemma_magnitude_order(self, other);
            lemma_magnitude_order(other, self);
            lemma_magnitude_fields(self);
            lemma_magnitude_fields(other);
        }
        if !adding && a == b {
            return Binary64 { bits: 0 };
        }
        let (mx, qx, my, qy, x_bits) = if a_larger {
            (ma, qa, mb, qb, a)
        } else {
            (mb, qb, ma, qa, b)
        };
        let ghost mag_x: int = mx * pow2(qx as nat);
        let ghost mag_y: int = my * pow2(qy as nat);
        let ghost gap: int = self.scaled() - other.scaled();
        let ghost distance: int = if gap < 0 {
            -gap
        } else {
            gap
        };
        assert(qy <= qx);
        assert(mag_y <= mag_x);
        assert(distance == if adding {
            mag_x + mag_y
        } else {
            mag_x - mag_y
        });
        assert(gap != 0 ==> negative == (gap < 0));
        let d: u64 = qx - qy;
        let ghost py: int = pow2(qy as nat) as int;
        let ghost pd: int = pow2(d as nat) as int;
        proof {
            lemma_pow2_adds(d as nat, qy as nat);
            lemma_pow2_pos(qy as nat);
            lemma_pow2_pos(d as nat);
        }
        if d >= 64 {
            let r = Binary64 { bits: if negative { x_bits + SIGN_BIT } else { x_bits } };
            proof {
                lemma2_to64();
                if d > 64 {
                    lemma_pow2_strictly_increases(64, d as nat);
                }
                assert(4 * mag_y < pd * py) by (nonlinear_arith)
                    requires
                        mag_y == my * py,
                        my < 0x0020_0000_0000_0000,
                        pd >= 0x1_0000_0000_0000_0000,
                        py > 0,
                ;
                if a_larger {
                    lemma_magnitude_classes(self);
                } else {
                    lemma_magnitude_classes(other);
                }
                lemma_negligible(mx as int, qx as nat, mag_y, adding);
                assert(r.abs_bits() == x_bits);
                if a_larger {
                    lemma_magnitude_order(r, self);
                } else {
                    lemma_magnitude_order(r, other);
                }
                assert(r.magnitude() == mag_x);
                assert(gap != 0);
                lemma_rounded(r, negative, distance, 1);
            }
            return r;
        }
        let scale_up: u128 = power_of_two(d);
        proof {
            if d < 63 {
                lemma_pow2_strictly_increases(d as nat, 63);
            }
            lemma2_to64_rest();
            assert(mx * pd < 0x0020_0000_0000_0000 * 0x1_0000_0000_0000_0000) by (nonlinear_arith)
                requires
                    mx < 0x0020_0000_0000_0000,
                    pd < 0x1_0000_0000_0000_0000,
                    pd > 0,
            ;
            assert(my <= mx * pd) by (nonlinear_arith)
                requires
                    my * py <= mx * pow2(qx as nat),
                    pow2(qx as nat) == pd * py,
                    py > 0,
            ;
        }
        let shifted: u128 = (mx as u128) * scale_up;
        let value: u128 = if adding {
            shifted + (my as u128)
        } else {
            shifted - (my as u128)
        };
        proof {
            assert(value * py == distance) by (nonlinear_arith)
                requires
                    value == if adding {
                        mx * pd + my
                    } else {
                        mx * pd - my
                    },
                    distance == if adding {
                        mag_x + mag_y
                    } else {
                        mag_x - mag_y
                    },
                    mag_x == mx * pow2(qx as nat),
                    pow2(qx as nat) == pd * py,
                    mag_y == my * py,
            ;
        }
        if value == 0 {
            proof {
                assert(value * py == 0) by (nonlinear_arith)
                    requires
                        value == 0,
                ;
            }
            return Binary64 { bits: if negative { SIGN_BIT } else { 0 } };
        }
        proof {
            assert(distance > 0) by (nonlinear_arith)
                requires
                    value * py == distance,
                    value > 0,
                    py > 0,
            ;
        }
        let r = round_pack(negative, value, qy);
        proof {
            lemma_rounded(r, negative, distance, 1);
        }
        r
    }

    /// The value with its sign reversed.
    pub fn negated(self) -> (r: Binary64)
        ensures
            r == negation(self),
    {
        if self.bits >= SIGN_BIT {
            Binary64 { bits: self.bits - SIGN_BIT }
        } else {
            Binary64 { bits: self.bits + SIGN_BIT }
        }
    }

    /// The sum `self + other`, correctly rounded.
    pub fn plus(self, other: Binary64) -> (r: Binary64)
        ensures
            r == sum(self, other),
    {
        self.minus(other.negated())
    }

    /// The binary64 value nearest to an integer.
    pub fn from_integer(n: u64) -> (r: Binary64)
        ensures
            r == integer(n),
    {
        let r = round_pack(false, n as u128, 1074);
        proof {
            lemma_rounded(r, false, n * unit(), 1);
        }
        r
    }

    /// The product `self * other`, correctly rounded.
    pub fn times(self, other: Binary64) -> (r: Binary64)
        ensures
            r == product(self, other),
    {
        let a: u64 = self.magnitude_bits();
        let b: u64 = other.magnitude_bits();
        let negative: bool = self.is_sign_negative() != other.is_sign_negative();
        if a > INFINITY_BITS || b > INFINITY_BITS {
            return Binary64 { bits: NAN_BITS };
        }
        if a == INFINITY_BITS || b == INFINITY_BITS {
            if a == 0 || b == 0 {
                return Binary64 { bits: NAN_BITS };
            }
            return Binary64 { bits: if negative { INFINITY_BITS + SIGN_BIT } else { INFINITY_BITS } };
        }
        let (ma, qa) = decode(self);
        let (mb, qb) = decode(other);
        let ghost pa: int = pow2(qa as nat) as int;
        let ghost pb: int = pow2(qb as nat) as int;
        let ghost num: int = (self.magnitude() * other.magnitude()) as int;
        proof {
            assert(ma * mb < 0x0020_0000_0000_0000 * 0x0020_0000_0000_0000) by (nonlinear_arith)
                requires
                    ma < 0x0020_0000_0000_0000,
                    mb < 0x0020_0000_0000_0000,
            ;
            lemma_pow2_adds(qa as nat, qb as nat);
            lemma_pow2_pos(1074);
            assert(num == (ma * mb) * (pa * pb)) by (nonlinear_arith)
                requires
                    num == (ma * pa) * (mb * pb),
            ;
        }
        let value: u128 = (ma as u128) * (mb as u128);
        let scale: u64 = qa + qb;
        if scale >= 1074 {
            let r = round_pack(negative, value, scale - 1074);
            proof {
                let px = pow2((scale - 1074) as nat) as int;
                lemma_pow2_adds((scale - 1074) as nat, 1074);
                lemma_pow2_pos((scale - 1074) as nat);
                assert(value * px >= 0) by (nonlinear_arith)
                    requires
                        value >= 0,
                        px > 0,
                ;
                lemma_rounding_scaled(r, negative, value * px, 1, unit());
                assert((value * px) * unit() == num) by (nonlinear_arith)
                    requires
                        num == value * (pa * pb),
                        pa * pb == px * unit(),
                ;
                lemma_rounded(r, negative, num, unit());
            }
            r
        } else {
            let k: u64 = 1074 - scale;
            let ghost pk: int = pow2(k as nat) as int;
            let ghost ps: int = pow2(scale as nat) as int;
            proof {
                lemma_pow2_adds(k as nat, scale as nat);
                lemma_pow2_pos(k as nat);
                lemma_pow2_pos(scale as nat);
                assert(num == value * ps);
                assert(unit() == pk * ps);
            }
            if k > 110 {
                let r = Binary64 { bits: if negative { SIGN_BIT } else { 0 } };
                proof {
                    lemma2_to64();
                    lemma2_to64_rest();
                    lemma_pow2_adds(64, 46);
                    lemma_pow2_strictly_increases(110, k as nat);
                    lemma_rounds_to_zero(r, value as int, pk);
                    lemma_rounding_scaled(r, negative, value as int, pk, ps);
                    lemma_rounded(r, negative, num, unit());
                }
                r
            } else {
                let r = round_ratio(negative, value, power_of_two(k));
                proof {
                    lemma_rounding_scaled(r, negative, value as int, pk, ps);
                    lemma_rounded(r, negative, num, unit());
                }
                r
            }
        }
    }

    /// The quotient `self / other`, correctly rounded.
    pub fn over(self, other: Binary64) -> (r: Binary64)
        ensures
            r == ratio(self, other),
    {
        let a: u64 = self.magnitude_bits();
        let b: u64 = other.magnitude_bits();
        let negative: bool = self.is_sign_negative() != other.is_sign_negative();
        if a > INFINITY_BITS || b > INFINITY_BITS {
            return Binary64 { bits: NAN_BITS };
        }
        if a == INFINITY_BITS {
            if b == INFINITY_BITS {
                return Binary64 { bits: NAN_BITS };
            }
            return Binary64 { bits: if negative { INFINITY_BITS + SIGN_BIT } else { INFINITY_BITS } };
        }
        if b == INFINITY_BITS {
            return Binary64 { bits: if negative { SIGN_BIT } else { 0 } };
        }
        if b == 0 {
            if a == 0 {
                return Binary64 { bits: NAN_BITS };
            }
            return Binary64 { bits: if negative { INFINITY_BITS + SIGN_BIT } else { INFINITY_BITS } };
        }
        let (ma, qa) = decode(self);
        let (mb, qb) = decode(other);
        let ghost pb: int = pow2(qb as nat) as int;
        let ghost num: int = self.magnitude() * unit();
        let ghost den: int = other.magnitude() as int;
        proof {
            lemma_magnitude_fields(other);
            lemma_pow2_pos(qb as nat);
            lemma_pow2_adds(qa as nat, 1074);
            assert(mb > 0) by (nonlinear_arith)
                requires
                    mb * pb > 0,
                    mb >= 0,
                    pb > 0,
            ;
            assert(num == ma * pow2((qa + 1074) as nat)) by (nonlinear_arith)
                requires
                    num == (ma * pow2(qa as nat)) * unit(),
                    pow2((qa + 1074) as nat) == pow2(qa as nat) * unit(),
            ;
        }
        let up: u64 = qa + 1074;
        if up >= qb {
            // the quotient is ma * 2^x / mb for an x that is not negative
            let mut m: u64 = ma;
            let mut x: u64 = up - qb;
            let ghost x0: nat = x as nat;
            while x > 0 && m < 0x0010_0000_0000_0000
                invariant
                    m < 0x0020_0000_0000_0000,
                    x <= x0,
                    m * pow2(x as nat) == ma * pow2(x0),
                decreases x,
            {
                proof {
                    lemma_pow2_unfold(x as nat);
                    let p = pow2((x - 1) as nat) as int;
                    assert((2 * m) * p == m * (2 * p)) by (nonlinear_arith);
                }
                m = m * 2;
                x = x - 1;
            }
            let t: u64 = if x < 64 {
                x
            } else {
                64
            };
            let pt: u128 = power_of_two(t);
            proof {
                lemma2_to64();
                if t < 64 {
                    lemma_pow2_strictly_increases(t as nat, 64);
                }
                assert(m * pt < 0x0020_0000_0000_0000 * 0x1_0000_0000_0000_0000)
                    by (nonlinear_arith)
                    requires
                        m < 0x0020_0000_0000_0000,
                        pt <= 0x1_0000_0000_0000_0000,
                ;
            }
            let n: u128 = (m as u128) * pt;
            let (rounded_m, s) = reduce(n, mb as u128);
            proof {
                if x > t {
                    // the numerator is normal and shifted by 64 bits, the
                    // denominator is below 2^53: the quotient is normal
                    let base = pow2(0) as int;
                    assert(!(n < 0x0020_0000_0000_0000 * base * mb)) by (nonlinear_arith)
                        requires
                            base == 1,
                            n == m * 0x1_0000_0000_0000_0000,
                            m >= 0x0010_0000_0000_0000,
                            mb < 0x0020_0000_0000_0000,
                    ;
                    assert(s > 0);
                }
            }
            let r = pack(negative, s + (x - t), rounded_m);
            proof {
                let j = (x - t) as nat;
                lemma_binade_shift(n as int, mb as int, s as nat, j);
                lemma_pow2_adds(t as nat, j);
                let pj = pow2(j) as int;
                let reduced = ma * pow2(x0);
                assert(n * pj == reduced) by (nonlinear_arith)
                    requires
                        n == m * pt,
                        pow2(x as nat) == pt * pj,
                        m * pow2(x as nat) == reduced,
                ;
                assert(r.magnitude() as int == rounded_magnitude(reduced, mb as int, s as nat + j));
                assert(is_rounding(r, negative, reduced, mb as int));
                lemma_pow2_adds(x0, qb as nat);
                lemma_pow2_pos(x0);
                assert(reduced >= 0) by (nonlinear_arith)
                    requires
                        reduced == ma * pow2(x0),
                        ma >= 0,
                ;
                lemma_rounding_scaled(r, negative, reduced, mb as int, pb);
                assert(reduced * pb == num) by (nonlinear_arith)
                    requires
                        reduced == ma * pow2(x0),
                        num == ma * pow2((qa + 1074) as nat),
                        pow2((qa + 1074) as nat) == pow2(x0) * pb,
                ;
                lemma_rounded(r, negative, num, den);
            }
            r
        } else {
            // the quotient is ma / (mb * 2^y) for a positive y
            let y: u64 = qb - up;
            let ghost py: int = pow2(y as nat) as int;
            let ghost pu: int = pow2(up as nat) as int;
            proof {
                lemma_pow2_adds(y as nat, up as nat);
                lemma_pow2_pos(y as nat);
                lemma_pow2_pos(up as nat);
                lemma2_to64();
                assert(den == (mb * py) * pu) by (nonlinear_arith)
                    requires
                        den == mb * pb,
                        pb == py * pu,
                ;
                assert(mb * py > 0) by (nonlinear_arith)
                    requires
                        mb > 0,
                        py > 0,
                ;
            }
            if y >= 64 {
                let r = Binary64 { bits: if negative { SIGN_BIT } else { 0 } };
                proof {
                    if y > 64 {
                        lemma_pow2_strictly_increases(64, y as nat);
                    }
                    assert(2 * ma < mb * py) by (nonlinear_arith)
                        requires
                            ma < 0x0020_0000_0000_0000,
                            mb >= 1,
                            py >= 0x1_0000_0000_0000_0000,
                    ;
                    lemma_rounds_to_zero(r, ma as int, mb * py);
                    lemma_rounding_scaled(r, negative, ma as int, mb * py, pu);
                    lemma_rounded(r, negative, num, den);
                }
                r
            } else {
                let shift: u128 = power_of_two(y);
                proof {
                    lemma_pow2_strictly_increases(y as nat, 64);
                    assert(mb * shift < 0x0020_0000_0000_0000 * 0x1_0000_0000_0000_0000)
                        by (nonlinear_arith)
                        requires
                            mb < 0x0020_0000_0000_0000,
                            shift < 0x1_0000_0000_0000_0000,
                    ;
                }
                let r = round_ratio(negative, ma as u128, (mb as u128) * shift);
                proof {
                    lemma_rounding_scaled(r, negative, ma as int, mb * py, pu);
                    lemma_rounded(r, negative, num, den);
                }
                r
            }
        }
    }
}

} // verus!
