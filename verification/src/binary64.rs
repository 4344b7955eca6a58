//! IEEE 754 binary64 values, held by their 64-bit encodings.
//!
//! Every number that is not a NaN is modelled by an exact integer: its value
//! multiplied by `2^1074`, the reciprocal of the smallest positive subnormal.
//! On that scale each finite encoding is an integer, `1.0` is `2^1074`, and the
//! order of the encodings is the order of the integers.

use vstd::arithmetic::mul::{lemma_mul_inequality, lemma_mul_strict_inequality};
use vstd::arithmetic::power2::{
    lemma2_to64,
    lemma_pow2_pos,
    lemma_pow2_strictly_increases,
    lemma_pow2_unfold,
    pow2,
};
use vstd::prelude::*;

verus! {

/// Weight of the sign bit.
pub const SIGN_BIT: u64 = 0x8000_0000_0000_0000;

/// Weight of the implicit leading bit of a normal significand, `2^52`.
pub const HIDDEN_BIT: u64 = 0x0010_0000_0000_0000;

/// Encoding of positive infinity; every larger magnitude pattern is a NaN.
pub const INFINITY_BITS: u64 = 0x7ff0_0000_0000_0000;

/// Encoding of the canonical quiet NaN.
pub const NAN_BITS: u64 = 0x7ff8_0000_0000_0000;

/// Encoding of `1.0`.
pub const ONE_BITS: u64 = 0x3ff0_0000_0000_0000;

/// An IEEE 754 binary64 value, identified with its encoding.
#[derive(Clone, Copy, Debug)]
pub struct Binary64 {
    pub bits: u64,
}

impl Binary64 {
    /// The sign bit is set (also true of `-0.0` and of some NaNs).
    pub open spec fn sign(self) -> bool {
        self.bits >= 0x8000_0000_0000_0000
    }

    /// The encoding with its sign bit cleared.
    pub open spec fn abs_bits(self) -> nat {
        if self.bits >= 0x8000_0000_0000_0000 {
            (self.bits - 0x8000_0000_0000_0000) as nat
        } else {
            self.bits as nat
        }
    }

    /// The biased exponent, `0 ..= 2047`.
    pub open spec fn exponent_field(self) -> nat {
        self.abs_bits() / 0x0010_0000_0000_0000
    }

    /// The 52 stored bits of the significand.
    pub open spec fn fraction_field(self) -> nat {
        self.abs_bits() % 0x0010_0000_0000_0000
    }

    /// Not a number: the exponent is all ones and the fraction is not zero.
    pub open spec fn is_nan(self) -> bool {
        self.abs_bits() > 0x7ff0_0000_0000_0000
    }

    /// Positive or negative infinity.
    pub open spec fn is_infinite(self) -> bool {
        self.abs_bits() == 0x7ff0_0000_0000_0000
    }

    /// Zero, subnormal or normal: neither infinite nor a NaN.
    pub open spec fn is_finite(self) -> bool {
        self.abs_bits() < 0x7ff0_0000_0000_0000
    }

    /// Positive or negative zero.
    pub open spec fn is_zero(self) -> bool {
        self.abs_bits() == 0
    }

    /// The significand as an integer: the stored fraction, with the implicit
    /// leading bit unless the value is subnormal.
    pub open spec fn significand(self) -> nat {
        if self.exponent_field() == 0 {
            self.fraction_field()
        } else {
            0x0010_0000_0000_0000 + self.fraction_field()
        }
    }

    /// The power of two that the significand is multiplied by, counted from
    /// that of the subnormals.
    pub open spec fn scale(self) -> nat {
        if self.exponent_field() == 0 {
            0
        } else {
            (self.exponent_field() - 1) as nat
        }
    }

    /// The absolute value times `2^1074`. The same formula gives infinity the
    /// weight `2^2098`, the first power of two beyond every finite magnitude.
    pub open spec fn magnitude(self) -> nat {
        self.significand() * pow2(self.scale())
    }

    /// The value times `2^1074`, meaningful for every encoding but a NaN.
    pub open spec fn scaled(self) -> int {
        if self.sign() {
            -(self.magnitude() as int)
        } else {
            self.magnitude() as int
        }
    }

    /// IEEE `<=`: false when either side is a NaN, and `-0.0 <= +0.0 <= -0.0`.
    pub open spec fn le_spec(self, other: Binary64) -> bool {
        !self.is_nan() && !other.is_nan() && self.scaled() <= other.scaled()
    }

    /// IEEE `==`: false when either side is a NaN, true of the two zeros.
    pub open spec fn same_number(self, other: Binary64) -> bool {
        !self.is_nan() && !other.is_nan() && self.scaled() == other.scaled()
    }

    /// The value with the given encoding.
    pub fn from_bits(bits: u64) -> (r: Binary64)
        ensures
            r.bits == bits,
    {
        Binary64 { bits }
    }

    /// The encoding of the value.
    pub fn to_bits(self) -> (bits: u64)
        ensures
            bits == self.bits,
    {
        self.bits
    }

    /// The encoding without its sign bit.
    pub fn magnitude_bits(self) -> (m: u64)
        ensures
            m == self.abs_bits(),
            m < 0x8000_0000_0000_0000,
    {
        if self.bits >= SIGN_BIT {
            self.bits - SIGN_BIT
        } else {
            self.bits
        }
    }

    /// Whether the sign bit is set.
    pub fn is_sign_negative(self) -> (r: bool)
        ensures
            r == self.sign(),
    {
        self.bits >= SIGN_BIT
    }

    /// Whether the value is a NaN.
    pub fn is_nan_value(self) -> (r: bool)
        ensures
            r == self.is_nan(),
    {
        self.magnitude_bits() > INFINITY_BITS
    }

    /// IEEE `<=` on the two encodings.
    pub fn le(self, other: Binary64) -> (r: bool)
        ensures
            r == self.le_spec(other),
    {
        let a: u64 = self.magnitude_bits();
        let b: u64 = other.magnitude_bits();
        if a > INFINITY_BITS || b > INFINITY_BITS {
            return false;
        }
        proof {
            lemma_magnitude_order(self, other);
            lemma_magnitude_order(other, self);
            lemma_magnitude_fields(self);
            lemma_magnitude_fields(other);
        }
        if self.bits >= SIGN_BIT {
            if other.bits >= SIGN_BIT {
                b <= a
            } else {
                true
            }
        } else {
            if other.bits >= SIGN_BIT {
                a == 0 && b == 0
            } else {
                a <= b
            }
        }
    }
}

/// The magnitude of an encoding read off its two fields.
pub proof fn lemma_magnitude_fields(x: Binary64)
    ensures
        x.abs_bits() == x.exponent_field() * 0x0010_0000_0000_0000 + x.fraction_field(),
        x.fraction_field() < 0x0010_0000_0000_0000,
        x.exponent_field() < 2048,
        x.significand() < 0x0020_0000_0000_0000,
        x.exponent_field() > 0 ==> x.significand() >= 0x0010_0000_0000_0000,
        x.is_zero() <==> x.magnitude() == 0,
{
    lemma_pow2_pos(x.scale());
    let p = pow2(x.scale()) as int;
    let s = x.significand() as int;
    assert(s > 0 ==> s * p > 0) by (nonlinear_arith)
        requires
            p > 0,
    ;
    assert(s == 0 ==> s * p == 0) by (nonlinear_arith);
}

/// An encoding built from a significand `m` and a scale `s`: the sum
/// `s * 2^52 + m` has magnitude `m * 2^s`. A significand of `2^53`, as a
/// rounding may leave, carries into the exponent by itself.
pub proof fn lemma_magnitude_of_sum(x: Binary64, m: nat, s: nat)
    requires
        x.abs_bits() == s * 0x0010_0000_0000_0000 + m,
        m <= 0x0020_0000_0000_0000,
        s > 0 ==> m >= 0x0010_0000_0000_0000,
    ensures
        x.magnitude() == m * pow2(s),
{
    lemma2_to64();
    if m < 0x0010_0000_0000_0000 {
        assert(x.exponent_field() == 0);
        assert(x.significand() == m);
    } else if m < 0x0020_0000_0000_0000 {
        assert(x.exponent_field() == s + 1);
        assert(x.fraction_field() == m - 0x0010_0000_0000_0000);
    } else {
        assert(x.exponent_field() == s + 2);
        assert(x.fraction_field() == 0);
        lemma_pow2_unfold(s + 1);
        let p = pow2(s) as int;
        assert(0x0010_0000_0000_0000 * (2 * p) == 0x0020_0000_0000_0000 * p) by (nonlinear_arith);
    }
}

/// Encodings without their sign bits are ordered as their magnitudes are.
pub proof fn lemma_magnitude_order(a: Binary64, b: Binary64)
    ensures
        a.abs_bits() <= b.abs_bits() <==> a.magnitude() <= b.magnitude(),
        a.abs_bits() == b.abs_bits() <==> a.magnitude() == b.magnitude(),
{
    if a.abs_bits() < b.abs_bits() {
        lemma_magnitude_strict(a, b);
    } else if b.abs_bits() < a.abs_bits() {
        lemma_magnitude_strict(b, a);
    }
}

/// A smaller encoding, the signs aside, has a smaller magnitude.
proof fn lemma_magnitude_strict(a: Binary64, b: Binary64)
    requires
        a.abs_bits() < b.abs_bits(),
    ensures
        a.magnitude() < b.magnitude(),
{
    lemma_magnitude_fields(a);
    lemma_magnitude_fields(b);
    let pa = pow2(a.scale()) as int;
    let pb = pow2(b.scale()) as int;
    let sa = a.significand() as int;
    let sb = b.significand() as int;
    lemma_pow2_pos(a.scale());
    lemma_pow2_pos(b.scale());
    assert(a.exponent_field() <= b.exponent_field());
    if a.exponent_field() == b.exponent_field() {
        lemma_mul_strict_inequality(sa, sb, pa);
    } else if a.exponent_field() == 0 {
        lemma2_to64();
        assert(pa == 1);
        lemma_mul_inequality(1, pb, sb);
        assert(sb * pb >= sb) by (nonlinear_arith)
            requires
                pb >= 1,
                sb >= 0,
        ;
    } else {
        // a < 2^53 * 2^scale(a) = 2^52 * 2^(scale(a) + 1) <= 2^52 * 2^scale(b) <= b
        lemma_pow2_unfold(a.scale() + 1);
        if a.scale() + 1 < b.scale() {
            lemma_pow2_strictly_increases(a.scale() + 1, b.scale());
        }
        let pn = pow2(a.scale() + 1) as int;
        assert(sa * pa < sb * pb) by (nonlinear_arith)
            requires
                sa < 0x0020_0000_0000_0000,
                sb >= 0x0010_0000_0000_0000,
                pn == 2 * pa,
                pn <= pb,
                pa > 0,
        ;
    }
}

} // verus!
