//! The significance level describes the evidence present in a sample under
//! test which allows for rejection of the null hypothesis.

use crate::binary64::Binary64;
use crate::error::ConfidenceError;
use crate::probability::{
    complement,
    complement_of,
    hundredth,
    in_unit_interval,
    is_probability,
    lemma_nearest_to_ratio,
    lemma_percentage_accepted,
    lemma_probability_bits,
    nearest_to_ratio,
};
use crate::rounding::unit;
use crate::confidence::ConfidenceLevel;
use vstd::arithmetic::power2::{lemma2_to64, lemma2_to64_rest};
use vstd::prelude::*;

verus! {

/// The probability of a type I error: of rejecting a null hypothesis that
/// is in fact true.
#[derive(Clone, Copy, Debug)]
pub struct SignificanceLevel(pub(crate) Binary64);

impl View for SignificanceLevel {
    type V = Binary64;

    /// The wrapped fraction.
    closed spec fn view(&self) -> Binary64 {
        self.0
    }
}

impl SignificanceLevel {
    /// A level is a probability, wherever one exists.
    #[verifier::type_invariant]
    spec fn well_formed(self) -> bool {
        is_probability(self.0)
    }

    /// A significance level from a fraction: the level itself where it is a
    /// probability, the error that carries it where it is below zero, above
    /// one or not a number.
    pub fn fractional(level: Binary64) -> (r: Result<Self, ConfidenceError>)
        ensures
            match r {
                Ok(l) => is_probability(level) && l@ == level,
                Err(e) => !is_probability(level) && e == ConfidenceError::Value(Some(level)),
            },
    {
        if in_unit_interval(level) {
            Ok(SignificanceLevel(level))
        } else {
            Err(ConfidenceError::Value(Some(level)))
        }
    }

    /// A significance level from a percentage: the percentage is divided by 100
    /// and the quotient is taken as [`Self::fractional`] takes a fraction.
    /// The percentages taken are those from zero to one hundred, and the
    /// negative ones whose hundredth vanishes to negative zero.
    pub fn percentage(level: Binary64) -> (r: Result<Self, ConfidenceError>)
        ensures
            match r {
                Ok(l) => is_probability(hundredth(level)) && l@ == hundredth(level),
                Err(e) => !is_probability(hundredth(level)) && e == ConfidenceError::Value(
                    Some(hundredth(level)),
                ),
            },
            r is Ok <==> !level.is_nan() && -50 <= level.scaled() <= 100 * unit(),
    {
        proof {
            lemma_percentage_accepted(level);
        }
        let level = level.divided_by(100);
        if in_unit_interval(level) {
            Ok(SignificanceLevel(level))
        } else {
            Err(ConfidenceError::Value(Some(level)))
        }
    }

    /// The significance level of 0.1%: the binary64 value nearest to 1/1000.
    pub fn zero_point_one_percent() -> (r: Self)
        ensures
            nearest_to_ratio(r@, 1, 1000),
            r@.bits == 0x3f50_624d_d2f1_a9fc,
    {
        let level = Binary64::from_bits(0x3f50_624d_d2f1_a9fc);
        proof {
            lemma2_to64();
            lemma2_to64_rest();
            lemma_probability_bits(level);
            lemma_nearest_to_ratio(level, 1, 1000, 62);
        }
        SignificanceLevel(level)
    }

    /// The significance level of 0.5%: the binary64 value nearest to 5/1000.
    pub fn zero_point_five_percent() -> (r: Self)
        ensures
            nearest_to_ratio(r@, 5, 1000),
            r@.bits == 0x3f74_7ae1_47ae_147b,
    {
        let level = Binary64::from_bits(0x3f74_7ae1_47ae_147b);
        proof {
            lemma2_to64();
            lemma2_to64_rest();
            lemma_probability_bits(level);
            lemma_nearest_to_ratio(level, 5, 1000, 60);
        }
        SignificanceLevel(level)
    }

    /// The significance level of 1%: the binary64 value nearest to 1/100.
    pub fn one_percent() -> (r: Self)
        ensures
            nearest_to_ratio(r@, 1, 100),
            r@.bits == 0x3f84_7ae1_47ae_147b,
    {
        let level = Binary64::from_bits(0x3f84_7ae1_47ae_147b);
        proof {
            lemma2_to64();
            lemma2_to64_rest();
            lemma_probability_bits(level);
            lemma_nearest_to_ratio(level, 1, 100, 59);
        }
        SignificanceLevel(level)
    }

    /// The significance level of 2.5%: the binary64 value nearest to 25/1000.
    pub fn two_point_five_percent() -> (r: Self)
        ensures
            nearest_to_ratio(r@, 25, 1000),
            r@.bits == 0x3f99_9999_9999_999a,
    {
        let level = Binary64::from_bits(0x3f99_9999_9999_999a);
        proof {
            lemma2_to64();
            lemma2_to64_rest();
            lemma_probability_bits(level);
            lemma_nearest_to_ratio(level, 25, 1000, 58);
        }
        SignificanceLevel(level)
    }

    /// The significance level of 5%: the binary64 value nearest to 5/100.
    pub fn five_percent() -> (r: Self)
        ensures
            nearest_to_ratio(r@, 5, 100),
            r@.bits == 0x3fa9_9999_9999_999a,
    {
        let level = Binary64::from_bits(0x3fa9_9999_9999_999a);
        proof {
            lemma2_to64();
            lemma2_to64_rest();
            lemma_probability_bits(level);
            lemma_nearest_to_ratio(level, 5, 100, 57);
        }
        SignificanceLevel(level)
    }

    /// The significance level of 10%: the binary64 value nearest to 1/10.
    pub fn ten_percent() -> (r: Self)
        ensures
            nearest_to_ratio(r@, 1, 10),
            r@.bits == 0x3fb9_9999_9999_999a,
    {
        let level = Binary64::from_bits(0x3fb9_9999_9999_999a);
        proof {
            lemma2_to64();
            lemma2_to64_rest();
            lemma_probability_bits(level);
            lemma_nearest_to_ratio(level, 1, 10, 56);
        }
        SignificanceLevel(level)
    }

    /// The fraction that the level wraps.
    pub fn probability(&self) -> (p: Binary64)
        ensures
            p == self@,
            is_probability(p),
    {
        proof {
            use_type_invariant(self);
        }
        self.0
    }

    /// The cumulative probability whose quantile on the standard normal
    /// distribution is the number of standard deviations that the level
    /// stands for: one minus the level. It is a probability, as the
    /// distribution's inverse asks of its argument.
    pub fn cumulative_probability(&self) -> (p: Binary64)
        ensures
            p == complement(self@),
            is_probability(p),
    {
        complement_of(self.probability())
    }
}

impl PartialEq for SignificanceLevel {
    /// Two levels are equal when their fractions are the same number.
    fn eq(&self, other: &Self) -> (r: bool) {
        self.0.le(other.0) && other.0.le(self.0)
    }
}

impl vstd::std_specs::cmp::PartialEqSpecImpl for SignificanceLevel {
    open spec fn obeys_eq_spec() -> bool {
        true
    }

    open spec fn eq_spec(&self, other: &Self) -> bool {
        self@.same_number(other@)
    }
}

impl From<ConfidenceLevel> for SignificanceLevel {
    /// The significance level complementary to a confidence level: one minus
    /// its fraction.
    fn from(level: ConfidenceLevel) -> (r: Self)
        ensures
            r@ == complement(level@),
    {
        SignificanceLevel(complement_of(level.probability()))
    }
}

impl vstd::std_specs::convert::FromSpecImpl<ConfidenceLevel> for SignificanceLevel {
    open spec fn obeys_from_spec() -> bool {
        true
    }

    closed spec fn from_spec(level: ConfidenceLevel) -> Self {
        SignificanceLevel(complement(level@))
    }
}

} // verus!
