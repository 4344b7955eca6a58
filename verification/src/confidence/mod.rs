//! Confidence levels, and the intervals stated to them.

use crate::binary64::Binary64;
use crate::error::ConfidenceError;
use crate::probability::{
    complement,
    complement_of,
    hundredth,
    in_unit_interval,
    is_probability,
    lemma_nearest_to_ratio,
    lemma_percentage_accepted,
    lemma_probability_bits,
    nearest_to_ratio,
};
use crate::rounding::unit;
use crate::significance::SignificanceLevel;
use vstd::arithmetic::power2::{lemma2_to64, lemma2_to64_rest};
use vstd::prelude::*;

pub mod interval;

verus! {

/// The degree of confidence associated with a value to be computed: the
/// probability that a stated interval encloses the true value.
#[derive(Clone, Copy, Debug)]
pub struct ConfidenceLevel(pub(crate) Binary64);

impl View for ConfidenceLevel {
    type V = Binary64;

    /// The wrapped fraction.
    closed spec fn view(&self) -> Binary64 {
        self.0
    }
}

impl ConfidenceLevel {
    /// A level is a probability, wherever one exists.
    #[verifier::type_invariant]
    spec fn well_formed(self) -> bool {
        is_probability(self.0)
    }

    /// A confidence level from a fraction: the level itself where it is a
    /// probability, the error that carries it where it is below zero, above
    /// one or not a number.
    pub fn fractional(level: Binary64) -> (r: Result<Self, ConfidenceError>)
        ensures
            match r {
                Ok(l) => is_probability(level) && l@ == level,
                Err(e) => !is_probability(level) && e == ConfidenceError::Value(Some(level)),
            },
    {
        if in_unit_interval(level) {
            Ok(ConfidenceLevel(level))
        } else {
            Err(ConfidenceError::Value(Some(level)))
        }
    }

    /// A confidence level from a percentage: the percentage is divided by 100
    /// and the quotient is taken as [`Self::fractional`] takes a fraction.
    /// The percentages taken are those from zero to one hundred, and the
    /// negative ones whose hundredth vanishes to negative zero.
    pub fn percentage(level: Binary64) -> (r: Result<Self, ConfidenceError>)
        ensures
            match r {
                Ok(l) => is_probability(hundredth(level)) && l@ == hundredth(level),
                Err(e) => !is_probability(hundredth(level)) && e == ConfidenceError::Value(
                    Some(hundredth(level)),
                ),
            },
            r is Ok <==> !level.is_nan() && -50 <= level.scaled() <= 100 * unit(),
    {
        proof {
            lemma_percentage_accepted(level);
        }
        let level = level.divided_by(100);
        if in_unit_interval(level) {
            Ok(ConfidenceLevel(level))
        } else {
            Err(ConfidenceError::Value(Some(level)))
        }
    }

    /// The confidence level of 99.9%: the binary64 value nearest to 999/1000.
    pub fn ninety_nine_point_nine_percent() -> (r: Self)
        ensures
            nearest_to_ratio(r@, 999, 1000),
            r@.bits == 0x3fef_f7ce_d916_872b,
    {
        let level = Binary64::from_bits(0x3fef_f7ce_d916_872b);
        proof {
            lemma2_to64();
            lemma2_to64_rest();
            lemma_probability_bits(level);
            lemma_nearest_to_ratio(level, 999, 1000, 53);
        }
        ConfidenceLevel(level)
    }

    /// The confidence level of 99.5%: the binary64 value nearest to 995/1000.
    pub fn ninety_nine_point_five_percent() -> (r: Self)
        ensures
            nearest_to_ratio(r@, 995, 1000),
            r@.bits == 0x3fef_d70a_3d70_a3d7,
    {
        let level = Binary64::from_bits(0x3fef_d70a_3d70_a3d7);
        proof {
            lemma2_to64();
            lemma2_to64_rest();
            lemma_probability_bits(level);
            lemma_nearest_to_ratio(level, 995, 1000, 53);
        }
        ConfidenceLevel(level)
    }

    /// The confidence level of 99%: the binary64 value nearest to 99/100.
    pub fn ninety_nine_percent() -> (r: Self)
        ensures
            nearest_to_ratio(r@, 99, 100),
            r@.bits == 0x3fef_ae14_7ae1_47ae,
    {
        let level = Binary64::from_bits(0x3fef_ae14_7ae1_47ae);
        proof {
            lemma2_to64();
            lemma2_to64_rest();
            lemma_probability_bits(level);
            lemma_nearest_to_ratio(level, 99, 100, 53);
        }
        ConfidenceLevel(level)
    }

    /// The confidence level of 97.5%: the binary64 value nearest to 975/1000.
    pub fn ninety_seven_point_five_percent() -> (r: Self)
        ensures
            nearest_to_ratio(r@, 975, 1000),
            r@.bits == 0x3fef_3333_3333_3333,
    {
        let level = Binary64::from_bits(0x3fef_3333_3333_3333);
        proof {
            lemma2_to64();
            lemma2_to64_rest();
            lemma_probability_bits(level);
            lemma_nearest_to_ratio(level, 975, 1000, 53);
        }
        ConfidenceLevel(level)
    }

    /// The confidence level of 95%: the binary64 value nearest to 95/100.
    pub fn ninety_five_percent() -> (r: Self)
        ensures
            nearest_to_ratio(r@, 95, 100),
            r@.bits == 0x3fee_6666_6666_6666,
    {
        let level = Binary64::from_bits(0x3fee_6666_6666_6666);
        proof {
            lemma2_to64();
            lemma2_to64_rest();
            lemma_probability_bits(level);
            lemma_nearest_to_ratio(level, 95, 100, 53);
        }
        ConfidenceLevel(level)
    }

    /// The confidence level of 90%: the binary64 value nearest to 9/10.
    pub fn ninety_percent() -> (r: Self)
        ensures
            nearest_to_ratio(r@, 9, 10),
            r@.bits == 0x3fec_cccc_cccc_cccd,
    {
        let level = Binary64::from_bits(0x3fec_cccc_cccc_cccd);
        proof {
            lemma2_to64();
            lemma2_to64_rest();
            lemma_probability_bits(level);
            lemma_nearest_to_ratio(level, 9, 10, 53);
        }
        ConfidenceLevel(level)
    }

    /// The fraction that the level wraps.
    pub fn probability(&self) -> (p: Binary64)
        ensures
            p == self@,
            is_probability(p),
    {
        proof {
            use_type_invariant(self);
        }
        self.0
    }
}

impl PartialEq for ConfidenceLevel {
    /// Two levels are equal when their fractions are the same number.
    fn eq(&self, other: &Self) -> (r: bool) {
        self.0.le(other.0) && other.0.le(self.0)
    }
}

impl vstd::std_specs::cmp::PartialEqSpecImpl for ConfidenceLevel {
    open spec fn obeys_eq_spec() -> bool {
        true
    }

    open spec fn eq_spec(&self, other: &Self) -> bool {
        self@.same_number(other@)
    }
}

impl From<SignificanceLevel> for ConfidenceLevel {
    /// The confidence level complementary to a significance level: one minus
    /// its fraction.
    fn from(level: SignificanceLevel) -> (r: Self)
        ensures
            r@ == complement(level@),
    {
        ConfidenceLevel(complement_of(level.probability()))
    }
}

impl vstd::std_specs::convert::FromSpecImpl<SignificanceLevel> for ConfidenceLevel {
    open spec fn obeys_from_spec() -> bool {
        true
    }

    closed spec fn from_spec(level: SignificanceLevel) -> Self {
        ConfidenceLevel(complement(level@))
    }
}

} // verus!
