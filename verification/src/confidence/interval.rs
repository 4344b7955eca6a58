//! A [`ConfidenceInterval`] describes the range of values a quantity can
//! take, expressed to a given [`ConfidenceLevel`].

use crate::arithmetic::{difference, quotient};
use crate::binary64::Binary64;
use crate::confidence::ConfidenceLevel;
use std::ops::RangeInclusive;
use vstd::prelude::*;

verus! {

/// `RangeInclusive::into_inner` of the standard library: the pair it returns
/// is taken to be the lower and the upper bound that the range was made of.
pub assume_specification<Idx>[ RangeInclusive::<Idx>::into_inner ](
    range: RangeInclusive<Idx>,
) -> (bounds: (Idx, Idx))
    ensures
        bounds.0 == range@.start,
        bounds.1 == range@.end,
;

/// A range of possible values expected to enclose the estimated parameter,
/// with the level of confidence that it does. The bounds are kept as given:
/// nothing asks that the lower one is not above the upper one.
#[derive(Clone, Copy, Debug)]
pub struct ConfidenceInterval {
    lower: Binary64,
    upper: Binary64,
    confidence_level: ConfidenceLevel,
}

/// What a range stated to a level of confidence offers.
pub trait Confidence: Sized {
    /// The lower bound, inclusive.
    spec fn lower(&self) -> Binary64;

    /// The upper bound, inclusive.
    spec fn upper(&self) -> Binary64;

    /// The level of confidence that the range encloses the true value.
    spec fn level(&self) -> ConfidenceLevel;

    /// Keeps the bounds of `range` and the level as they are given.
    fn new(range: RangeInclusive<Binary64>, confidence_level: ConfidenceLevel) -> (r: Self)
        ensures
            r.lower() == range@.start,
            r.upper() == range@.end,
            r.level() == confidence_level,
    ;

    /// The upper bound minus the lower bound.
    fn width(&self) -> (w: Binary64)
        ensures
            w == difference(self.upper(), self.lower()),
    {
        self.end().minus(*self.start())
    }

    /// Half the width.
    fn half_width(&self) -> (h: Binary64)
        ensures
            h == quotient(difference(self.upper(), self.lower()), 2),
    {
        self.width().divided_by(2)
    }

    /// The lower bound.
    fn start(&self) -> (s: &Binary64)
        ensures
            *s == self.lower(),
    ;

    /// The upper bound.
    fn end(&self) -> (e: &Binary64)
        ensures
            *e == self.upper(),
    ;

    /// The level of confidence.
    fn confidence_level(&self) -> (c: ConfidenceLevel)
        ensures
            c == self.level(),
    ;

    /// Whether `val` lies between the bounds, both included. No NaN does,
    /// and nothing lies between bounds of which one is a NaN.
    fn contains(&self, val: Binary64) -> (r: bool)
        ensures
            r == (val.le_spec(self.upper()) && self.lower().le_spec(val)),
    {
        val.le(*self.end()) && self.start().le(val)
    }
}

impl Confidence for ConfidenceInterval {
    closed spec fn lower(&self) -> Binary64 {
        self.lower
    }

    closed spec fn upper(&self) -> Binary64 {
        self.upper
    }

    closed spec fn level(&self) -> ConfidenceLevel {
        self.confidence_level
    }

    fn new(range: RangeInclusive<Binary64>, confidence_level: ConfidenceLevel) -> (r: Self) {
        let (lower, upper) = range.into_inner();
        Self { lower, upper, confidence_level }
    }

    fn start(&self) -> (s: &Binary64) {
        &self.lower
    }

    fn end(&self) -> (e: &Binary64) {
        &self.upper
    }

    fn confidence_level(&self) -> (c: ConfidenceLevel) {
        self.confidence_level
    }
}

} // verus!
