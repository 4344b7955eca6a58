//! Bartlett's test of the hypothesis that several groups of samples are
//! drawn from distributions of equal variance.
//!
//! The library computes the test statistic from the size, the sample
//! variance and the logarithm of the sample variance of each group, in
//! binary64 arithmetic, term by term and from left to right. Variances,
//! logarithms and the chi-squared survival function are the caller's to
//! supply.

use crate::arithmetic::{difference, integer, one, product, ratio, signed_zero, sum};
use crate::binary64::{Binary64, ONE_BITS};
use statrs::StatsError;
use vstd::prelude::*;

verus! {

/// `statrs::StatsError`, the error with which statrs refuses the parameters
/// of a distribution. The library carries it and does not look inside.
#[verifier::external_type_specification]
#[verifier::external_body]
pub struct ExStatsError(StatsError);

/// Why a Bartlett test gave no result.
#[derive(Debug)]
pub enum BartlettTestError {
    /// At least two groups are needed; this many were given.
    Input(usize),
    /// The chi-squared distribution could not be had.
    Stats(StatsError),
}

/// What the test reads of one group of samples.
#[derive(Clone, Copy, Debug)]
pub struct SampleGroup {
    /// The number of samples.
    pub size: usize,
    /// The sample variance, with `size - 1` as its denominator.
    pub variance: Binary64,
    /// The natural logarithm of the sample variance.
    pub log_variance: Binary64,
}

/// The outcome of a Bartlett test.
#[derive(Clone, Copy, Debug)]
pub struct BartlettTestResult {
    /// Bartlett's statistic.
    pub statistic: Binary64,
    /// The probability, under equal variances, of a statistic at least as
    /// large: what the chi-squared survival function gave for it.
    pub pvalue: Binary64,
}

/// The degrees of freedom of one group: its size less one.
pub open spec fn group_freedom(group: SampleGroup) -> Binary64 {
    difference(integer(group.size as u64), one())
}

/// The sizes of the first `n` groups, added up.
pub open spec fn total_size(groups: Seq<SampleGroup>, n: nat) -> Binary64
    decreases n,
{
    if n == 0 {
        signed_zero(false)
    } else {
        sum(total_size(groups, (n - 1) as nat), integer(groups[n - 1].size as u64))
    }
}

/// The variances of the first `n` groups, each weighted by the group's
/// degrees of freedom, added up.
pub open spec fn weighted_variances(groups: Seq<SampleGroup>, n: nat) -> Binary64
    decreases n,
{
    if n == 0 {
        signed_zero(false)
    } else {
        sum(
            weighted_variances(groups, (n - 1) as nat),
            product(group_freedom(groups[n - 1]), groups[n - 1].variance),
        )
    }
}

/// The logarithms of the variances of the first `n` groups, each weighted by
/// the group's degrees of freedom, added up.
pub open spec fn weighted_logarithms(groups: Seq<SampleGroup>, n: nat) -> Binary64
    decreases n,
{
    if n == 0 {
        signed_zero(false)
    } else {
        sum(
            weighted_logarithms(groups, (n - 1) as nat),
            product(group_freedom(groups[n - 1]), groups[n - 1].log_variance),
        )
    }
}

/// The reciprocals of the degrees of freedom of the first `n` groups, added
/// up.
pub open spec fn reciprocal_freedoms(groups: Seq<SampleGroup>, n: nat) -> Binary64
    decreases n,
{
    if n == 0 {
        signed_zero(false)
    } else {
        sum(reciprocal_freedoms(groups, (n - 1) as nat), ratio(one(), group_freedom(groups[n - 1])))
    }
}

/// The degrees of freedom within the groups: the number of all samples less
/// the number of groups.
pub open spec fn within_freedom(groups: Seq<SampleGroup>) -> Binary64 {
    difference(total_size(groups, groups.len()), integer(groups.len() as u64))
}

/// The degrees of freedom between the groups, which are those of the
/// chi-squared distribution that the statistic is held against: the number
/// of groups less one.
pub open spec fn between_freedom(count: usize) -> Binary64 {
    difference(integer(count as u64), one())
}

/// The pooled variance: the weighted variances over the degrees of freedom
/// within the groups.
pub open spec fn pooled(groups: Seq<SampleGroup>) -> Binary64 {
    ratio(weighted_variances(groups, groups.len()), within_freedom(groups))
}

/// The numerator of the statistic.
pub open spec fn numerator(groups: Seq<SampleGroup>, log_pooled: Binary64) -> Binary64 {
    difference(
        product(within_freedom(groups), log_pooled),
        weighted_logarithms(groups, groups.len()),
    )
}

/// The correction factor that the numerator is divided by.
pub open spec fn correction(groups: Seq<SampleGroup>) -> Binary64 {
    sum(
        one(),
        product(
            ratio(one(), product(integer(3), between_freedom(groups.len() as usize))),
            difference(
                reciprocal_freedoms(groups, groups.len()),
                ratio(one(), within_freedom(groups)),
            ),
        ),
    )
}

/// Bartlett's statistic, given the logarithm of the pooled variance.
pub open spec fn statistic(groups: Seq<SampleGroup>, log_pooled: Binary64) -> Binary64 {
    ratio(numerator(groups, log_pooled), correction(groups))
}

/// The degrees of freedom of the chi-squared distribution for a test on
/// `count` groups, or the error that carries the count where it is below
/// two.
pub fn degrees_of_freedom(count: usize) -> (r: Result<Binary64, BartlettTestError>)
    ensures
        match r {
            Ok(f) => count >= 2 && f == between_freedom(count),
            Err(e) => count < 2 && e == BartlettTestError::Input(count),
        },
{
    if count < 2 {
        return Err(BartlettTestError::Input(count));
    }
    Ok(Binary64::from_integer(count as u64).minus(Binary64::from_bits(ONE_BITS)))
}

/// The pooled variance of two groups or more, or the error that carries
/// their number where they are fewer.
pub fn pooled_variance(groups: &Vec<SampleGroup>) -> (r: Result<Binary64, BartlettTestError>)
    ensures
        match r {
            Ok(v) => groups.len() >= 2 && v == pooled(groups@),
            Err(e) => groups.len() < 2 && e == BartlettTestError::Input(groups.len()),
        },
{
    let count: usize = groups.len();
    if count < 2 {
        return Err(BartlettTestError::Input(count));
    }
    let unity = Binary64::from_bits(ONE_BITS);
    let mut total = Binary64::from_bits(0);
    let mut weighted = Binary64::from_bits(0);
    let mut i: usize = 0;
    while i < count
        invariant
            i <= count == groups.len(),
            unity == one(),
            total == total_size(groups@, i as nat),
            weighted == weighted_variances(groups@, i as nat),
        decreases count - i,
    {
        let group = groups[i];
        let size = Binary64::from_integer(group.size as u64);
        total = total.plus(size);
        weighted = weighted.plus(size.minus(unity).times(group.variance));
        i = i + 1;
    }
    Ok(weighted.over(total.minus(Binary64::from_integer(count as u64))))
}

/// Bartlett's statistic of two groups or more, given the logarithm of their
/// pooled variance, or the error that carries their number where they are
/// fewer.
pub fn bartlett_statistic(groups: &Vec<SampleGroup>, log_pooled: Binary64) -> (r: Result<
    Binary64,
    BartlettTestError,
>)
    ensures
        match r {
            Ok(t) => groups.len() >= 2 && t == statistic(groups@, log_pooled),
            Err(e) => groups.len() < 2 && e == BartlettTestError::Input(groups.len()),
        },
{
    let count: usize = groups.len();
    if count < 2 {
        return Err(BartlettTestError::Input(count));
    }
    let unity = Binary64::from_bits(ONE_BITS);
    let mut total = Binary64::from_bits(0);
    let mut logarithms = Binary64::from_bits(0);
    let mut reciprocals = Binary64::from_bits(0);
    let mut i: usize = 0;
    while i < count
        invariant
            i <= count == groups.len(),
            unity == one(),
            total == total_size(groups@, i as nat),
            logarithms == weighted_logarithms(groups@, i as nat),
            reciprocals == reciprocal_freedoms(groups@, i as nat),
        decreases count - i,
    {
        let group = groups[i];
        let size = Binary64::from_integer(group.size as u64);
        let freedom = size.minus(unity);
        total = total.plus(size);
        logarithms = logarithms.plus(freedom.times(group.log_variance));
        reciprocals = reciprocals.plus(unity.over(freedom));
        i = i + 1;
    }
    let groups_f = Binary64::from_integer(count as u64);
    let within = total.minus(groups_f);
    let upper = within.times(log_pooled).minus(logarithms);
    let lower = unity.plus(
        unity.over(Binary64::from_integer(3).times(groups_f.minus(unity))).times(
            reciprocals.minus(unity.over(within)),
        ),
    );
    Ok(upper.over(lower))
}

/// The result of the test from its statistic and from what the chi-squared
/// distribution gave for it: the survival function's value as the p-value,
/// or the distribution's refusal as the error.
pub fn bartlett_result(statistic: Binary64, survival: Result<Binary64, StatsError>) -> (r: Result<
    BartlettTestResult,
    BartlettTestError,
>)
    ensures
        match survival {
            Ok(p) => r == Ok::<BartlettTestResult, BartlettTestError>(
                BartlettTestResult { statistic, pvalue: p },
            ),
            Err(e) => r == Err::<BartlettTestResult, BartlettTestError>(BartlettTestError::Stats(e)),
        },
{
    match survival {
        Ok(pvalue) => Ok(BartlettTestResult { statistic, pvalue }),
        Err(e) => Err(BartlettTestError::Stats(e)),
    }
}

} // verus!
