use confi::bartlett::{bartlett_result, bartlett_statistic, degrees_of_freedom, pooled_variance};
use confi::{BartlettTestError, BartlettTestResult, Binary64, SampleGroup};
use ndarray::Array1;
use statrs::distribution::{ChiSquared, ContinuousCDF};
use statrs::StatsError;

fn enc(x: f64) -> Binary64 {
    Binary64::from_bits(x.to_bits())
}

fn dec(x: Binary64) -> f64 {
    f64::from_bits(x.to_bits())
}

fn summarise(samples: &[f64]) -> SampleGroup {
    let variance = Array1::from(samples.to_vec()).var(1.0);
    SampleGroup { size: samples.len(), variance: enc(variance), log_variance: enc(variance.ln()) }
}

/// The whole test: variances, logarithms and the survival function from
/// outside, the statistic from the library.
fn bartlett_test(inputs: &[&[f64]]) -> Result<BartlettTestResult, BartlettTestError> {
    let groups: Vec<SampleGroup> = inputs.iter().map(|samples| summarise(samples)).collect();
    let pooled = pooled_variance(&groups)?;
    let statistic = bartlett_statistic(&groups, enc(dec(pooled).ln()))?;
    let freedom = degrees_of_freedom(groups.len())?;
    let survival = ChiSquared::new(dec(freedom)).map(|chi2| enc(chi2.sf(dec(statistic))));
    bartlett_result(statistic, survival)
}

/// The statistic in the machine's own arithmetic, term by term as the
/// library adds them.
fn reference_statistic(groups: &[SampleGroup]) -> f64 {
    let k = groups.len() as f64;
    let mut total = 0.0;
    let mut weighted = 0.0;
    let mut logarithms = 0.0;
    let mut reciprocals = 0.0;
    for group in groups {
        let n = group.size as f64;
        total += n;
        weighted += (n - 1.0) * dec(group.variance);
        logarithms += (n - 1.0) * dec(group.log_variance);
        reciprocals += 1.0 / (n - 1.0);
    }
    let pooled = weighted / (total - k);
    let numerator = (total - k) * pooled.ln() - logarithms;
    let correction = 1.0 + 1.0 / (3.0 * (k - 1.0)) * (reciprocals - 1.0 / (total - k));
    numerator / correction
}

struct Lcg(u64);

impl Lcg {
    /// A number in (0, 1).
    fn uniform(&mut self) -> f64 {
        self.0 = self.0.wrapping_mul(6364136223846793005).wrapping_add(1442695040888963407);
        ((self.0 >> 11) as f64 + 0.5) / 9007199254740992.0
    }

    /// A standard normal deviate, by the method of Box and Muller.
    fn normal(&mut self) -> f64 {
        let u = self.uniform();
        let v = self.uniform();
        (-2.0 * u.ln()).sqrt() * (2.0 * std::f64::consts::PI * v).cos()
    }
}

/// `count` normal deviates, shifted and scaled to the sample variance
/// `variance` exactly up to rounding.
fn sample_with_variance(rng: &mut Lcg, count: usize, variance: f64) -> Vec<f64> {
    let raw: Vec<f64> = (0..count).map(|_| rng.normal()).collect();
    let scale = (variance / Array1::from(raw.clone()).var(1.0)).sqrt();
    raw.iter().map(|x| x * scale).collect()
}

#[test]
fn one_group_is_refused_with_its_count() {
    let only = [1.0, 2.0, 3.0, 4.0];
    match bartlett_test(&[&only]) {
        Err(BartlettTestError::Input(1)) => {}
        other => panic!("one group gave {other:?}"),
    }
    let groups = vec![summarise(&only)];
    assert!(matches!(pooled_variance(&groups), Err(BartlettTestError::Input(1))));
    assert!(matches!(bartlett_statistic(&groups, enc(0.0)), Err(BartlettTestError::Input(1))));
    assert!(matches!(degrees_of_freedom(1), Err(BartlettTestError::Input(1))));
}

#[test]
fn no_group_is_refused_with_its_count() {
    assert!(matches!(bartlett_test(&[]), Err(BartlettTestError::Input(0))));
    assert!(matches!(pooled_variance(&Vec::new()), Err(BartlettTestError::Input(0))));
    assert!(matches!(degrees_of_freedom(0), Err(BartlettTestError::Input(0))));
}

#[test]
fn degrees_of_freedom_are_the_groups_less_one() {
    assert_eq!(dec(degrees_of_freedom(2).unwrap()), 1.0);
    assert_eq!(dec(degrees_of_freedom(3).unwrap()), 2.0);
    assert_eq!(dec(degrees_of_freedom(10).unwrap()), 9.0);
}

#[test]
fn matching_variances_are_not_rejected() {
    let mut rng = Lcg(2024);
    let first = sample_with_variance(&mut rng, 50, 1.0);
    let second = sample_with_variance(&mut rng, 50, 1.0);
    let result = bartlett_test(&[&first, &second]).unwrap();
    assert!(dec(result.pvalue) > 0.5, "p = {}", dec(result.pvalue));
    assert!(dec(result.pvalue) <= 1.0);
}

#[test]
fn different_variances_are_rejected() {
    let mut rng = Lcg(7);
    let narrow: Vec<f64> = (0..12).map(|_| 2.0 * rng.uniform() - 1.0).collect();
    let wide: Vec<f64> = (0..12).map(|_| 200.0 * rng.uniform() - 100.0).collect();
    let result = bartlett_test(&[&narrow, &wide]).unwrap();
    assert!(dec(result.pvalue) < 0.05, "p = {}", dec(result.pvalue));
    assert!(dec(result.statistic) > 3.841);
}

#[test]
fn three_groups_match_the_published_values() {
    let a = [8.88, 9.12, 9.04, 8.98, 9.00, 9.08, 9.01, 8.85, 9.06, 8.99];
    let b = [8.88, 8.95, 9.29, 9.44, 9.15, 9.58, 8.36, 9.18, 8.67, 9.05];
    let c = [8.95, 9.12, 8.95, 8.85, 9.03, 8.84, 9.07, 8.98, 8.86, 8.98];
    let result = bartlett_test(&[&a, &b, &c]).unwrap();
    assert!((dec(result.statistic) - 22.789434813726768).abs() < 0.0005, "T = {}", dec(result.statistic));
    assert!((dec(result.pvalue) - 1.1254782518834628e-05).abs() < 0.0005, "p = {}", dec(result.pvalue));
    // and much closer than three decimals
    assert!((dec(result.statistic) - 22.789434813726768).abs() < 1e-9);
    assert!((dec(result.pvalue) / 1.1254782518834628e-05 - 1.0).abs() < 1e-6);
}

#[test]
fn pooled_variance_weights_by_degrees_of_freedom() {
    let groups = vec![
        SampleGroup { size: 3, variance: enc(2.0), log_variance: enc(2.0_f64.ln()) },
        SampleGroup { size: 5, variance: enc(0.5), log_variance: enc(0.5_f64.ln()) },
    ];
    // (2 * 2.0 + 4 * 0.5) / (8 - 2)
    assert_eq!(dec(pooled_variance(&groups).unwrap()), 1.0);
}

#[test]
fn statistic_of_a_hand_computed_case() {
    let groups = vec![
        SampleGroup { size: 3, variance: enc(2.0), log_variance: enc(2.0_f64.ln()) },
        SampleGroup { size: 5, variance: enc(0.5), log_variance: enc(0.5_f64.ln()) },
    ];
    // numerator 6 ln 1 - (2 ln 2 + 4 ln 0.5) = 2 ln 2; correction 1 + (1/2 + 1/4 - 1/6) / 3
    let expected = 2.0 * 2.0_f64.ln() / (1.0 + (0.5 + 0.25 - 1.0 / 6.0) / 3.0);
    let got = dec(bartlett_statistic(&groups, enc(0.0)).unwrap());
    assert!((got - expected).abs() < 1e-15, "{got} against {expected}");
}

#[test]
fn statistic_is_the_formula_in_binary64_arithmetic() {
    let mut rng = Lcg(5);
    for round in 0..2_000 {
        let count = 2 + round % 6;
        let groups: Vec<SampleGroup> = (0..count)
            .map(|_| {
                let size = 2 + (rng.uniform() * 40.0) as usize;
                let samples: Vec<f64> = (0..size).map(|_| rng.normal() * (1.0 + rng.uniform())).collect();
                summarise(&samples)
            })
            .collect();
        let pooled = dec(pooled_variance(&groups).unwrap());
        let got = dec(bartlett_statistic(&groups, enc(pooled.ln())).unwrap());
        assert_eq!(got.to_bits(), reference_statistic(&groups).to_bits());
    }
}

#[test]
fn a_group_of_one_sample_gives_no_finite_statistic() {
    let groups = vec![
        SampleGroup { size: 1, variance: enc(f64::NAN), log_variance: enc(f64::NAN) },
        SampleGroup { size: 5, variance: enc(0.5), log_variance: enc(0.5_f64.ln()) },
    ];
    let pooled = pooled_variance(&groups).unwrap();
    assert!(!dec(pooled).is_finite());
    let statistic = bartlett_statistic(&groups, enc(dec(pooled).ln())).unwrap();
    assert!(!dec(statistic).is_finite());
}

#[test]
fn a_refused_distribution_becomes_the_error() {
    match bartlett_result(enc(1.0), Err(StatsError::BadParams)) {
        Err(BartlettTestError::Stats(StatsError::BadParams)) => {}
        other => panic!("a refusal gave {other:?}"),
    }
    let result = bartlett_result(enc(1.5), Ok(enc(0.25))).unwrap();
    assert_eq!(dec(result.statistic), 1.5);
    assert_eq!(dec(result.pvalue), 0.25);
}
