use confi::{Binary64, ConfidenceError, ConfidenceLevel, SignificanceLevel};

fn enc(x: f64) -> Binary64 {
    Binary64::from_bits(x.to_bits())
}

fn dec(x: Binary64) -> f64 {
    f64::from_bits(x.to_bits())
}

#[test]
fn fractional_keeps_a_probability() {
    for x in [0.0, -0.0, 1e-300, 0.1, 0.5, 0.95, 1.0] {
        let level = ConfidenceLevel::fractional(enc(x)).unwrap();
        assert_eq!(level.probability().to_bits(), x.to_bits());
        let level = SignificanceLevel::fractional(enc(x)).unwrap();
        assert_eq!(level.probability().to_bits(), x.to_bits());
    }
}

#[test]
fn fractional_rejects_what_is_no_probability() {
    for x in [-0.1, 1.1, f64::NAN, f64::INFINITY, f64::NEG_INFINITY, -5e-324, 1.0 + f64::EPSILON] {
        match ConfidenceLevel::fractional(enc(x)) {
            Err(ConfidenceError::Value(Some(given))) => assert_eq!(given.to_bits(), x.to_bits()),
            other => panic!("{x:e} gave {other:?}"),
        }
        match SignificanceLevel::fractional(enc(x)) {
            Err(ConfidenceError::Value(Some(given))) => assert_eq!(given.to_bits(), x.to_bits()),
            other => panic!("{x:e} gave {other:?}"),
        }
    }
}

#[test]
fn percentage_divides_by_a_hundred() {
    for x in [0.0, 10.0, 2.5, 97.5, 99.9, 100.0, 33.333] {
        let level = ConfidenceLevel::percentage(enc(x)).unwrap();
        assert_eq!(dec(level.probability()), x / 100.0);
        let level = SignificanceLevel::percentage(enc(x)).unwrap();
        assert_eq!(dec(level.probability()), x / 100.0);
    }
}

#[test]
fn percentage_rejects_what_is_no_probability() {
    for x in [-10.0, 100.00000000000001, 110.0, f64::INFINITY, -1e-300] {
        match ConfidenceLevel::percentage(enc(x)) {
            Err(ConfidenceError::Value(Some(given))) => assert_eq!(dec(given), x / 100.0),
            other => panic!("{x:e} gave {other:?}"),
        }
        match SignificanceLevel::percentage(enc(x)) {
            Err(ConfidenceError::Value(Some(given))) => assert_eq!(dec(given), x / 100.0),
            other => panic!("{x:e} gave {other:?}"),
        }
    }
    match ConfidenceLevel::percentage(enc(f64::NAN)) {
        Err(ConfidenceError::Value(Some(given))) => assert!(dec(given).is_nan()),
        other => panic!("NaN gave {other:?}"),
    }
}

#[test]
fn percentage_of_a_vanishing_negative_is_negative_zero() {
    // -5e-324 / 100 rounds to -0.0, which is not below zero.
    let level = ConfidenceLevel::percentage(enc(-5e-324)).unwrap();
    assert_eq!(level.probability().to_bits(), (-0.0_f64).to_bits());
}

#[test]
fn fractional_equals_percentage_of_the_hundredfold() {
    for x in [0.0, 0.1, 0.25, 0.5, 0.75, 0.9, 0.95, 0.99, 1.0] {
        let from_fraction = ConfidenceLevel::fractional(enc(x)).unwrap();
        let from_percentage = ConfidenceLevel::percentage(enc(100.0 * x)).unwrap();
        assert_eq!(from_fraction, from_percentage);
        let from_fraction = SignificanceLevel::fractional(enc(x)).unwrap();
        let from_percentage = SignificanceLevel::percentage(enc(100.0 * x)).unwrap();
        assert_eq!(from_fraction, from_percentage);
    }
}

#[test]
fn named_confidence_levels() {
    assert_eq!(dec(ConfidenceLevel::ninety_nine_point_nine_percent().probability()), 0.999);
    assert_eq!(dec(ConfidenceLevel::ninety_nine_point_five_percent().probability()), 0.995);
    assert_eq!(dec(ConfidenceLevel::ninety_nine_percent().probability()), 0.99);
    assert_eq!(dec(ConfidenceLevel::ninety_seven_point_five_percent().probability()), 0.975);
    assert_eq!(dec(ConfidenceLevel::ninety_five_percent().probability()), 0.95);
    assert_eq!(dec(ConfidenceLevel::ninety_percent().probability()), 0.9);
}

#[test]
fn named_significance_levels() {
    assert_eq!(dec(SignificanceLevel::zero_point_one_percent().probability()), 0.001);
    assert_eq!(dec(SignificanceLevel::zero_point_five_percent().probability()), 0.005);
    assert_eq!(dec(SignificanceLevel::one_percent().probability()), 0.01);
    assert_eq!(dec(SignificanceLevel::two_point_five_percent().probability()), 0.025);
    assert_eq!(dec(SignificanceLevel::five_percent().probability()), 0.05);
    assert_eq!(dec(SignificanceLevel::ten_percent().probability()), 0.1);
}

#[test]
fn conversion_takes_the_complement() {
    let confidence = ConfidenceLevel::fractional(enc(0.95)).unwrap();
    let significance = SignificanceLevel::from(confidence);
    assert_eq!(dec(significance.probability()), 1.0 - 0.95);
    let significance = SignificanceLevel::fractional(enc(0.001)).unwrap();
    let confidence = ConfidenceLevel::from(significance);
    assert_eq!(dec(confidence.probability()), 1.0 - 0.001);
    let sure = ConfidenceLevel::fractional(enc(1.0)).unwrap();
    assert_eq!(SignificanceLevel::from(sure).probability().to_bits(), 0);
}

#[test]
fn conversion_and_back_returns_within_tolerance() {
    let mut p = 0.0_f64;
    while p <= 1.0 {
        let confidence = ConfidenceLevel::fractional(enc(p)).unwrap();
        let back = ConfidenceLevel::from(SignificanceLevel::from(confidence));
        assert!((dec(back.probability()) - p).abs() <= 1e-9, "{p}");
        let significance = SignificanceLevel::fractional(enc(p)).unwrap();
        let back = SignificanceLevel::from(ConfidenceLevel::from(significance));
        assert!((dec(back.probability()) - p).abs() <= 1e-9, "{p}");
        p += 0.000_976_562_5 * 0.37;
    }
}

#[test]
fn conversion_and_back_is_exact_from_one_half_up() {
    for p in [0.5, 0.625, 0.9, 0.95, 0.999, 1.0] {
        let confidence = ConfidenceLevel::fractional(enc(p)).unwrap();
        let back = ConfidenceLevel::from(SignificanceLevel::from(confidence));
        assert_eq!(dec(back.probability()), p);
    }
}

#[test]
fn levels_compare_by_value() {
    let positive = ConfidenceLevel::fractional(enc(0.0)).unwrap();
    let negative = ConfidenceLevel::fractional(enc(-0.0)).unwrap();
    assert_eq!(positive, negative);
    assert_ne!(positive, ConfidenceLevel::ninety_percent());
    assert_eq!(
        SignificanceLevel::ten_percent(),
        SignificanceLevel::percentage(enc(10.0)).unwrap()
    );
}

#[test]
fn percentage_takes_what_vanishes_below_zero() {
    // fifty smallest subnormals below zero: the hundredth is a tie, and
    // rounds to the even neighbour, negative zero
    let least = ConfidenceLevel::percentage(Binary64::from_bits(0x8000_0000_0000_0032)).unwrap();
    assert_eq!(least.probability().to_bits(), 0x8000_0000_0000_0000);
    assert!(ConfidenceLevel::percentage(Binary64::from_bits(0x8000_0000_0000_0033)).is_err());
    assert!(SignificanceLevel::percentage(Binary64::from_bits(0x8000_0000_0000_0032)).is_ok());
    assert!(SignificanceLevel::percentage(Binary64::from_bits(0x8000_0000_0000_0033)).is_err());
}

#[test]
fn percentage_takes_one_hundred_and_nothing_above() {
    let hundred = 100.0_f64;
    let above = f64::from_bits(hundred.to_bits() + 1);
    assert_eq!(dec(ConfidenceLevel::percentage(enc(hundred)).unwrap().probability()), 1.0);
    match ConfidenceLevel::percentage(enc(above)) {
        Err(ConfidenceError::Value(Some(given))) => assert_eq!(dec(given), 1.0 + f64::EPSILON),
        other => panic!("{above:e} gave {other:?}"),
    }
}

#[test]
fn percentage_of_the_hundredfold_is_within_tolerance() {
    // the product is rounded, so the hundredth need not be the fraction again
    let x = 0.4494910647887381_f64;
    let hundredfold = enc(100.0).times(enc(x));
    assert_eq!(dec(hundredfold), 100.0 * x);
    let level = ConfidenceLevel::percentage(hundredfold).unwrap();
    assert_ne!(dec(level.probability()), x);
    assert!((dec(level.probability()) - x).abs() <= 1e-9);

    let mut x = 0.0_f64;
    while x <= 1.0 {
        let level = SignificanceLevel::percentage(enc(100.0).times(enc(x))).unwrap();
        assert!((dec(level.probability()) - x).abs() <= 1e-9, "{x}");
        x += 0.000_123_456_7;
    }
    let level = ConfidenceLevel::percentage(enc(100.0).times(enc(1.0))).unwrap();
    assert_eq!(dec(level.probability()), 1.0);
}

#[test]
fn cumulative_probability_is_the_complement() {
    let level = SignificanceLevel::five_percent();
    assert_eq!(dec(level.cumulative_probability()), 1.0 - 0.05);
    let none = SignificanceLevel::fractional(enc(0.0)).unwrap();
    assert_eq!(dec(none.cumulative_probability()), 1.0);
    let all = SignificanceLevel::fractional(enc(1.0)).unwrap();
    assert_eq!(dec(all.cumulative_probability()), 0.0);
}

#[test]
fn standard_deviations_of_the_named_levels() {
    let normal = statrs::distribution::Normal::new(0.0, 1.0).unwrap();
    let deviations = |level: SignificanceLevel| {
        statrs::distribution::ContinuousCDF::inverse_cdf(&normal, dec(level.cumulative_probability()))
    };
    assert!((deviations(SignificanceLevel::five_percent()) - 1.6448536269514722).abs() < 1e-6);
    assert!((deviations(SignificanceLevel::two_point_five_percent()) - 1.959963984540054).abs() < 1e-6);
    assert!((deviations(SignificanceLevel::zero_point_one_percent()) - 3.090232306167813).abs() < 1e-6);
    assert_eq!(deviations(SignificanceLevel::fractional(enc(0.5)).unwrap()), 0.0);
}
