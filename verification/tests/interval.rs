use confi::{Binary64, Confidence, ConfidenceInterval, ConfidenceLevel};

fn enc(x: f64) -> Binary64 {
    Binary64::from_bits(x.to_bits())
}

fn dec(x: Binary64) -> f64 {
    f64::from_bits(x.to_bits())
}

fn render(interval: &ConfidenceInterval) -> String {
    format!(
        "Confidence Interval: {:.3e} -> {:.3e} (Confidence Level: {:.3}%)\n",
        dec(*interval.start()),
        dec(*interval.end()),
        dec(interval.confidence_level().probability()) * 100.0
    )
}

#[test]
fn test_interval_display() {
    let level = ConfidenceLevel::ninety_nine_percent();
    let range = enc(1e-5)..=enc(4e-2);

    let interval = ConfidenceInterval::new(range, level);

    println!("{}", render(&interval));
}

#[test]
fn interval_renders_its_bounds_and_level() {
    let interval = ConfidenceInterval::new(enc(1e-5)..=enc(4e-2), ConfidenceLevel::ninety_nine_percent());
    assert_eq!(
        render(&interval),
        "Confidence Interval: 1.000e-5 -> 4.000e-2 (Confidence Level: 99.000%)\n"
    );
}

#[test]
fn interval_keeps_what_it_is_given() {
    let level = ConfidenceLevel::fractional(enc(0.1)).unwrap();
    let interval = ConfidenceInterval::new(enc(1.0)..=enc(3.0), level);
    assert_eq!(dec(*interval.start()), 1.0);
    assert_eq!(dec(*interval.end()), 3.0);
    assert_eq!(interval.confidence_level(), level);
}

#[test]
fn interval_contains_its_bounds_and_what_lies_between() {
    let level = ConfidenceLevel::fractional(enc(0.1)).unwrap();
    let interval = ConfidenceInterval::new(enc(1.0)..=enc(3.0), level);
    assert!(interval.contains(enc(2.0)));
    assert!(!interval.contains(enc(0.5)));
    assert!(interval.contains(enc(1.0)));
    assert!(interval.contains(enc(3.0)));
    assert!(!interval.contains(enc(3.0000000000000004)));
    assert!(!interval.contains(enc(f64::NAN)));
}

#[test]
fn interval_width_and_half_width() {
    let level = ConfidenceLevel::ninety_five_percent();
    let interval = ConfidenceInterval::new(enc(1.0)..=enc(3.0), level);
    assert_eq!(dec(interval.width()), 2.0);
    assert_eq!(dec(interval.half_width()), 1.0);
    let interval = ConfidenceInterval::new(enc(-0.1)..=enc(0.7), level);
    assert_eq!(dec(interval.width()), 0.7 - -0.1);
    assert_eq!(dec(interval.half_width()), (0.7 - -0.1) / 2.0);
}

#[test]
fn interval_does_not_order_its_bounds() {
    let level = ConfidenceLevel::ninety_percent();
    let interval = ConfidenceInterval::new(enc(3.0)..=enc(1.0), level);
    assert_eq!(dec(interval.width()), -2.0);
    assert_eq!(dec(interval.half_width()), -1.0);
    assert!(!interval.contains(enc(2.0)));
}
