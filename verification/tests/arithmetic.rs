use confi::Binary64;

fn enc(x: f64) -> Binary64 {
    Binary64::from_bits(x.to_bits())
}

fn dec(x: Binary64) -> f64 {
    f64::from_bits(x.to_bits())
}

/// Bit for bit, unless both are NaN.
fn same(got: Binary64, want: f64) -> bool {
    (dec(got).is_nan() && want.is_nan()) || got.to_bits() == want.to_bits()
}

struct Lcg(u64);

impl Lcg {
    fn next(&mut self) -> u64 {
        self.0 = self.0.wrapping_mul(6364136223846793005).wrapping_add(1442695040888963407);
        let hi = self.0 >> 32;
        self.0 = self.0.wrapping_mul(6364136223846793005).wrapping_add(1442695040888963407);
        (hi << 32) | (self.0 >> 32)
    }
}

fn specials() -> Vec<f64> {
    vec![
        0.0,
        -0.0,
        1.0,
        -1.0,
        0.5,
        0.1,
        100.0,
        f64::MIN_POSITIVE,
        -f64::MIN_POSITIVE,
        f64::from_bits(1),
        f64::from_bits(0x8000_0000_0000_0001),
        f64::from_bits(0x000f_ffff_ffff_ffff),
        f64::from_bits(0x0010_0000_0000_0001),
        f64::MAX,
        f64::MIN,
        f64::INFINITY,
        f64::NEG_INFINITY,
        f64::NAN,
        f64::EPSILON,
        1.0 + f64::EPSILON,
        1.0 - f64::EPSILON / 2.0,
        2.0_f64.powi(53),
        2.0_f64.powi(53) + 2.0,
        2.0_f64.powi(-1022) * 1.5,
        1e308,
        -1e308,
        3.0,
        1e-320,
    ]
}

#[test]
fn minus_agrees_with_hardware_on_special_values() {
    for a in specials() {
        for b in specials() {
            let got = enc(a).minus(enc(b));
            assert!(same(got, a - b), "{a:e} - {b:e}: got {:e}, want {:e}", dec(got), a - b);
        }
    }
}

#[test]
fn minus_agrees_with_hardware_on_arbitrary_encodings() {
    let mut rng = Lcg(0x2545_f491_4f6c_dd1d);
    for _ in 0..200_000 {
        let a = f64::from_bits(rng.next());
        let b = f64::from_bits(rng.next());
        let got = enc(a).minus(enc(b));
        assert!(same(got, a - b), "{a:e} - {b:e}: got {:e}, want {:e}", dec(got), a - b);
    }
}

#[test]
fn minus_agrees_with_hardware_on_close_exponents() {
    let mut rng = Lcg(0x9e37_79b9_7f4a_7c15);
    for _ in 0..200_000 {
        let a_bits = rng.next();
        let shift = rng.next() % 140;
        let exp_a = (a_bits >> 52) & 0x7ff;
        let exp_b = (exp_a + shift).saturating_sub(70).min(0x7fe);
        let b_bits = (rng.next() & 0x800f_ffff_ffff_ffff) | (exp_b << 52);
        let a = f64::from_bits(a_bits);
        let b = f64::from_bits(b_bits);
        let got = enc(a).minus(enc(b));
        assert!(same(got, a - b), "{a:e} - {b:e}: got {:e}, want {:e}", dec(got), a - b);
    }
}

#[test]
fn minus_cancels_to_positive_zero() {
    assert_eq!(enc(2.5).minus(enc(2.5)).to_bits(), 0);
    assert_eq!(enc(-2.5).minus(enc(-2.5)).to_bits(), 0);
    assert_eq!(enc(-0.0).minus(enc(0.0)).to_bits(), (-0.0_f64).to_bits());
    assert_eq!(enc(0.0).minus(enc(-0.0)).to_bits(), 0);
}

#[test]
fn minus_rounds_ties_to_even() {
    // 2^53 + 1 is halfway between two neighbours; the even one is 2^53.
    let big = 2.0_f64.powi(53);
    assert_eq!(dec(enc(big).minus(enc(-1.0))), big);
    assert_eq!(dec(enc(big + 2.0).minus(enc(-1.0))), big + 4.0);
}

#[test]
fn minus_overflows_to_infinity() {
    assert_eq!(dec(enc(f64::MAX).minus(enc(f64::MIN))), f64::INFINITY);
    assert_eq!(dec(enc(f64::MIN).minus(enc(f64::MAX))), f64::NEG_INFINITY);
}

#[test]
fn minus_of_infinities_is_nan() {
    assert!(dec(enc(f64::INFINITY).minus(enc(f64::INFINITY))).is_nan());
    assert_eq!(dec(enc(f64::INFINITY).minus(enc(f64::NEG_INFINITY))), f64::INFINITY);
    assert_eq!(dec(enc(1.0).minus(enc(f64::INFINITY))), f64::NEG_INFINITY);
}

#[test]
fn divided_by_agrees_with_hardware_on_special_values() {
    let divisors: [u64; 9] = [1, 2, 3, 7, 10, 100, 1000, 4096, (1 << 53) - 1];
    for x in specials() {
        for c in divisors {
            let got = enc(x).divided_by(c);
            let want = x / (c as f64);
            assert!(same(got, want), "{x:e} / {c}: got {:e}, want {want:e}", dec(got));
        }
    }
}

#[test]
fn divided_by_agrees_with_hardware_on_arbitrary_encodings() {
    let mut rng = Lcg(0x1234_5678_9abc_def0);
    for _ in 0..200_000 {
        let x = f64::from_bits(rng.next());
        let c = (rng.next() >> (11 + rng.next() % 53)).max(1);
        let got = enc(x).divided_by(c);
        let want = x / (c as f64);
        assert!(same(got, want), "{x:e} / {c}: got {:e}, want {want:e}", dec(got));
    }
}

#[test]
fn divided_by_a_hundred_agrees_with_hardware() {
    let mut rng = Lcg(0x0fed_cba9_8765_4321);
    for _ in 0..200_000 {
        let x = f64::from_bits(rng.next());
        assert!(same(enc(x).divided_by(100), x / 100.0), "{x:e} / 100");
    }
    for i in 0..=100_000_u64 {
        let x = (i as f64) / 1000.0;
        assert!(same(enc(x).divided_by(100), x / 100.0), "{x:e} / 100");
    }
}

#[test]
fn divided_by_rounds_subnormal_quotients() {
    let tiny = f64::from_bits(3);
    assert_eq!(enc(tiny).divided_by(2).to_bits(), 2);
    assert_eq!(enc(f64::from_bits(1)).divided_by(2).to_bits(), 0);
    assert_eq!(enc(f64::from_bits(50)).divided_by(100).to_bits(), 0);
    assert_eq!(enc(f64::from_bits(51)).divided_by(100).to_bits(), 1);
    assert_eq!(enc(f64::from_bits(150)).divided_by(100).to_bits(), 2);
}

#[test]
fn divided_by_zero_follows_ieee() {
    assert_eq!(dec(enc(1.0).divided_by(0)), f64::INFINITY);
    assert_eq!(dec(enc(-1.0).divided_by(0)), f64::NEG_INFINITY);
    assert!(dec(enc(0.0).divided_by(0)).is_nan());
    assert!(dec(enc(f64::NAN).divided_by(3)).is_nan());
}

#[test]
fn le_agrees_with_hardware() {
    for a in specials() {
        for b in specials() {
            assert_eq!(enc(a).le(enc(b)), a <= b, "{a:e} <= {b:e}");
        }
    }
    let mut rng = Lcg(42);
    for _ in 0..200_000 {
        let a = f64::from_bits(rng.next());
        let b = f64::from_bits(rng.next());
        assert_eq!(enc(a).le(enc(b)), a <= b, "{a:e} <= {b:e}");
    }
}

#[test]
fn classification_reads_the_encoding() {
    assert!(enc(f64::NAN).is_nan_value());
    assert!(!enc(f64::INFINITY).is_nan_value());
    assert!(enc(-0.0).is_sign_negative());
    assert!(!enc(0.0).is_sign_negative());
    assert_eq!(enc(-1.5).magnitude_bits(), 1.5_f64.to_bits());
}

/// Encodings whose exponents are spread so that products and quotients fall
/// in the normal, the subnormal and the overflowing range alike.
fn spread(rng: &mut Lcg) -> f64 {
    let bits = rng.next();
    match rng.next() % 4 {
        0 => f64::from_bits(bits),
        1 => f64::from_bits((bits & 0x800f_ffff_ffff_ffff) | ((0x3ff - 40 + rng.next() % 80) << 52)),
        2 => f64::from_bits((bits & 0x800f_ffff_ffff_ffff) | ((rng.next() % 60) << 52)),
        _ => f64::from_bits((bits & 0x800f_ffff_ffff_ffff) | ((0x7fe - rng.next() % 60) << 52)),
    }
}

#[test]
fn times_agrees_with_hardware_on_special_values() {
    for a in specials() {
        for b in specials() {
            let got = enc(a).times(enc(b));
            assert!(same(got, a * b), "{a:e} * {b:e}: got {:e}, want {:e}", dec(got), a * b);
        }
    }
}

#[test]
fn times_agrees_with_hardware_on_arbitrary_encodings() {
    let mut rng = Lcg(0xdead_beef_cafe_f00d);
    for _ in 0..300_000 {
        let a = spread(&mut rng);
        let b = spread(&mut rng);
        let got = enc(a).times(enc(b));
        assert!(same(got, a * b), "{a:e} * {b:e}: got {:e}, want {:e}", dec(got), a * b);
    }
}

#[test]
fn times_rounds_into_the_subnormals() {
    let a = 2.0_f64.powi(-1000);
    for b in [2.0_f64.powi(-70), 1.5 * 2.0_f64.powi(-74), 3.0 * 2.0_f64.powi(-75), 2.0_f64.powi(-76)] {
        assert_eq!(enc(a).times(enc(b)).to_bits(), (a * b).to_bits());
    }
}

#[test]
fn over_agrees_with_hardware_on_special_values() {
    for a in specials() {
        for b in specials() {
            let got = enc(a).over(enc(b));
            assert!(same(got, a / b), "{a:e} / {b:e}: got {:e}, want {:e}", dec(got), a / b);
        }
    }
}

#[test]
fn over_agrees_with_hardware_on_arbitrary_encodings() {
    let mut rng = Lcg(0x0123_4567_89ab_cdef);
    for _ in 0..300_000 {
        let a = spread(&mut rng);
        let b = spread(&mut rng);
        let got = enc(a).over(enc(b));
        assert!(same(got, a / b), "{a:e} / {b:e}: got {:e}, want {:e}", dec(got), a / b);
    }
}

#[test]
fn over_agrees_with_divided_by() {
    let mut rng = Lcg(77);
    for _ in 0..100_000 {
        let x = spread(&mut rng);
        let c = (rng.next() >> (11 + rng.next() % 53)).max(1);
        let by_integer = enc(x).divided_by(c);
        let by_value = enc(x).over(Binary64::from_integer(c));
        assert!(same(by_integer, dec(by_value)), "{x:e} / {c}");
    }
}

#[test]
fn plus_agrees_with_hardware() {
    for a in specials() {
        for b in specials() {
            let got = enc(a).plus(enc(b));
            assert!(same(got, a + b), "{a:e} + {b:e}: got {:e}, want {:e}", dec(got), a + b);
        }
    }
    let mut rng = Lcg(0x5555_aaaa_5555_aaaa);
    for _ in 0..200_000 {
        let a = spread(&mut rng);
        let b = spread(&mut rng);
        let got = enc(a).plus(enc(b));
        assert!(same(got, a + b), "{a:e} + {b:e}: got {:e}, want {:e}", dec(got), a + b);
    }
}

#[test]
fn negated_flips_the_sign() {
    assert_eq!(enc(1.5).negated().to_bits(), (-1.5_f64).to_bits());
    assert_eq!(enc(-0.0).negated().to_bits(), 0);
    assert_eq!(enc(f64::NEG_INFINITY).negated().to_bits(), f64::INFINITY.to_bits());
    assert!(dec(enc(f64::NAN).negated()).is_nan());
}

#[test]
fn from_integer_agrees_with_hardware() {
    for n in [0_u64, 1, 2, 3, 100, (1 << 53) - 1, 1 << 53, (1 << 53) + 1, (1 << 53) + 3, u64::MAX, u64::MAX - 1024, u64::MAX - 1023] {
        assert_eq!(Binary64::from_integer(n).to_bits(), (n as f64).to_bits(), "{n}");
    }
    let mut rng = Lcg(99);
    for _ in 0..100_000 {
        let n = rng.next() >> (rng.next() % 64);
        assert_eq!(Binary64::from_integer(n).to_bits(), (n as f64).to_bits(), "{n}");
    }
}
