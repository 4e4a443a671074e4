use candlestore::Binary64;

fn d(x: f64) -> Binary64 {
    Binary64::from_bits(x.to_bits())
}

fn f(x: Binary64) -> f64 {
    f64::from_bits(x.to_bits())
}

/// The same number; all that are not numbers are the same.
fn agree(a: Binary64, b: f64) -> bool {
    (f(a).is_nan() && b.is_nan()) || a.to_bits() == b.to_bits()
}

fn samples() -> Vec<f64> {
    let mut v = vec![
        0.0,
        -0.0,
        1.0,
        -1.0,
        0.1,
        0.2,
        0.3,
        1.0 / 3.0,
        1e-9,
        1e8,
        1e15,
        1e300,
        -1e300,
        4503599627370496.0,
        9007199254740991.0,
        9007199254740993.0,
        18446744073709551615.0,
        0.5,
        1.5,
        2.5,
        f64::MAX,
        -f64::MAX,
        f64::MIN_POSITIVE,
        f64::MIN_POSITIVE / 2.0,
        f64::EPSILON,
        f64::INFINITY,
        f64::NEG_INFINITY,
        f64::NAN,
        f64::from_bits(1),
        f64::from_bits(0x000f_ffff_ffff_ffff),
        f64::from_bits(0x8000_0000_0000_0003),
        50_000.0,
        49_999.99,
    ];
    let mut seed: u64 = 0x1234_5678_9abc_def0;
    for i in 0..400 {
        seed = seed.wrapping_mul(6364136223846793005).wrapping_add(1442695040888963407);
        let mixed = seed ^ (seed >> 29);
        if i % 2 == 0 {
            v.push(f64::from_bits(mixed));
        } else {
            // numbers of about the same size, and a few bits
            v.push(f64::from_bits((mixed & 0x800f_ffff_ffff_ffff) | 0x3fe0_0000_0000_0000));
            v.push(((mixed >> 40) as f64) / 1024.0);
        }
    }
    v
}

#[test]
fn arithmetic_agrees_with_the_machine() {
    let v = samples();
    for &a in &v {
        for &b in &v {
            assert!(agree(d(a).plus(d(b)), a + b), "{a:e} + {b:e}");
            assert!(agree(d(a).minus(d(b)), a - b), "{a:e} - {b:e}");
        }
    }
}

#[test]
fn products_agree_with_the_machine() {
    let v = samples();
    for &a in &v {
        for &b in &v {
            assert!(agree(d(a).times(d(b)), a * b), "{a:e} * {b:e}");
        }
    }
}

#[test]
fn quotients_agree_with_the_machine() {
    let v = samples();
    for &a in &v {
        for &b in &v {
            assert!(agree(d(a).over(d(b)), a / b), "{a:e} / {b:e}");
        }
    }
}

#[test]
fn comparisons_agree_with_the_machine() {
    let v = samples();
    for &a in &v {
        for &b in &v {
            assert_eq!(d(a).lt(d(b)), a < b);
            assert_eq!(d(a).le(d(b)), a <= b);
            let (min, max) = (d(a).min(d(b)), d(a).max(d(b)));
            if a != 0.0 || b != 0.0 {
                assert!(agree(min, a.min(b)), "min {a:e} {b:e}");
                assert!(agree(max, a.max(b)), "max {a:e} {b:e}");
            } else {
                assert_eq!((f(min), f(max)), (0.0, 0.0));
            }
        }
    }
}

#[test]
fn signs_agree_with_the_machine() {
    for a in samples() {
        assert_eq!(d(a).is_nan(), a.is_nan());
        assert_eq!(d(a).is_finite(), a.is_finite());
        assert_eq!(d(a).is_infinite(), a.is_infinite());
        assert_eq!(d(a).is_zero(), a == 0.0);
        assert_eq!(d(a).is_negative(), a.is_sign_negative());
        assert_eq!(d(a).negated().to_bits(), (-a).to_bits());
        assert_eq!(d(a).abs().to_bits(), a.abs().to_bits());
        assert_eq!(d(a).unsigned(), a.abs().to_bits());
        assert_eq!(Binary64::with_sign(true, a.abs().to_bits()).to_bits(), (-a.abs()).to_bits());
    }
}

#[test]
fn conversions_agree_with_the_machine() {
    for a in samples() {
        assert_eq!(d(a).to_u64(), a as u64, "{a:e}");
        assert_eq!(d(a).ceil_to_u64(), a.ceil() as u64, "{a:e}");
        assert_eq!(d(a).round_to_u64(), a.round() as u64, "{a:e}");
    }
    for i in 0..64 {
        for k in 0..4u64 {
            let n = (1u64 << i).wrapping_add(k).wrapping_sub(2);
            assert_eq!(f(Binary64::from_u64(n)), n as f64);
        }
    }
    assert_eq!(f(Binary64::from_u64(u64::MAX)), u64::MAX as f64);
    assert_eq!(f(Binary64::from_u64(9007199254740993)), 9007199254740992.0);
}

#[test]
fn sums_and_products_commute() {
    for a in [0.1, 7.25, -3.0, 1e-300] {
        for b in [0.3, 1e16, -0.0] {
            assert_eq!(d(a).plus(d(b)).to_bits(), d(b).plus(d(a)).to_bits());
            assert_eq!(d(a).times(d(b)).to_bits(), d(b).times(d(a)).to_bits());
        }
    }
    assert_eq!(f(d(0.1).plus(d(0.2))), 0.30000000000000004);
    assert_eq!(f(d(1.0).over(d(3.0))), 0.3333333333333333);
}
