use mega_bench_reporter::double::Double;

fn d(x: f64) -> Double {
    Double::from_bits(x.to_bits())
}

/// The same number, or both not a number.
fn same(a: Double, b: f64) -> bool {
    (a.is_nan() && b.is_nan()) || a.to_bits() == b.to_bits()
}

/// Values at and around the borders, and a few thousand pseudo-random ones.
fn values() -> Vec<f64> {
    let mut all = vec![
        0.0, 1.0, 0.5, 2.0, 10.0, 100.0, 0.1, 0.2, 0.3, 1.0 / 3.0, 2.3, 1e-9, 1e300, 1e-300,
        f64::MAX, f64::MIN_POSITIVE, f64::EPSILON, f64::INFINITY, f64::NAN,
        f64::from_bits(1), f64::from_bits(0x000f_ffff_ffff_ffff), 9007199254740992.0,
        9007199254740993.0, 4503599627370495.5, 0.9999999999999999, 1.0000000000000002,
    ];
    let mut seed: u64 = 0x9e37_79b9_7f4a_7c15;
    for _ in 0..60 {
        seed ^= seed << 13;
        seed ^= seed >> 7;
        seed ^= seed << 17;
        all.push(f64::from_bits(seed));
        // Around one, where ratios lie.
        all.push(1.0 + (seed >> 40) as f64 / 16_777_216.0);
    }
    let negated: Vec<f64> = all.iter().map(|x| -x).collect();
    all.extend(negated);
    all
}

#[test]
fn arithmetic_agrees_with_the_machine() {
    for &a in &values() {
        for &b in &values() {
            assert!(same(d(a).plus(d(b)), a + b), "{a:e} + {b:e}");
            assert!(same(d(a).minus(d(b)), a - b), "{a:e} - {b:e}");
            assert!(same(d(a).times(d(b)), a * b), "{a:e} * {b:e}");
            assert!(same(d(a).over(d(b)), a / b), "{a:e} / {b:e}");
        }
    }
}

#[test]
fn comparisons_agree_with_the_machine() {
    for &a in &values() {
        for &b in &values() {
            assert_eq!(d(a).lt(d(b)), a < b, "{a:e} < {b:e}");
            assert_eq!(d(a).le(d(b)), a <= b, "{a:e} <= {b:e}");
            let max = d(a).max(d(b));
            // Of two zeros either may come out.
            assert!(same(max, a.max(b)) || (a == 0.0 && b == 0.0), "max {a:e} {b:e}");
            let min = d(a).min(d(b));
            assert!(same(min, a.min(b)) || (a == 0.0 && b == 0.0), "min {a:e} {b:e}");
        }
        assert_eq!(d(a).is_nan(), a.is_nan());
        assert_eq!(d(a).is_finite(), a.is_finite());
        assert!(same(d(a).negate(), -a));
        assert!(same(d(a).abs(), a.abs()));
        assert!(same(d(a).round(), a.round()), "round {a:e}");
        if a.is_sign_positive() && a < 1e15 {
            assert_eq!(d(a).ceil_to_u64(), a.ceil() as u64, "ceil {a:e}");
        }
    }
}

#[test]
fn integers_round_to_the_nearest_double() {
    for n in [
        0u64, 1, 2, 3, 10, 56, 25_000, 9007199254740991, 9007199254740993, 9007199254740995,
        u64::MAX, u64::MAX - 1024, u64::MAX - 1023, 1 << 63,
    ] {
        assert_eq!(Double::from_u64(n).to_bits(), (n as f64).to_bits(), "{n}");
    }
}

#[test]
fn fixed_decimals_agree_with_the_formatter() {
    let printable = values().into_iter().filter(|x| x.abs() < 1e15 || !x.is_finite());
    for x in printable.chain([0.125, 0.375, 2.5, 3.5, 0.005, 1.005, 15.0, -0.001, 99.95]) {
        assert_eq!(d(x).fixed(0, false), format!("{x:.0}"), "{x:e}");
        assert_eq!(d(x).fixed(1, false), format!("{x:.1}"), "{x:e}");
        assert_eq!(d(x).fixed(2, false), format!("{x:.2}"), "{x:e}");
        assert_eq!(d(x).fixed(1, true), format!("{x:+.1}"), "{x:e}");
    }
}
