use dive_overlay::binary64::Real;
use dive_overlay::text::chars_of;

fn num(x: f64) -> Real {
    Real::from_bits(x.to_bits())
}

fn same(a: Real, b: f64) -> bool {
    if b.is_nan() {
        a.is_nan()
    } else {
        a.to_bits() == b.to_bits()
    }
}

/// Numbers of many sizes, some of them neighbours of special ones.
fn samples() -> Vec<f64> {
    let mut v = vec![
        0.0, -0.0, 1.0, -1.0, 0.1, 0.5, 1.5, 2.5, -2.5, 1e-9, 1e300, -1e300, 1e-300, 3.0, 7.0, 10.0, 59.95,
        86_400.0, 4_503_599_627_370_495.5, 4_503_599_627_370_496.0, 9_007_199_254_740_992.0,
        18_446_744_073_709_551_615.0, 9_223_372_036_854_775_807.0, -9_223_372_036_854_775_808.0, 0.045, 0.01,
    ];
    v.push(f64::MAX);
    v.push(f64::MIN_POSITIVE);
    v.push(f64::from_bits(1));
    v.push(f64::from_bits(0x000f_ffff_ffff_ffff));
    v.push(f64::INFINITY);
    v.push(f64::NEG_INFINITY);
    v.push(f64::NAN);
    let mut x: u64 = 0x9e37_79b9_7f4a_7c15;
    for i in 0..150u64 {
        x = x.wrapping_mul(6_364_136_223_846_793_005).wrapping_add(1_442_695_040_888_963_407);
        v.push(f64::from_bits(x));
        // Of similar size, so that sums do not drown.
        v.push(((x >> 20) as f64) / ((1u64 << (i % 50)) as f64) - 1000.0);
    }
    v
}

#[test]
fn sums_and_differences_are_those_of_the_machine() {
    let v = samples();
    for &a in &v {
        for &b in &v {
            assert!(same(num(a).plus(num(b)), a + b), "{a:e} + {b:e}");
            assert!(same(num(a).minus(num(b)), a - b), "{a:e} - {b:e}");
        }
    }
}

#[test]
fn products_and_quotients_are_those_of_the_machine() {
    let v = samples();
    for &a in &v {
        for &b in &v {
            assert!(same(num(a).times(num(b)), a * b), "{a:e} * {b:e}");
            assert!(same(num(a).over(num(b)), a / b), "{a:e} / {b:e}");
        }
    }
}

#[test]
fn comparisons_are_those_of_the_machine() {
    let v = samples();
    for &a in &v {
        for &b in &v {
            assert_eq!(num(a).lt(num(b)), a < b);
            assert_eq!(num(a).le(num(b)), a <= b);
            assert_eq!(num(a).eq_value(num(b)), a == b);
        }
        assert_eq!(num(a).is_nan(), a.is_nan());
        assert_eq!(num(a).is_finite(), a.is_finite());
        assert!(same(num(a).neg(), -a));
        assert!(same(num(a).abs(), a.abs()));
    }
}

#[test]
fn rounding_is_that_of_the_machine() {
    for a in samples() {
        assert_eq!(num(a).round_i64(), a.round() as i64, "{a:e}");
        assert_eq!(num(a).round_u64(), a.round() as u64, "{a:e}");
        assert_eq!(num(a).trunc_i64(), a as i64, "{a:e}");
        assert_eq!(num(a).ceil_u64(), a.ceil() as u64, "{a:e}");
        assert!(same(num(a).round(), a.round()), "{a:e}");
        assert!(same(num(a).to_single(), a as f32 as f64), "{a:e}");
    }
}

#[test]
fn integers_and_ratios_are_those_of_the_machine() {
    for i in [0i64, 1, -1, 42, -86_400, i64::MAX, i64::MIN, 9_007_199_254_740_993, -9_007_199_254_740_993] {
        assert!(same(Real::from_i64(i), i as f64));
        assert!(same(Real::from_u64(i as u64), i as u64 as f64));
    }
    assert!(same(Real::from_ratio(45, 1000), 0.045));
    assert!(same(Real::from_ratio(4, 100), 0.04));
    assert!(same(Real::from_ratio(32, 100), 0.32));
    assert!(same(Real::from_ratio(18, 100), 0.18));
    assert!(same(Real::from_ratio(72, 100), 0.72));
    assert!(same(Real::from_ratio(1, 1_000_000_000), 1e-9));
    assert!(same(Real::from_ratio(35, 100).to_single(), 0.35f32 as f64));
}

#[test]
fn least_and_greatest_leave_out_what_is_no_number() {
    assert!(same(num(1.0).min(num(2.0)), 1.0));
    assert!(same(num(1.0).max(num(2.0)), 2.0));
    assert!(same(num(f64::NAN).min(num(2.0)), 2.0));
    assert!(same(num(2.0).max(num(f64::NAN)), 2.0));
    assert!(same(num(-3.0).max_zero(), 0.0));
    assert!(same(num(f64::NAN).max_zero(), 0.0));
    assert!(same(num(3.0).max_zero(), 3.0));
}

fn parse(text: &str) -> Option<Real> {
    Real::parse(chars_of(text).as_slice())
}

#[test]
fn numbers_are_read_as_the_standard_library_reads_them() {
    let texts = [
        "0", "-0", "+1", "1.", ".5", ".", "", "+", "-", "1e", "1e+", "e5", "1.5e3", "1.5E-3", "1e400", "-1e400",
        "1e-400", "1e99999999999999999999999999999999999999999999", "0e99999999999999999999999999999999999999999999",
        "1e-99999999999999999999999999999999999999999999", "123456789012345678901234567890", "0.1", "2.675",
        "9007199254740993", "9007199254740992.5", "1.7976931348623157e308", "1.7976931348623159e308",
        "4.9e-324", "2.4703282292062327e-324", "2.4703282292062328e-324", "inf", "-INF", "Infinity", "nan", "-NaN",
        "infin", " 1", "1 ", "1_000", "0x10", "1..2", "1e2e3", "--1", "24.0", "59.95", "000123.4500",
        "8.5", "5.000000", "30000", "1001", "0.30000000000000004", "2.2250738585072011e-308",
    ];
    for t in texts {
        match (parse(t), t.parse::<f64>().ok()) {
            (Some(a), Some(b)) => assert!(same(a, b), "{t}"),
            (None, None) => {}
            (a, b) => panic!("{t}: {a:?} {b:?}"),
        }
    }
}

#[test]
fn numbers_read_back_from_their_own_text() {
    for a in samples() {
        let text = format!("{a:e}");
        match parse(&text) {
            Some(b) => assert!(same(b, a), "{text}"),
            None => panic!("{text}"),
        }
    }
}

fn fixed(x: f64, places: u32) -> String {
    let mut s = String::new();
    num(x).push_fixed(&mut s, places);
    s
}

#[test]
fn fixed_places_are_those_of_the_standard_library() {
    for a in samples() {
        assert_eq!(fixed(a, 0), format!("{a:.0}"));
        assert_eq!(fixed(a, 1), format!("{a:.1}"));
        assert_eq!(fixed(a, 2), format!("{a:.2}"));
        assert_eq!(fixed(a, 6), format!("{a:.6}"));
    }
    for a in [0.05, 0.15, 0.25, 0.35, 1.25, 2.5, 0.5, 1.5, -0.04, 4.375, 99.95] {
        assert_eq!(fixed(a, 0), format!("{a:.0}"));
        assert_eq!(fixed(a, 1), format!("{a:.1}"));
    }
    assert_eq!(fixed(4.375, 1), "4.4");
    assert_eq!(fixed(-0.04, 1), "-0.0");
}
