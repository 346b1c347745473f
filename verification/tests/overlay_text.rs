use dive_overlay::binary64::Real;
use dive_overlay::model::{field_raw_value, format_field_value, value_for_field};
use dive_overlay::overlay_lines::{build_overlay_lines, cubic_hermite};
use dive_overlay::{DiveSample, Field};

fn num(x: f64) -> Real {
    Real::from_bits(x.to_bits())
}

fn float(x: Real) -> f64 {
    f64::from_bits(x.to_bits())
}

fn sample(elapsed_sec: f64, depth_m: f64) -> DiveSample {
    DiveSample {
        elapsed_sec: num(elapsed_sec),
        depth_m: Some(num(depth_m)),
        temp_c: None,
        pressure_bar: None,
        heart_rate: None,
    }
}

fn times(samples: &[DiveSample]) -> Vec<Real> {
    samples.iter().map(|s| s.elapsed_sec).collect()
}

#[test]
fn build_overlay_lines_falls_back_to_no_data() {
    let lines = build_overlay_lines(&[Field::Depth], &[], &[], num(5.0), false);
    assert_eq!(lines, vec!["No data".to_string()]);
}

#[test]
fn build_overlay_lines_includes_time_and_depth() {
    let samples = vec![sample(0.0, 1.5)];
    let lines = build_overlay_lines(&[Field::Time, Field::Depth], &samples, &times(&samples), num(10.0), false);
    assert_eq!(lines[0], "Dive time: 00:10");
    assert_eq!(lines[1], "Depth: 1.5 m");
}

#[test]
fn build_overlay_lines_carries_forward_sparse_temperature() {
    let mut with_temp = sample(0.0, 1.0);
    with_temp.temp_c = Some(num(18.0));
    let samples = vec![with_temp, sample(10.0, 2.0), sample(20.0, 3.0)];
    let lines = build_overlay_lines(&[Field::Temp], &samples, &times(&samples), num(20.0), false);
    assert_eq!(lines, vec!["Temp: 18.0 C".to_string()]);
}

#[test]
fn build_overlay_lines_interpolates_between_samples() {
    let samples = vec![sample(0.0, 1.0), sample(10.0, 2.0)];
    let lines = build_overlay_lines(&[Field::Depth], &samples, &times(&samples), num(5.0), true);
    assert_eq!(lines, vec!["Depth: 1.5 m".to_string()]);
}

#[test]
fn build_overlay_lines_interpolation_skips_sparse_gaps_and_carries_last_value() {
    let mut with_temp = sample(0.0, 1.0);
    with_temp.temp_c = Some(num(10.0));
    let samples = vec![with_temp, sample(10.0, 2.0), sample(20.0, 3.0)];
    let lines = build_overlay_lines(&[Field::Temp], &samples, &times(&samples), num(20.0), true);
    assert_eq!(lines, vec!["Temp: 10.0 C".to_string()]);
}

#[test]
fn cubic_hermite_matches_linear_when_tangents_equal_secant() {
    let value = float(cubic_hermite(
        num(15.0),
        Some((num(0.0), num(0.0))),
        (num(10.0), num(1.0)),
        (num(20.0), num(2.0)),
        Some((num(30.0), num(3.0))),
    ));
    assert!((value - 1.5).abs() < 1e-9, "expected 1.5, got {value}");
}

#[test]
fn cubic_hermite_curves_toward_neighbor_slope() {
    let value = float(cubic_hermite(
        num(15.0),
        Some((num(0.0), num(0.0))),
        (num(10.0), num(0.0)),
        (num(20.0), num(10.0)),
        None,
    ));
    assert!(value < 5.0, "expected the fitted curve to diverge from the linear midpoint, got {value}");
    assert_eq!(value, 4.375);
}

#[test]
fn build_overlay_lines_interpolation_curves_through_neighbors() {
    let samples = vec![sample(0.0, 0.0), sample(10.0, 0.0), sample(20.0, 10.0)];
    let lines = build_overlay_lines(&[Field::Depth], &samples, &times(&samples), num(15.0), true);
    assert_eq!(lines, vec!["Depth: 4.4 m".to_string()]);
}

#[test]
fn before_the_first_sample_only_the_dive_time_is_shown() {
    let samples = vec![sample(60.0, 1.0)];
    let lines = build_overlay_lines(&[Field::Depth, Field::Time], &samples, &times(&samples), num(5.0), true);
    assert_eq!(lines, vec!["Dive time: 00:05".to_string()]);
}

#[test]
fn each_field_has_its_own_unit() {
    let s = DiveSample {
        elapsed_sec: num(0.0),
        depth_m: Some(num(12.34)),
        temp_c: Some(num(-1.26)),
        pressure_bar: Some(num(199.5)),
        heart_rate: Some(num(71.4)),
    };
    assert_eq!(value_for_field(&s, Field::Depth).unwrap(), "Depth: 12.3 m");
    assert_eq!(value_for_field(&s, Field::Temp).unwrap(), "Temp: -1.3 C");
    assert_eq!(value_for_field(&s, Field::Pressure).unwrap(), "Pressure: 200 bar");
    assert_eq!(value_for_field(&s, Field::Hr).unwrap(), "HR: 71 bpm");
    assert_eq!(value_for_field(&s, Field::Time), None);
    assert_eq!(format_field_value(Field::Time, num(1.0)), None);
    assert_eq!(field_raw_value(&s, Field::Hr), Some(num(71.4)));
    assert_eq!(field_raw_value(&s, Field::Time), None);
}

#[test]
fn the_curve_meets_both_samples() {
    let prev = Some((num(1.0), num(3.7)));
    let next = Some((num(27.5), num(1.3)));
    let p0 = (num(7.3), num(10.1));
    let p1 = (num(19.7), num(12.9));
    let at = |t: f64| f64::from_bits(cubic_hermite(num(t), prev, p0, p1, next).to_bits());
    assert_eq!(at(7.3), 10.1);
    assert_eq!(at(19.7), 12.9);
}

#[test]
fn the_curve_without_neighbours_is_a_line() {
    let (t0, v0, t1, v1) = (7.3f64, 10.1f64, 19.7f64, -12.9f64);
    for i in 0..=100 {
        let t = t0 + (t1 - t0) * i as f64 / 100.0;
        let got = float(cubic_hermite(num(t), None, (num(t0), num(v0)), (num(t1), num(v1)), None));
        let want = v0 + (v1 - v0) * ((t - t0) / (t1 - t0));
        assert!((got - want).abs() <= 1e-13 * (v0.abs() + v1.abs()), "{t}: {got} {want}");
    }
}
