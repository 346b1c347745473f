use dive_overlay::binary64::Real;
use dive_overlay::lookup::choose_sample_index;

fn num(x: f64) -> Real {
    Real::from_bits(x.to_bits())
}

fn times() -> Vec<Real> {
    vec![num(10.0), num(20.0), num(30.0)]
}

#[test]
fn returns_none_before_first_sample() {
    assert_eq!(choose_sample_index(&times(), num(5.0)), None);
}

#[test]
fn returns_exact_match_index() {
    assert_eq!(choose_sample_index(&times(), num(20.0)), Some(1));
}

#[test]
fn returns_latest_index_at_or_before() {
    assert_eq!(choose_sample_index(&times(), num(25.0)), Some(1));
    assert_eq!(choose_sample_index(&times(), num(100.0)), Some(2));
}

#[test]
fn empty_times_returns_none() {
    let times: Vec<Real> = Vec::new();
    assert_eq!(choose_sample_index(&times, num(5.0)), None);
}

#[test]
fn a_later_moment_never_finds_an_earlier_sample() {
    let t = times();
    let mut last = None;
    for i in 0..50 {
        let now = choose_sample_index(&t, num(i as f64));
        assert!(now >= last);
        last = now;
    }
}

#[test]
fn of_equal_times_the_last_one_is_found() {
    let t = vec![num(1.0), num(1.0), num(2.0)];
    assert_eq!(choose_sample_index(&t, num(1.0)), Some(1));
    assert_eq!(choose_sample_index(&t, num(f64::NAN)), None);
}
