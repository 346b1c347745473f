//! The curve between two samples meets both of them.

use vstd::arithmetic::power2::{lemma2_to64, lemma_pow2_pos};
use vstd::prelude::*;

use crate::binary64::{
    lemma_exact, lemma_int_product, lemma_int_sum, lemma_nat_size, lemma_nearest_zero,
    lemma_self_difference, lemma_signed_int_difference, lemma_signed_int_sum, lemma_size_increases,
    lemma_size_order, lemma_small_int, lemma_zero_quotient, size_of_magnitude, unit, Real,
};
use crate::model::{raw_value, DiveSample, Field};
use crate::nearest::{lemma_nearest_monotone, lemma_nearest_same_ratio};
use crate::overlay_lines::{
    cubic, first_with, hermite, interpolated, last_with, optional_point, point, slope_at_end,
    slope_at_start,
};

verus! {

/// One times a number is that number.
proof fn lemma_times_one(x: Real)
    requires
        x.finite(),
    ensures
        Real::of_int(1).product(x) == x,
{
    reveal(Real::product);
    lemma_nat_size(1);
    let u = unit();
    assert(1 * u == u);
    lemma_exact(x.magnitude());
    let n = u * x.size();
    assert(n * 1 == x.size() * u) by (nonlinear_arith)
        requires
            n == u * x.size(),
    ;
    lemma_nearest_same_ratio(n, u, x.size(), 1);
    assert(Real::of_int(1).product(x).bits == x.bits);
}

/// Zero times a number is zero.
proof fn lemma_times_zero(z: Real, x: Real)
    requires
        z.zero(),
        x.finite(),
    ensures
        z.product(x).zero(),
{
    reveal(Real::product);
    lemma_pow2_pos(1074);
    lemma_size_order(z, z);
    let size = x.size();
    assert(0 * size == 0);
    lemma_nearest_zero(unit());
}

/// Adding a zero of either sign changes no value.
proof fn lemma_plus_zero(x: Real, z: Real)
    requires
        x.finite(),
        z.zero(),
    ensures
        x.sum(z).finite(),
        z.sum(x).finite(),
        x.sum(z).value() == x.value(),
        z.sum(x).value() == x.value(),
{
    reveal(Real::sum);
    lemma_size_order(z, z);
    lemma_size_order(x, x);
    lemma_exact(x.magnitude());
    if x.value() == 0 {
        lemma_size_order(x.sum(z), x.sum(z));
        lemma_size_order(z.sum(x), z.sum(x));
    } else {
        assert(x.sum(z) == x);
        assert(z.sum(x) == x);
    }
}

/// A number other than zero, divided by itself, is one.
pub proof fn lemma_over_itself(d: Real)
    requires
        d.finite(),
        !d.zero(),
    ensures
        d.quotient(d) == Real::of_int(1),
{
    reveal(Real::quotient);
    lemma_nat_size(1);
    let u = unit();
    lemma_size_order(d, d);
    assert(1 * u == u);
    assert((d.size() * u) * 1 == u * d.size()) by (nonlinear_arith);
    lemma_nearest_same_ratio(d.size() * u, d.size(), u, 1);
}

/// The difference of a number and a smaller one is above zero.
pub proof fn lemma_span(a: Real, b: Real)
    requires
        a.finite(),
        b.finite(),
        a.less(b),
    ensures
        !b.difference(a).negative(),
        !b.difference(a).zero(),
{
    reveal(Real::sum);
    let n = (b.value() - a.value()) as nat;
    let y = a.negated();
    assert(y.magnitude() == a.magnitude());
    assert(y.value() == -a.value());
    lemma_exact(1);
    assert(size_of_magnitude(1) >= 1) by {
        lemma_size_increases(0, 1);
    }
    lemma2_to64();
    assert(size_of_magnitude(1) == 1);
    lemma_nearest_monotone(1, 1, n, 1);
}

/// The cubic is at its first value where it starts.
proof fn lemma_cubic_start(dt: Real, v0: Real, v1: Real, m0: Real, m1: Real)
    requires
        dt.finite(),
        v0.finite(),
        v1.finite(),
        m0.finite(),
        m1.finite(),
    ensures
        cubic(Real::of_int(0), dt, v0, v1, m0, m1).value() == v0.value(),
{
    let s = Real::of_int(0);
    lemma_int_product(0, 0);
    lemma_int_product(2, 0);
    lemma_int_product(3, 0);
    lemma_signed_int_difference(0, 0);
    lemma_int_sum(0, 1);
    lemma_int_sum(0, 0);
    lemma_nat_size(0);
    lemma_nat_size(1);
    lemma_small_int(-2);
    let minus = Real::of_int(-2).product(s);
    assert(minus.zero()) by {
        reveal(Real::product);
        lemma_size_order(s, s);
        let a = Real::of_int(-2).size();
        assert(a * 0 == 0);
        lemma_nearest_zero(unit());
    }
    lemma_plus_zero(s, minus);
    let h01 = minus.sum(s);
    lemma_size_order(h01, h01);
    lemma_size_order(s, s);
    assert(h01.zero());
    lemma_times_one(v0);
    lemma_times_zero(s, dt);
    lemma_times_zero(s.product(dt), m0);
    lemma_times_zero(s.product(dt), m1);
    lemma_times_zero(h01, v1);
    lemma_plus_zero(v0, s.product(dt).product(m0));
    let a = v0.sum(s.product(dt).product(m0));
    lemma_plus_zero(a, h01.product(v1));
    lemma_plus_zero(a.sum(h01.product(v1)), s.product(dt).product(m1));
}

/// The cubic is at its second value where it ends.
proof fn lemma_cubic_end(dt: Real, v0: Real, v1: Real, m0: Real, m1: Real)
    requires
        dt.finite(),
        v0.finite(),
        v1.finite(),
        m0.finite(),
        m1.finite(),
    ensures
        cubic(Real::of_int(1), dt, v0, v1, m0, m1).value() == v1.value(),
{
    let s = Real::of_int(1);
    let z = Real::of_int(0);
    lemma_int_product(1, 1);
    lemma_int_product(2, 1);
    lemma_int_product(3, 1);
    lemma_signed_int_difference(2, 3);
    lemma_signed_int_sum(-1, 1);
    lemma_signed_int_difference(1, 2);
    lemma_signed_int_difference(1, 1);
    lemma_signed_int_sum(-2, 3);
    lemma_nat_size(0);
    lemma_nat_size(1);
    lemma_small_int(-2);
    assert(Real::of_int(-2).product(s) == Real::of_int(-2)) by {
        lemma_times_one(Real::of_int(-2));
        reveal(Real::product);
        let a = Real::of_int(-2).size();
        let b = s.size();
        assert(a * b == b * a) by (nonlinear_arith);
    }
    lemma_times_zero(z, v0);
    lemma_times_zero(z, dt);
    lemma_times_zero(z.product(dt), m0);
    lemma_times_zero(z.product(dt), m1);
    lemma_times_one(v1);
    let c = z.product(v0);
    let e = z.product(dt).product(m0);
    lemma_size_order(c, c);
    lemma_plus_zero(c, e);
    lemma_size_order(c.sum(e), c.sum(e));
    lemma_plus_zero(v1, c.sum(e));
    lemma_plus_zero(c.sum(e).sum(v1), z.product(dt).product(m1));
}

/// Whether nothing overflows on the curve between two points: the points, the span
/// between them and the slopes at its ends are finite.
pub open spec fn in_range(
    prev: Option<(Real, Real)>,
    p0: (Real, Real),
    p1: (Real, Real),
    next: Option<(Real, Real)>,
) -> bool {
    &&& p0.0.finite()
    &&& p0.1.finite()
    &&& p1.0.finite()
    &&& p1.1.finite()
    &&& p1.0.difference(p0.0).finite()
    &&& slope_at_start(prev, p0, p1).finite()
    &&& slope_at_end(p0, p1, next).finite()
}

/// The curve between two points goes through both of them.
pub proof fn law_curve_meets_points(
    prev: Option<(Real, Real)>,
    p0: (Real, Real),
    p1: (Real, Real),
    next: Option<(Real, Real)>,
)
    requires
        p0.0.less(p1.0),
        in_range(prev, p0, p1, next),
    ensures
        hermite(p0.0, prev, p0, p1, next).value() == p0.1.value(),
        hermite(p1.0, prev, p0, p1, next).value() == p1.1.value(),
{
    let dt = p1.0.difference(p0.0);
    let m0 = slope_at_start(prev, p0, p1);
    let m1 = slope_at_end(p0, p1, next);
    lemma_span(p0.0, p1.0);
    lemma_size_order(dt, dt);
    lemma_self_difference(p0.0);
    lemma_zero_quotient(dt);
    lemma_over_itself(dt);
    lemma_cubic_start(dt, p0.1, p1.1, m0, m1);
    lemma_cubic_end(dt, p0.1, p1.1, m0, m1);
}

/// At the time of a sample that holds a field, interpolation gives the value that
/// the sample holds, wherever nothing overflows on the curve that starts there.
pub proof fn law_interpolation_meets_samples(
    samples: Seq<DiveSample>,
    times: Seq<Real>,
    idx: nat,
    field: Field,
)
    requires
        idx < times.len() <= samples.len(),
        raw_value(samples[idx as int], field).is_some(),
        first_with(samples, field, idx + 1, times.len()) matches Some(after) ==> in_range(
            optional_point(samples, times, field, last_with(samples, field, idx)),
            point(samples, times, field, idx),
            point(samples, times, field, after),
            optional_point(
                samples,
                times,
                field,
                first_with(samples, field, after + 1, times.len()),
            ),
        ),
    ensures
        interpolated(samples, times, times[idx as int], idx, field) matches Some(v) && v.value()
            == (raw_value(samples[idx as int], field)->0).value(),
{
    let p0 = point(samples, times, field, idx);
    match first_with(samples, field, idx + 1, times.len()) {
        None => {},
        Some(after) => {
            let p1 = point(samples, times, field, after);
            if p0.0.less(p1.0) {
                law_curve_meets_points(
                    optional_point(samples, times, field, last_with(samples, field, idx)),
                    p0,
                    p1,
                    optional_point(
                        samples,
                        times,
                        field,
                        first_with(samples, field, after + 1, times.len()),
                    ),
                );
            }
        },
    }
}

} // verus!
