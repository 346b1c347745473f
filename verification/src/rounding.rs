//! How far rounding takes the results of arithmetic from the exact ones.

use vstd::arithmetic::power2::{lemma2_to64, lemma2_to64_rest, lemma_pow2_pos};
use vstd::prelude::*;

use crate::binary64::{
    lemma_finite_error, lemma_integer_error, lemma_size_order, lemma_small_int, unit, Real,
};
use crate::nearest::{lemma_pow2_le, nearest_magnitude, TWO53};

verus! {

/// A finite number as what it stands for.
pub open spec fn exact(x: Real) -> real {
    (x.value() as real) / (unit() as real)
}

/// One part in `2^53`.
pub open spec fn part() -> real {
    1real / (TWO53 as int as real)
}

/// The smallest number above zero.
pub open spec fn least() -> real {
    1real / (unit() as real)
}

/// A number without its sign.
pub open spec fn distance(x: real) -> real {
    if x < 0real {
        -x
    } else {
        x
    }
}

/// Whether a number is at most so far away from another one.
pub open spec fn within(x: real, y: real, far: real) -> bool {
    -far <= x - y <= far
}

/// What rounding may add to a number.
pub open spec fn slack(x: real) -> real {
    part() * distance(x) + least()
}

/// Both bounds are above zero and small.
pub proof fn lemma_small()
    ensures
        part() > 0real,
        least() > 0real,
        part() * (TWO53 as int as real) == 1real,
        least() * (unit() as real) == 1real,
        unit() as real > 0real,
        least() <= part(),
        1_000_000real * part() <= 1real,
{
    lemma_pow2_pos(1074);
    let u = unit() as real;
    let t = TWO53 as int as real;
    let one = 1real;
    lemma2_to64();
    lemma2_to64_rest();
    lemma_pow2_le(53, 1074);
    assert(u >= t);
    assert((one / u) * u == one && one / u > 0real) by (nonlinear_arith)
        requires
            u > 0real,
            one == 1real,
    ;
    assert((one / t) * t == one && one / t > 0real) by (nonlinear_arith)
        requires
            t > 0real,
            one == 1real,
    ;
    let h = one / u;
    let e = one / t;
    assert(h <= e) by (nonlinear_arith)
        requires
            h * u == one,
            e * t == one,
            u >= t,
            t > 0real,
            h > 0real,
            one == 1real,
    ;
    assert(1_000_000real * e <= one) by (nonlinear_arith)
        requires
            e * t == one,
            t >= 1_000_000real,
            e > 0real,
    ;
}

/// An integer bound on an error, as one on real numbers.
proof fn lemma_bound(r: int, e: int, size: int, d: int)
    requires
        d > 0,
        size == if e < 0 {
            -e
        } else {
            e
        },
        -(size + TWO53 * d) <= TWO53 * (r * d - e) <= size + TWO53 * d,
    ensures
        within(
            (r as real) * (d as real),
            e as real,
            part() * distance(e as real) + d as real,
        ),
{
    lemma_small();
    let t = TWO53 as int;
    let x = r * d - e;
    assert((r * d) as real == (r as real) * (d as real)) by (nonlinear_arith);
    assert((t * x) as real == (t as real) * (x as real)) by (nonlinear_arith);
    assert((t * d) as real == (t as real) * (d as real)) by (nonlinear_arith);
    let p = part();
    let tr = t as real;
    let xr = x as real;
    let dr = d as real;
    let sr = size as real;
    assert(-(p * sr + dr) <= xr <= p * sr + dr) by (nonlinear_arith)
        requires
            -(sr + tr * dr) <= tr * xr <= sr + tr * dr,
            p * tr == 1real,
            p > 0real,
            tr > 0real,
    ;
}

/// Dividing a bound by a positive number.
proof fn lemma_divide(a: real, b: real, far: real, u: real)
    requires
        u > 0real,
        within(a, b, far),
    ensures
        within(a / u, b / u, far / u),
{
    assert(-(far / u) <= a / u - b / u <= far / u) by (nonlinear_arith)
        requires
            u > 0real,
            -far <= a - b <= far,
    ;
}

/// A finite sum is near the exact one.
pub proof fn lemma_sum_error(a: Real, b: Real)
    requires
        a.sum(b).finite(),
    ensures
        a.finite(),
        b.finite(),
        within(exact(a.sum(b)), exact(a) + exact(b), part() * distance(exact(a) + exact(b))),
{
    reveal(Real::sum);
    lemma_small();
    let r = a.sum(b);
    let e = a.value() + b.value();
    let size: nat = if e < 0 {
        (-e) as nat
    } else {
        e as nat
    };
    lemma_size_order(r, r);
    if e == 0 {
        assert(r.value() == 0);
    } else {
        lemma_integer_error(size);
        assert(r.magnitude() == nearest_magnitude(size, 1));
    }
    let rv = r.value() as real;
    let ev = e as real;
    let u = unit() as real;
    let t = TWO53 as int;
    let x = r.value() - e;
    assert((t * x) as real == (t as real) * (x as real)) by (nonlinear_arith);
    let p = part();
    let tr = t as real;
    let xr = x as real;
    let sr = distance(ev);
    assert(-(p * sr) <= xr <= p * sr) by (nonlinear_arith)
        requires
            -sr <= tr * xr <= sr,
            p * tr == 1real,
            p > 0real,
            tr > 0real,
    ;
    lemma_divide(rv, ev, p * sr, u);
    assert(ev / u == exact(a) + exact(b)) by (nonlinear_arith)
        requires
            u > 0real,
            ev == a.value() as real + b.value() as real,
            exact(a) == a.value() as real / u,
            exact(b) == b.value() as real / u,
    ;
    lemma_slack(ev, u, 1real, p * sr + 1real);
    assert((p * sr + 1real) / u == (p * sr) / u + 1real / u) by (nonlinear_arith)
        requires
            u > 0real,
    ;
}

/// The slack of a quotient.
proof fn lemma_slack(ev: real, u: real, one: real, far: real)
    requires
        u > 0real,
        u == unit() as real,
        one == 1real,
        far == part() * distance(ev) + one,
    ensures
        far / u == slack(ev / u),
{
    let p = part();
    let d = distance(ev);
    assert(distance(ev / u) == d / u) by {
        if ev < 0real {
            assert(ev / u < 0real && -(ev / u) == (-ev) / u) by (nonlinear_arith)
                requires
                    ev < 0real,
                    u > 0real,
            ;
        } else {
            assert(ev / u >= 0real) by (nonlinear_arith)
                requires
                    ev >= 0real,
                    u > 0real,
            ;
        }
    }
    assert((p * d + one) / u == p * (d / u) + one / u) by (nonlinear_arith)
        requires
            u > 0real,
    ;
}

/// A finite difference is near the exact one.
pub proof fn lemma_difference_error(a: Real, b: Real)
    requires
        a.difference(b).finite(),
    ensures
        a.finite(),
        b.finite(),
        within(
            exact(a.difference(b)),
            exact(a) - exact(b),
            part() * distance(exact(a) - exact(b)),
        ),
{
    lemma_sum_error(a, b.negated());
    let c = b.negated();
    assert(c.magnitude() == b.magnitude());
    assert(c.value() == -b.value());
    let u = unit() as real;
    lemma_small();
    assert(exact(c) == -exact(b)) by (nonlinear_arith)
        requires
            exact(c) == c.value() as real / u,
            exact(b) == b.value() as real / u,
            c.value() as real == -(b.value() as real),
            u > 0real,
    ;
}

/// A finite product is near the exact one.
pub proof fn lemma_product_error(a: Real, b: Real)
    requires
        a.product(b).finite(),
    ensures
        a.finite(),
        b.finite(),
        within(exact(a.product(b)), exact(a) * exact(b), slack(exact(a) * exact(b))),
{
    reveal(Real::product);
    lemma_small();
    let r = a.product(b);
    let e = a.value() * b.value();
    let n = a.size() * b.size();
    let u = unit();
    lemma_finite_error(n, u);
    assert(r.magnitude() == nearest_magnitude(n, u));
    lemma_size_order(r, r);
    let negative = a.negative() != b.negative();
    let x = a.size() as int;
    let y = b.size() as int;
    assert(x * y >= 0) by (nonlinear_arith)
        requires
            x >= 0,
            y >= 0,
    ;
    assert(e == if negative {
        -(n as int)
    } else {
        n as int
    }) by {
        assert((-x) * y == -(x * y) && x * (-y) == -(x * y) && (-x) * (-y) == x * y)
            by (nonlinear_arith);
    }
    let w = r.size() as int;
    assert(r.value() * u == if negative {
        -(w * u)
    } else {
        w * u
    }) by {
        assert((-w) * u == -(w * u)) by (nonlinear_arith);
    }
    lemma_bound(r.value(), e, n as int, u as int);
    let ur = u as real;
    let rv = r.value() as real;
    let ev = e as real;
    let far = part() * distance(ev) + ur;
    lemma_divide(rv * ur, ev, far, ur);
    assert((rv * ur) / ur == rv) by (nonlinear_arith)
        requires
            ur > 0real,
    ;
    lemma_divide(rv, ev / ur, far / ur, ur);
    let av = a.value() as real;
    let bv = b.value() as real;
    assert(ev == av * bv) by {
        let p = a.value();
        let q = b.value();
        assert((p * q) as real == (p as real) * (q as real)) by (nonlinear_arith);
    }
    assert((ev / ur) / ur == exact(a) * exact(b)) by (nonlinear_arith)
        requires
            ur > 0real,
            ev == av * bv,
            exact(a) == av / ur,
            exact(b) == bv / ur,
    ;
    lemma_double_slack(ev, ur, far);
}

proof fn lemma_double_slack(ev: real, u: real, far: real)
    requires
        u > 0real,
        u == unit() as real,
        far == part() * distance(ev) + u,
    ensures
        (far / u) / u == slack((ev / u) / u),
{
    let one = 1real;
    let p = part();
    assert(far / u == p * distance(ev / u) + one) by {
        lemma_slack(ev, u, one, p * distance(ev) + one);
        let d = distance(ev);
        assert((p * d + u) / u == (p * d + one) / u - one / u + one) by (nonlinear_arith)
            requires
                u > 0real,
                one == 1real,
        ;
    }
    lemma_slack(ev / u, u, one, far / u);
}

/// A finite quotient by a positive number, times that number, is near the dividend.
pub proof fn lemma_quotient_error(a: Real, b: Real)
    requires
        a.quotient(b).finite(),
        b.finite(),
        b.value() > 0,
    ensures
        a.finite(),
        within(
            exact(a.quotient(b)) * exact(b),
            exact(a),
            part() * distance(exact(a)) + least() * exact(b),
        ),
        exact(b) > 0real,
{
    reveal(Real::quotient);
    lemma_small();
    let r = a.quotient(b);
    let u = unit();
    let n = a.size() * u;
    let d = b.size();
    lemma_size_order(b, b);
    lemma_finite_error(n, d);
    assert(r.magnitude() == nearest_magnitude(n, d));
    lemma_size_order(r, r);
    let e = a.value() * (u as int);
    let x = a.size() as int;
    let w = r.size() as int;
    assert(x * u >= 0) by (nonlinear_arith)
        requires
            x >= 0,
    ;
    assert(e == if a.negative() {
        -(n as int)
    } else {
        n as int
    }) by {
        assert((-x) * u == -(x * u)) by (nonlinear_arith);
    }
    assert(r.value() * d == if a.negative() {
        -(w * d)
    } else {
        w * d
    }) by {
        assert((-w) * d == -(w * d)) by (nonlinear_arith);
    }
    lemma_bound(r.value(), e, n as int, d as int);
    let ur = u as real;
    let rv = r.value() as real;
    let dv = d as real;
    let av = a.value() as real;
    let ev = e as real;
    assert(ev == av * ur) by {
        let p = a.value();
        let q = u as int;
        assert((p * q) as real == (p as real) * (q as real)) by (nonlinear_arith);
    }
    let far = part() * distance(ev) + dv;
    lemma_divide(rv * dv, ev, far, ur);
    lemma_divide((rv * dv) / ur, ev / ur, far / ur, ur);
    assert(((rv * dv) / ur) / ur == exact(r) * exact(b)) by (nonlinear_arith)
        requires
            ur > 0real,
            exact(r) == rv / ur,
            exact(b) == dv / ur,
    ;
    assert(ev / ur == av) by (nonlinear_arith)
        requires
            ev == av * ur,
            ur > 0real,
    ;
    let p = part();
    assert(distance(ev) == distance(av) * ur) by {
        if av < 0real {
            assert(av * ur < 0real && -(av * ur) == (-av) * ur) by (nonlinear_arith)
                requires
                    av < 0real,
                    ur > 0real,
            ;
        } else {
            assert(av * ur >= 0real) by (nonlinear_arith)
                requires
                    av >= 0real,
                    ur > 0real,
            ;
        }
    }
    lemma_slack(av, ur, 1real, p * distance(av) + 1real);
    let da = distance(av);
    let one = 1real;
    assert(((p * (da * ur) + dv) / ur) / ur == (p * da + one) / ur - one / ur + (one / ur) * (dv
        / ur)) by (nonlinear_arith)
        requires
            ur > 0real,
            one == 1real,
    ;
    assert(exact(b) > 0real) by (nonlinear_arith)
        requires
            exact(b) == dv / ur,
            dv > 0real,
            ur > 0real,
    ;
}

/// What one step of arithmetic on numbers up to one may be off by.
pub open spec fn step() -> real {
    part() + least()
}

/// What one step of arithmetic may be off by, given how large its result is.
pub proof fn lemma_step(x: real, most: real)
    requires
        -most <= x <= most,
        most >= 1real,
    ensures
        slack(x) <= most * step(),
{
    lemma_small();
    let p = part();
    let h = least();
    let d = distance(x);
    assert(p * d + h <= most * (p + h)) by (nonlinear_arith)
        requires
            0real <= d <= most,
            most >= 1real,
            p > 0real,
            h > 0real,
    ;
}

/// Small integers stand for themselves.
pub proof fn lemma_exact_int(i: int)
    requires
        -(TWO53 as int) < i < TWO53,
    ensures
        exact(Real::of_int(i)) == i as real,
{
    lemma_small_int(i);
    lemma_small();
    let v = Real::of_int(i).value();
    let u = unit() as int;
    assert((i * u) as real == (i as real) * (u as real)) by (nonlinear_arith);
    let ur = u as real;
    let x = i as real;
    assert((x * ur) / ur == x) by (nonlinear_arith)
        requires
            ur > 0real,
    ;
}

} // verus!
