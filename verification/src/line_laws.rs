//! Where a point has no neighbours the curve is a straight line, up to rounding.

use vstd::prelude::*;

use crate::binary64::{unit, Real};
use crate::graph_laws::{lemma_difference, lemma_share_range, placeable, share_between};
use crate::overlay_lines::{hermite, slope};
use crate::rounding::{
    distance, exact, least, lemma_difference_error, lemma_exact_int, lemma_product_error,
    lemma_quotient_error, lemma_small, lemma_step, lemma_sum_error, part, slack, step, within,
};

verus! {

/// The share of the first value in the cubic.
pub open spec fn share_start(z: real) -> real {
    2real * (z * z * z) - 3real * (z * z) + 1real
}

/// The share of the slope at the start in the cubic.
pub open spec fn share_slope_start(z: real) -> real {
    z * z * z - 2real * (z * z) + z
}

/// The share of the second value in the cubic.
pub open spec fn share_end(z: real) -> real {
    3real * (z * z) - 2real * (z * z * z)
}

/// The share of the slope at the end in the cubic.
pub open spec fn share_slope_end(z: real) -> real {
    z * z * z - z * z
}

/// The powers of a number up to one, and what is made of them, stay up to one.
proof fn lemma_shares(z: real)
    requires
        0real <= z <= 1real,
    ensures
        0real <= z * z <= 1real,
        0real <= z * z * z <= z * z,
        0real <= share_start(z) <= 1real,
        (-1real) <= 2real * (z * z * z) - 3real * (z * z) <= 0real,
        0real <= share_slope_start(z) <= 1real,
        (-1real) <= z * z * z - 2real * (z * z) <= 0real,
        0real <= share_end(z) <= 1real,
        (-1real) <= share_slope_end(z) <= 0real,
{
    let a = z * z;
    let b = z * z * z;
    assert(0real <= a <= z) by (nonlinear_arith)
        requires
            0real <= z <= 1real,
            a == z * z,
    ;
    assert(0real <= b <= a) by (nonlinear_arith)
        requires
            0real <= z <= 1real,
            a == z * z,
            b == z * z * z,
    ;
    assert(3real * a - 2real * b <= 1real) by (nonlinear_arith)
        requires
            0real <= z <= 1real,
            a == z * z,
            b == z * z * z,
    ;
    assert(b - 2real * a + z >= 0real) by (nonlinear_arith)
        requires
            0real <= z <= 1real,
            a == z * z,
            b == z * z * z,
    ;
}

/// The computed shares are near the exact ones.
proof fn lemma_weights(s: Real)
    requires
        0real <= exact(s) <= 1real,
        ({
            let s2 = s.product(s);
            let s3 = s2.product(s);
            let three = Real::of_int(3).product(s2);
            &&& Real::of_int(2).product(s3).difference(three).sum(Real::of_int(1)).finite()
            &&& s3.difference(Real::of_int(2).product(s2)).sum(s).finite()
            &&& Real::of_int(-2).product(s3).sum(three).finite()
            &&& s3.difference(s2).finite()
        }),
    ensures
        ({
            let z = exact(s);
            let e = step();
            let s2 = s.product(s);
            let s3 = s2.product(s);
            let three = Real::of_int(3).product(s2);
            let h00 = Real::of_int(2).product(s3).difference(three).sum(Real::of_int(1));
            let h10 = s3.difference(Real::of_int(2).product(s2)).sum(s);
            let h01 = Real::of_int(-2).product(s3).sum(three);
            let h11 = s3.difference(s2);
            &&& within(exact(h00), share_start(z), 20real * e)
            &&& within(exact(h10), share_slope_start(z), 12real * e)
            &&& within(exact(h01), share_end(z), 18real * e)
            &&& within(exact(h11), share_slope_end(z), 6real * e)
        }),
{
    let z = exact(s);
    let e = step();
    lemma_small();
    lemma_shares(z);
    lemma_exact_int(1);
    lemma_exact_int(2);
    lemma_exact_int(3);
    lemma_exact_int(-2);
    let s2 = s.product(s);
    let s3 = s2.product(s);
    let t3 = Real::of_int(2).product(s3);
    let t2 = Real::of_int(3).product(s2);
    let d = t3.difference(t2);
    let h00 = d.sum(Real::of_int(1));
    let w2 = Real::of_int(2).product(s2);
    let c = s3.difference(w2);
    let h10 = c.sum(s);
    let n3 = Real::of_int(-2).product(s3);
    let h01 = n3.sum(t2);
    let h11 = s3.difference(s2);
    lemma_sum_error(d, Real::of_int(1));
    lemma_difference_error(t3, t2);
    lemma_product_error(Real::of_int(2), s3);
    lemma_product_error(Real::of_int(3), s2);
    lemma_sum_error(c, s);
    lemma_difference_error(s3, w2);
    lemma_product_error(Real::of_int(2), s2);
    lemma_sum_error(n3, t2);
    lemma_product_error(Real::of_int(-2), s3);
    lemma_difference_error(s3, s2);
    lemma_product_error(s2, s);
    lemma_product_error(s, s);
    let x2 = exact(s2);
    let x3 = exact(s3);
    let q2 = z * z;
    let q3 = z * z * z;
    assert(100_000real * e <= 1real && e > 0real);
    lemma_step(q2, 1real);
    assert(within(x2, q2, e));
    let y = x2 * z;
    assert(within(y, q3, e)) by (nonlinear_arith)
        requires
            -e <= x2 - q2 <= e,
            0real <= z <= 1real,
            y == x2 * z,
            q3 == q2 * z,
    ;
    lemma_step(y, 2real);
    assert(within(x3, q3, 3real * e));
    lemma_step(2real * x3, 3real);
    assert(within(exact(t3), 2real * q3, 9real * e));
    lemma_step(3real * x2, 4real);
    assert(within(exact(t2), 3real * q2, 7real * e));
    lemma_step(exact(t3) - exact(t2), 2real);
    assert(within(exact(d), 2real * q3 - 3real * q2, 18real * e));
    lemma_step(exact(d) + 1real, 2real);
    lemma_step(2real * x2, 3real);
    assert(within(exact(w2), 2real * q2, 5real * e));
    lemma_step(x3 - exact(w2), 2real);
    assert(within(exact(c), q3 - 2real * q2, 10real * e));
    lemma_step(exact(c) + z, 2real);
    lemma_step((-2real) * x3, 3real);
    assert(within(exact(n3), (-2real) * q3, 9real * e));
    lemma_step(exact(n3) + exact(t2), 2real);
    lemma_step(x3 - x2, 2real);
}

/// A share of a span is near the exact one.
proof fn lemma_share_near(t: Real, t0: Real, t1: Real)
    requires
        placeable(t, t0, t1),
    ensures
        ({
            let z = exact(share_between(t, t0, t1));
            let line = (exact(t) - exact(t0)) / (exact(t1) - exact(t0));
            &&& 0real <= z <= 1real
            &&& within(z, line, 4real * step())
            &&& exact(t1.difference(t0)) > 0real
        }),
{
    lemma_small();
    lemma_share_range(t, t0, t1);
    let u = unit() as real;
    let a = t.difference(t0);
    let d = t1.difference(t0);
    let s = a.quotient(d);
    assert(d.value() > 0) by {
        lemma_difference(t, t0, t1);
    }
    lemma_difference_error(t1, t0);
    lemma_quotient_error(a, d);
    lemma_difference_error(t, t0);
    let z = exact(s);
    let sv = s.value() as real;
    assert(0 * unit() == 0 && 1 * unit() == unit());
    assert(0real <= z <= 1real) by (nonlinear_arith)
        requires
            0real <= sv <= u,
            z == sv / u,
            u > 0real,
    ;
    let x0 = exact(t0);
    let x1 = exact(t1);
    let x = exact(t);
    let v0 = t0.value() as real;
    let v1 = t1.value() as real;
    let v = t.value() as real;
    assert(x0 <= x <= x1 && x0 < x1) by (nonlinear_arith)
        requires
            v0 <= v <= v1,
            v0 < v1,
            x0 == v0 / u,
            x1 == v1 / u,
            x == v / u,
            u > 0real,
    ;
    let alpha = x - x0;
    let span = x1 - x0;
    let ea = exact(a);
    let ed = exact(d);
    let p = part();
    let h = least();
    let e = step();
    assert(p * alpha <= p * span) by (nonlinear_arith)
        requires
            alpha <= span,
            p > 0real,
    ;
    assert(p * alpha >= 0real) by (nonlinear_arith)
        requires
            alpha >= 0real,
            p > 0real,
    ;
    let ps = p * span;
    let hs = h * span;
    assert(ps > 0real && hs > 0real && ps <= span) by (nonlinear_arith)
        requires
            ps == p * span,
            hs == h * span,
            p > 0real,
            p <= 1real,
            h > 0real,
            span > 0real,
    ;
    // The dividend and the divisor.
    assert(-ps <= ea - alpha <= ps);
    assert(-ps <= ed - span <= ps);
    let pa = p * distance(ea);
    assert(pa <= 2real * ps) by (nonlinear_arith)
        requires
            pa == p * distance(ea),
            0real <= distance(ea) <= 2real * span,
            ps == p * span,
            p > 0real,
    ;
    let hd = h * ed;
    assert(hd <= 2real * hs) by (nonlinear_arith)
        requires
            hd == h * ed,
            ed <= 2real * span,
            hs == h * span,
            h > 0real,
    ;
    let zd = z * ed;
    let zs = z * span;
    assert(-ps <= zd - zs <= ps) by (nonlinear_arith)
        requires
            -ps <= ed - span <= ps,
            zd == z * ed,
            zs == z * span,
            0real <= z <= 1real,
    ;
    assert(-(4real * ps + 4real * hs) <= zs - alpha <= 4real * ps + 4real * hs);
    let line = alpha / span;
    assert(-(4real * (p + h)) <= z - line <= 4real * (p + h)) by (nonlinear_arith)
        requires
            -(4real * ps + 4real * hs) <= zs - alpha <= 4real * ps + 4real * hs,
            zs == z * span,
            ps == p * span,
            hs == h * span,
            line == alpha / span,
            span > 0real,
    ;
}

/// The distance of a product.
proof fn lemma_distance(x: real, y: real)
    ensures
        distance(x * y) == distance(x) * distance(y),
{
    assert(distance(x * y) == distance(x) * distance(y)) by (nonlinear_arith)
        requires
            distance(x) == if x < 0real {
                -x
            } else {
                x
            },
            distance(y) == if y < 0real {
                -y
            } else {
                y
            },
            distance(x * y) == if x * y < 0real {
                -(x * y)
            } else {
                x * y
            },
    ;
}

/// What a number is off by, times another number.
proof fn lemma_scaled(x: real, y: real, far: real, k: real)
    requires
        within(x, y, far),
    ensures
        within(x * k, y * k, far * distance(k)),
{
    lemma_distance(x - y, k);
    assert((x - y) * k == x * k - y * k) by (nonlinear_arith);
    let d = distance(x - y);
    let m = distance(k);
    assert(d * m <= far * m) by (nonlinear_arith)
        requires
            d <= far,
            m >= 0real,
    ;
}

/// A value times its share is near the exact product.
proof fn lemma_value_share(r: real, x: real, share: real, v: real)
    requires
        within(x, share, 20real * step()),
        -1real <= share <= 1real,
        within(r, x * v, slack(x * v)),
    ensures
        within(r, share * v, 22real * (step() * distance(v)) + least()),
{
    lemma_small();
    let n = distance(v);
    let e = step();
    let p = part();
    lemma_scaled(x, share, 20real * e, v);
    lemma_distance(x, v);
    let dx = distance(x);
    let en = e * n;
    assert((20real * e) * n == 20real * en) by (nonlinear_arith)
        requires
            en == e * n,
    ;
    assert(p * (dx * n) <= 2real * en) by (nonlinear_arith)
        requires
            0real <= dx <= 2real,
            n >= 0real,
            0real < p <= e,
            en == e * n,
    ;
}

/// A slope times the span times its share is near the exact product.
proof fn lemma_slope_share(
    r: real,
    first: real,
    x: real,
    share: real,
    dt: real,
    m: real,
    rise: real,
)
    requires
        dt > 0real,
        within(x, share, 12real * step()),
        -1real <= share <= 1real,
        within(first, x * dt, slack(x * dt)),
        within(r, first * m, slack(first * m)),
        within(m * dt, rise, 3real * (part() * distance(rise)) + least() * dt),
    ensures
        within(
            r,
            share * rise,
            30real * (step() * distance(rise)) + 4real * (least() * (1real + dt + distance(m))),
        ),
{
    lemma_small();
    let e = step();
    let p = part();
    let h = least();
    let n = distance(rise);
    let big = distance(m);
    let en = e * n;
    let pn = p * n;
    let hdt = h * dt;
    let hm = h * big;
    let dx = distance(x);
    assert(dx <= 2real);
    assert(n >= 0real && big >= 0real);
    assert(0real <= pn <= en && 3real * pn <= n && hdt > 0real && hm >= 0real && en <= n)
        by (nonlinear_arith)
        requires
            0real < p <= e,
            3real * p <= 1real,
            e <= 1real,
            h > 0real,
            dt > 0real,
            n >= 0real,
            big >= 0real,
            pn == p * n,
            en == e * n,
            hdt == h * dt,
            hm == h * big,
    ;
    // The span times the slope.
    let md = m * dt;
    lemma_distance(m, dt);
    let dtm = big * dt;
    assert(distance(md) == dtm);
    assert(dtm <= 2real * n + hdt);
    // The first product.
    let p1 = x * dt;
    lemma_distance(x, dt);
    let off = slack(p1);
    assert(off <= 2real * (p * dt) + h) by (nonlinear_arith)
        requires
            off == p * (dx * dt) + h,
            0real <= dx <= 2real,
            p > 0real,
            dt > 0real,
    ;
    lemma_scaled(first, p1, off, m);
    let g = off * big;
    let pdtm = p * dtm;
    assert(g <= 2real * pdtm + hm) by (nonlinear_arith)
        requires
            g == off * big,
            off <= 2real * (p * dt) + h,
            big >= 0real,
            pdtm == p * (big * dt),
            hm == h * big,
    ;
    assert(4real * pdtm <= 8real * pn + hdt) by (nonlinear_arith)
        requires
            pdtm == p * dtm,
            dtm <= 2real * n + hdt,
            pn == p * n,
            0real < p,
            4real * p <= 1real,
            hdt > 0real,
    ;
    assert(p1 * m == x * md) by (nonlinear_arith)
        requires
            p1 == x * dt,
            md == m * dt,
    ;
    // The share.
    let far = 3real * pn + hdt;
    lemma_scaled(md, rise, far, x);
    assert(md * x == x * md && rise * x == x * rise) by (nonlinear_arith);
    assert(far * dx <= 6real * pn + 2real * hdt) by (nonlinear_arith)
        requires
            far == 3real * pn + hdt,
            0real <= dx <= 2real,
            pn >= 0real,
            hdt >= 0real,
    ;
    lemma_scaled(x, share, 12real * e, rise);
    assert((12real * e) * n == 12real * en) by (nonlinear_arith)
        requires
            en == e * n,
    ;
    // The second product.
    let fm = first * m;
    lemma_distance(x, md);
    assert(dx * dtm <= 2real * dtm) by (nonlinear_arith)
        requires
            dx <= 2real,
            dtm >= 0real,
    ;
    let size = distance(fm);
    assert(size <= 2real * dtm + g);
    assert(size <= 8real * n + 6real * hdt + hm);
    assert(p * size <= 8real * en + hdt + hm) by (nonlinear_arith)
        requires
            size <= 8real * n + 6real * hdt + hm,
            0real < p <= e,
            6real * p <= 1real,
            n >= 0real,
            hdt >= 0real,
            hm >= 0real,
            en == e * n,
    ;
    let u = h * (1real + dt + big);
    assert(u == h + hdt + hm) by (nonlinear_arith)
        requires
            u == h * (1real + dt + big),
            hdt == h * dt,
            hm == h * big,
    ;
}

/// The sum of the four products is near the value on the line.
proof fn lemma_four(
    r: (real, real, real),
    parts: (real, real, real, real),
    z: real,
    v0: real,
    v1: real,
    u: real,
)
    requires
        0real <= z <= 1real,
        u >= least(),
        ({
            let rise = v1 - v0;
            let n = step() * distance(rise);
            let (a, b, c, d) = parts;
            let (s1, s2, s3) = r;
            &&& within(a, share_start(z) * v0, 22real * (step() * distance(v0)) + u)
            &&& within(b, share_slope_start(z) * rise, 30real * n + 4real * u)
            &&& within(c, share_end(z) * v1, 22real * (step() * distance(v1)) + u)
            &&& within(d, share_slope_end(z) * rise, 30real * n + 4real * u)
            &&& within(s1, a + b, part() * distance(a + b))
            &&& within(s2, s1 + c, part() * distance(s1 + c))
            &&& within(s3, s2 + d, part() * distance(s2 + d))
        }),
    ensures
        within(
            r.2,
            v0 + z * (v1 - v0),
            120real * (step() * (distance(v0) + distance(v1))) + 16real * u,
        ),
{
    lemma_small();
    lemma_shares(z);
    let (a, b, c, d) = parts;
    let (s1, s2, s3) = r;
    let e = step();
    let p = part();
    let n0 = distance(v0);
    let n1 = distance(v1);
    let all = n0 + n1;
    let rise = v1 - v0;
    let nr = distance(rise);
    assert(nr <= all);
    let ea = e * all;
    let e0 = e * n0;
    let e1 = e * n1;
    let er = e * nr;
    assert(e0 + e1 == ea && er <= ea && e0 >= 0real && e1 >= 0real && 1000real * ea <= all)
        by (nonlinear_arith)
        requires
            e0 == e * n0,
            e1 == e * n1,
            er == e * nr,
            ea == e * all,
            all == n0 + n1,
            nr <= all,
            n0 >= 0real,
            n1 >= 0real,
            e > 0real,
            1000real * e <= 1real,
    ;
    let q0 = share_start(z) * v0;
    let q1 = share_slope_start(z) * rise;
    let q2 = share_end(z) * v1;
    let q3 = share_slope_end(z) * rise;
    lemma_distance(share_start(z), v0);
    lemma_distance(share_slope_start(z), rise);
    lemma_distance(share_end(z), v1);
    lemma_distance(share_slope_end(z), rise);
    lemma_at_most(distance(share_start(z)), n0);
    lemma_at_most(distance(share_slope_start(z)), nr);
    lemma_at_most(distance(share_end(z)), n1);
    lemma_at_most(distance(share_slope_end(z)), nr);
    assert(-n0 <= q0 <= n0 && -nr <= q1 <= nr && -n1 <= q2 <= n1 && -nr <= q3 <= nr);
    lemma_parts(all, u);
    lemma_part(a + b, 3real * all + 6real * u);
    lemma_part(s1 + c, 5real * all + 10real * u);
    lemma_part(s2 + d, 7real * all + 16real * u);
    let x2 = z * z;
    let x3 = z * z * z;
    assert(q0 + q1 + q2 + q3 == v0 + z * rise) by (nonlinear_arith)
        requires
            q0 == (2real * x3 - 3real * x2 + 1real) * v0,
            q1 == (x3 - 2real * x2 + z) * rise,
            q2 == (3real * x2 - 2real * x3) * v1,
            q3 == (x3 - x2) * rise,
            rise == v1 - v0,
    ;
}

proof fn lemma_at_most(share: real, n: real)
    requires
        0real <= share <= 1real,
        n >= 0real,
    ensures
        share * n <= n,
{
    assert(share * n <= n) by (nonlinear_arith)
        requires
            0real <= share <= 1real,
            n >= 0real,
    ;
}

proof fn lemma_part(x: real, most: real)
    requires
        -most <= x <= most,
    ensures
        part() * distance(x) <= part() * most,
{
    lemma_small();
    let p = part();
    let d = distance(x);
    assert(p * d <= p * most) by (nonlinear_arith)
        requires
            d <= most,
            p > 0real,
    ;
}

proof fn lemma_parts(all: real, u: real)
    requires
        all >= 0real,
        u >= 0real,
    ensures
        part() * (3real * all + 6real * u) <= 3real * (step() * all) + u,
        part() * (5real * all + 10real * u) <= 5real * (step() * all) + u,
        part() * (7real * all + 16real * u) <= 7real * (step() * all) + u,
        step() * all <= all,
{
    lemma_small();
    let p = part();
    let e = step();
    assert(p * (3real * all + 6real * u) <= 3real * (e * all) + u) by (nonlinear_arith)
        requires
            0real < p <= e,
            16real * p <= 1real,
            all >= 0real,
            u >= 0real,
    ;
    assert(p * (5real * all + 10real * u) <= 5real * (e * all) + u) by (nonlinear_arith)
        requires
            0real < p <= e,
            16real * p <= 1real,
            all >= 0real,
            u >= 0real,
    ;
    assert(p * (7real * all + 16real * u) <= 7real * (e * all) + u) by (nonlinear_arith)
        requires
            0real < p <= e,
            16real * p <= 1real,
            all >= 0real,
            u >= 0real,
    ;
    assert(e * all <= all) by (nonlinear_arith)
        requires
            0real < e <= 1real,
            all >= 0real,
    ;
}

/// The value at a moment on the straight line through two points.
pub open spec fn line(t: Real, p0: (Real, Real), p1: (Real, Real)) -> real {
    exact(p0.1) + ((exact(t) - exact(p0.0)) / (exact(p1.0) - exact(p0.0))) * (exact(p1.1) - exact(
        p0.1,
    ))
}

/// Where neither point has a neighbour the curve between them is the straight line, up
/// to rounding: a few parts in `2^53` of the values, and a few of the smallest numbers
/// where the span or the slope is large.
pub proof fn law_curve_without_neighbours_is_a_line(t: Real, p0: (Real, Real), p1: (Real, Real))
    requires
        placeable(t, p0.0, p1.0),
        hermite(t, None, p0, p1, None).finite(),
    ensures
        within(
            exact(hermite(t, None, p0, p1, None)),
            line(t, p0, p1),
            128real * (step() * (distance(exact(p0.1)) + distance(exact(p1.1)))) + 16real * (least()
                * (1real + exact(p1.0.difference(p0.0)) + distance(exact(slope(p0, p1))))),
        ),
{
    lemma_small();
    let dt = p1.0.difference(p0.0);
    let s = share_between(t, p0.0, p1.0);
    let m = slope(p0, p1);
    lemma_share_near(t, p0.0, p1.0);
    let two = Real::of_int(2);
    let three = Real::of_int(3);
    let s2 = s.product(s);
    let s3 = s2.product(s);
    let h00 = two.product(s3).difference(three.product(s2)).sum(Real::of_int(1));
    let h10 = s3.difference(two.product(s2)).sum(s);
    let h01 = Real::of_int(-2).product(s3).sum(three.product(s2));
    let h11 = s3.difference(s2);
    let a = h00.product(p0.1);
    let b1 = h10.product(dt);
    let b = b1.product(m);
    let c = h01.product(p1.1);
    let d1 = h11.product(dt);
    let d = d1.product(m);
    let r1 = a.sum(b);
    let r2 = r1.sum(c);
    let r3 = r2.sum(d);
    assert(hermite(t, None, p0, p1, None) == r3);
    lemma_sum_error(r2, d);
    lemma_sum_error(r1, c);
    lemma_sum_error(a, b);
    lemma_product_error(h00, p0.1);
    lemma_product_error(b1, m);
    lemma_product_error(h10, dt);
    lemma_product_error(h01, p1.1);
    lemma_product_error(d1, m);
    lemma_product_error(h11, dt);
    lemma_weights(s);
    let z = exact(s);
    lemma_shares(z);
    let w = p1.1.difference(p0.1);
    assert(dt.value() > 0) by {
        lemma_difference(t, p0.0, p1.0);
    }
    lemma_quotient_error(w, dt);
    assert(w.finite());
    lemma_difference_error(p1.1, p0.1);
    let v0 = exact(p0.1);
    let v1 = exact(p1.1);
    let rise = v1 - v0;
    let x = exact(dt);
    let k = exact(m);
    lemma_rise(exact(w), rise, k * x, x);
    lemma_value_share(exact(a), exact(h00), share_start(z), v0);
    lemma_value_share(exact(c), exact(h01), share_end(z), v1);
    lemma_slope_share(exact(b), exact(b1), exact(h10), share_slope_start(z), x, k, rise);
    lemma_slope_share(exact(d), exact(d1), exact(h11), share_slope_end(z), x, k, rise);
    let u = least() * (1real + x + distance(k));
    assert(u >= least()) by (nonlinear_arith)
        requires
            u == least() * (1real + x + distance(k)),
            least() > 0real,
            x > 0real,
            distance(k) >= 0real,
    ;
    lemma_four(
        (exact(r1), exact(r2), exact(r3)),
        (exact(a), exact(b), exact(c), exact(d)),
        z,
        v0,
        v1,
        u,
    );
    let share = (exact(t) - exact(p0.0)) / (exact(p1.0) - exact(p0.0));
    lemma_scaled(z, share, 4real * step(), rise);
    let e = step();
    let n = distance(rise);
    let all = distance(v0) + distance(v1);
    assert((4real * e) * n <= 4real * (e * all)) by (nonlinear_arith)
        requires
            n <= all,
            e > 0real,
    ;
}

/// What the slope comes to over the span.
proof fn lemma_rise(w: real, rise: real, back: real, dt: real)
    requires
        dt > 0real,
        within(w, rise, part() * distance(rise)),
        within(back, w, part() * distance(w) + least() * dt),
    ensures
        within(back, rise, 3real * (part() * distance(rise)) + least() * dt),
{
    lemma_small();
    let p = part();
    let n = distance(rise);
    let pn = p * n;
    assert(pn <= n && pn >= 0real) by (nonlinear_arith)
        requires
            pn == p * n,
            0real < p <= 1real,
            n >= 0real,
    ;
    let dw = distance(w);
    assert(dw <= 2real * n);
    assert(p * dw <= 2real * pn) by (nonlinear_arith)
        requires
            dw <= 2real * n,
            p > 0real,
            pn == p * n,
    ;
}

} // verus!
