//! The curve in the middle between two points.

use vstd::arithmetic::power2::{lemma2_to64, lemma_pow2_adds, lemma_pow2_pos, pow2};
use vstd::prelude::*;

use crate::binary64::{
    lemma_exact_shifted, lemma_nat_size, lemma_nearest_zero, lemma_negated,
    lemma_signed_int_difference, lemma_size_order, lemma_small_int, size_of_magnitude, unit, Real,
};
use crate::nearest::{lemma_nearest_same_ratio, nearest_magnitude, INFINITE, TWO53};
use crate::overlay_lines::{cubic, hermite, slope};

verus! {

/// Whether a number is so many eighths.
#[verifier::opaque]
pub open spec fn eighths(x: Real, n: int) -> bool {
    x.finite() && 8 * x.value() == n * unit()
}

/// An eighth of the unit.
proof fn lemma_unit()
    ensures
        unit() == 8 * pow2(1071),
        pow2(1071) > 0,
{
    lemma_pow2_adds(3, 1071);
    lemma2_to64();
    lemma_pow2_pos(1071);
}

spec fn plain(n: int) -> nat {
    if n < 0 {
        (-n) as nat
    } else {
        n as nat
    }
}

proof fn lemma_eighths(x: Real, n: int)
    requires
        x.finite(),
    ensures
        eighths(x, n) == (x.value() == n * pow2(1071)),
        eighths(x, n) ==> x.size() == plain(n) * pow2(1071),
{
    reveal(eighths);
    lemma_unit();
    let p = pow2(1071) as int;
    let u = unit() as int;
    assert(n * u == 8 * (n * p)) by (nonlinear_arith)
        requires
            u == 8 * p,
    ;
    assert(n < 0 ==> -(n * p) == (-n) * p) by (nonlinear_arith);
    assert(n < 0 ==> n * p < 0) by (nonlinear_arith)
        requires
            p > 0,
    ;
    assert(n >= 0 ==> n * p >= 0) by (nonlinear_arith)
        requires
            p > 0,
    ;
}

/// The size of so many eighths is exact.
proof fn lemma_exact_eighths(n: nat)
    requires
        n < TWO53,
    ensures
        size_of_magnitude(nearest_magnitude(n * pow2(1071), 1)) == n * pow2(1071),
        nearest_magnitude(n * pow2(1071), 1) < INFINITE,
{
    lemma_unit();
    if n > 0 {
        lemma_exact_shifted(n, 1071);
    } else {
        let p = pow2(1071);
        assert(0 * p == 0);
        lemma_nearest_zero(1);
        lemma_nat_size(0);
        let u = unit();
        assert(0 * u == 0);
    }
}

/// Integers as eighths.
proof fn lemma_int_eighths(i: int)
    requires
        -(TWO53 as int) < i < TWO53,
    ensures
        eighths(Real::of_int(i), 8 * i),
{
    reveal(eighths);
    lemma_small_int(i);
    let u = unit() as int;
    assert(8 * (i * u) == (8 * i) * u) by (nonlinear_arith);
}

/// Products of eighths are exact where they are eighths.
proof fn lemma_product_eighths(x: Real, y: Real, a: int, b: int, c: int)
    requires
        eighths(x, a),
        eighths(y, b),
        a * b == 8 * c,
        -(TWO53 as int) < c < TWO53,
    ensures
        eighths(x.product(y), c),
{
    reveal(eighths);
    reveal(Real::product);
    lemma_unit();
    lemma_eighths(x, a);
    lemma_eighths(y, b);
    let p = pow2(1071);
    let u = unit();
    let i = plain(a);
    let j = plain(b);
    let k = plain(c);
    lemma_signs(a, b);
    assert(i * j == 8 * k);
    let n = (i * p) * (j * p);
    assert(n == (i * j) * (p * p)) by (nonlinear_arith)
        requires
            n == (i * p) * (j * p),
    ;
    assert((k * p) * u == (8 * k) * (p * p)) by (nonlinear_arith)
        requires
            u == 8 * p,
    ;
    lemma_nearest_same_ratio(n, u, k * p, 1);
    lemma_exact_eighths(k);
    let r = x.product(y);
    assert(r.magnitude() == nearest_magnitude(k * p, 1));
    assert(r.size() == k * p);
    lemma_eighths(r, c);
    let s = if c < 0 {
        (-c) * p
    } else {
        c * p
    };
    assert(k * p == s);
    assert(c < 0 ==> c * p == -((-c) * p)) by (nonlinear_arith);
    if c == 0 {
        assert(0 * p == 0);
    } else {
        lemma_sign(x, a);
        lemma_sign(y, b);
    }
}

/// The sign of a product.
proof fn lemma_signs(a: int, b: int)
    ensures
        plain(a) * plain(b) == plain(a * b),
        a * b != 0 ==> a != 0 && b != 0 && (a * b < 0) == ((a < 0) != (b < 0)),
{
    assert((-a) * b == -(a * b) && a * (-b) == -(a * b) && (-a) * (-b) == a * b)
        by (nonlinear_arith);
    assert(a >= 0 && b >= 0 ==> a * b >= 0) by (nonlinear_arith);
    assert(a <= 0 && b <= 0 ==> a * b >= 0) by (nonlinear_arith);
    assert(a >= 0 && b <= 0 ==> a * b <= 0) by (nonlinear_arith);
    assert(a <= 0 && b >= 0 ==> a * b <= 0) by (nonlinear_arith);
    assert(a == 0 ==> a * b == 0) by (nonlinear_arith);
    assert(b == 0 ==> a * b == 0) by (nonlinear_arith);
}

proof fn lemma_sign(x: Real, a: int)
    requires
        eighths(x, a),
        a != 0,
    ensures
        x.negative() == (a < 0),
{
    reveal(eighths);
    lemma_eighths(x, a);
    lemma_unit();
    let p = pow2(1071) as int;
    assert(a < 0 ==> a * p < 0) by (nonlinear_arith)
        requires
            p > 0,
    ;
    assert(a > 0 ==> a * p > 0) by (nonlinear_arith)
        requires
            p > 0,
    ;
}

/// Sums of eighths are exact.
proof fn lemma_sum_eighths(x: Real, y: Real, a: int, b: int)
    requires
        eighths(x, a),
        eighths(y, b),
        -(TWO53 as int) < a + b < TWO53,
    ensures
        eighths(x.sum(y), a + b),
{
    reveal(eighths);
    reveal(Real::sum);
    lemma_unit();
    lemma_eighths(x, a);
    lemma_eighths(y, b);
    let p = pow2(1071) as int;
    let c = a + b;
    assert(a * p + b * p == c * p) by (nonlinear_arith)
        requires
            c == a + b,
    ;
    let r = x.sum(y);
    lemma_exact_eighths(plain(c));
    assert(c < 0 ==> -(c * p) == (-c) * p) by (nonlinear_arith);
    assert(c < 0 ==> c * p < 0) by (nonlinear_arith)
        requires
            p > 0,
    ;
    assert(c > 0 ==> c * p > 0) by (nonlinear_arith)
        requires
            p > 0,
    ;
    assert(c == 0 ==> c * p == 0) by (nonlinear_arith);
    lemma_size_order(r, r);
    if c != 0 {
        assert(r.magnitude() == nearest_magnitude((plain(c) * p) as nat, 1));
    } else {
        assert(r.magnitude() == 0);
    }
    lemma_eighths(r, c);
}

/// Differences of eighths are exact.
proof fn lemma_difference_eighths(x: Real, y: Real, a: int, b: int)
    requires
        eighths(x, a),
        eighths(y, b),
        -(TWO53 as int) < a - b < TWO53,
    ensures
        eighths(x.difference(y), a - b),
{
    reveal(eighths);
    lemma_negated(y);
    let u = unit() as int;
    assert(-(b * u) == (-b) * u) by (nonlinear_arith);
    lemma_sum_eighths(x, y.negated(), a, -b);
}

/// The cubic in the middle of its span: half way between its ends, and an eighth of the
/// span times what the slope at its start exceeds that at its end by.
proof fn lemma_middle(s: Real, dt: Real, v0: Real, v1: Real, m0: Real, m1: Real, e: Seq<int>)
    requires
        e.len() == 5,
        eighths(s, 4),
        eighths(dt, 8 * e[0]),
        eighths(v0, 8 * e[1]),
        eighths(v1, 8 * e[2]),
        eighths(m0, 8 * e[3]),
        eighths(m1, 8 * e[4]),
        forall|i: int| 0 <= i < 5 ==> -0x100_0000 < (#[trigger] e[i]) < 0x100_0000,
    ensures
        eighths(
            cubic(s, dt, v0, v1, m0, m1),
            4 * e[1] + 4 * e[2] + e[0] * e[3] - e[0] * e[4],
        ),
{
    let one = Real::of_int(1);
    let two = Real::of_int(2);
    let three = Real::of_int(3);
    let minus = Real::of_int(-2);
    lemma_int_eighths(1);
    lemma_int_eighths(2);
    lemma_int_eighths(3);
    lemma_int_eighths(-2);
    let s2 = s.product(s);
    lemma_product_eighths(s, s, 4, 4, 2);
    let s3 = s2.product(s);
    lemma_product_eighths(s2, s, 2, 4, 1);
    let t3 = two.product(s3);
    lemma_product_eighths(two, s3, 16, 1, 2);
    let t2 = three.product(s2);
    lemma_product_eighths(three, s2, 24, 2, 6);
    let d = t3.difference(t2);
    lemma_difference_eighths(t3, t2, 2, 6);
    let h00 = d.sum(one);
    lemma_sum_eighths(d, one, -4, 8);
    let w2 = two.product(s2);
    lemma_product_eighths(two, s2, 16, 2, 4);
    let c = s3.difference(w2);
    lemma_difference_eighths(s3, w2, 1, 4);
    let h10 = c.sum(s);
    lemma_sum_eighths(c, s, -3, 4);
    let n3 = minus.product(s3);
    lemma_product_eighths(minus, s3, -16, 1, -2);
    let h01 = n3.sum(t2);
    lemma_sum_eighths(n3, t2, -2, 6);
    let h11 = s3.difference(s2);
    lemma_difference_eighths(s3, s2, 1, 2);
    let (x, a, b, k0, k1) = (e[0], e[1], e[2], e[3], e[4]);
    lemma_small_product(x, k0);
    lemma_small_product(x, k1);
    let q0 = h00.product(v0);
    lemma_product_eighths(h00, v0, 4, 8 * a, 4 * a);
    let f1 = h10.product(dt);
    lemma_product_eighths(h10, dt, 1, 8 * x, x);
    let q1 = f1.product(m0);
    assert(x * (8 * k0) == 8 * (x * k0)) by (nonlinear_arith);
    lemma_product_eighths(f1, m0, x, 8 * k0, x * k0);
    let q2 = h01.product(v1);
    lemma_product_eighths(h01, v1, 4, 8 * b, 4 * b);
    let g1 = h11.product(dt);
    lemma_product_eighths(h11, dt, -1, 8 * x, -x);
    let q3 = g1.product(m1);
    assert((-x) * (8 * k1) == 8 * (-(x * k1))) by (nonlinear_arith);
    lemma_product_eighths(g1, m1, -x, 8 * k1, -(x * k1));
    lemma_sum_eighths(q0, q1, 4 * a, x * k0);
    lemma_sum_eighths(q0.sum(q1), q2, 4 * a + x * k0, 4 * b);
    lemma_sum_eighths(q0.sum(q1).sum(q2), q3, 4 * a + x * k0 + 4 * b, -(x * k1));
}

proof fn lemma_small_product(x: int, k: int)
    requires
        -0x100_0000 < x < 0x100_0000,
        -0x100_0000 < k < 0x100_0000,
    ensures
        -0x1_0000_0000_0000 < x * k < 0x1_0000_0000_0000,
{
    assert(-0x1_0000_0000_0000 < x * k < 0x1_0000_0000_0000) by (nonlinear_arith)
        requires
            -0x100_0000 < x < 0x100_0000,
            -0x100_0000 < k < 0x100_0000,
    ;
}

/// Half way between two points the curve lies half way between their values, and an
/// eighth of the span times what its slope at the start exceeds that at the end by; the
/// slopes are those to the neighbours beyond: from the one before to the second point,
/// and from the first point to the one behind.
pub proof fn law_middle_of_the_curve(
    t: int,
    half: int,
    v0: int,
    v1: int,
    before: (int, int),
    behind: (int, int),
    m0: int,
    m1: int,
)
    requires
        0 < half < 0x40_0000,
        -0x100_0000 < t < 0x100_0000,
        -0x100_0000 < v0 < 0x100_0000,
        -0x100_0000 < v1 < 0x100_0000,
        -0x100_0000 < m0 < 0x100_0000,
        -0x100_0000 < m1 < 0x100_0000,
        -0x100_0000 < before.0 < t + half,
        -0x100_0000 < before.1 < 0x100_0000,
        t - half < behind.0 < 0x100_0000,
        -0x100_0000 < behind.1 < 0x100_0000,
        v1 - before.1 == m0 * (t + half - before.0),
        behind.1 - v0 == m1 * (behind.0 - (t - half)),
    ensures
        eighths(
            hermite(
                Real::of_int(t),
                Some((Real::of_int(before.0), Real::of_int(before.1))),
                (Real::of_int(t - half), Real::of_int(v0)),
                (Real::of_int(t + half), Real::of_int(v1)),
                Some((Real::of_int(behind.0), Real::of_int(behind.1))),
            ),
            4 * v0 + 4 * v1 + 2 * half * m0 - 2 * half * m1,
        ),
{
    lemma_slope(before, (t + half, v1), m0);
    lemma_slope((t - half, v0), behind, m1);
    lemma_later(before.0, t + half);
    lemma_later(t - half, behind.0);
    lemma_signed_int_difference(t + half, t - half);
    lemma_signed_int_difference(t, t - half);
    let s = Real::of_int(half).quotient(Real::of_int(2 * half));
    lemma_half(half);
    lemma_int_eighths(2 * half);
    lemma_int_eighths(v0);
    lemma_int_eighths(v1);
    lemma_int_eighths(m0);
    lemma_int_eighths(m1);
    lemma_middle(
        s,
        Real::of_int(2 * half),
        Real::of_int(v0),
        Real::of_int(v1),
        Real::of_int(m0),
        Real::of_int(m1),
        seq![2 * half, v0, v1, m0, m1],
    );
}

proof fn lemma_later(a: int, b: int)
    requires
        -0x200_0000 < a < b < 0x200_0000,
    ensures
        Real::of_int(a).less(Real::of_int(b)),
{
    lemma_small_int(a);
    lemma_small_int(b);
    let u = unit() as int;
    assert(a * u < b * u) by (nonlinear_arith)
        requires
            a < b,
            u > 0,
    ;
}

/// Half of a span is four eighths of it.
proof fn lemma_half(half: int)
    requires
        0 < half < 0x40_0000,
    ensures
        eighths(Real::of_int(half).quotient(Real::of_int(2 * half)), 4),
{
    reveal(Real::quotient);
    reveal(eighths);
    lemma_unit();
    let u = unit();
    let p = pow2(1071);
    lemma_nat_size(half as nat);
    lemma_nat_size((2 * half) as nat);
    let n = (half * u) * u;
    let d = (2 * half) * u;
    assert(d > 0 && n >= 0) by (nonlinear_arith)
        requires
            d == (2 * half) * u,
            n == (half * u) * u,
            half > 0,
            u > 0,
    ;
    assert(n * 1 == (4 * p) * d) by (nonlinear_arith)
        requires
            n == (half * u) * u,
            d == (2 * half) * u,
            u == 8 * p,
    ;
    lemma_nearest_same_ratio(n as nat, d as nat, 4 * p, 1);
    lemma_exact_eighths(4);
    let q = Real::of_int(half).quotient(Real::of_int(2 * half));
    assert(q.magnitude() == nearest_magnitude(4 * p, 1));
    lemma_eighths(q, 4);
}

/// The slope between two points whose rise is a multiple of the time between.
proof fn lemma_slope(p: (int, int), q: (int, int), m: int)
    requires
        -0x200_0000 < p.0 < q.0 < 0x200_0000,
        -0x200_0000 < p.1 < 0x200_0000,
        -0x200_0000 < q.1 < 0x200_0000,
        -0x200_0000 < m < 0x200_0000,
        q.1 - p.1 == m * (q.0 - p.0),
    ensures
        slope((Real::of_int(p.0), Real::of_int(p.1)), (Real::of_int(q.0), Real::of_int(q.1)))
            == Real::of_int(m),
{
    reveal(Real::quotient);
    lemma_signed_int_difference(q.1, p.1);
    lemma_signed_int_difference(q.0, p.0);
    let dt = q.0 - p.0;
    let dv = q.1 - p.1;
    let u = unit();
    let i = plain(m);
    let k = plain(dv);
    lemma_small_int(dv);
    lemma_small_int(m);
    lemma_nat_size(dt as nat);
    lemma_nat_size(i);
    lemma_nat_size(k);
    lemma_signs(m, dt);
    assert(i * dt == k);
    let n = (k * u) * u;
    let d = dt * u;
    assert(d > 0) by (nonlinear_arith)
        requires
            d == dt * u,
            dt > 0,
            u > 0,
    ;
    assert(n * 1 == (i * u) * d) by (nonlinear_arith)
        requires
            n == (k * u) * u,
            d == dt * u,
            i * dt == k,
    ;
    lemma_nearest_same_ratio(n, d as nat, i * u, 1);
    let w = Real::of_int(dv);
    assert(w.size() == k * u) by {
        lemma_size_order(w, w);
    }
    assert(m != 0 ==> dv != 0) by (nonlinear_arith)
        requires
            dv == m * dt,
            dt > 0,
    ;
    assert(!w.zero() || dv == 0);
    let r = w.quotient(Real::of_int(dt));
    assert(r.magnitude() == nearest_magnitude(i * u, 1));
    assert(r == Real::of_int(m));
}

} // verus!
