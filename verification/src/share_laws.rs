//! Places and sizes that are shares of a side.

use vstd::arithmetic::div_mod::lemma_fundamental_div_mod;
use vstd::arithmetic::power2::{lemma2_to64, lemma2_to64_rest};
use vstd::prelude::*;

use crate::binary64::{
    lemma_finite_error, lemma_int_product, lemma_nat_size, lemma_size_at_most, unit, Real,
};
use crate::depth_graph::frame_of;
use crate::nearest::{lemma_nearest_monotone, lemma_pow2_le, nearest_magnitude};
use crate::overlay::{line_height, overlay_scale, scaled_size, share, stroke_of, MIN_LINE_HEIGHT};
use crate::picture_laws::lemma_single_int;
use crate::probe_laws::lemma_whole_rounds;
use crate::run_laws::lemma_exact_ratio;

verus! {

/// What a share of a side comes to before it is cut to a whole number.
proof fn lemma_product_of_a_share(side: nat, n: nat, d: nat) -> (p: nat)
    requires
        side <= u32::MAX,
        0 < n <= d <= 1000,
    ensures
        ({
            let x = Real::of_int(side as int).product(Real::of_ratio(n, d));
            &&& x.finite()
            &&& !x.negative()
            &&& x.size() == p
        }),
        d * p < (side * n + 1) * unit(),
        d * p > (side * n - 1) * unit(),
{
    reveal(Real::product);
    let u = unit();
    lemma2_to64();
    lemma2_to64_rest();
    lemma_pow2_le(60, 1074);
    lemma_nat_size(side);
    lemma_nat_size(1);
    assert(1 * u == u);
    let r = Real::of_ratio(n, d);
    let nu = n * u;
    assert(nu * 1 <= u * d) by (nonlinear_arith)
        requires
            nu == n * u,
            n <= d,
    ;
    lemma_nearest_monotone(nu, d, u, 1);
    assert(r.magnitude() == nearest_magnitude(nu, d));
    let rs = r.size();
    lemma_size_at_most(r.magnitude(), nearest_magnitude(u, 1));
    assert(rs <= u);
    lemma_finite_error(nu, d);
    let x = Real::of_int(side as int).product(r);
    let s = side * u;
    let m = s * rs;
    assert(m * 1 <= s * u) by (nonlinear_arith)
        requires
            m == s * rs,
            rs <= u,
    ;
    lemma_nearest_monotone(m, u, s, 1);
    assert(x.magnitude() == nearest_magnitude(m, u));
    assert(x.finite());
    lemma_finite_error(m, u);
    let p = x.size();
    lemma_bounds(side, n, d, u, rs, p);
    p
}

/// The bounds on a share that two roundings leave.
proof fn lemma_bounds(side: nat, n: nat, d: nat, u: nat, rs: nat, p: nat)
    requires
        side <= u32::MAX,
        0 < n <= d <= 1000,
        u >= 0x1000_0000_0000_0000,
        0x20_0000_0000_0000 * (rs * d) <= 0x20_0000_0000_0001 * (n * u) + 0x20_0000_0000_0000 * d,
        0x20_0000_0000_0000 * (rs * d) + 0x20_0000_0000_0000 * d >= 0x1f_ffff_ffff_ffff * (n * u),
        0x20_0000_0000_0000 * (p * u) <= 0x20_0000_0000_0001 * ((side * u) * rs)
            + 0x20_0000_0000_0000 * u,
        0x20_0000_0000_0000 * (p * u) + 0x20_0000_0000_0000 * u >= 0x1f_ffff_ffff_ffff * ((side * u)
            * rs),
    ensures
        d * p < (side * n + 1) * u,
        d * p > (side * n - 1) * u,
{
    let x = (side * rs) as int;
    let a = (side * n) as int;
    let e = (side * d) as int;
    let dx = d * x;
    let au = a * u;
    let dp = (d * p) as int;
    let pi = p as int;
    let w = u as int;
    // Without the factor that both sides share.
    assert((side * u) * rs == x * w) by (nonlinear_arith)
        requires
            x == side * rs,
            w == u,
    ;
    assert((0x20_0000_0000_0000 * pi) * w == 0x20_0000_0000_0000 * (pi * w)) by (nonlinear_arith);
    assert((0x20_0000_0000_0001 * x + 0x20_0000_0000_0000) * w == 0x20_0000_0000_0001 * (x * w)
        + 0x20_0000_0000_0000 * w) by (nonlinear_arith);
    assert((0x1f_ffff_ffff_ffff * x) * w == 0x1f_ffff_ffff_ffff * (x * w)) by (nonlinear_arith);
    assert((0x20_0000_0000_0000 * pi + 0x20_0000_0000_0000) * w == 0x20_0000_0000_0000 * (pi * w)
        + 0x20_0000_0000_0000 * w) by (nonlinear_arith);
    lemma_cancel(
        0x20_0000_0000_0000 * pi,
        0x20_0000_0000_0001 * x + 0x20_0000_0000_0000,
        w,
    );
    lemma_cancel(
        0x1f_ffff_ffff_ffff * x,
        0x20_0000_0000_0000 * pi + 0x20_0000_0000_0000,
        w,
    );
    // The first rounding, times the side.
    let rd = (rs * d) as int;
    let nu = (n * u) as int;
    assert(side * rd == dx) by (nonlinear_arith)
        requires
            rd == rs * d,
            x == side * rs,
            dx == d * x,
    ;
    assert(side * nu == au) by (nonlinear_arith)
        requires
            nu == n * u,
            a == side * n,
            au == a * u,
    ;
    lemma_times(
        0x20_0000_0000_0000 * rd,
        0x20_0000_0000_0001 * nu + 0x20_0000_0000_0000 * d,
        side as int,
    );
    lemma_times(
        0x1f_ffff_ffff_ffff * nu,
        0x20_0000_0000_0000 * rd + 0x20_0000_0000_0000 * d,
        side as int,
    );
    lemma_spread(side as int, rd, nu, d as int);
    assert(0x20_0000_0000_0000 * dx <= 0x20_0000_0000_0001 * au + 0x20_0000_0000_0000 * e);
    assert(0x1f_ffff_ffff_ffff * au <= 0x20_0000_0000_0000 * dx + 0x20_0000_0000_0000 * e);
    // The second rounding, times the divisor.
    lemma_times(
        0x20_0000_0000_0000 * pi,
        0x20_0000_0000_0001 * x + 0x20_0000_0000_0000,
        d as int,
    );
    lemma_times(
        0x1f_ffff_ffff_ffff * x,
        0x20_0000_0000_0000 * pi + 0x20_0000_0000_0000,
        d as int,
    );
    lemma_spread_parts(d as int, pi, x);
    assert(0x20_0000_0000_0000 * dp <= 0x20_0000_0000_0001 * dx + 0x20_0000_0000_0000 * d);
    assert(0x1f_ffff_ffff_ffff * dx <= 0x20_0000_0000_0000 * dp + 0x20_0000_0000_0000 * d);
    // What the roundings add is less than a unit.
    assert(0 <= a <= 0x3ff_ffff_ffff && 0 <= e <= 0x3ff_ffff_ffff) by (nonlinear_arith)
        requires
            a == side * n,
            e == side * d,
            0 <= side <= 0xffff_ffff,
            0 <= n <= 1000,
            0 <= d <= 1000,
    ;
    assert(0 <= au <= 0x3ff_ffff_ffff * u) by (nonlinear_arith)
        requires
            au == a * u,
            0 <= a <= 0x3ff_ffff_ffff,
            u >= 0,
    ;
    assert((a + 1) * u == au + u && (a - 1) * u == au - u) by (nonlinear_arith)
        requires
            au == a * u,
    ;
}

proof fn lemma_cancel(a: int, b: int, u: int)
    requires
        u > 0,
    ensures
        a * u <= b * u ==> a <= b,
{
    assert(a * u <= b * u ==> a <= b) by (nonlinear_arith)
        requires
            u > 0,
    ;
}

proof fn lemma_times(a: int, b: int, k: int)
    requires
        a <= b,
        k >= 0,
    ensures
        k * a <= k * b,
{
    assert(k * a <= k * b) by (nonlinear_arith)
        requires
            a <= b,
            k >= 0,
    ;
}

proof fn lemma_spread(k: int, rd: int, nu: int, d: int)
    ensures
        k * (0x20_0000_0000_0000 * rd) == 0x20_0000_0000_0000 * (k * rd),
        k * (0x20_0000_0000_0001 * nu + 0x20_0000_0000_0000 * d) == 0x20_0000_0000_0001 * (k * nu)
            + 0x20_0000_0000_0000 * (k * d),
        k * (0x1f_ffff_ffff_ffff * nu) == 0x1f_ffff_ffff_ffff * (k * nu),
        k * (0x20_0000_0000_0000 * rd + 0x20_0000_0000_0000 * d) == 0x20_0000_0000_0000 * (k * rd)
            + 0x20_0000_0000_0000 * (k * d),
{
    assert(k * (0x20_0000_0000_0000 * rd) == 0x20_0000_0000_0000 * (k * rd)) by (nonlinear_arith);
    assert(k * (0x1f_ffff_ffff_ffff * nu) == 0x1f_ffff_ffff_ffff * (k * nu)) by (nonlinear_arith);
    assert(k * (0x20_0000_0000_0001 * nu + 0x20_0000_0000_0000 * d) == 0x20_0000_0000_0001 * (k * nu)
        + 0x20_0000_0000_0000 * (k * d)) by (nonlinear_arith);
    assert(k * (0x20_0000_0000_0000 * rd + 0x20_0000_0000_0000 * d) == 0x20_0000_0000_0000 * (k * rd)
        + 0x20_0000_0000_0000 * (k * d)) by (nonlinear_arith);
}

proof fn lemma_spread_parts(d: int, p: int, x: int)
    ensures
        d * (0x20_0000_0000_0000 * p) == 0x20_0000_0000_0000 * (d * p),
        d * (0x20_0000_0000_0001 * x + 0x20_0000_0000_0000) == 0x20_0000_0000_0001 * (d * x)
            + 0x20_0000_0000_0000 * d,
        d * (0x1f_ffff_ffff_ffff * x) == 0x1f_ffff_ffff_ffff * (d * x),
        d * (0x20_0000_0000_0000 * p + 0x20_0000_0000_0000) == 0x20_0000_0000_0000 * (d * p)
            + 0x20_0000_0000_0000 * d,
{
    assert(d * (0x20_0000_0000_0000 * p) == 0x20_0000_0000_0000 * (d * p)) by (nonlinear_arith);
    assert(d * (0x1f_ffff_ffff_ffff * x) == 0x1f_ffff_ffff_ffff * (d * x)) by (nonlinear_arith);
    assert(d * (0x20_0000_0000_0001 * x + 0x20_0000_0000_0000) == 0x20_0000_0000_0001 * (d * x)
        + 0x20_0000_0000_0000 * d) by (nonlinear_arith);
    assert(d * (0x20_0000_0000_0000 * p + 0x20_0000_0000_0000) == 0x20_0000_0000_0000 * (d * p)
        + 0x20_0000_0000_0000 * d) by (nonlinear_arith);
}

/// A share of a side, cut to a whole number, is not above the exact share and less than
/// one below it, or one below it where that is whole.
proof fn lemma_share_of_a_side(side: nat, n: nat, d: nat)
    requires
        side <= u32::MAX,
        0 < n <= d <= 1000,
    ensures
        ({
            let q = Real::of_int(side as int).product(Real::of_ratio(n, d)).truncated();
            &&& q >= 0
            &&& d * q <= side * n <= d * (q + 1)
        }),
{
    let p = lemma_product_of_a_share(side, n, d);
    let u = unit();
    lemma_nat_size(0);
    let x = Real::of_int(side as int).product(Real::of_ratio(n, d));
    let q = x.truncated();
    lemma_fundamental_div_mod(p as int, u as int);
    assert(q == p / u);
    let a = (side * n) as int;
    let dq = d * q;
    let qu = q * u;
    assert(u * q == qu) by (nonlinear_arith)
        requires
            qu == q * u,
    ;
    lemma_times(qu, p as int, d as int);
    lemma_times(p as int, qu + u, d as int);
    assert(d * qu == dq * u) by (nonlinear_arith)
        requires
            qu == q * u,
            dq == d * q,
    ;
    assert(d * (qu + u) == (dq + d) * u) by (nonlinear_arith)
        requires
            qu == q * u,
            dq == d * q,
    ;
    assert(dq < a + 1) by (nonlinear_arith)
        requires
            dq * u < (a + 1) * u,
            u > 0,
    ;
    assert(a - 1 < dq + d) by (nonlinear_arith)
        requires
            (a - 1) * u < (dq + d) * u,
            u > 0,
    ;
    assert(d * (q + 1) == dq + d) by (nonlinear_arith)
        requires
            dq == d * q,
    ;
}

/// A place that lies some hundredths of a side from its start is cut to whole pixels.
pub proof fn law_place_of_the_box(side: u32, hundredths: nat)
    requires
        side <= i32::MAX,
        0 < hundredths <= 100,
    ensures
        0 <= share(side, hundredths),
        100 * share(side, hundredths) <= hundredths * side <= 100 * (share(side, hundredths) + 1),
{
    lemma_share_of_a_side(side as nat, hundredths, 100);
    let q = Real::of_int(side as int).product(Real::of_ratio(hundredths, 100)).truncated();
    assert(side * hundredths == hundredths * side) by (nonlinear_arith);
    assert(hundredths * side <= 100 * side) by (nonlinear_arith)
        requires
            hundredths <= 100,
    ;
}

/// A line of text takes nine two-hundredths of the height of the picture, cut to whole
/// pixels, but not less than the least height of a line.
pub proof fn law_height_of_a_line(height: u32)
    requires
        height <= i32::MAX,
    ensures
        line_height(height) >= MIN_LINE_HEIGHT,
        line_height(height) > MIN_LINE_HEIGHT ==> 1000 * line_height(height) <= 45 * height <= 1000
            * (line_height(height) + 1),
        45 * height >= 1000 * (MIN_LINE_HEIGHT + 1) ==> 1000 * line_height(height) <= 45 * height
            <= 1000 * (line_height(height) + 1),
{
    lemma_share_of_a_side(height as nat, 45, 1000);
}

/// The graph takes thirty-two hundredths of the width of the picture and eighteen of its
/// height, and stands four hundredths from its left and seventy-two from its top.
pub proof fn law_place_of_the_graph(width: u32, height: u32)
    requires
        width <= i32::MAX,
        height <= i32::MAX,
    ensures
        ({
            let frame = frame_of(width, height);
            &&& 100 * frame.x <= 4 * width <= 100 * (frame.x + 1)
            &&& 100 * frame.y <= 72 * height <= 100 * (frame.y + 1)
            &&& 100 * frame.width <= 32 * width <= 100 * (frame.width + 1)
            &&& 100 * frame.height <= 18 * height <= 100 * (frame.height + 1)
        }),
{
    law_place_of_the_box(width, 4);
    law_place_of_the_box(height, 72);
    lemma_share_of_a_side(width as nat, 32, 100);
    lemma_share_of_a_side(height as nat, 18, 100);
}

/// Text, strokes and spaces grow with the height of a line, from those for a line of
/// forty-eight pixels.
pub proof fn law_sizes_grow_with_the_line(height: u32, k: nat, size: nat, least: nat)
    requires
        line_height(height) == 48 * k,
        48 * k < 0x100_0000,
        0 < k,
        size * k < 0x100_0000,
        size < 0x100_0000,
        least < 0x100_0000,
    ensures
        overlay_scale(height) == Real::of_int(k as int),
        stroke_of(height) == k,
        scaled_size(height, size as int, least as int) == Real::of_int(
            if size * k > least {
                (size * k) as int
            } else {
                least as int
            },
        ),
{
    assert(k * 48 == 48 * k);
    lemma_single_int(Real::of_int((48 * k) as int), 48 * k);
    lemma_exact_ratio(k, 48);
    lemma_single_int(Real::of_int(k as int), k);
    lemma_whole_rounds(k as int);
    lemma_int_product(size, k);
    assert(size * k >= 0) by (nonlinear_arith);
    lemma_single_int(Real::of_int((size * k) as int), size * k);
    lemma_nat_size(size * k);
    lemma_nat_size(least);
    let u = unit();
    let a = size * k;
    assert((least * u < a * u) == (least < a)) by (nonlinear_arith)
        requires
            u > 0,
    ;
}

} // verus!
