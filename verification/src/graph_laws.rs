//! The line of the depth graph stays inside its frame, with the smallest depth at the
//! top and the largest one at the bottom.

use vstd::arithmetic::div_mod::{
    lemma_div_is_ordered, lemma_fundamental_div_mod, lemma_fundamental_div_mod_converse,
};
use vstd::arithmetic::power2::{
    lemma2_to64, lemma2_to64_rest, lemma_pow2_adds, lemma_pow2_pos, pow2,
};
use vstd::prelude::*;

use crate::binary64::{
    exponent_of, lemma_exact, lemma_nat_size, lemma_nearest_zero, lemma_signed_int_difference,
    lemma_size_at_most, lemma_size_order, significand_of, size_of_magnitude, unit, Real, SINGLE_END,
};
use crate::depth_graph::{
    deepest, depths, graph_points, lower_edge, place, sample_point, shallowest, GraphFrame,
    LARGEST_BITS, SMALLEST_BITS,
};
use crate::model::DiveSample;
use crate::nearest::{
    lemma_nearest_monotone, lemma_nearest_same_ratio, lemma_pow2_le, nearest_even,
    nearest_magnitude, INFINITE, TWO52, TWO53,
};

verus! {

/// Coordinates below this one are exact in single precision.
pub const SINGLE_EXACT: u64 = 0x100_0000;

/// Whether a number lies between two integers.
pub open spec fn between(x: Real, lo: int, hi: int) -> bool {
    &&& x.finite()
    &&& lo * unit() <= x.value() <= hi * unit()
}

/// The number nearest to one between two integers lies between them.
proof fn lemma_nearest_between(n: nat, lo: nat, hi: nat)
    requires
        hi < TWO53,
        lo * unit() <= n <= hi * unit(),
    ensures
        nearest_magnitude(n, 1) < INFINITE,
        lo * unit() <= size_of_magnitude(nearest_magnitude(n, 1)) <= hi * unit(),
{
    let u = unit();
    lemma_pow2_pos(1074);
    assert(lo <= hi) by (nonlinear_arith)
        requires
            lo * u <= hi * u,
            u > 0,
    ;
    lemma_nat_size(lo);
    lemma_nat_size(hi);
    lemma_nearest_monotone(lo * u, 1, n, 1);
    lemma_nearest_monotone(n, 1, hi * u, 1);
    lemma_size_at_most(nearest_magnitude(lo * u, 1), nearest_magnitude(n, 1));
    lemma_size_at_most(nearest_magnitude(n, 1), nearest_magnitude(hi * u, 1));
}

/// A sum of a number that is not negative lies between the integers that the exact
/// sum lies between.
proof fn lemma_sum_between(a: Real, b: Real, lo: nat, hi: nat)
    requires
        a.finite(),
        !a.negative(),
        b.finite(),
        hi < TWO53,
        lo * unit() <= a.value() + b.value() <= hi * unit(),
    ensures
        between(a.sum(b), lo as int, hi as int),
        !a.sum(b).negative(),
{
    reveal(Real::sum);
    let u = unit();
    assert(lo * u >= 0) by (nonlinear_arith);
    let n = (a.value() + b.value()) as nat;
    lemma_nearest_between(n, lo, hi);
    let r = a.sum(b);
    if n == 0 {
        assert(r.magnitude() == 0);
        lemma_size_order(r, r);
    } else {
        assert(r.magnitude() == nearest_magnitude(n, 1));
    }
}

/// Rounding to single precision keeps a number between integers that are exact there.
pub proof fn lemma_single_between(x: Real, lo: nat, hi: nat)
    requires
        between(x, lo as int, hi as int),
        !x.negative(),
        hi < SINGLE_EXACT,
    ensures
        between(x.single(), lo as int, hi as int),
{
    let u = unit();
    let size = x.size();
    let m = x.magnitude();
    let e = exponent_of(m);
    let q = x.single_place();
    lemma2_to64();
    lemma2_to64_rest();
    lemma_pow2_pos(1074);
    lemma_pow2_pos(e);
    lemma_pow2_pos(q);
    lemma_pow2_adds(24, 1074);
    assert(hi * u < 0x100_0000 * u) by (nonlinear_arith)
        requires
            hi < 0x100_0000,
            u > 0,
    ;
    assert(q <= 1074) by {
        if e > 1045 {
            lemma_pow2_adds(52, e);
            lemma_pow2_le(1098, 52 + e);
            let s = significand_of(m);
            assert(s >= TWO52);
            let p = pow2(e);
            assert(s * p >= TWO52 * p) by (nonlinear_arith)
                requires
                    s >= TWO52,
                    p > 0,
            ;
        }
    }
    let d = pow2(q);
    let c = pow2((1074 - q) as nat);
    lemma_pow2_adds((1074 - q) as nat, q);
    assert(u == c * d);
    lemma_pow2_pos((1074 - q) as nat);
    let k = nearest_even(size, d);
    lemma_fundamental_div_mod(size as int, d as int);
    let low = lo * c;
    let high = hi * c;
    assert(low * d == lo * u && high * d == hi * u) by (nonlinear_arith)
        requires
            low == lo * c,
            high == hi * c,
            u == c * d,
    ;
    lemma_fundamental_div_mod_converse((low * d) as int, d as int, low as int, 0);
    lemma_fundamental_div_mod_converse((high * d) as int, d as int, high as int, 0);
    lemma_div_is_ordered((low * d) as int, size as int, d as int);
    lemma_div_is_ordered(size as int, (high * d) as int, d as int);
    let t = size as int / d as int;
    let r = size as int % d as int;
    assert(low <= t <= high);
    assert(k <= high) by {
        if t == high {
            assert(r == 0) by (nonlinear_arith)
                requires
                    size == d * t + r,
                    t == high,
                    size <= high * d,
                    r >= 0,
            ;
        }
    }
    let n = k * d;
    assert(low * d <= n <= high * d) by (nonlinear_arith)
        requires
            n == k * d,
            low <= k <= high,
            d > 0,
    ;
    lemma_nearest_between(n, lo, hi);
    let z = nearest_magnitude(n, 1);
    assert(z < SINGLE_END) by {
        if z >= SINGLE_END {
            lemma_size_at_most(SINGLE_END as nat, z);
            assert(exponent_of(SINGLE_END as nat) == 1150 && significand_of(SINGLE_END as nat)
                == TWO52);
            lemma_pow2_le(1098, 1150);
            let p = pow2(1150);
            assert(TWO52 * p >= p) by (nonlinear_arith)
                requires
                    p >= 0,
            ;
        }
    }
    assert(x.single().magnitude() == z);
}

/// The share that a number has of the way from one to another: none at the start, all
/// of it at the end.
pub open spec fn share_between(x: Real, lo: Real, hi: Real) -> Real {
    x.difference(lo).quotient(hi.difference(lo))
}

/// Whether one number can be placed between two others, without overflow.
pub open spec fn placeable(x: Real, lo: Real, hi: Real) -> bool {
    &&& lo.finite()
    &&& hi.finite()
    &&& x.finite()
    &&& lo.value() <= x.value() <= hi.value()
    &&& lo.value() < hi.value()
    &&& hi.difference(lo).finite()
}

/// Differences keep order.
pub proof fn lemma_difference(x: Real, lo: Real, hi: Real)
    requires
        placeable(x, lo, hi),
    ensures
        ({
            let n = x.difference(lo);
            let d = hi.difference(lo);
            &&& n.finite()
            &&& n.size() <= d.size()
            &&& n.value() == n.size()
            &&& !d.negative()
            &&& d.size() > 0
            &&& x.value() == lo.value() ==> n.size() == 0
            &&& x.value() == hi.value() ==> n.size() == d.size()
        }),
{
    reveal(Real::sum);
    let y = lo.negated();
    assert(y.magnitude() == lo.magnitude());
    assert(y.value() == -lo.value());
    let n = x.difference(lo);
    let d = hi.difference(lo);
    let a = (x.value() - lo.value()) as nat;
    let b = (hi.value() - lo.value()) as nat;
    lemma_nearest_monotone(a, 1, b, 1);
    lemma_nearest_monotone(1, 1, b, 1);
    assert(d.magnitude() == nearest_magnitude(b, 1));
    lemma2_to64();
    assert(size_of_magnitude(1) == 1);
    lemma_exact(1);
    lemma_size_order(d, d);
    if a == 0 {
        assert(n.magnitude() == 0);
        lemma_size_order(n, n);
    } else {
        assert(n.magnitude() == nearest_magnitude(a, 1));
        lemma_size_at_most(n.magnitude(), d.magnitude());
    }
}

/// A share lies between zero and one.
pub proof fn lemma_share_range(x: Real, lo: Real, hi: Real)
    requires
        placeable(x, lo, hi),
    ensures
        between(share_between(x, lo, hi), 0, 1),
{
    reveal(Real::quotient);
    lemma_difference(x, lo, hi);
    let n = x.difference(lo);
    let d = hi.difference(lo);
    let s = n.quotient(d);
    let u = unit();
    lemma_nat_size(1);
    lemma_size_order(n, n);
    lemma_size_order(d, d);
    assert(1 * u == u);
    let a = n.size();
    let b = d.size();
    assert((a * u) * 1 <= u * b) by (nonlinear_arith)
        requires
            a <= b,
    ;
    lemma_nearest_monotone(a * u, b, u, 1);
    assert(s.magnitude() == nearest_magnitude(a * u, b));
    lemma_size_at_most(s.magnitude(), nearest_magnitude(u, 1));
    lemma_size_order(s, s);
    if a == 0 {
        assert(0 * u == 0);
        lemma_nearest_zero(b);
    }
}

/// A share of a side lies between none and all of it.
proof fn lemma_share_of_side(x: Real, lo: Real, hi: Real, k: nat)
    requires
        placeable(x, lo, hi),
        k < TWO53,
    ensures
        ({
            let p = share_between(x, lo, hi).product(Real::of_int(k as int));
            &&& between(p, 0, k as int)
            &&& x.value() == lo.value() ==> p.value() == 0
            &&& x.value() == hi.value() ==> p.value() == k * unit()
        }),
{
    reveal(Real::quotient);
    reveal(Real::product);
    lemma_difference(x, lo, hi);
    let n = x.difference(lo);
    let d = hi.difference(lo);
    let s = n.quotient(d);
    let u = unit();
    lemma_nat_size(1);
    lemma_nat_size(k);
    lemma_size_order(n, n);
    lemma_size_order(d, d);
    assert(1 * u == u);
    let a = n.size();
    let b = d.size();
    assert((a * u) * 1 <= u * b) by (nonlinear_arith)
        requires
            a <= b,
    ;
    lemma_nearest_monotone(a * u, b, u, 1);
    assert(s.magnitude() == nearest_magnitude(a * u, b));
    lemma_size_at_most(s.magnitude(), nearest_magnitude(u, 1));
    lemma_size_order(s, s);
    if a == 0 {
        assert(0 * u == 0);
        lemma_nearest_zero(b);
    } else if a == b {
        assert((a * u) * 1 == u * b) by (nonlinear_arith)
            requires
                a == b,
        ;
        lemma_nearest_same_ratio(a * u, b, u, 1);
    }
    let w = Real::of_int(k as int);
    let p = s.product(w);
    let c = s.size();
    let m = c * (k * u);
    assert(m * 1 <= (k * u) * u) by (nonlinear_arith)
        requires
            m == c * (k * u),
            c <= u,
            k >= 0,
            u > 0,
    ;
    lemma_nearest_monotone(m, u, k * u, 1);
    assert(p.magnitude() == nearest_magnitude(m, u));
    lemma_size_at_most(p.magnitude(), nearest_magnitude(k * u, 1));
    lemma_size_order(p, p);
    if a == 0 {
        assert(0 * (k * u) == 0);
        lemma_nearest_zero(u);
    } else if a == b {
        assert(m * 1 == (k * u) * u) by (nonlinear_arith)
            requires
                m == c * (k * u),
                c == u,
        ;
        lemma_nearest_same_ratio(m, u, k * u, 1);
    }
    assert(0 * u == 0);
    assert(!s.negative() || a == 0);
}

/// The place on a side of the frame, given what the share of the side comes to.
proof fn lemma_place(at: i32, side: u32, share: Real, lo: nat, hi: nat)
    requires
        at >= 0,
        side >= 2,
        at + side <= SINGLE_EXACT,
        hi <= side - 2,
        between(share.product(Real::of_int(side - 2)), lo as int, hi as int),
    ensures
        between(place(at, side, share), at + 1 + lo, at + 1 + hi),
{
    let u = unit();
    lemma_signed_int_difference(side as int, 2);
    let p = share.product(Real::of_int(side - 2));
    let a = at as nat;
    lemma_nat_size(a);
    lemma_nat_size(1);
    assert((a + lo) * u == a * u + lo * u && (a + hi) * u == a * u + hi * u && (a + lo + 1) * u == (
    a + lo) * u + u && (a + hi + 1) * u == (a + hi) * u + u && 1 * u == u) by (nonlinear_arith);
    lemma_sum_between(Real::of_int(at as int), p, a + lo, a + hi);
    let s = Real::of_int(at as int).sum(p);
    lemma_sum_between(s, Real::of_int(1), a + lo + 1, a + hi + 1);
    lemma_single_between(s.sum(Real::of_int(1)), a + lo + 1, a + hi + 1);
}

/// What is placed between two numbers lies inside of its side of the frame: just
/// inside one edge at the first number, just inside the other at the second.
pub proof fn law_place_inside_side(at: i32, side: u32, x: Real, lo: Real, hi: Real)
    requires
        at >= 0,
        side >= 2,
        at + side <= SINGLE_EXACT,
        placeable(x, lo, hi),
    ensures
        between(place(at, side, share_between(x, lo, hi)), at + 1, at + side - 1),
        x.value() == lo.value() ==> place(at, side, share_between(x, lo, hi)).value() == (at + 1)
            * unit(),
        x.value() == hi.value() ==> place(at, side, share_between(x, lo, hi)).value() == (at + side
            - 1) * unit(),
{
    let k = (side - 2) as nat;
    let share = share_between(x, lo, hi);
    lemma_share_of_side(x, lo, hi, k);
    lemma_place(at, side, share, 0, k);
    if x.value() == lo.value() {
        lemma_place(at, side, share, 0, 0);
    }
    if x.value() == hi.value() {
        lemma_place(at, side, share, k, k);
    }
}

/// Every depth lies between the smallest and the largest one.
proof fn lemma_extremes(all: Seq<Real>, i: int)
    requires
        0 <= i < all.len(),
        forall|k: int| 0 <= k < all.len() ==> (#[trigger] all[k]).finite(),
    ensures
        shallowest(all).finite(),
        deepest(all).finite(),
        shallowest(all).value() <= all[i].value() <= deepest(all).value(),
    decreases all.len(),
{
    let rest = all.drop_last();
    assert forall|k: int| 0 <= k < rest.len() implies (#[trigger] rest[k]).finite() by {
        assert(rest[k] == all[k]);
    }
    assert(all.last().finite());
    if rest.len() == 0 {
        let top = Real { bits: LARGEST_BITS };
        let bottom = Real { bits: SMALLEST_BITS };
        assert(top.magnitude() == INFINITE - 1 && !top.negative());
        assert(bottom.magnitude() == INFINITE - 1 && bottom.negative());
        lemma_size_at_most(all.last().magnitude(), (INFINITE - 1) as nat);
        assert(shallowest(rest) == top && deepest(rest) == bottom);
    } else if i < rest.len() {
        assert(rest[i] == all[i]);
        lemma_extremes(rest, i);
    } else {
        lemma_extremes(rest, 0);
    }
}

/// A sum is not below a number that the exact sum is not below.
proof fn lemma_sum_at_least(a: Real, b: Real, x: Real)
    requires
        a.finite(),
        b.finite(),
        x.finite(),
        a.sum(b).finite(),
        x.value() <= a.value() + b.value(),
    ensures
        x.value() <= a.sum(b).value(),
{
    reveal(Real::sum);
    let exact = a.value() + b.value();
    let r = a.sum(b);
    lemma_size_order(r, r);
    lemma_exact(x.magnitude());
    if exact > 0 {
        assert(r.magnitude() == nearest_magnitude(exact as nat, 1));
        if x.value() > 0 {
            lemma_nearest_monotone(x.size(), 1, exact as nat, 1);
            lemma_size_at_most(x.magnitude(), r.magnitude());
        }
    } else if exact < 0 {
        assert(r.magnitude() == nearest_magnitude((-exact) as nat, 1));
        lemma_nearest_monotone((-exact) as nat, 1, x.size(), 1);
        lemma_size_at_most(r.magnitude(), x.magnitude());
    } else {
        assert(r.magnitude() == 0);
    }
}

/// A difference of one or more is rounded to one or more.
proof fn lemma_apart(max: Real, min: Real)
    requires
        max.finite(),
        min.finite(),
        max.value() - min.value() >= unit(),
    ensures
        max.difference(min).absolute().value() >= unit(),
{
    reveal(Real::sum);
    let u = unit();
    let e = (max.value() - min.value()) as nat;
    let d = max.difference(min);
    let y = min.negated();
    lemma_nat_size(1);
    assert(1 * u == u);
    assert(y.magnitude() == min.magnitude());
    assert(y.value() == -min.value());
    lemma_nearest_monotone(u, 1, e, 1);
    assert(d.magnitude() == nearest_magnitude(e, 1));
    lemma_size_at_most(nearest_magnitude(u, 1), d.magnitude());
    let a = d.absolute();
    assert(a.magnitude() == d.magnitude());
    assert(!a.negative());
}

/// A small ratio is not above one.
pub proof fn lemma_small_ratio()
    ensures
        Real::of_ratio(1, 1_000_000_000).value() <= unit(),
{
    let u = unit();
    lemma_nat_size(1);
    assert(1 * u == u);
    let small = Real::of_ratio(1, 1_000_000_000);
    lemma_nearest_monotone(u, 1_000_000_000, u, 1);
    assert(small.magnitude() == nearest_magnitude(u, 1_000_000_000));
    lemma_size_at_most(small.magnitude(), nearest_magnitude(u, 1));
}

/// A small ratio is above zero.
pub proof fn lemma_small_ratio_positive()
    ensures
        Real::of_ratio(1, 1_000_000_000).value() > 0,
{
    let u = unit();
    lemma_nat_size(1);
    assert(1 * u == u);
    let small = Real::of_ratio(1, 1_000_000_000);
    lemma2_to64();
    lemma2_to64_rest();
    lemma_pow2_le(32, 1074);
    lemma_exact(1);
    assert(size_of_magnitude(1) == 1);
    assert(1 * 1_000_000_000 <= u * 1);
    lemma_nearest_monotone(1, 1, u, 1_000_000_000);
    assert(small.magnitude() == nearest_magnitude(u, 1_000_000_000));
    lemma_size_order(small, small);
}

/// Numbers that are nearly the same are less than one apart.
proof fn lemma_near_edge(max: Real, min: Real)
    requires
        max.finite(),
        min.finite(),
        min.value() <= max.value(),
        max.difference(min).absolute().less(Real::of_ratio(1, 1_000_000_000)),
        min.sum(Real::of_int(1)).finite(),
    ensures
        max.value() <= min.sum(Real::of_int(1)).value(),
{
    lemma_nat_size(1);
    assert(1 * unit() == unit());
    lemma_small_ratio();
    if max.value() - min.value() >= unit() {
        lemma_apart(max, min);
    }
    lemma_sum_at_least(min, Real::of_int(1), max);
}

/// The lower edge of the graph lies at or below every depth.
proof fn lemma_lower_edge(all: Seq<Real>, i: int)
    requires
        0 <= i < all.len(),
        forall|k: int| 0 <= k < all.len() ==> (#[trigger] all[k]).finite(),
        lower_edge(all).finite(),
    ensures
        all[i].value() <= lower_edge(all).value(),
{
    lemma_extremes(all, i);
    let max = deepest(all);
    let min = shallowest(all);
    if max.difference(min).absolute().less(Real::of_ratio(1, 1_000_000_000)) {
        lemma_near_edge(max, min);
    }
}

/// Whether the graph of samples can be drawn without overflow: times and depths are
/// finite, and so is what lies between the edges of the graph.
pub open spec fn drawable(
    samples: Seq<DiveSample>,
    frame: GraphFrame,
    start: Real,
    end: Real,
) -> bool {
    let all = depths(samples);
    &&& frame.x >= 0 && frame.width >= 2 && frame.x + frame.width <= SINGLE_EXACT
    &&& frame.y >= 0 && frame.height >= 2 && frame.y + frame.height <= SINGLE_EXACT
    &&& forall|i: int| 0 <= i < samples.len() ==> (#[trigger] samples[i]).elapsed_sec.finite()
    &&& forall|i: int| 0 <= i < all.len() ==> (#[trigger] all[i]).finite()
    &&& start.finite() && end.finite() && start.less(end) && end.difference(start).finite()
    &&& lower_edge(all).finite() && shallowest(all).less(lower_edge(all))
    &&& lower_edge(all).difference(shallowest(all)).finite()
}

/// Whether a point lies inside of a frame, at least a pixel away from its edges.
pub open spec fn inside(p: (Real, Real), frame: GraphFrame) -> bool {
    &&& between(p.0, frame.x + 1, frame.x + frame.width - 1)
    &&& between(p.1, frame.y + 1, frame.y + frame.height - 1)
}

/// The depth of a sample is among those of all samples.
proof fn lemma_depth_listed(samples: Seq<DiveSample>, i: int) -> (k: int)
    requires
        0 <= i < samples.len(),
        samples[i].depth_m.is_some(),
    ensures
        0 <= k < depths(samples).len(),
        depths(samples)[k] == samples[i].depth_m->0,
    decreases samples.len(),
{
    let rest = samples.drop_last();
    if i == samples.len() - 1 {
        (depths(samples).len() - 1) as int
    } else {
        assert(rest[i] == samples[i]);
        lemma_depth_listed(rest, i)
    }
}

/// The point of a sample lies inside of the frame: at its top where the sample has the
/// smallest depth, at its bottom where it has the depth of the lower edge.
pub proof fn law_point_inside_frame(
    samples: Seq<DiveSample>,
    frame: GraphFrame,
    start: Real,
    end: Real,
    i: int,
)
    requires
        drawable(samples, frame, start, end),
        0 <= i < samples.len(),
    ensures
        ({
            let all = depths(samples);
            let point = sample_point(
                samples[i],
                frame,
                start,
                end,
                shallowest(all),
                lower_edge(all),
            );
            point matches Some(p) ==> {
                let depth = samples[i].depth_m->0;
                &&& inside(p, frame)
                &&& depth.value() == shallowest(all).value() ==> p.1.value() == (frame.y + 1)
                    * unit()
                &&& depth.value() == lower_edge(all).value() ==> p.1.value() == (frame.y
                    + frame.height - 1) * unit()
            }
        }),
{
    let all = depths(samples);
    let min = shallowest(all);
    let max = lower_edge(all);
    let t = samples[i].elapsed_sec;
    if samples[i].depth_m.is_some() && !t.less(start) && !end.less(t) {
        let depth = samples[i].depth_m->0;
        let k = lemma_depth_listed(samples, i);
        lemma_extremes(all, k);
        lemma_lower_edge(all, k);
        law_place_inside_side(frame.x, frame.width, t, start, end);
        law_place_inside_side(frame.y, frame.height, depth, min, max);
    }
}

/// The line of the graph stays inside of its frame.
pub proof fn law_line_inside_frame(
    samples: Seq<DiveSample>,
    frame: GraphFrame,
    start: Real,
    end: Real,
    j: int,
)
    requires
        drawable(samples, frame, start, end),
        0 <= j < graph_points(
            samples,
            frame,
            start,
            end,
            shallowest(depths(samples)),
            lower_edge(depths(samples)),
        ).len(),
    ensures
        inside(
            graph_points(
                samples,
                frame,
                start,
                end,
                shallowest(depths(samples)),
                lower_edge(depths(samples)),
            )[j],
            frame,
        ),
{
    assert(samples.take(samples.len() as int) =~= samples);
    lemma_points_inside(samples, frame, start, end, samples.len(), j);
}

proof fn lemma_points_inside(
    samples: Seq<DiveSample>,
    frame: GraphFrame,
    start: Real,
    end: Real,
    n: nat,
    j: int,
)
    requires
        drawable(samples, frame, start, end),
        n <= samples.len(),
        0 <= j < graph_points(
            samples.take(n as int),
            frame,
            start,
            end,
            shallowest(depths(samples)),
            lower_edge(depths(samples)),
        ).len(),
    ensures
        inside(
            graph_points(
                samples.take(n as int),
                frame,
                start,
                end,
                shallowest(depths(samples)),
                lower_edge(depths(samples)),
            )[j],
            frame,
        ),
    decreases n,
{
    let min = shallowest(depths(samples));
    let max = lower_edge(depths(samples));
    let first = samples.take(n as int);
    if n > 0 {
        let rest = samples.take(n - 1);
        assert(first.drop_last() =~= rest);
        assert(first.last() == samples[n - 1]);
        law_point_inside_frame(samples, frame, start, end, n - 1);
        let before = graph_points(rest, frame, start, end, min, max);
        if j < before.len() {
            lemma_points_inside(samples, frame, start, end, (n - 1) as nat, j);
        }
    }
}

} // verus!
