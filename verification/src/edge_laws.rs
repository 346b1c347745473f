//! Where the ends of a graph lie.

use vstd::prelude::*;

use crate::binary64::{
    lemma_int_product, lemma_int_sum, lemma_self_difference, lemma_signed_int_difference,
    lemma_signed_int_sum, lemma_size_order, lemma_small_int, lemma_zero_quotient, unit, Real,
};
use crate::curve_laws::{lemma_over_itself, lemma_span};
use crate::depth_graph::{deepest, lower_edge, place, sample_point, shallowest, GraphFrame};
use crate::graph_laws::{lemma_small_ratio, lemma_small_ratio_positive, SINGLE_EXACT};
use crate::model::DiveSample;
use crate::nearest::TWO52;
use crate::picture_laws::lemma_single_int;

verus! {

/// The start of a side lies one pixel inside of it, and so does its end.
pub proof fn law_ends_of_a_side(at: i32, side: u32)
    requires
        0 <= at,
        2 <= side,
        at + side < SINGLE_EXACT,
    ensures
        place(at, side, Real::of_int(0)) == Real::of_int(at + 1),
        place(at, side, Real::of_int(1)) == Real::of_int(at + side - 1),
{
    let n = (side - 2) as nat;
    lemma_signed_int_difference(side as int, 2);
    lemma_int_product(0, n);
    lemma_int_product(1, n);
    assert(0 * n == 0 && 1 * n == n);
    lemma_int_sum(at as nat, 0);
    lemma_int_sum(at as nat, n);
    lemma_int_sum(at as nat, 1);
    lemma_int_sum((at + n) as nat, 1);
    lemma_single_int(Real::of_int(at + 1), (at + 1) as nat);
    lemma_single_int(Real::of_int(at + n + 1), (at + n + 1) as nat);
}

/// The graph runs from left to right in time and from top to bottom in depth: a sample
/// at the start of the window and the upper edge lies in the upper left corner, and one
/// at its end and the lower edge in the lower right one.
pub proof fn law_corners_of_the_graph(
    sample: DiveSample,
    frame: GraphFrame,
    start: Real,
    end: Real,
    min_depth: Real,
    max_depth: Real,
)
    requires
        start.finite(),
        end.finite(),
        min_depth.finite(),
        max_depth.finite(),
        start.less(end),
        min_depth.less(max_depth),
        end.difference(start).finite(),
        max_depth.difference(min_depth).finite(),
        0 <= frame.x,
        2 <= frame.width,
        frame.x + frame.width < SINGLE_EXACT,
        0 <= frame.y,
        2 <= frame.height,
        frame.y + frame.height < SINGLE_EXACT,
    ensures
        sample.elapsed_sec == start && sample.depth_m == Some(min_depth) ==> sample_point(
            sample,
            frame,
            start,
            end,
            min_depth,
            max_depth,
        ) == Some((Real::of_int(frame.x + 1), Real::of_int(frame.y + 1))),
        sample.elapsed_sec == end && sample.depth_m == Some(max_depth) ==> sample_point(
            sample,
            frame,
            start,
            end,
            min_depth,
            max_depth,
        ) == Some(
            (
                Real::of_int(frame.x + frame.width - 1),
                Real::of_int(frame.y + frame.height - 1),
            ),
        ),
        sample.elapsed_sec.less(start) || end.less(sample.elapsed_sec) || sample.depth_m.is_none()
            ==> sample_point(sample, frame, start, end, min_depth, max_depth).is_none(),
{
    law_ends_of_a_side(frame.x, frame.width);
    law_ends_of_a_side(frame.y, frame.height);
    lemma_ends(start, end);
    lemma_ends(min_depth, max_depth);
}

proof fn lemma_ends(lo: Real, hi: Real)
    requires
        lo.finite(),
        hi.finite(),
        lo.less(hi),
        hi.difference(lo).finite(),
    ensures
        lo.difference(lo).quotient(hi.difference(lo)) == Real::of_int(0),
        hi.difference(lo).quotient(hi.difference(lo)) == Real::of_int(1),
{
    let d = hi.difference(lo);
    lemma_span(lo, hi);
    lemma_size_order(d, d);
    lemma_self_difference(lo);
    lemma_zero_quotient(d);
    lemma_over_itself(d);
}

/// A dive at one depth is drawn with a metre below it; else the graph ends at the
/// deepest point.
pub proof fn law_lower_edge_of_the_graph(all: Seq<Real>, min: int, max: int)
    requires
        -(TWO52 as int) < min + 1 < TWO52,
        -(TWO52 as int) < min <= max < TWO52,
        shallowest(all) == Real::of_int(min),
        deepest(all) == Real::of_int(max),
    ensures
        min == max ==> lower_edge(all) == Real::of_int(min + 1),
        min < max ==> lower_edge(all) == Real::of_int(max),
{
    lemma_signed_int_difference(max, min);
    lemma_signed_int_sum(min, 1);
    lemma_small_int(max - min);
    let x = Real::of_int(max - min);
    let u = unit() as int;
    lemma_small_ratio_positive();
    lemma_small_ratio();
    let k = max - min;
    assert(0 * u == 0);
    lemma_size_order(x, x);
    lemma_size_order(x.absolute(), x.absolute());
    assert(x.absolute().magnitude() == x.magnitude());
    if k > 0 {
        assert(k * u >= u) by (nonlinear_arith)
            requires
                k >= 1,
                u > 0,
        ;
    }
}

} // verus!
