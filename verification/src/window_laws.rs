//! The time that the depth graph shows.

use vstd::prelude::*;

use crate::binary64::{
    lemma_nat_size, lemma_nearest_zero, lemma_signed_int_difference, lemma_signed_int_sum,
    lemma_size_at_most, lemma_small_int, unit, Real,
};
use crate::depth_graph::{
    deepest, depths, first_after, first_not_before, lower_edge, sample_point, shallowest,
    window_end, window_samples, window_start, GraphFrame, LARGEST_BITS, SMALLEST_BITS,
};
use crate::graph_laws::{lemma_small_ratio, lemma_small_ratio_positive};
use crate::lookup::ascending;
use crate::model::DiveSample;
use crate::nearest::INFINITE;

verus! {

/// The graph shows the given time before a moment of the dive, but nothing before the
/// dive, and at least a second.
pub proof fn law_window(d: int, w: int)
    requires
        0 <= d < 1_000_000_000_000,
        0 <= w < 1_000_000_000_000,
    ensures
        w <= d ==> window_start(Real::of_int(d), Real::of_int(w)) == Real::of_int(d - w),
        w >= d ==> window_start(Real::of_int(d), Real::of_int(w)) == Real::of_int(0),
        d >= 1 && w >= 1 ==> window_end(Real::of_int(d), Real::of_int(w)) == Real::of_int(d),
        w == 0 ==> window_end(Real::of_int(d), Real::of_int(w)) == Real::of_int(d + 1),
{
    lemma_signed_int_difference(d, w);
    let u = unit();
    let k = d - w;
    lemma_small_int(k);
    lemma_small_int(0);
    lemma_small_int(d);
    lemma_small_int(w);
    assert(0 * u == 0);
    assert(k * u <= 0 <==> k <= 0) by (nonlinear_arith)
        requires
            u > 0,
    ;
    assert(Real::of_int(0) == (Real { bits: 0 })) by {
        lemma_nearest_zero(1);
        assert(0 * u == 0);
    }
    let s = if k <= 0 {
        0
    } else {
        k
    };
    assert(window_start(Real::of_int(d), Real::of_int(w)) == Real::of_int(s));
    lemma_signed_int_sum(s, 1);
    lemma_small_int(s + 1);
    let e = s + 1;
    assert(d * u < e * u <==> d < e) by (nonlinear_arith)
        requires
            u > 0,
    ;
}

/// The position of the first time that is not before a moment parts ascending times.
proof fn lemma_first_not_before(times: Seq<Real>, moment: Real, i: int)
    requires
        ascending(times),
        0 <= i < times.len(),
        !moment.nan(),
    ensures
        first_not_before(times, moment) <= i <==> !times[i].less(moment),
    decreases times.len(),
{
    if times[0].less(moment) {
        let rest = times.skip(1);
        assert(ascending(rest)) by {
            assert forall|k: int| 0 <= k < rest.len() implies !(#[trigger] rest[k]).nan() by {
                assert(rest[k] == times[k + 1]);
            }
            assert forall|k: int, j: int|
                #![trigger rest[k], rest[j]]
                0 <= k < j < rest.len() implies rest[k].at_most(rest[j]) by {
                assert(times[k + 1].at_most(times[j + 1]));
            }
        }
        if i > 0 {
            assert(rest[i - 1] == times[i]);
            lemma_first_not_before(rest, moment, i - 1);
        }
    } else if i > 0 {
        assert(times[0].at_most(times[i]));
    }
}

/// The position of the first time after a moment parts ascending times.
proof fn lemma_first_after(times: Seq<Real>, moment: Real, i: int)
    requires
        ascending(times),
        0 <= i < times.len(),
        !moment.nan(),
    ensures
        first_after(times, moment) <= i <==> !times[i].at_most(moment),
    decreases times.len(),
{
    if times[0].at_most(moment) {
        let rest = times.skip(1);
        assert(ascending(rest)) by {
            assert forall|k: int| 0 <= k < rest.len() implies !(#[trigger] rest[k]).nan() by {
                assert(rest[k] == times[k + 1]);
            }
            assert forall|k: int, j: int|
                #![trigger rest[k], rest[j]]
                0 <= k < j < rest.len() implies rest[k].at_most(rest[j]) by {
                assert(times[k + 1].at_most(times[j + 1]));
            }
        }
        if i > 0 {
            assert(rest[i - 1] == times[i]);
            lemma_first_after(rest, moment, i - 1);
        }
    } else if i > 0 {
        assert(times[0].at_most(times[i]));
    }
}

proof fn lemma_positions(times: Seq<Real>, moment: Real)
    ensures
        first_not_before(times, moment) <= times.len(),
        first_after(times, moment) <= times.len(),
    decreases times.len(),
{
    if times.len() > 0 {
        lemma_positions(times.skip(1), moment);
    }
}

/// The graph shows the samples of the whole seconds from `d - w` to `d`, and no others:
/// those from one position to another.
pub proof fn law_window_samples(samples: Seq<DiveSample>, times: Seq<Real>, d: int, w: int) -> (r: (
    int,
    int,
))
    requires
        ascending(times),
        times.len() <= samples.len(),
        1 <= w <= d < 1_000_000_000_000,
    ensures
        0 <= r.0 <= r.1 <= times.len(),
        window_samples(samples, times, Real::of_int(d), Real::of_int(w)) == samples.subrange(
            r.0,
            r.1,
        ),
        forall|i: int|
            0 <= i < times.len() ==> (r.0 <= i < r.1 <==> (d - w) * unit() <= (
            #[trigger] times[i]).value() <= d * unit()),
{
    law_window(d, w);
    let start = window_start(Real::of_int(d), Real::of_int(w));
    let end = window_end(Real::of_int(d), Real::of_int(w));
    lemma_small_int(d - w);
    lemma_small_int(d);
    lemma_positions(times, start);
    lemma_positions(times, end);
    let from = first_not_before(times, start) as int;
    let to = first_after(times, end) as int;
    assert forall|i: int| 0 <= i < times.len() implies (from <= i < to <==> (d - w) * unit() <= (
    #[trigger] times[i]).value() <= d * unit()) by {
        assert(!times[i].nan());
        lemma_first_not_before(times, start, i);
        lemma_first_after(times, end, i);
    }
    if from >= to {
        assert(samples.subrange(from, from) =~= seq![]);
        (from, from)
    } else {
        (from, to)
    }
}

/// A sample with a depth gives a point where its time is in the window, and only there.
pub proof fn law_points_of_the_window(
    sample: DiveSample,
    frame: GraphFrame,
    d: int,
    w: int,
    min_depth: Real,
    max_depth: Real,
)
    requires
        1 <= w <= d < 1_000_000_000_000,
        sample.elapsed_sec.finite(),
    ensures
        sample_point(
            sample,
            frame,
            window_start(Real::of_int(d), Real::of_int(w)),
            window_end(Real::of_int(d), Real::of_int(w)),
            min_depth,
            max_depth,
        ).is_some() == (sample.depth_m.is_some() && (d - w) * unit() <= sample.elapsed_sec.value()
            <= d * unit()),
{
    law_window(d, w);
    lemma_small_int(d - w);
    lemma_small_int(d);
}

/// The depths at the edges are those of samples: none is larger or smaller than all.
pub proof fn law_extremes_are_depths(all: Seq<Real>) -> (r: (int, int))
    requires
        all.len() > 0,
        forall|k: int| 0 <= k < all.len() ==> (#[trigger] all[k]).finite(),
    ensures
        0 <= r.0 < all.len(),
        0 <= r.1 < all.len(),
        deepest(all).value() == all[r.0].value(),
        shallowest(all).value() == all[r.1].value(),
        forall|k: int|
            0 <= k < all.len() ==> shallowest(all).value() <= (#[trigger] all[k]).value()
                <= deepest(all).value(),
    decreases all.len(),
{
    let rest = all.drop_last();
    let last = all.len() - 1;
    assert(all.last().finite());
    assert forall|k: int| 0 <= k < rest.len() implies (#[trigger] rest[k]).finite() by {
        assert(rest[k] == all[k]);
    }
    if rest.len() == 0 {
        let top = Real { bits: LARGEST_BITS };
        let bottom = Real { bits: SMALLEST_BITS };
        assert(top.magnitude() == INFINITE - 1 && !top.negative());
        assert(bottom.magnitude() == INFINITE - 1 && bottom.negative());
        lemma_size_at_most(all.last().magnitude(), (INFINITE - 1) as nat);
        assert(shallowest(rest) == top && deepest(rest) == bottom);
        (0, 0)
    } else {
        let (a, b) = law_extremes_are_depths(rest);
        assert(rest[a] == all[a] && rest[b] == all[b]);
        assert forall|k: int| 0 <= k < all.len() implies shallowest(all).value() <= (
        #[trigger] all[k]).value() <= deepest(all).value() by {
            if k < rest.len() {
                assert(rest[k] == all[k]);
            }
        }
        (
            if deepest(rest).value() <= all.last().value() {
                last
            } else {
                a
            },
            if all.last().value() <= shallowest(rest).value() {
                last
            } else {
                b
            },
        )
    }
}

/// The lower edge lies at the largest depth where it is a meter or more below the
/// smallest one, and else the graph has a meter of room where all depths are the same.
pub proof fn law_room_of_the_graph(all: Seq<Real>, min: int, max: int)
    requires
        all.len() > 0,
        forall|k: int| 0 <= k < all.len() ==> (#[trigger] all[k]).finite(),
        deepest(all) == Real::of_int(max),
        shallowest(all) == Real::of_int(min),
        -1_000_000 < min <= max < 1_000_000,
    ensures
        min < max ==> lower_edge(all) == Real::of_int(max),
        min == max ==> lower_edge(all) == Real::of_int(min + 1),
{
    lemma_signed_int_difference(max, min);
    lemma_signed_int_sum(min, 1);
    let k = max - min;
    lemma_small_int(k);
    lemma_nat_size(k as nat);
    let u = unit();
    lemma_small_ratio();
    let d = Real::of_int(k);
    assert(d.absolute().magnitude() == d.magnitude());
    assert(!d.absolute().negative());
    assert(k >= 1 ==> k * u >= u) by (nonlinear_arith)
        requires
            u > 0,
    ;
    assert(0 * u == 0);
    lemma_small_ratio_positive();
}

/// Every depth of the samples that are shown counts for the edges, and nothing else.
pub proof fn law_depths_of_samples(samples: Seq<DiveSample>, x: Real)
    ensures
        depths(samples).contains(x) <==> exists|i: int|
            0 <= i < samples.len() && (#[trigger] samples[i]).depth_m == Some(x),
    decreases samples.len(),
{
    if samples.len() > 0 {
        let rest = samples.drop_last();
        law_depths_of_samples(rest, x);
        let all = depths(samples);
        let before = depths(rest);
        if all.contains(x) {
            let k = choose|k: int| 0 <= k < all.len() && all[k] == x;
            if k < before.len() {
                assert(before[k] == x);
                let i = choose|i: int|
                    0 <= i < rest.len() && (#[trigger] rest[i]).depth_m == Some(x);
                assert(samples[i].depth_m == Some(x));
            } else {
                assert(samples[samples.len() - 1].depth_m == Some(x));
            }
        }
        if exists|i: int| 0 <= i < samples.len() && (#[trigger] samples[i]).depth_m == Some(x) {
            let i = choose|i: int|
                0 <= i < samples.len() && (#[trigger] samples[i]).depth_m == Some(x);
            if i < rest.len() {
                assert(rest[i].depth_m == Some(x));
                let k = choose|k: int| 0 <= k < before.len() && before[k] == x;
                assert(all[k] == x);
            } else {
                assert(all[all.len() - 1] == x);
            }
        }
    }
}

} // verus!
