//! The depth graph: what it shows and where.

use vstd::arithmetic::div_mod::{lemma_fundamental_div_mod, lemma_fundamental_div_mod_converse};
use vstd::arithmetic::power2::{lemma2_to64, lemma_pow2_adds, lemma_pow2_pos, pow2};
use vstd::prelude::*;

use crate::binary64::{
    exponent_of, lemma_exact_shifted, lemma_nat_size, lemma_nearest_zero, lemma_size_at_most,
    significand_of, unit, Real,
};
use crate::lookup::ascending;
use crate::model::DiveSample;
use crate::nearest::{lemma_nearest_monotone, nearest_magnitude, TWO53};
use crate::number_text::fixed;
use crate::overlay::{share, share_of, stroke_of, GraphMetrics};
use crate::picture::{
    blend_rect_alpha, clip_of, draw_thick_hollow_rect, laid_over, on_thick_border, RgbFrame,
    EDGE_END, EXACT_SIDE,
};

verus! {

/// The bit pattern of the largest finite number.
pub const LARGEST_BITS: u64 = 0x7fef_ffff_ffff_ffff;

/// The bit pattern of the smallest finite number.
pub const SMALLEST_BITS: u64 = 0xffef_ffff_ffff_ffff;

/// The position of the first time that is not before a moment, or the count of
/// times.
pub open spec fn first_not_before(times: Seq<Real>, moment: Real) -> nat
    decreases times.len(),
{
    if times.len() == 0 || !times[0].less(moment) {
        0
    } else {
        1 + first_not_before(times.skip(1), moment)
    }
}

/// The position of the first time that is after a moment, or the count of times.
pub open spec fn first_after(times: Seq<Real>, moment: Real) -> nat
    decreases times.len(),
{
    if times.len() == 0 || !times[0].at_most(moment) {
        0
    } else {
        1 + first_after(times.skip(1), moment)
    }
}

fn find_not_before(times: &[Real], moment: Real) -> (r: usize)
    ensures
        r == first_not_before(times@, moment),
        r <= times.len(),
{
    let mut i: usize = 0;
    assert(times@.skip(0) =~= times@);
    while i < times.len() && times[i].lt(moment)
        invariant
            i <= times.len(),
            first_not_before(times@, moment) == i + first_not_before(
                times@.skip(i as int),
                moment,
            ),
        decreases times.len() - i,
    {
        assert(times@.skip(i as int).skip(1) =~= times@.skip(i + 1));
        i += 1;
    }
    i
}

fn find_after(times: &[Real], moment: Real) -> (r: usize)
    ensures
        r == first_after(times@, moment),
        r <= times.len(),
{
    let mut i: usize = 0;
    assert(times@.skip(0) =~= times@);
    while i < times.len() && times[i].le(moment)
        invariant
            i <= times.len(),
            first_after(times@, moment) == i + first_after(times@.skip(i as int), moment),
        decreases times.len() - i,
    {
        assert(times@.skip(i as int).skip(1) =~= times@.skip(i + 1));
        i += 1;
    }
    i
}

/// The seconds of the dive that the graph looks back.
pub const GRAPH_WINDOW_SEC: i64 = 600;

/// The time that the graph looks back.
pub fn graph_window() -> (r: Real)
    ensures
        r == Real::of_int(GRAPH_WINDOW_SEC as int),
{
    Real::from_i64(GRAPH_WINDOW_SEC)
}

/// The moment at which the graph starts.
pub open spec fn window_start(dive_sec: Real, window_sec: Real) -> Real {
    dive_sec.difference(window_sec).not_below_zero()
}

/// The moment at which the graph ends: now, but at least a second after its start.
pub open spec fn window_end(dive_sec: Real, window_sec: Real) -> Real {
    window_start(dive_sec, window_sec).sum(Real::of_int(1)).greatest(dive_sec)
}

/// The samples that the graph shows.
pub open spec fn window_samples(
    samples: Seq<DiveSample>,
    times: Seq<Real>,
    dive_sec: Real,
    window_sec: Real,
) -> Seq<DiveSample> {
    let from = first_not_before(times, window_start(dive_sec, window_sec)) as int;
    let to = first_after(times, window_end(dive_sec, window_sec)) as int;
    if from >= to {
        seq![]
    } else {
        samples.subrange(from, to)
    }
}

/// The depths among samples.
pub open spec fn depths(samples: Seq<DiveSample>) -> Seq<Real>
    decreases samples.len(),
{
    if samples.len() == 0 {
        seq![]
    } else {
        match samples.last().depth_m {
            Some(d) => depths(samples.drop_last()).push(d),
            None => depths(samples.drop_last()),
        }
    }
}

/// The largest depth.
pub open spec fn deepest(all: Seq<Real>) -> Real
    decreases all.len(),
{
    if all.len() == 0 {
        Real { bits: SMALLEST_BITS }
    } else {
        deepest(all.drop_last()).greatest(all.last())
    }
}

/// The smallest depth.
pub open spec fn shallowest(all: Seq<Real>) -> Real
    decreases all.len(),
{
    if all.len() == 0 {
        Real { bits: LARGEST_BITS }
    } else {
        shallowest(all.drop_last()).least(all.last())
    }
}

/// The depth at the lower edge of the graph: the largest one, but a meter below
/// the upper edge where all depths are nearly the same.
pub open spec fn lower_edge(all: Seq<Real>) -> Real {
    let max = deepest(all);
    let min = shallowest(all);
    if max.difference(min).absolute().less(Real::of_ratio(1, 1_000_000_000)) {
        min.sum(Real::of_int(1))
    } else {
        max
    }
}

/// The frame of the graph in a picture.
#[derive(Debug, Clone, Copy, PartialEq, Eq, Structural)]
pub struct GraphFrame {
    pub x: i32,
    pub y: i32,
    pub width: u32,
    pub height: u32,
}

/// The frame of the graph in a picture of a given size.
pub open spec fn frame_of(width: u32, height: u32) -> GraphFrame {
    GraphFrame {
        x: share(width, 4) as i32,
        y: share(height, 72) as i32,
        width: share_u32(width, 32) as u32,
        height: share_u32(height, 18) as u32,
    }
}

/// A share of a side that is not negative.
pub open spec fn share_u32(side: u32, hundredths: nat) -> int {
    let t = Real::of_int(side as int).product(Real::of_ratio(hundredths, 100)).truncated();
    if t < 0 {
        0
    } else if t > u32::MAX {
        u32::MAX as int
    } else {
        t
    }
}

fn share_of_u32(side: u32, hundredths: u64) -> (r: u32)
    ensures
        r == share_u32(side, hundredths as nat),
{
    let t: i64 = Real::from_u64(side as u64).times(Real::from_ratio(hundredths, 100)).trunc_i64();
    if t < 0 {
        0
    } else if t > u32::MAX as i64 {
        u32::MAX
    } else {
        t as u32
    }
}

/// Finds the frame of the graph in a picture.
pub fn graph_frame(width: u32, height: u32) -> (r: GraphFrame)
    ensures
        r == frame_of(width, height),
{
    GraphFrame {
        x: share_of(width, 4),
        y: share_of(height, 72),
        width: share_of_u32(width, 32),
        height: share_of_u32(height, 18),
    }
}

/// The place of a value on a side of the frame: a share of the side between its
/// two edges.
pub open spec fn place(at: i32, side: u32, share: Real) -> Real {
    Real::of_int(at as int).sum(
        share.product(Real::of_int(side as int).difference(Real::of_int(2))),
    ).sum(Real::of_int(1)).single()
}

fn place_on(at: i32, side: u32, share: Real) -> (r: Real)
    ensures
        r == place(at, side, share),
{
    Real::from_i64(at as i64).plus(
        share.times(Real::from_u64(side as u64).minus(Real::from_i64(2))),
    ).plus(Real::from_i64(1)).to_single()
}

/// What the graph shows: the depths at its edges and the points of its line, in
/// single precision.
#[derive(Debug)]
pub struct DepthGraph {
    pub frame: GraphFrame,
    pub min_depth: Real,
    pub max_depth: Real,
    pub points: Vec<(Real, Real)>,
}

/// The point of a sample in the graph; none for a sample without a depth or outside
/// of the time that is shown.
pub open spec fn sample_point(
    sample: DiveSample,
    frame: GraphFrame,
    start: Real,
    end: Real,
    min_depth: Real,
    max_depth: Real,
) -> Option<(Real, Real)> {
    match sample.depth_m {
        None => None,
        Some(depth) => {
            let t = sample.elapsed_sec;
            if t.less(start) || end.less(t) {
                None
            } else {
                let tx = t.difference(start).quotient(end.difference(start));
                let ty = depth.difference(min_depth).quotient(max_depth.difference(min_depth));
                Some((place(frame.x, frame.width, tx), place(frame.y, frame.height, ty)))
            }
        },
    }
}

/// The points of samples in the graph.
pub open spec fn graph_points(
    samples: Seq<DiveSample>,
    frame: GraphFrame,
    start: Real,
    end: Real,
    min_depth: Real,
    max_depth: Real,
) -> Seq<(Real, Real)>
    decreases samples.len(),
{
    if samples.len() == 0 {
        seq![]
    } else {
        let before = graph_points(samples.drop_last(), frame, start, end, min_depth, max_depth);
        match sample_point(samples.last(), frame, start, end, min_depth, max_depth) {
            Some(p) => before.push(p),
            None => before,
        }
    }
}

fn point_of(
    sample: &DiveSample,
    frame: &GraphFrame,
    start: Real,
    end: Real,
    min_depth: Real,
    max_depth: Real,
) -> (r: Option<(Real, Real)>)
    ensures
        r == sample_point(*sample, *frame, start, end, min_depth, max_depth),
{
    match sample.depth_m {
        None => None,
        Some(depth) => {
            let t = sample.elapsed_sec;
            if t.lt(start) || end.lt(t) {
                None
            } else {
                let tx = t.minus(start).over(end.minus(start));
                let ty = depth.minus(min_depth).over(max_depth.minus(min_depth));
                Some((place_on(frame.x, frame.width, tx), place_on(frame.y, frame.height, ty)))
            }
        },
    }
}

fn collect_depths(samples: &[DiveSample]) -> (r: Vec<Real>)
    ensures
        r@ == depths(samples@),
{
    let mut r: Vec<Real> = Vec::new();
    let mut i: usize = 0;
    while i < samples.len()
        invariant
            i <= samples.len(),
            r@ == depths(samples@.take(i as int)),
        decreases samples.len() - i,
    {
        assert(samples@.take(i + 1).drop_last() =~= samples@.take(i as int));
        match samples[i].depth_m {
            Some(d) => r.push(d),
            None => {},
        }
        i += 1;
    }
    assert(samples@.take(i as int) =~= samples@);
    r
}

fn edges(all: &Vec<Real>) -> (r: (Real, Real))
    ensures
        r.0 == shallowest(all@),
        r.1 == lower_edge(all@),
{
    let mut max = Real::from_bits(SMALLEST_BITS);
    let mut min = Real::from_bits(LARGEST_BITS);
    let mut i: usize = 0;
    while i < all.len()
        invariant
            i <= all.len(),
            max == deepest(all@.take(i as int)),
            min == shallowest(all@.take(i as int)),
        decreases all.len() - i,
    {
        assert(all@.take(i + 1).drop_last() =~= all@.take(i as int));
        max = max.max(all[i]);
        min = min.min(all[i]);
        i += 1;
    }
    assert(all@.take(i as int) =~= all@);
    if max.minus(min).abs().lt(Real::from_ratio(1, 1_000_000_000)) {
        (min, min.plus(Real::from_i64(1)))
    } else {
        (min, max)
    }
}

/// Whether there is something to show.
pub open spec fn graph_shown(
    samples: Seq<DiveSample>,
    times: Seq<Real>,
    dive_sec: Real,
    window_sec: Real,
) -> bool {
    depths(window_samples(samples, times, dive_sec, window_sec)).len() > 0
}

/// Decides what the graph shows at a moment of the dive: the samples of the time
/// before it. Where none of them has a depth, there is no graph.
pub fn plan_depth_graph(
    width: u32,
    height: u32,
    samples: &[DiveSample],
    times: &[Real],
    dive_sec: Real,
    window_sec: Real,
) -> (r: Option<DepthGraph>)
    requires
        times.len() <= samples.len(),
        ascending(times@),
    ensures
        r.is_some() == graph_shown(samples@, times@, dive_sec, window_sec),
        r matches Some(g) ==> {
            let shown = window_samples(samples@, times@, dive_sec, window_sec);
            &&& g.frame == frame_of(width, height)
            &&& g.min_depth == shallowest(depths(shown))
            &&& g.max_depth == lower_edge(depths(shown))
            &&& g.points@ == graph_points(
                shown,
                g.frame,
                window_start(dive_sec, window_sec),
                window_end(dive_sec, window_sec),
                g.min_depth,
                g.max_depth,
            )
        },
{
    let start = dive_sec.minus(window_sec).max_zero();
    let end = start.plus(Real::from_i64(1)).max(dive_sec);
    let from: usize = find_not_before(times, start);
    let to: usize = find_after(times, end);
    if from >= to {
        assert(depths(seq![]).len() == 0);
        return None;
    }
    let shown = vstd::slice::slice_subrange(samples, from, to);
    let all = collect_depths(shown);
    if all.len() == 0 {
        return None;
    }
    let (min_depth, max_depth) = edges(&all);
    let frame = graph_frame(width, height);
    let mut points: Vec<(Real, Real)> = Vec::new();
    let mut i: usize = 0;
    while i < shown.len()
        invariant
            i <= shown.len(),
            points@ == graph_points(
                shown@.take(i as int),
                frame,
                start,
                end,
                min_depth,
                max_depth,
            ),
        decreases shown.len() - i,
    {
        assert(shown@.take(i + 1).drop_last() =~= shown@.take(i as int));
        match point_of(&shown[i], &frame, start, end, min_depth, max_depth) {
            Some(p) => points.push(p),
            None => {},
        }
        i += 1;
    }
    assert(shown@.take(i as int) =~= shown@);
    Some(DepthGraph { frame, min_depth, max_depth, points })
}

/// The label of a depth.
pub fn depth_label(depth: Real) -> (r: String)
    ensures
        r@ == fixed(depth, 1) + "m"@,
{
    let mut r = String::new();
    depth.push_fixed(&mut r, 1);
    r.push_str("m");
    assert(r@ =~= fixed(depth, 1) + "m"@);
    r
}

/// The opacity of the graph's ground, in single precision.
pub open spec fn ground_opacity() -> Real {
    Real::of_ratio(35, 100).single()
}

/// What the ground and the border of the graph make of a byte of a picture.
pub open spec fn graph_ground(
    before: Seq<u8>,
    frame: GraphFrame,
    stroke: int,
    width: u32,
    height: u32,
    j: int,
) -> int {
    let clip = clip_of(frame.x, frame.y, frame.width, frame.height, width, height);
    if frame.width > 0 && frame.height > 0 && on_thick_border(
        width,
        frame.x as int,
        frame.y as int,
        frame.width as int,
        frame.height as int,
        stroke as nat,
        j,
    ) {
        90
    } else {
        laid_over(before, clip, width, (10, 10, 10), ground_opacity(), j)
    }
}

/// Whether the frame of the graph lies where coordinates can be counted.
pub open spec fn frame_fits(frame: GraphFrame) -> bool {
    &&& 0 <= frame.x
    &&& 0 <= frame.y
    &&& frame.x + frame.width <= EDGE_END
    &&& frame.y + frame.height <= EDGE_END
}

/// Tells whether the frame of the graph lies where coordinates can be counted.
pub fn frame_in_range(frame: &GraphFrame) -> (r: bool)
    ensures
        r == frame_fits(*frame),
{
    let most: i64 = EDGE_END as i64;
    frame.x >= 0 && frame.y >= 0 && frame.x as i64 + frame.width as i64 <= most && frame.y as i64
        + frame.height as i64 <= most
}

/// Draws the ground and the border of the graph.
pub fn draw_graph_ground(img: &mut RgbFrame, frame: &GraphFrame)
    requires
        old(img).wf(),
        frame_fits(*frame),
    ensures
        final(img).wf(),
        final(img).width == old(img).width,
        final(img).height == old(img).height,
        old(img).width <= EXACT_SIDE && old(img).height <= EXACT_SIDE && frame.x + frame.width
            <= EXACT_SIDE && frame.y + frame.height <= EXACT_SIDE ==> forall|j: int|
            0 <= j < old(img).data@.len() ==> #[trigger] final(img).data@[j] == graph_ground(
                old(img).data@,
                *frame,
                stroke_of(old(img).height),
                old(img).width,
                old(img).height,
                j,
            ),
{
    let metrics = GraphMetrics::for_frame(img.height);
    let alpha = Real::from_ratio(35, 100).to_single();
    blend_rect_alpha(img, frame.x, frame.y, frame.width, frame.height, (10, 10, 10), alpha);
    if frame.width > 0 && frame.height > 0 {
        draw_thick_hollow_rect(
            img,
            frame.x,
            frame.y,
            frame.width,
            frame.height,
            (90, 90, 90),
            metrics.stroke as u32,
        );
    }
}

/// The rows at which the labels of the graph start: the smallest depth at the
/// upper edge, the largest one at the lower edge, given the height of a label.
pub fn label_rows(frame: &GraphFrame, metrics: &GraphMetrics, label_height: u32) -> (r: (i64, i64))
    ensures
        r.0 == frame.y + half(metrics.inset as int),
        r.1 == frame.y + frame.height - label_height - half(metrics.inset as int),
{
    let inset: i64 = if metrics.inset < 0 {
        -((-(metrics.inset as i64)) / 2)
    } else {
        metrics.inset as i64 / 2
    };
    (
        frame.y as i64 + inset,
        frame.y as i64 + frame.height as i64 - label_height as i64 - inset,
    )
}

/// Half of an integer, the fraction cut off.
pub open spec fn half(i: int) -> int {
    if i < 0 {
        -((-i) / 2)
    } else {
        i / 2
    }
}

/// A share of a side is not above a bound that is a number of its own.
proof fn lemma_share_bound(side: u32, hundredths: nat, a: nat, e: nat)
    requires
        0 < a <= 3,
        e <= 1074,
        hundredths * unit() <= (a * pow2(e)) * 100,
    ensures
        ({
            let p = Real::of_int(side as int).product(Real::of_ratio(hundredths, 100));
            0 <= p.truncated() && p.truncated() * unit() <= side * (a * pow2(e))
        }),
{
    reveal(Real::product);
    let u = unit();
    lemma_nat_size(side as nat);
    let r = Real::of_ratio(hundredths, 100);
    let bound = a * pow2(e);
    lemma_pow2_pos(e);
    assert(hundredths * u * 1 <= bound * 100);
    lemma_nearest_monotone(hundredths * u, 100, bound, 1);
    lemma_exact_shifted(a, e);
    assert(r.magnitude() == nearest_magnitude(hundredths * u, 100));
    lemma_size_at_most(r.magnitude(), nearest_magnitude(bound, 1));
    assert(r.size() <= bound);
    let p = Real::of_int(side as int).product(r);
    let n = (side as nat * u) * r.size();
    assert(p.magnitude() == nearest_magnitude(n, u));
    if side == 0 {
        assert(0 * u == 0 && 0 * r.size() == 0 && 0 * bound == 0);
        lemma_nearest_zero(u);
        assert(p.size() == 0) by {
            lemma2_to64();
            assert(significand_of(0) == 0);
            assert(0 * pow2(exponent_of(0)) == 0);
        }
        lemma_fundamental_div_mod_converse(0, u as int, 0, 0);
    } else {
        let top = (side * a) as nat;
        assert(top * pow2(e) == side * bound) by (nonlinear_arith)
            requires
                top == side * a,
                bound == a * pow2(e),
        ;
        assert(0 < top < TWO53) by (nonlinear_arith)
            requires
                top == side * a,
                0 < side <= u32::MAX,
                0 < a <= 3,
        ;
        assert(n * 1 <= (top * pow2(e)) * u) by (nonlinear_arith)
            requires
                n == (side as nat * u) * r.size(),
                r.size() <= bound,
                top * pow2(e) == side * bound,
                u > 0,
                side >= 0,
        ;
        lemma_nearest_monotone(n, u, top * pow2(e), 1);
        lemma_exact_shifted(top, e);
        lemma_size_at_most(nearest_magnitude(n, u), nearest_magnitude(top * pow2(e), 1));
        lemma_fundamental_div_mod(p.size() as int, u as int);
        let t = p.size() as int / u as int;
        assert(t * u <= p.size()) by (nonlinear_arith)
            requires
                p.size() == u * t + p.size() as int % u as int,
                p.size() as int % u as int >= 0,
        ;
        assert(t >= 0) by (nonlinear_arith)
            requires
                p.size() == u * t + p.size() as int % u as int,
                (p.size() as int % u as int) < u,
                u > 0,
        ;
    }
}

/// The frame of the graph lies inside of the picture.
pub proof fn law_graph_inside_picture(width: u32, height: u32)
    requires
        width <= EDGE_END,
        height <= EDGE_END,
    ensures
        frame_fits(frame_of(width, height)),
        frame_of(width, height).x + frame_of(width, height).width <= width,
        frame_of(width, height).y + frame_of(width, height).height <= height,
{
    let u = unit();
    lemma_pow2_pos(1070);
    lemma_pow2_adds(4, 1070);
    lemma_pow2_adds(1, 1073);
    lemma_pow2_adds(2, 1072);
    lemma2_to64();
    lemma_share_bound(width, 4, 1, 1070);
    lemma_share_bound(width, 32, 1, 1073);
    lemma_share_bound(height, 72, 3, 1072);
    lemma_share_bound(height, 18, 1, 1072);
    let p = Real::of_int(width as int);
    let q = Real::of_int(height as int);
    let x = p.product(Real::of_ratio(4, 100)).truncated();
    let w = p.product(Real::of_ratio(32, 100)).truncated();
    let y = q.product(Real::of_ratio(72, 100)).truncated();
    let h = q.product(Real::of_ratio(18, 100)).truncated();
    let a = pow2(1070) as int;
    let b = pow2(1073) as int;
    let c = pow2(1072) as int;
    assert(16 * x <= width) by (nonlinear_arith)
        requires
            x * u <= width * (1 * a),
            u == 16 * a,
            a > 0,
    ;
    assert(2 * w <= width) by (nonlinear_arith)
        requires
            w * u <= width * (1 * b),
            u == 2 * b,
            b > 0,
    ;
    assert(4 * y <= 3 * height) by (nonlinear_arith)
        requires
            y * u <= height * (3 * c),
            u == 4 * c,
            c > 0,
    ;
    assert(4 * h <= height) by (nonlinear_arith)
        requires
            h * u <= height * (1 * c),
            u == 4 * c,
            c > 0,
    ;
}

} // verus!
