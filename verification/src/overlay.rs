//! The info box and the depth graph: their sizes, places and contents.
//!
//! Glyphs and slanted lines are drawn elsewhere; what is drawn, how large and
//! where is decided here.

use vstd::prelude::*;

use crate::binary64::Real;
use crate::ffprobe::{clip_i32, to_i32};
use crate::picture::{clip_of, composite_tile, tiled, RgbFrame, RgbaTile};
use crate::text::{same_text, views};

verus! {

/// The line height below which text cannot be read.
pub const MIN_LINE_HEIGHT: i32 = 24;

/// A share of a side of a picture, in hundredths, without the fraction.
pub open spec fn share(side: u32, hundredths: nat) -> int {
    clip_i32(Real::of_int(side as int).product(Real::of_ratio(hundredths, 100)).truncated())
}

pub(crate) fn share_of(side: u32, hundredths: u64) -> (r: i32)
    ensures
        r == share(side, hundredths as nat),
{
    to_i32(Real::from_u64(side as u64).times(Real::from_ratio(hundredths, 100)).trunc_i64())
}

/// The height of a line of text: a fixed share of the picture's height, but not
/// too small to read.
pub open spec fn line_height(height: u32) -> int {
    let lh = clip_i32(
        Real::of_int(height as int).product(Real::of_ratio(45, 1000)).truncated(),
    );
    if lh < MIN_LINE_HEIGHT {
        MIN_LINE_HEIGHT as int
    } else {
        lh
    }
}

pub fn line_height_for(height: u32) -> (r: i32)
    ensures
        r == line_height(height),
        r >= MIN_LINE_HEIGHT,
{
    let lh: i32 = to_i32(
        Real::from_u64(height as u64).times(Real::from_ratio(45, 1000)).trunc_i64(),
    );
    if lh < MIN_LINE_HEIGHT {
        MIN_LINE_HEIGHT
    } else {
        lh
    }
}

/// How much larger the overlay is than on a picture of 1080 rows, in single
/// precision.
pub open spec fn overlay_scale(height: u32) -> Real {
    Real::of_int(line_height(height)).single().quotient(Real::of_int(48)).single()
}

fn scale_for(height: u32) -> (r: Real)
    ensures
        r == overlay_scale(height),
{
    Real::from_i64(line_height_for(height) as i64).to_single().over(
        Real::from_i64(48),
    ).to_single()
}

/// A size on a picture of 1080 rows, scaled, and not below a least one.
pub open spec fn scaled_size(height: u32, size: int, least: int) -> Real {
    Real::of_int(size).product(overlay_scale(height)).single().greatest(Real::of_int(least))
}

fn scaled(height: u32, size: i64, least: i64) -> (r: Real)
    ensures
        r == scaled_size(height, size as int, least as int),
{
    Real::from_i64(size).times(scale_for(height)).to_single().max(Real::from_i64(least))
}

/// The sizes of the info box.
#[derive(Debug, Clone, Copy, PartialEq, Eq, Structural)]
pub struct OverlayMetrics {
    pub line_height: i32,
    /// The height of the font in pixels.
    pub font: Real,
    pub padding: i32,
}

impl OverlayMetrics {
    /// The sizes of the info box on a picture.
    pub fn for_frame(height: u32) -> (r: OverlayMetrics)
        ensures
            r.line_height == line_height(height),
            r.font == scaled_size(height, 22, 16),
            r.padding == clip_i32(scaled_size(height, 14, 6).rounded()),
    {
        OverlayMetrics {
            line_height: line_height_for(height),
            font: scaled(height, 22, 16),
            padding: to_i32(scaled(height, 14, 6).round_i64()),
        }
    }
}

/// The sizes of the depth graph.
#[derive(Debug, Clone, Copy, PartialEq, Eq, Structural)]
pub struct GraphMetrics {
    /// The height of the font in pixels.
    pub font: Real,
    pub inset: i32,
    pub stroke: i32,
}

/// The thickness of lines.
pub open spec fn stroke_of(height: u32) -> int {
    let s = clip_i32(overlay_scale(height).rounded());
    if s < 1 {
        1
    } else {
        s
    }
}

impl GraphMetrics {
    /// The sizes of the depth graph on a picture.
    pub fn for_frame(height: u32) -> (r: GraphMetrics)
        ensures
            r.font == scaled_size(height, 14, 11),
            r.inset == clip_i32(scaled_size(height, 4, 2).rounded()),
            r.stroke == stroke_of(height),
    {
        let s: i32 = to_i32(scale_for(height).round_i64());
        GraphMetrics {
            font: scaled(height, 14, 11),
            inset: to_i32(scaled(height, 4, 2).round_i64()),
            stroke: if s < 1 {
                1
            } else {
                s
            },
        }
    }
}

/// The info box as it was last drawn.
#[derive(Debug)]
pub struct CachedTile {
    pub lines: Vec<String>,
    pub x: i32,
    pub y: i32,
    pub line_height: i32,
    pub image: RgbaTile,
}

/// Keeps the info box from one picture to the next.
#[derive(Debug)]
pub struct OverlayCache {
    pub tile: Option<CachedTile>,
}

/// Whether a box that was drawn can be used again: the same lines at the same
/// place on a picture of the same size.
pub open spec fn reusable(cached: CachedTile, width: u32, height: u32, lines: Seq<Seq<char>>) -> bool {
    &&& cached.x == share(width, 4)
    &&& cached.y == share(height, 6)
    &&& cached.line_height == line_height(height)
    &&& views(cached.lines@) == lines
}

pub open spec fn cache_hit(cache: OverlayCache, width: u32, height: u32, lines: Seq<Seq<char>>) -> bool {
    match cache.tile {
        Some(cached) => reusable(cached, width, height, lines),
        None => false,
    }
}

/// A box that has to be drawn: where it stands and how large its text is.
#[derive(Debug, Clone, Copy, PartialEq, Eq, Structural)]
pub struct TileRequest {
    pub x: i32,
    pub y: i32,
    pub metrics: OverlayMetrics,
}

fn same_lines(a: &Vec<String>, b: &Vec<String>) -> (r: bool)
    ensures
        r == (views(a@) == views(b@)),
{
    assert(views(a@).len() == a.len() && views(b@).len() == b.len());
    if a.len() != b.len() {
        return false;
    }
    let mut i: usize = 0;
    while i < a.len()
        invariant
            i <= a.len(),
            a.len() == b.len(),
            forall|k: int| 0 <= k < i ==> (#[trigger] a@[k])@ == b@[k]@,
        decreases a.len() - i,
    {
        if !same_text(a[i].as_str(), b[i].as_str()) {
            assert(views(a@)[i as int] != views(b@)[i as int]);
            return false;
        }
        i += 1;
    }
    assert(views(a@) =~= views(b@));
    true
}

impl OverlayCache {
    pub fn new() -> (r: OverlayCache)
        ensures
            r.tile.is_none(),
    {
        OverlayCache { tile: None }
    }

    /// The box that has to be drawn for a picture; none where the last one can be
    /// used again.
    pub fn request(&self, width: u32, height: u32, lines: &Vec<String>) -> (r: Option<TileRequest>)
        ensures
            r.is_none() == cache_hit(*self, width, height, views(lines@)),
            r matches Some(t) ==> t.x == share(width, 4) && t.y == share(height, 6)
                && t.metrics.line_height == line_height(height) && t.metrics.font == scaled_size(
                height,
                22,
                16,
            ) && t.metrics.padding == clip_i32(scaled_size(height, 14, 6).rounded()),
    {
        let x: i32 = share_of(width, 4);
        let y: i32 = share_of(height, 6);
        let metrics = OverlayMetrics::for_frame(height);
        match &self.tile {
            Some(cached) => {
                if cached.x == x && cached.y == y && cached.line_height == metrics.line_height
                    && same_lines(&cached.lines, lines) {
                    return None;
                }
            },
            None => {},
        }
        Some(TileRequest { x, y, metrics })
    }

    /// Keeps a box that was drawn.
    pub fn store(&mut self, request: &TileRequest, lines: Vec<String>, image: RgbaTile)
        ensures
            final(self).tile == Some(
                (CachedTile {
                    lines,
                    x: request.x,
                    y: request.y,
                    line_height: request.metrics.line_height,
                    image,
                }),
            ),
    {
        self.tile = Some(
            CachedTile {
                lines,
                x: request.x,
                y: request.y,
                line_height: request.metrics.line_height,
                image,
            },
        );
    }
}

/// A box that was drawn for a request is used again for the same picture size and
/// lines.
pub proof fn law_stored_box_is_reused(
    after: OverlayCache,
    width: u32,
    height: u32,
    lines: Vec<String>,
    request: TileRequest,
    image: RgbaTile,
)
    requires
        request.x == share(width, 4),
        request.y == share(height, 6),
        request.metrics.line_height == line_height(height),
        after.tile == Some(
            (CachedTile {
                lines,
                x: request.x,
                y: request.y,
                line_height: request.metrics.line_height,
                image,
            }),
        ),
    ensures
        cache_hit(after, width, height, views(lines@)),
{
}

/// Draws the info box that is kept onto a picture.
pub fn draw_overlay(img: &mut RgbFrame, cache: &OverlayCache)
    requires
        old(img).wf(),
        cache.tile matches Some(cached) ==> cached.image.wf(),
    ensures
        final(img).wf(),
        final(img).width == old(img).width,
        final(img).height == old(img).height,
        match cache.tile {
            None => final(img).data@ == old(img).data@,
            Some(cached) => forall|j: int|
                0 <= j < old(img).data@.len() ==> #[trigger] final(img).data@[j] == tiled(
                    old(img).data@,
                    cached.image,
                    clip_of(
                        cached.x,
                        cached.y,
                        cached.image.width,
                        cached.image.height,
                        old(img).width,
                        old(img).height,
                    ),
                    cached.x,
                    cached.y,
                    old(img).width,
                    j,
                ),
        },
{
    match &cache.tile {
        Some(cached) => composite_tile(img, &cached.image, cached.x, cached.y),
        None => {},
    }
}

/// The largest of the first `n` widths, 0 where there is none.
pub open spec fn widest(widths: Seq<u32>, n: nat) -> nat
    decreases n,
{
    if n == 0 {
        0
    } else {
        let w = widest(widths, (n - 1) as nat);
        if widths[n - 1] > w {
            widths[n - 1] as nat
        } else {
            w
        }
    }
}

/// The size of the info box for lines of some widths.
pub open spec fn box_size(widths: Seq<u32>, metrics: OverlayMetrics) -> (int, int) {
    let w = widest(widths, widths.len()) + metrics.padding * 2;
    let h = metrics.line_height * widths.len() + metrics.padding;
    (
        if w < 1 {
            1
        } else {
            w
        },
        if h < 1 {
            1
        } else {
            h
        },
    )
}

/// Whether the info box for lines of some widths is of a size that fits in memory.
pub open spec fn box_fits(widths: Seq<u32>, metrics: OverlayMetrics) -> bool {
    let (w, h) = box_size(widths, metrics);
    &&& 0 <= metrics.padding <= 0x1000_0000
    &&& 0 <= metrics.line_height
    &&& w <= i32::MAX
    &&& h <= i32::MAX
    &&& 4 * (w * h) <= usize::MAX
}

fn largest(widths: &Vec<u32>) -> (r: u32)
    ensures
        r == widest(widths@, widths@.len()),
{
    let mut w: u32 = 0;
    let mut i: usize = 0;
    while i < widths.len()
        invariant
            i <= widths.len(),
            w == widest(widths@, i as nat),
        decreases widths.len() - i,
    {
        if widths[i] > w {
            w = widths[i];
        }
        i += 1;
    }
    w
}

/// Tells whether the info box for lines of some widths fits in memory.
pub fn can_make_box(widths: &Vec<u32>, metrics: &OverlayMetrics) -> (r: bool)
    ensures
        r == box_fits(widths@, *metrics),
{
    if metrics.padding < 0 || metrics.padding > 0x1000_0000 || metrics.line_height < 0 {
        return false;
    }
    let count: usize = widths.len();
    let limit: i128 = 0x7fff_ffff;
    proof {
        assert(0 <= metrics.line_height * count <= 0x7fff_ffff * u64::MAX) by (nonlinear_arith)
            requires
                0 <= metrics.line_height <= 0x7fff_ffff,
                0 <= count <= u64::MAX,
        ;
    }
    let w: i128 = largest(widths) as i128 + metrics.padding as i128 * 2;
    let h: i128 = metrics.line_height as i128 * count as i128 + metrics.padding as i128;
    let width: i128 = if w < 1 {
        1
    } else {
        w
    };
    let height: i128 = if h < 1 {
        1
    } else {
        h
    };
    proof {
        let (bw, bh) = box_size(widths@, *metrics);
        assert(bw == width && bh == height);
    }
    if width > limit || height > limit {
        return false;
    }
    proof {
        assert(0 <= width * height <= 0x7fff_ffff * 0x7fff_ffff) by (nonlinear_arith)
            requires
                0 <= width <= 0x7fff_ffff,
                0 <= height <= 0x7fff_ffff,
        ;
    }
    let most: usize = usize::MAX;
    4 * (width * height) <= most as i128
}

/// The info box without its text: a dark ground that lets through a little more
/// than half of the picture.
pub fn blank_tile(widths: &Vec<u32>, metrics: &OverlayMetrics) -> (r: RgbaTile)
    requires
        box_fits(widths@, *metrics),
    ensures
        r.wf(),
        r.width == box_size(widths@, *metrics).0,
        r.height == box_size(widths@, *metrics).1,
        forall|j: int|
            0 <= j < r.data@.len() ==> #[trigger] r.data@[j] == if j % 4 == 3 {
                115u8
            } else {
                20u8
            },
{
    let text_w: u32 = largest(widths);
    let w: i64 = text_w as i64 + metrics.padding as i64 * 2;
    let width: u32 = if w < 1 {
        1
    } else {
        w as u32
    };
    proof {
        assert(metrics.line_height * widths@.len() >= 0) by (nonlinear_arith)
            requires
                metrics.line_height >= 0,
        ;
    }
    let h: i128 = metrics.line_height as i128 * widths.len() as i128 + metrics.padding as i128;
    let height: u32 = if h < 1 {
        1
    } else {
        h as u32
    };
    proof {
        let (bw, bh) = box_size(widths@, *metrics);
        assert(bw == width && bh == height);
        assert(width * height >= 0) by (nonlinear_arith)
            requires
                width >= 0,
                height >= 0,
        ;
    }
    let pixels: usize = width as usize * height as usize;
    let mut data: Vec<u8> = Vec::new();
    let mut p: usize = 0;
    while p < pixels
        invariant
            p <= pixels,
            data.len() == 4 * p,
            forall|j: int|
                0 <= j < data.len() ==> #[trigger] data@[j] == if j % 4 == 3 {
                    115u8
                } else {
                    20u8
                },
        decreases pixels - p,
    {
        data.push(20);
        data.push(20);
        data.push(20);
        data.push(115);
        p += 1;
    }
    proof {
        assert(data@.len() == 4 * (width as nat * height as nat)) by (nonlinear_arith)
            requires
                data@.len() == 4 * pixels,
                pixels == width * height,
        ;
    }
    RgbaTile { width, height, data }
}

/// The row at which a line of text starts in the info box.
pub open spec fn top_of_line(metrics: OverlayMetrics, i: nat) -> int {
    metrics.padding as int / 2 + metrics.line_height * i
}

pub fn line_top(metrics: &OverlayMetrics, i: u32) -> (r: i32)
    requires
        0 <= metrics.padding,
        0 <= metrics.line_height,
        metrics.padding / 2 + metrics.line_height * i <= i32::MAX,
    ensures
        r == top_of_line(*metrics, i as nat),
{
    proof {
        assert(metrics.line_height * i >= 0) by (nonlinear_arith)
            requires
                metrics.line_height >= 0,
                i >= 0,
        ;
    }
    (metrics.padding as i64 / 2 + metrics.line_height as i64 * i as i64) as i32
}

} // verus!
