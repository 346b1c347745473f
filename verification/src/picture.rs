//! Pictures with three bytes for each pixel, and drawing on them.

use vstd::arithmetic::div_mod::{lemma_fundamental_div_mod, lemma_fundamental_div_mod_converse};
use vstd::prelude::*;

use crate::binary64::{nearest_up, Real};

verus! {

/// A picture, row by row, with the bytes of red, green and blue of each pixel.
#[derive(Debug)]
pub struct RgbFrame {
    pub width: u32,
    pub height: u32,
    pub data: Vec<u8>,
}

/// A picture with an opacity besides the three colours of each pixel.
#[derive(Debug)]
pub struct RgbaTile {
    pub width: u32,
    pub height: u32,
    pub data: Vec<u8>,
}

impl RgbFrame {
    pub open spec fn wf(&self) -> bool {
        self.data@.len() == 3 * (self.width as nat * self.height as nat)
    }
}

impl RgbaTile {
    pub open spec fn wf(&self) -> bool {
        &&& self.data@.len() == 4 * (self.width as nat * self.height as nat)
        &&& self.width <= i32::MAX
        &&& self.height <= i32::MAX
    }
}

/// The column of the pixel that a byte belongs to.
pub open spec fn column_of(j: int, width: u32) -> int {
    (j / 3) % (width as int)
}

/// The row of the pixel that a byte belongs to.
pub open spec fn row_of(j: int, width: u32) -> int {
    (j / 3) / (width as int)
}

/// The part of a picture that a rectangle covers: columns from `x0` up to `x1`,
/// rows from `y0` up to `y1`.
#[derive(Debug, Clone, Copy, PartialEq, Eq, Structural)]
pub struct Clip {
    pub x0: u32,
    pub y0: u32,
    pub x1: u32,
    pub y1: u32,
}

/// Whether a byte belongs to a pixel in a part of a picture.
pub open spec fn covers(clip: Clip, j: int, width: u32) -> bool {
    clip.x0 <= column_of(j, width) < clip.x1 && clip.y0 <= row_of(j, width) < clip.y1
}

/// The first position of a side of a rectangle that is not before zero.
pub open spec fn span_start(at: i32) -> u32 {
    if at < 0 {
        0
    } else {
        at as u32
    }
}

/// The position behind a side of a rectangle, cut off at the end of the picture.
pub open spec fn span_end(at: i32, len: u32, limit: u32) -> u32 {
    let end = at + len;
    let end = if end > i32::MAX {
        i32::MAX as int
    } else {
        end
    };
    if end < 0 {
        0
    } else if end > limit {
        limit
    } else {
        end as u32
    }
}

fn span(at: i32, len: u32, limit: u32) -> (r: (u32, u32))
    requires
        len <= i32::MAX,
    ensures
        r.0 == span_start(at),
        r.1 == span_end(at, len, limit),
        r.1 <= limit,
{
    let start: u32 = if at < 0 {
        0
    } else {
        at as u32
    };
    let end: i64 = at as i64 + len as i64;
    let end: i64 = if end > i32::MAX as i64 {
        i32::MAX as i64
    } else {
        end
    };
    let end: u32 = if end < 0 {
        0
    } else if end > limit as i64 {
        limit
    } else {
        end as u32
    };
    (start, end)
}

/// The part of a picture that a rectangle covers.
pub open spec fn clip_of(x: i32, y: i32, w: u32, h: u32, width: u32, height: u32) -> Clip {
    Clip {
        x0: span_start(x),
        y0: span_start(y),
        x1: span_end(x, w, width),
        y1: span_end(y, h, height),
    }
}

/// Cuts a rectangle off at the sides of a picture.
pub fn clip_rect(x: i32, y: i32, w: u32, h: u32, width: u32, height: u32) -> (r: Clip)
    requires
        w <= i32::MAX,
        h <= i32::MAX,
    ensures
        r == clip_of(x, y, w, h, width, height),
        r.x1 <= width,
        r.y1 <= height,
{
    let (x0, x1) = span(x, w, width);
    let (y0, y1) = span(y, h, height);
    Clip { x0, y0, x1, y1 }
}

/// An integer cut off at the bounds of a byte.
pub open spec fn clip_u8(i: int) -> int {
    if i < 0 {
        0
    } else if i > 255 {
        255
    } else {
        i
    }
}

/// A colour laid over another one with an opacity, in single precision: the
/// opacity's share of the one and the rest of the other.
pub open spec fn blended(alpha: Real, color: u8, under: u8) -> int {
    let over = alpha.product(Real::of_int(color as int)).single();
    let rest = Real::of_int(1).difference(alpha).single();
    let kept = rest.product(Real::of_int(under as int)).single();
    clip_u8(over.sum(kept).single().rounded())
}

/// Lays a colour over another one with an opacity.
pub fn blend(alpha: Real, color: u8, under: u8) -> (r: u8)
    ensures
        r == blended(alpha, color, under),
{
    let over = alpha.times(Real::from_u64(color as u64)).to_single();
    let rest = Real::from_u64(1).minus(alpha).to_single();
    let kept = rest.times(Real::from_u64(under as u64)).to_single();
    let v: i64 = over.plus(kept).to_single().round_i64();
    if v < 0 {
        0
    } else if v > 255 {
        255
    } else {
        v as u8
    }
}

/// What a colour makes of every byte that it is laid over.
fn blend_table(alpha: Real, color: u8) -> (r: Vec<u8>)
    ensures
        r.len() == 256,
        forall|i: int| 0 <= i < 256 ==> (#[trigger] r@[i]) == blended(alpha, color, i as u8),
{
    let mut r: Vec<u8> = Vec::new();
    let mut i: usize = 0;
    while i < 256
        invariant
            i <= 256,
            r.len() == i,
            forall|k: int| 0 <= k < i ==> (#[trigger] r@[k]) == blended(alpha, color, k as u8),
        decreases 256 - i,
    {
        r.push(blend(alpha, color, i as u8));
        i += 1;
    }
    r
}

/// The channel of a colour that a byte belongs to.
pub open spec fn channel(color: (u8, u8, u8), j: int) -> u8 {
    if j % 3 == 0 {
        color.0
    } else if j % 3 == 1 {
        color.1
    } else {
        color.2
    }
}

/// The bytes of a pixel stand in its row and column.
proof fn lemma_pixel_place(px: int, py: int, c: int, width: u32)
    requires
        0 <= px < width,
        0 <= py,
        0 <= c < 3,
    ensures
        ({
            let j = 3 * (py * width + px) + c;
            column_of(j, width) == px && row_of(j, width) == py && j % 3 == c && j >= 0
        }),
{
    let p = py * width + px;
    assert(p >= 0) by (nonlinear_arith)
        requires
            p == py * width + px,
            py >= 0,
            px >= 0,
            width >= 0,
    ;
    lemma_fundamental_div_mod_converse(p, width as int, py, px);
}

/// What laying a colour over a part of a picture makes of its first bytes.
pub open spec fn laid_over(
    before: Seq<u8>,
    clip: Clip,
    width: u32,
    color: (u8, u8, u8),
    alpha: Real,
    j: int,
) -> int {
    if covers(clip, j, width) {
        blended(alpha, channel(color, j), before[j])
    } else {
        before[j] as int
    }
}

/// Lays a colour over a rectangle of a picture with an opacity; what lies outside
/// of the picture is left out.
pub fn blend_rect_alpha(
    img: &mut RgbFrame,
    x: i32,
    y: i32,
    w: u32,
    h: u32,
    color: (u8, u8, u8),
    alpha: Real,
)
    requires
        old(img).wf(),
        w <= i32::MAX,
        h <= i32::MAX,
    ensures
        final(img).wf(),
        final(img).width == old(img).width,
        final(img).height == old(img).height,
        forall|j: int|
            0 <= j < old(img).data@.len() ==> #[trigger] final(img).data@[j] == laid_over(
                old(img).data@,
                clip_of(x, y, w, h, old(img).width, old(img).height),
                old(img).width,
                color,
                alpha,
                j,
            ),
{
    let width: u32 = img.width;
    let clip = clip_rect(x, y, w, h, width, img.height);
    let bytes: usize = img.data.len();
    let ghost before = img.data@;
    let ghost total = bytes as int;
    if clip.x0 >= clip.x1 || clip.y0 >= clip.y1 {
        return;
    }
    let red = blend_table(alpha, color.0);
    let green = blend_table(alpha, color.1);
    let blue = blend_table(alpha, color.2);
    let mut py: u32 = clip.y0;
    proof {
        assert(total == 3 * (width * img.height)) by (nonlinear_arith)
            requires
                total == 3 * (width as nat * img.height as nat),
        ;
    }
    let ghost height = img.height;
    while py < clip.y1
        invariant
            clip.x0 < clip.x1 <= width,
            clip.y0 <= py <= clip.y1 <= height,
            img.width == width,
            img.height == height,
            red.len() == 256,
            green.len() == 256,
            blue.len() == 256,
            forall|i: int|
                0 <= i < 256 ==> (#[trigger] red@[i]) == blended(alpha, color.0, i as u8),
            forall|i: int|
                0 <= i < 256 ==> (#[trigger] green@[i]) == blended(alpha, color.1, i as u8),
            forall|i: int|
                0 <= i < 256 ==> (#[trigger] blue@[i]) == blended(alpha, color.2, i as u8),
            before.len() == total,
            img.data@.len() == total,
            total == 3 * (width * height),
            total <= usize::MAX,
            forall|j: int|
                0 <= j < total ==> #[trigger] img.data@[j] == if row_of(j, width) < py {
                    laid_over(before, clip, width, color, alpha, j)
                } else {
                    before[j] as int
                },
        decreases clip.y1 - py,
    {
        blend_row(img, clip, py, &red, &green, &blue, Ghost(before), Ghost(color), Ghost(alpha));
        py += 1;
    }
    proof {
        assert forall|j: int| 0 <= j < total implies #[trigger] img.data@[j] == laid_over(
            before,
            clip,
            width,
            color,
            alpha,
            j,
        ) by {
            if row_of(j, width) >= py {
                assert(!covers(clip, j, width));
            }
        }
    }
}

/// Lays a colour over one row of a part of a picture.
fn blend_row(
    img: &mut RgbFrame,
    clip: Clip,
    py: u32,
    red: &Vec<u8>,
    green: &Vec<u8>,
    blue: &Vec<u8>,
    before: Ghost<Seq<u8>>,
    color: Ghost<(u8, u8, u8)>,
    alpha: Ghost<Real>,
)
    requires
        clip.x0 < clip.x1 <= old(img).width,
        clip.y0 <= py < clip.y1 <= old(img).height,
        red.len() == 256,
        green.len() == 256,
        blue.len() == 256,
        forall|i: int| 0 <= i < 256 ==> (#[trigger] red@[i]) == blended(alpha@, color@.0, i as u8),
        forall|i: int|
            0 <= i < 256 ==> (#[trigger] green@[i]) == blended(alpha@, color@.1, i as u8),
        forall|i: int| 0 <= i < 256 ==> (#[trigger] blue@[i]) == blended(alpha@, color@.2, i as u8),
        before@.len() == old(img).data@.len(),
        old(img).data@.len() == 3 * (old(img).width * old(img).height),
        old(img).data@.len() <= usize::MAX,
        forall|j: int|
            0 <= j < before@.len() ==> #[trigger] old(img).data@[j] == if row_of(
                j,
                old(img).width,
            ) < py {
                laid_over(before@, clip, old(img).width, color@, alpha@, j)
            } else {
                before@[j] as int
            },
    ensures
        final(img).width == old(img).width,
        final(img).height == old(img).height,
        final(img).data@.len() == old(img).data@.len(),
        forall|j: int|
            0 <= j < before@.len() ==> #[trigger] final(img).data@[j] == if row_of(
                j,
                old(img).width,
            ) < py + 1 {
                laid_over(before@, clip, old(img).width, color@, alpha@, j)
            } else {
                before@[j] as int
            },
{
    let width: u32 = img.width;
    let ghost w = width as int;
    let ghost total = before@.len() as int;
    proof {
        assert(py * w + w <= w * img.height) by (nonlinear_arith)
            requires
                py + 1 <= img.height,
                w >= 0,
        ;
        assert(py * w >= 0) by (nonlinear_arith)
            requires
                py >= 0,
                w >= 0,
        ;
    }
    let start: usize = py as usize * width as usize;
    let mut px: u32 = clip.x0;
    proof {
        assert forall|j: int| 0 <= j < total implies #[trigger] img.data@[j] == if row_of(j, width)
            < py || (row_of(j, width) == py && column_of(j, width) < px) {
            laid_over(before@, clip, width, color@, alpha@, j)
        } else {
            before@[j] as int
        } by {
            if row_of(j, width) == py && column_of(j, width) < px {
                assert(!covers(clip, j, width));
            }
        }
    }
    while px < clip.x1
        invariant
            clip.x0 <= px <= clip.x1 <= width,
            clip.y0 <= py < clip.y1,
            w == width,
            img.width == width,
            img.height == old(img).height,
            start == py * w,
            3 * (start + w) <= total,
            before@.len() == total,
            img.data@.len() == total,
            total <= usize::MAX,
            red.len() == 256,
            green.len() == 256,
            blue.len() == 256,
            forall|i: int|
                0 <= i < 256 ==> (#[trigger] red@[i]) == blended(alpha@, color@.0, i as u8),
            forall|i: int|
                0 <= i < 256 ==> (#[trigger] green@[i]) == blended(alpha@, color@.1, i as u8),
            forall|i: int|
                0 <= i < 256 ==> (#[trigger] blue@[i]) == blended(alpha@, color@.2, i as u8),
            forall|j: int|
                0 <= j < total ==> #[trigger] img.data@[j] == if row_of(j, width) < py || (row_of(
                    j,
                    width,
                ) == py && column_of(j, width) < px) {
                    laid_over(before@, clip, width, color@, alpha@, j)
                } else {
                    before@[j] as int
                },
        decreases clip.x1 - px,
    {
        let at: usize = 3 * (start + px as usize);
        let ghost mid = img.data@;
        proof {
            lemma_pixel_place(px as int, py as int, 0, width);
            lemma_pixel_place(px as int, py as int, 1, width);
            lemma_pixel_place(px as int, py as int, 2, width);
        }
        let r: u8 = img.data[at];
        let g: u8 = img.data[at + 1];
        let b: u8 = img.data[at + 2];
        img.data.set(at, red[r as usize]);
        img.data.set(at + 1, green[g as usize]);
        img.data.set(at + 2, blue[b as usize]);
        proof {
            let k = at as int;
            assert(covers(clip, k, width) && covers(clip, k + 1, width) && covers(
                clip,
                k + 2,
                width,
            ));
            assert(mid[k] == before@[k] && mid[k + 1] == before@[k + 1] && mid[k + 2] == before@[k
                + 2]);
            assert forall|j: int| 0 <= j < total implies #[trigger] img.data@[j] == if row_of(
                j,
                width,
            ) < py || (row_of(j, width) == py && column_of(j, width) < px + 1) {
                laid_over(before@, clip, width, color@, alpha@, j)
            } else {
                before@[j] as int
            } by {
                if j != k && j != k + 1 && j != k + 2 {
                    assert(img.data@[j] == mid[j]);
                    if row_of(j, width) == py && column_of(j, width) == px {
                        lemma_fundamental_div_mod(j / 3, w);
                        assert(j / 3 == w * py + px);
                        assert(j / 3 == start + px) by (nonlinear_arith)
                            requires
                                j / 3 == w * py + px,
                                start == py * w,
                        ;
                    }
                }
            }
        }
        px += 1;
    }
    proof {
        assert forall|j: int| 0 <= j < total implies #[trigger] img.data@[j] == if row_of(j, width)
            < py + 1 {
            laid_over(before@, clip, width, color@, alpha@, j)
        } else {
            before@[j] as int
        } by {
            if row_of(j, width) == py && column_of(j, width) >= px {
                assert(!covers(clip, j, width));
            }
        }
    }
}

/// A colour laid over another one with one of 256 opacities.
pub open spec fn composed(opacity: u8, color: u8, under: u8) -> nat {
    nearest_up(
        opacity as nat * color as nat + (255 - opacity) as nat * under as nat,
        255,
    )
}

fn compose(opacity: u8, color: u8, under: u8) -> (r: u8)
    ensures
        r == composed(opacity, color, under),
{
    proof {
        assert(opacity as int * color as int + (255 - opacity) * under as int <= 255 * 255)
            by (nonlinear_arith)
            requires
                0 <= opacity <= 255,
                0 <= color <= 255,
                0 <= under <= 255,
        ;
        assert(opacity as int * color as int >= 0 && (255 - opacity) * under as int >= 0)
            by (nonlinear_arith)
            requires
                0 <= opacity <= 255,
                0 <= color <= 255,
                0 <= under <= 255,
        ;
    }
    let n: u32 = opacity as u32 * color as u32 + (255 - opacity as u32) * under as u32;
    if 2 * (n % 255) < 255 {
        (n / 255) as u8
    } else {
        (n / 255 + 1) as u8
    }
}

/// A pixel without opacity changes nothing, one with full opacity is kept as it is.
pub proof fn law_opacity_ends(color: u8, under: u8)
    ensures
        composed(0, color, under) == under,
        composed(255, color, under) == color,
{
    let c = color as nat;
    let u = under as nat;
    assert(0 * c + 255 * u == 255 * u && 255 * c + 0 * u == 255 * c);
}

/// The position of a tile's pixel that lies on a byte of a picture.
pub open spec fn tile_index(tile: RgbaTile, x: i32, y: i32, j: int, width: u32) -> int {
    (row_of(j, width) - y) * tile.width + (column_of(j, width) - x)
}

/// What laying a tile over a picture makes of a byte.
pub open spec fn tiled(before: Seq<u8>, tile: RgbaTile, clip: Clip, x: i32, y: i32, width: u32, j: int) -> int {
    if covers(clip, j, width) {
        let t = 4 * tile_index(tile, x, y, j, width);
        composed(tile.data@[t + 3], tile.data@[t + j % 3], before[j]) as int
    } else {
        before[j] as int
    }
}

/// Lays a tile over a picture; what lies outside of the picture is left out.
pub fn composite_tile(img: &mut RgbFrame, tile: &RgbaTile, x: i32, y: i32)
    requires
        old(img).wf(),
        tile.wf(),
    ensures
        final(img).wf(),
        final(img).width == old(img).width,
        final(img).height == old(img).height,
        forall|j: int|
            0 <= j < old(img).data@.len() ==> #[trigger] final(img).data@[j] == tiled(
                old(img).data@,
                *tile,
                clip_of(x, y, tile.width, tile.height, old(img).width, old(img).height),
                x,
                y,
                old(img).width,
                j,
            ),
{
    let width: u32 = img.width;
    let clip = clip_rect(x, y, tile.width, tile.height, width, img.height);
    let bytes: usize = img.data.len();
    let ghost before = img.data@;
    let ghost total = bytes as int;
    if clip.x0 >= clip.x1 || clip.y0 >= clip.y1 {
        return;
    }
    let mut py: u32 = clip.y0;
    let ghost height = img.height;
    proof {
        assert(total == 3 * (width * height)) by (nonlinear_arith)
            requires
                total == 3 * (width as nat * height as nat),
        ;
    }
    while py < clip.y1
        invariant
            tile.wf(),
            clip == clip_of(x, y, tile.width, tile.height, width, height),
            clip.x0 < clip.x1 <= width,
            clip.y0 <= py <= clip.y1 <= height,
            img.width == width,
            img.height == height,
            before.len() == total,
            img.data@.len() == total,
            total == 3 * (width * height),
            total <= usize::MAX,
            forall|j: int|
                0 <= j < total ==> #[trigger] img.data@[j] == if row_of(j, width) < py {
                    tiled(before, *tile, clip, x, y, width, j)
                } else {
                    before[j] as int
                },
        decreases clip.y1 - py,
    {
        composite_row(img, tile, clip, x, y, py, Ghost(before));
        py += 1;
    }
    proof {
        assert forall|j: int| 0 <= j < total implies #[trigger] img.data@[j] == tiled(
            before,
            *tile,
            clip,
            x,
            y,
            width,
            j,
        ) by {
            if row_of(j, width) >= py {
                assert(!covers(clip, j, width));
            }
        }
    }
}

/// Lays one row of a tile over a picture.
fn composite_row(
    img: &mut RgbFrame,
    tile: &RgbaTile,
    clip: Clip,
    x: i32,
    y: i32,
    py: u32,
    before: Ghost<Seq<u8>>,
)
    requires
        tile.wf(),
        clip == clip_of(x, y, tile.width, tile.height, old(img).width, old(img).height),
        clip.x0 < clip.x1 <= old(img).width,
        clip.y0 <= py < clip.y1 <= old(img).height,
        before@.len() == old(img).data@.len(),
        old(img).data@.len() == 3 * (old(img).width * old(img).height),
        old(img).data@.len() <= usize::MAX,
        forall|j: int|
            0 <= j < before@.len() ==> #[trigger] old(img).data@[j] == if row_of(
                j,
                old(img).width,
            ) < py {
                tiled(before@, *tile, clip, x, y, old(img).width, j)
            } else {
                before@[j] as int
            },
    ensures
        final(img).width == old(img).width,
        final(img).height == old(img).height,
        final(img).data@.len() == old(img).data@.len(),
        forall|j: int|
            0 <= j < before@.len() ==> #[trigger] final(img).data@[j] == if row_of(
                j,
                old(img).width,
            ) < py + 1 {
                tiled(before@, *tile, clip, x, y, old(img).width, j)
            } else {
                before@[j] as int
            },
{
    let width: u32 = img.width;
    let ghost w = width as int;
    let ghost total = before@.len() as int;
    let tile_bytes: usize = tile.data.len();
    let ty: u32 = (py as i64 - y as i64) as u32;
    let ghost tw = tile.width as int;
    proof {
        assert(py * w + w <= w * img.height) by (nonlinear_arith)
            requires
                py + 1 <= img.height,
                w >= 0,
        ;
        assert(py * w >= 0) by (nonlinear_arith)
            requires
                py >= 0,
                w >= 0,
        ;
        assert(ty < tile.height);
        assert(ty * tw + tw <= tw * tile.height) by (nonlinear_arith)
            requires
                ty + 1 <= tile.height,
                tw >= 0,
        ;
        assert(ty * tw >= 0) by (nonlinear_arith)
            requires
                ty >= 0,
                tw >= 0,
        ;
    }
    let start: usize = py as usize * width as usize;
    let tile_start: usize = ty as usize * tile.width as usize;
    let mut px: u32 = clip.x0;
    proof {
        assert forall|j: int| 0 <= j < total implies #[trigger] img.data@[j] == if row_of(j, width)
            < py || (row_of(j, width) == py && column_of(j, width) < px) {
            tiled(before@, *tile, clip, x, y, width, j)
        } else {
            before@[j] as int
        } by {
            if row_of(j, width) == py && column_of(j, width) < px {
                assert(!covers(clip, j, width));
            }
        }
    }
    while px < clip.x1
        invariant
            tile.wf(),
            clip == clip_of(x, y, tile.width, tile.height, width, img.height),
            clip.x0 <= px <= clip.x1 <= width,
            clip.y0 <= py < clip.y1,
            w == width,
            tw == tile.width,
            ty == py - y,
            img.width == width,
            img.height == old(img).height,
            start == py * w,
            3 * (start + w) <= total,
            tile_start == ty * tw,
            4 * (tile_start + tw) <= tile.data@.len(),
            tile_bytes == tile.data@.len(),
            before@.len() == total,
            img.data@.len() == total,
            total <= usize::MAX,
            forall|j: int|
                0 <= j < total ==> #[trigger] img.data@[j] == if row_of(j, width) < py || (row_of(
                    j,
                    width,
                ) == py && column_of(j, width) < px) {
                    tiled(before@, *tile, clip, x, y, width, j)
                } else {
                    before@[j] as int
                },
        decreases clip.x1 - px,
    {
        let at: usize = 3 * (start + px as usize);
        let tx: u32 = (px as i64 - x as i64) as u32;
        assert(tx < tile.width);
        let from: usize = 4 * (tile_start + tx as usize);
        let ghost mid = img.data@;
        proof {
            lemma_pixel_place(px as int, py as int, 0, width);
            lemma_pixel_place(px as int, py as int, 1, width);
            lemma_pixel_place(px as int, py as int, 2, width);
        }
        let opacity: u8 = tile.data[from + 3];
        let r: u8 = compose(opacity, tile.data[from], img.data[at]);
        let g: u8 = compose(opacity, tile.data[from + 1], img.data[at + 1]);
        let b: u8 = compose(opacity, tile.data[from + 2], img.data[at + 2]);
        img.data.set(at, r);
        img.data.set(at + 1, g);
        img.data.set(at + 2, b);
        proof {
            let k = at as int;
            assert(covers(clip, k, width) && covers(clip, k + 1, width) && covers(
                clip,
                k + 2,
                width,
            ));
            assert(mid[k] == before@[k] && mid[k + 1] == before@[k + 1] && mid[k + 2] == before@[k
                + 2]);
            assert(4 * tile_index(*tile, x, y, k, width) == from);
            assert(4 * tile_index(*tile, x, y, k + 1, width) == from);
            assert(4 * tile_index(*tile, x, y, k + 2, width) == from);
            assert forall|j: int| 0 <= j < total implies #[trigger] img.data@[j] == if row_of(
                j,
                width,
            ) < py || (row_of(j, width) == py && column_of(j, width) < px + 1) {
                tiled(before@, *tile, clip, x, y, width, j)
            } else {
                before@[j] as int
            } by {
                if j != k && j != k + 1 && j != k + 2 {
                    assert(img.data@[j] == mid[j]);
                    if row_of(j, width) == py && column_of(j, width) == px {
                        lemma_fundamental_div_mod(j / 3, w);
                        assert(j / 3 == w * py + px);
                        assert(j / 3 == start + px) by (nonlinear_arith)
                            requires
                                j / 3 == w * py + px,
                                start == py * w,
                        ;
                    }
                }
            }
        }
        px += 1;
    }
    proof {
        assert forall|j: int| 0 <= j < total implies #[trigger] img.data@[j] == if row_of(j, width)
            < py + 1 {
            tiled(before@, *tile, clip, x, y, width, j)
        } else {
            before@[j] as int
        } by {
            if row_of(j, width) == py && column_of(j, width) >= px {
                assert(!covers(clip, j, width));
            }
        }
    }
}

/// The largest side of a picture on which lines are drawn without rounding.
pub const EXACT_SIDE: u32 = 16_777_216;

/// The first edge of a rectangle that single precision may round up to `2^31`, past
/// which a coordinate is none.
pub const EDGE_END: i32 = 2_147_483_584;

/// Whether a pixel lies on the border of a rectangle.
pub open spec fn on_border(px: int, py: int, x: int, y: int, w: int, h: int) -> bool {
    &&& x <= px < x + w
    &&& y <= py < y + h
    &&& (px == x || px == x + w - 1 || py == y || py == y + h - 1)
}

/// What drawing the border of a rectangle makes of a byte.
pub open spec fn bordered(
    before: Seq<u8>,
    width: u32,
    x: int,
    y: int,
    w: int,
    h: int,
    color: (u8, u8, u8),
    j: int,
) -> u8 {
    if on_border(column_of(j, width), row_of(j, width), x, y, w, h) {
        channel(color, j)
    } else {
        before[j]
    }
}

/// Whether single precision counts every pixel of a picture and of a rectangle in it.
pub open spec fn exact_frame(width: u32, height: u32, x: i32, y: i32, w: u32, h: u32) -> bool {
    &&& width <= EXACT_SIDE
    &&& height <= EXACT_SIDE
    &&& -EXACT_SIDE <= x
    &&& -EXACT_SIDE <= y
    &&& x + w <= EXACT_SIDE
    &&& y + h <= EXACT_SIDE
}

/// `imageproc::drawing::draw_hollow_rect_mut` on a picture in memory, with
/// `imageproc::rect::Rect`: the pixels on the border of the rectangle get the
/// colour, as far as they lie in the picture, and the others stay. The crate draws
/// with single precision, so that nothing is said where a side of the picture is
/// longer than single precision can count, but that the picture keeps its length; a
/// rectangle must not reach an edge that would be rounded to no coordinate.
#[verifier::external_body]
fn draw_hollow_rect(
    data: Vec<u8>,
    width: u32,
    height: u32,
    x: i32,
    y: i32,
    w: u32,
    h: u32,
    color: (u8, u8, u8),
) -> (r: Vec<u8>)
    requires
        data@.len() == 3 * (width as nat * height as nat),
        3 * width <= usize::MAX,
        0 < w <= i32::MAX,
        0 < h <= i32::MAX,
        x + w <= EDGE_END,
        y + h <= EDGE_END,
    ensures
        r@.len() == data@.len(),
        exact_frame(width, height, x, y, w, h) ==> forall|j: int|
            0 <= j < data@.len() ==> #[trigger] r@[j] == bordered(
                data@,
                width,
                x as int,
                y as int,
                w as int,
                h as int,
                color,
                j,
            ),
{
    let mut img = image::RgbImage::from_raw(width, height, data).unwrap();
    let rect = imageproc::rect::Rect::at(x, y).of_size(w, h);
    let color = image::Rgb([color.0, color.1, color.2]);
    imageproc::drawing::draw_hollow_rect_mut(&mut img, rect, color);
    img.into_raw()
}

/// Whether a byte belongs to a border of some thickness: nested rectangles, each
/// one pixel further in, as long as there is room.
pub open spec fn on_thick_border(width: u32, x: int, y: int, w: int, h: int, n: nat, j: int) -> bool
    decreases n,
{
    if n == 0 {
        false
    } else {
        let i = n - 1;
        on_thick_border(width, x, y, w, h, i as nat, j) || (w > 2 * i && h > 2 * i
            && on_border(
            column_of(j, width),
            row_of(j, width),
            x + i,
            y + i,
            w - 2 * i,
            h - 2 * i,
        ))
    }
}

/// Draws a border of some thickness.
pub fn draw_thick_hollow_rect(
    img: &mut RgbFrame,
    x: i32,
    y: i32,
    w: u32,
    h: u32,
    color: (u8, u8, u8),
    thickness: u32,
)
    requires
        old(img).wf(),
        w <= i32::MAX,
        h <= i32::MAX,
        x + w <= EDGE_END,
        y + h <= EDGE_END,
    ensures
        final(img).wf(),
        final(img).width == old(img).width,
        final(img).height == old(img).height,
        exact_frame(old(img).width, old(img).height, x, y, w, h) ==> forall|j: int|
            0 <= j < old(img).data@.len() ==> #[trigger] final(img).data@[j] == if on_thick_border(old(img).width, x as int, y as int, w as int, h as int, thickness as nat, j) {
                channel(color, j)
            } else {
                old(img).data@[j]
            },
{
    let ghost before = img.data@;
    let ghost width = img.width;
    let size: usize = img.data.len();
    if size == 0 {
        return;
    }
    proof {
        assert(width as nat * img.height as nat >= width) by (nonlinear_arith)
            requires
                3 * (width as nat * img.height as nat) > 0,
        ;
    }
    let mut i: u32 = 0;
    while i < thickness
        invariant
            i <= thickness,
            img.wf(),
            img.width == width,
            3 * width <= usize::MAX,
            img.width == old(img).width,
            img.height == old(img).height,
            before == old(img).data@,
            before.len() == img.data@.len(),
            w <= i32::MAX,
            h <= i32::MAX,
            x + w <= EDGE_END,
            y + h <= EDGE_END,
            exact_frame(width, img.height, x, y, w, h) ==> forall|j: int|
                0 <= j < before.len() ==> #[trigger] img.data@[j] == if on_thick_border(width, x as int, y as int, w as int, h as int, i as nat, j) {
                    channel(color, j)
                } else {
                    before[j]
                },
        decreases thickness - i,
    {
        if w as u64 > 2 * i as u64 && h as u64 > 2 * i as u64 {
            let mut data: Vec<u8> = Vec::new();
            std::mem::swap(&mut data, &mut img.data);
            let ghost mid = data@;
            let inner = draw_hollow_rect(
                data,
                img.width,
                img.height,
                x + i as i32,
                y + i as i32,
                w - 2 * i,
                h - 2 * i,
                color,
            );
            img.data = inner;
            proof {
                if exact_frame(width, img.height, x, y, w, h) {
                    assert forall|j: int| 0 <= j < before.len() implies #[trigger] img.data@[j]
                        == if on_thick_border(width, x as int, y as int, w as int, h as int, (i + 1) as nat, j) {
                        channel(color, j)
                    } else {
                        before[j]
                    } by {
                        assert(img.data@[j] == bordered(
                            mid,
                            width,
                            x + i,
                            y + i,
                            w - 2 * i,
                            h - 2 * i,
                            color,
                            j,
                        ));
                    }
                }
            }
        }
        i += 1;
    }
}

} // verus!
