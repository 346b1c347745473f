//! What is drawn where on a picture.

use vstd::arithmetic::div_mod::lemma_fundamental_div_mod_converse;
use vstd::prelude::*;

use crate::binary64::{
    lemma_int_product, lemma_int_sum, lemma_nat_size, lemma_signed_int_difference, lemma_size_order,
    Real,
};
use crate::graph_laws::lemma_single_between;
use crate::overlay::{box_size, cache_hit, top_of_line, widest, OverlayCache, OverlayMetrics};
use crate::picture::{
    blended, clip_of, column_of, composed, covers, laid_over, on_thick_border, row_of, tiled,
    RgbaTile,
};
use crate::probe_laws::lemma_whole_rounds;
use crate::text::views;

verus! {

/// The byte of a colour of a pixel.
pub open spec fn byte_of(px: int, py: int, c: int, width: u32) -> int {
    3 * (py * width + px) + c
}

proof fn lemma_byte(px: int, py: int, c: int, width: u32)
    requires
        0 <= px < width,
        0 <= py,
        0 <= c < 3,
    ensures
        column_of(byte_of(px, py, c, width), width) == px,
        row_of(byte_of(px, py, c, width), width) == py,
        byte_of(px, py, c, width) % 3 == c,
{
    let p = py * width + px;
    let j = 3 * p + c;
    assert(j / 3 == p && j % 3 == c);
    let w = width as int;
    assert(p == w * py + px) by (nonlinear_arith)
        requires
            p == py * w + px,
    ;
    lemma_fundamental_div_mod_converse(p, w, py, px);
}

/// Whether a pixel lies in a rectangle.
pub open spec fn in_rect(px: int, py: int, x: int, y: int, w: int, h: int) -> bool {
    x <= px < x + w && y <= py < y + h
}

/// A rectangle that is cut off at the sides of a picture keeps those of its pixels that
/// lie in the picture, and no others.
pub proof fn law_cut_rectangle(
    x: i32,
    y: i32,
    w: u32,
    h: u32,
    width: u32,
    height: u32,
    px: int,
    py: int,
    c: int,
)
    requires
        w <= i32::MAX,
        h <= i32::MAX,
        width <= i32::MAX,
        height <= i32::MAX,
        0 <= px < width,
        0 <= py < height,
        0 <= c < 3,
    ensures
        covers(clip_of(x, y, w, h, width, height), byte_of(px, py, c, width), width) == in_rect(
            px,
            py,
            x as int,
            y as int,
            w as int,
            h as int,
        ),
{
    lemma_byte(px, py, c, width);
}

/// A colour that is laid over a rectangle changes the pixels in the rectangle, each
/// colour by its own, and no others.
pub proof fn law_colour_over_a_rectangle(
    before: Seq<u8>,
    x: i32,
    y: i32,
    w: u32,
    h: u32,
    width: u32,
    height: u32,
    color: (u8, u8, u8),
    alpha: Real,
    px: int,
    py: int,
)
    requires
        w <= i32::MAX,
        h <= i32::MAX,
        width <= i32::MAX,
        height <= i32::MAX,
        0 <= px < width,
        0 <= py < height,
    ensures
        ({
            let clip = clip_of(x, y, w, h, width, height);
            let inside = in_rect(px, py, x as int, y as int, w as int, h as int);
            let r = byte_of(px, py, 0, width);
            let g = byte_of(px, py, 1, width);
            let b = byte_of(px, py, 2, width);
            &&& laid_over(before, clip, width, color, alpha, r) == if inside {
                blended(alpha, color.0, before[r])
            } else {
                before[r] as int
            }
            &&& laid_over(before, clip, width, color, alpha, g) == if inside {
                blended(alpha, color.1, before[g])
            } else {
                before[g] as int
            }
            &&& laid_over(before, clip, width, color, alpha, b) == if inside {
                blended(alpha, color.2, before[b])
            } else {
                before[b] as int
            }
        }),
{
    law_cut_rectangle(x, y, w, h, width, height, px, py, 0);
    law_cut_rectangle(x, y, w, h, width, height, px, py, 1);
    law_cut_rectangle(x, y, w, h, width, height, px, py, 2);
    lemma_byte(px, py, 0, width);
    lemma_byte(px, py, 1, width);
    lemma_byte(px, py, 2, width);
}

/// A tile that is laid over a picture shows each of its pixels as far right and down as
/// it lies in the tile, by its own opacity, and leaves the other pixels as they are.
pub proof fn law_tile_over_a_picture(
    before: Seq<u8>,
    tile: RgbaTile,
    x: i32,
    y: i32,
    width: u32,
    height: u32,
    px: int,
    py: int,
    c: int,
)
    requires
        tile.wf(),
        width <= i32::MAX,
        height <= i32::MAX,
        0 <= px < width,
        0 <= py < height,
        0 <= c < 3,
    ensures
        ({
            let clip = clip_of(x, y, tile.width, tile.height, width, height);
            let j = byte_of(px, py, c, width);
            let t = 4 * ((py - y) * tile.width + (px - x));
            tiled(before, tile, clip, x, y, width, j) == if in_rect(
                px,
                py,
                x as int,
                y as int,
                tile.width as int,
                tile.height as int,
            ) {
                composed(tile.data@[t + 3], tile.data@[t + c], before[j]) as int
            } else {
                before[j] as int
            }
        }),
{
    law_cut_rectangle(x, y, tile.width, tile.height, width, height, px, py, c);
    lemma_byte(px, py, c, width);
}

/// A colour over another one is the mix of both by the opacity, to the nearest level.
pub proof fn law_mix_by_opacity(opacity: u8, color: u8, under: u8)
    ensures
        ({
            let mix = opacity as int * color as int + (255 - opacity) * under as int;
            -255 <= 2 * (255 * composed(opacity, color, under) - mix) <= 255
        }),
        color <= under ==> color <= composed(opacity, color, under) <= under,
        under <= color ==> under <= composed(opacity, color, under) <= color,
{
    let o = opacity as int;
    let c = color as int;
    let u = under as int;
    let a = o * c;
    let b = (255 - o) * u;
    assert(a >= 0 && b >= 0) by (nonlinear_arith)
        requires
            a == o * c,
            b == (255 - o) * u,
            0 <= o <= 255,
            c >= 0,
            u >= 0,
    ;
    let mix = a + b;
    if c <= u {
        assert(255 * c <= mix <= 255 * u) by (nonlinear_arith)
            requires
                mix == o * c + (255 - o) * u,
                0 <= o <= 255,
                c <= u,
        ;
    }
    if u <= c {
        assert(255 * u <= mix <= 255 * c) by (nonlinear_arith)
            requires
                mix == o * c + (255 - o) * u,
                0 <= o <= 255,
                u <= c,
        ;
    }
}

/// A small integer is exact in single precision.
pub proof fn lemma_single_int(x: Real, k: nat)
    requires
        x == Real::of_int(k as int),
        k < 0x100_0000,
    ensures
        x.single() == x,
{
    lemma_nat_size(k);
    lemma_single_between(x, k, k);
    let s = x.single();
    lemma_size_order(s, x);
    assert(s.magnitude() == x.magnitude());
    assert(!s.negative());
    assert(s.bits == x.bits);
}

/// A colour without opacity leaves what is under it, and one with all of it covers that.
pub proof fn law_ends_of_a_blend(color: u8, under: u8)
    ensures
        blended(Real::of_int(0), color, under) == under,
        blended(Real::of_int(1), color, under) == color,
{
    let c = color as nat;
    let u = under as nat;
    lemma_int_product(0, c);
    lemma_int_product(1, c);
    lemma_int_product(0, u);
    lemma_int_product(1, u);
    assert(0 * c == 0 && 1 * c == c && 0 * u == 0 && 1 * u == u);
    lemma_signed_int_difference(1, 0);
    lemma_signed_int_difference(1, 1);
    lemma_single_int(Real::of_int(0), 0);
    lemma_single_int(Real::of_int(1), 1);
    lemma_single_int(Real::of_int(c as int), c);
    lemma_single_int(Real::of_int(u as int), u);
    lemma_int_sum(0, u);
    lemma_int_sum(c, 0);
    lemma_whole_rounds(c as int);
    lemma_whole_rounds(u as int);
}

/// A border of some thickness is all that lies in the rectangle and less than that far
/// from one of its sides.
pub proof fn law_thick_border(
    width: u32,
    x: int,
    y: int,
    w: int,
    h: int,
    n: nat,
    px: int,
    py: int,
    c: int,
)
    requires
        0 <= px < width,
        0 <= py,
        0 <= c < 3,
    ensures
        on_thick_border(width, x, y, w, h, n, byte_of(px, py, c, width)) == (in_rect(
            px,
            py,
            x,
            y,
            w,
            h,
        ) && (px - x < n || x + w - 1 - px < n || py - y < n || y + h - 1 - py < n)),
    decreases n,
{
    lemma_byte(px, py, c, width);
    if n > 0 {
        law_thick_border(width, x, y, w, h, (n - 1) as nat, px, py, c);
    }
}

/// The info box holds every line with the padding on both sides.
pub proof fn law_box_holds_its_lines(widths: Seq<u32>, metrics: OverlayMetrics, i: int)
    requires
        0 <= i < widths.len(),
        metrics.padding >= 0,
        metrics.line_height >= 1,
    ensures
        widths[i] + 2 * metrics.padding <= box_size(widths, metrics).0,
        box_size(widths, metrics).1 == metrics.line_height * widths.len() + metrics.padding,
        exists|k: int|
            0 <= k < widths.len() && (box_size(widths, metrics).0 == (#[trigger] widths[k]) + 2
                * metrics.padding || box_size(widths, metrics).0 == 1),
{
    let n = widths.len();
    lemma_widest(widths, n, i);
    let a = metrics.line_height as int;
    assert(a * n >= 1) by (nonlinear_arith)
        requires
            a >= 1,
            n >= 1,
    ;
    let k = lemma_widest_is_one(widths, n);
    assert(widest(widths, n) == widths[k]);
}

proof fn lemma_widest(widths: Seq<u32>, n: nat, i: int)
    requires
        0 <= i < n <= widths.len(),
    ensures
        widths[i] <= widest(widths, n),
    decreases n,
{
    if i < n - 1 {
        lemma_widest(widths, (n - 1) as nat, i);
    }
}

proof fn lemma_widest_is_one(widths: Seq<u32>, n: nat) -> (k: int)
    requires
        0 < n <= widths.len(),
    ensures
        0 <= k < n,
        widest(widths, n) == widths[k],
    decreases n,
{
    if n == 1 {
        assert(widest(widths, 0) == 0);
        0
    } else {
        let k = lemma_widest_is_one(widths, (n - 1) as nat);
        if widths[n - 1] > widths[k] {
            n - 1
        } else {
            k
        }
    }
}

/// The lines of the info box stand below each other, inside of the box, with half of
/// the padding above the first one.
pub proof fn law_lines_of_the_box(widths: Seq<u32>, metrics: OverlayMetrics, i: nat)
    requires
        i < widths.len(),
        metrics.padding >= 0,
        metrics.line_height >= 1,
    ensures
        2 * top_of_line(metrics, 0) <= metrics.padding <= 2 * top_of_line(metrics, 0) + 1,
        top_of_line(metrics, i + 1) == top_of_line(metrics, i) + metrics.line_height,
        top_of_line(metrics, i) >= 0,
        top_of_line(metrics, i) + metrics.line_height <= box_size(widths, metrics).1,
{
    let h = metrics.line_height as int;
    let n = widths.len() as int;
    let k = i as int;
    assert(h * (k + 1) == h * k + h) by (nonlinear_arith);
    assert(h * k >= 0 && h * (k + 1) <= h * n) by (nonlinear_arith)
        requires
            h >= 1,
            0 <= k,
            k + 1 <= n,
    ;
    assert(h * 0 == 0);
}

/// A box that was drawn for other lines is not used again.
pub proof fn law_other_lines_are_drawn(
    cache: OverlayCache,
    width: u32,
    height: u32,
    lines: Seq<Seq<char>>,
)
    requires
        cache.tile matches Some(cached) ==> views(cached.lines@) != lines,
    ensures
        !cache_hit(cache, width, height, lines),
{
}

} // verus!
