//! What drawing changes in the planes of a frame.

use vstd::arithmetic::div_mod::{lemma_fundamental_div_mod, lemma_fundamental_div_mod_converse};
use vstd::prelude::*;

use crate::planar::{drawn_chroma, drawn_luma, grey_level};
use crate::yuv::ColorRange;

verus! {

/// The luma of a grey level is as far between black and white as the level between 0
/// and 255, to the nearest sample: between 16 and 235 in limited range, and the level
/// itself in full range.
pub proof fn law_luma_of_a_level(level: u8)
    ensures
        ({
            let luma = ColorRange::Limited.luma(level) as int;
            -255 <= 2 * (255 * (luma - 16) - level * 219) <= 255
        }),
        ColorRange::Full.luma(level) == level,
{
    let n = (16 * 255 + level as nat * 219) as int;
    lemma_fundamental_div_mod(n, 255);
    let m = (level as nat * 255) as int;
    lemma_fundamental_div_mod_converse(m, 255, level as int, 0);
}

/// The grey level of a luma sample is as far between 0 and 255 as the sample between
/// black and white, to the nearest level, and ends with them.
pub proof fn law_level_of_a_sample(y: u8)
    ensures
        16 <= y <= 235 ==> ({
            let level = grey_level(ColorRange::Limited, y) as int;
            -219 <= 2 * (219 * level - (y - 16) * 255) <= 219
        }),
        y <= 16 ==> grey_level(ColorRange::Limited, y) == 0,
        y >= 235 ==> grey_level(ColorRange::Limited, y) == 255,
        grey_level(ColorRange::Full, y) == y,
{
    if 16 < y < 235 {
        let n = ((y - 16) as nat * 255) as int;
        lemma_fundamental_div_mod(n, 219);
    }
    let m = (y as nat * 255) as int;
    lemma_fundamental_div_mod_converse(m, 255, y as int, 0);
}

/// A pixel that was left grey as it was keeps its sample; one that was drawn has the
/// luma of its own grey.
pub proof fn law_drawn_pixel(range: ColorRange, y: Seq<u8>, p: Seq<u8>, i: int, level: u8)
    requires
        0 <= i < y.len(),
        p.len() == 3 * y.len(),
        p[3 * i] == level,
        p[3 * i + 1] == level,
        p[3 * i + 2] == level,
    ensures
        drawn_luma(range, y, p).len() == y.len(),
        drawn_luma(range, y, p)[i] == if level == grey_level(range, y[i]) {
            y[i] as int
        } else {
            range.luma(level) as int
        },
{
    law_luma_of_a_level(level);
}

/// A coloured pixel is drawn by the mean of its three colours.
pub proof fn law_coloured_pixel(range: ColorRange, y: Seq<u8>, p: Seq<u8>, i: int, level: u8)
    requires
        0 <= i < y.len(),
        p.len() == 3 * y.len(),
        p[3 * i] != p[3 * i + 1] || p[3 * i + 1] != p[3 * i + 2],
        3 * level <= p[3 * i] + p[3 * i + 1] + p[3 * i + 2] < 3 * level + 3,
    ensures
        drawn_luma(range, y, p)[i] == range.luma(level),
{
    law_luma_of_a_level(level);
}

/// The pixel of a frame that stands so far right and down.
pub open spec fn pixel_at(width: nat, x: int, y: int) -> int {
    y * width + x
}

/// Whether a pixel is no longer the grey that its sample stands for.
pub open spec fn repainted(range: ColorRange, y: Seq<u8>, p: Seq<u8>, i: int) -> bool {
    !(p[3 * i] == grey_level(range, y[i]) && p[3 * i + 1] == grey_level(range, y[i]) && p[3 * i + 2]
        == grey_level(range, y[i]))
}

/// A chroma sample stands for a block of two by two pixels: it is neutral where one of
/// them was drawn, and stays as it was else.
pub proof fn law_chroma_of_a_block(
    range: ColorRange,
    y: Seq<u8>,
    p: Seq<u8>,
    width: nat,
    c: Seq<u8>,
    bx: int,
    by: int,
)
    requires
        width > 0,
        width % 2 == 0,
        0 <= bx < width / 2,
        0 <= by,
        by * (width / 2) + bx < c.len(),
    ensures
        ({
            let k = by * (width / 2) + bx;
            drawn_chroma(range, y, p, width, c)[k] == if repainted(
                range,
                y,
                p,
                pixel_at(width, 2 * bx, 2 * by),
            ) || repainted(range, y, p, pixel_at(width, 2 * bx + 1, 2 * by)) || repainted(
                range,
                y,
                p,
                pixel_at(width, 2 * bx, 2 * by + 1),
            ) || repainted(range, y, p, pixel_at(width, 2 * bx + 1, 2 * by + 1)) {
                128
            } else {
                c[k]
            }
        }),
{
    let half = width as int / 2;
    let k = by * (width / 2) + bx;
    assert(k == half * by + bx) by (nonlinear_arith)
        requires
            k == by * half + bx,
    ;
    lemma_fundamental_div_mod_converse(k, half, by, bx);
    assert((2 * by + 1) * width == 2 * by * width + width) by (nonlinear_arith);
    assert(k >= 0) by (nonlinear_arith)
        requires
            k == by * half + bx,
            by >= 0,
            half >= 0,
            bx >= 0,
    ;
}

} // verus!
