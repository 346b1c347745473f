//! Drawing on planar frames: a frame is shown as a grey picture, and what was drawn
//! on that picture is put back without colour.

use vstd::arithmetic::div_mod::{lemma_fundamental_div_mod, lemma_multiply_divide_lt};
use vstd::prelude::*;

use crate::binary64::nearest_up;
use crate::picture::RgbFrame;
use crate::yuv::{
    chroma_bytes, law_planes_partition_the_frame, luma_bytes, ColorRange, Yuv420Frame,
    NEUTRAL_CHROMA,
};

verus! {

/// The grey level of a luma sample: as far between 0 and 255 as the sample is between
/// black and white.
pub open spec fn grey_level(range: ColorRange, y: u8) -> nat {
    let (black, white) = range.endpoints();
    if y <= black {
        0
    } else if y >= white {
        255
    } else {
        nearest_up((y - black) as nat * 255, (white - black) as nat)
    }
}

/// The grey level of a luma sample.
pub fn grey_for_luma(range: ColorRange, y: u8) -> (r: u8)
    ensures
        r == grey_level(range, y),
{
    let black: u32 = range.luma_for_grey(0) as u32;
    let white: u32 = range.luma_for_grey(255) as u32;
    proof {
        assert(black == range.endpoints().0 && white == range.endpoints().1);
    }
    let level: u32 = y as u32;
    if level <= black {
        0
    } else if level >= white {
        255
    } else {
        let n: u32 = (level - black) * 255;
        let d: u32 = white - black;
        proof {
            assert(n / d < 255) by (nonlinear_arith)
                requires
                    n < 255 * d,
                    d > 0,
                    n >= 0,
            ;
        }
        if 2 * (n % d) < d {
            (n / d) as u8
        } else {
            (n / d + 1) as u8
        }
    }
}

/// Whether a pixel of the picture differs from the luma that it was shown for.
pub open spec fn drawn(range: ColorRange, y: Seq<u8>, p: Seq<u8>, i: int) -> bool {
    let level = grey_level(range, y[i]);
    p[3 * i] != level || p[3 * i + 1] != level || p[3 * i + 2] != level
}

/// The mean of the three colours of a pixel.
pub open spec fn mean(p: Seq<u8>, i: int) -> u8 {
    ((p[3 * i] + p[3 * i + 1] + p[3 * i + 2]) / 3) as u8
}

/// The luma plane with what was drawn.
pub open spec fn drawn_luma(range: ColorRange, y: Seq<u8>, p: Seq<u8>) -> Seq<u8> {
    Seq::new(
        y.len(),
        |i: int|
            if drawn(range, y, p, i) {
                range.luma(mean(p, i)) as u8
            } else {
                y[i]
            },
    )
}

/// The first pixel of the four that share a chroma sample.
pub open spec fn block_start(width: nat, k: int) -> int {
    let half = width as int / 2;
    2 * (k / half) * width + 2 * (k % half)
}

/// Whether one of the four pixels that share a chroma sample was drawn.
pub open spec fn block_drawn(
    range: ColorRange,
    y: Seq<u8>,
    p: Seq<u8>,
    width: nat,
    k: int,
) -> bool {
    let at = block_start(width, k);
    drawn(range, y, p, at) || drawn(range, y, p, at + 1) || drawn(range, y, p, at + width) || drawn(
        range,
        y,
        p,
        at + width + 1,
    )
}

/// A chroma plane without colour where something was drawn.
pub open spec fn drawn_chroma(
    range: ColorRange,
    y: Seq<u8>,
    p: Seq<u8>,
    width: nat,
    c: Seq<u8>,
) -> Seq<u8> {
    Seq::new(
        c.len(),
        |k: int|
            if block_drawn(range, y, p, width, k) {
                NEUTRAL_CHROMA
            } else {
                c[k]
            },
    )
}

/// The luma of a frame as a grey picture.
pub fn grey_picture(frame: &Yuv420Frame, range: ColorRange) -> (r: RgbFrame)
    requires
        frame.wf(),
        3 * luma_bytes(frame.frame_width(), frame.frame_height()) <= usize::MAX,
    ensures
        r.wf(),
        r.width == frame.frame_width(),
        r.height == frame.frame_height(),
        forall|j: int|
            0 <= j < r.data@.len() ==> #[trigger] r.data@[j] == grey_level(
                range,
                frame.y_plane()[j / 3],
            ),
{
    proof {
        law_planes_partition_the_frame(*frame);
    }
    let raw = frame.as_raw();
    let count: usize = luma_len(frame);
    let mut data: Vec<u8> = Vec::new();
    let mut i: usize = 0;
    while i < count
        invariant
            i <= count <= raw.len(),
            3 * count <= usize::MAX,
            raw@ == frame.bytes(),
            frame.y_plane() == raw@.take(count as int),
            data@.len() == 3 * i,
            forall|j: int|
                0 <= j < data@.len() ==> #[trigger] data@[j] == grey_level(
                    range,
                    frame.y_plane()[j / 3],
                ),
        decreases count - i,
    {
        let level: u8 = grey_for_luma(range, raw[i]);
        proof {
            assert(frame.y_plane()[i as int] == raw@[i as int]);
        }
        data.push(level);
        data.push(level);
        data.push(level);
        i += 1;
    }
    RgbFrame { width: frame.width(), height: frame.height(), data }
}

fn luma_len(frame: &Yuv420Frame) -> (r: usize)
    requires
        frame.wf(),
    ensures
        r == luma_bytes(frame.frame_width(), frame.frame_height()),
        r <= frame.bytes().len(),
{
    let total: usize = frame.as_raw().len();
    let (w, h) = (frame.width(), frame.height());
    proof {
        assert(chroma_bytes(w, h) >= 0) by (nonlinear_arith);
        assert(w * h <= u64::MAX) by (nonlinear_arith)
            requires
                0 <= w <= u32::MAX,
                0 <= h <= u32::MAX,
        ;
    }
    (w as u64 * h as u64) as usize
}

fn chroma_len(frame: &Yuv420Frame) -> (r: usize)
    requires
        frame.wf(),
    ensures
        r == chroma_bytes(frame.frame_width(), frame.frame_height()),
{
    let total: usize = frame.as_raw().len();
    let (w, h) = frame.chroma_dimensions();
    proof {
        assert(luma_bytes(frame.frame_width(), frame.frame_height()) >= 0) by (nonlinear_arith);
        assert(w * h >= 0) by (nonlinear_arith);
        assert(w * h <= u64::MAX) by (nonlinear_arith)
            requires
                0 <= w <= u32::MAX,
                0 <= h <= u32::MAX,
        ;
        assert(chroma_bytes(frame.frame_width(), frame.frame_height()) == w * h);
        assert(w * h <= total);
    }
    (w as u64 * h as u64) as usize
}

fn pixel_drawn(range: ColorRange, y: u8, r: u8, g: u8, b: u8) -> (d: bool)
    ensures
        d == (r != grey_level(range, y) || g != grey_level(range, y) || b != grey_level(range, y)),
{
    let level: u8 = grey_for_luma(range, y);
    r != level || g != level || b != level
}

proof fn lemma_block_inside(width: nat, height: nat, k: int)
    requires
        width % 2 == 0,
        height % 2 == 0,
        0 <= k < (width / 2) * (height / 2),
    ensures
        0 <= block_start(width, k),
        block_start(width, k) + width + 1 < width * height,
        width > 0,
        0 <= k / (width as int / 2) < height / 2,
        0 <= k % (width as int / 2) < width / 2,
        2 * (k / (width as int / 2)) * width <= width * height,
{
    let w = width as int / 2;
    let h = height as int / 2;
    assert(w > 0 && h > 0) by (nonlinear_arith)
        requires
            0 <= k < w * h,
            w >= 0,
            h >= 0,
    ;
    lemma_fundamental_div_mod(k, w);
    lemma_multiply_divide_lt(k, w, h);
    let cy = k / w;
    let cx = k % w;
    assert(0 <= cy) by (nonlinear_arith)
        requires
            k >= 0,
            w > 0,
            cy == k / w,
    ;
    assert(2 * cy * width + 2 * width <= width * height) by (nonlinear_arith)
        requires
            cy + 1 <= h,
            height == 2 * h,
            width >= 0,
    ;
    assert(2 * cy * width >= 0) by (nonlinear_arith)
        requires
            cy >= 0,
            width >= 0,
    ;
}

/// A chroma plane without colour where something was drawn, behind other bytes.
fn push_chroma(
    out: &mut Vec<u8>,
    frame: &Yuv420Frame,
    marks: &Vec<bool>,
    from: usize,
    Ghost(range): Ghost<ColorRange>,
    Ghost(p): Ghost<Seq<u8>>,
)
    requires
        frame.wf(),
        from + chroma_bytes(frame.frame_width(), frame.frame_height()) <= frame.bytes().len(),
        marks@.len() == luma_bytes(frame.frame_width(), frame.frame_height()),
        forall|i: int|
            0 <= i < marks@.len() ==> #[trigger] marks@[i] == drawn(range, frame.y_plane(), p, i),
    ensures
        final(out)@ == old(out)@ + drawn_chroma(
            range,
            frame.y_plane(),
            p,
            frame.frame_width() as nat,
            frame.bytes().subrange(
                from as int,
                from + chroma_bytes(frame.frame_width(), frame.frame_height()),
            ),
        ),
{
    let raw = frame.as_raw();
    let count: usize = chroma_len(frame);
    let width: usize = frame.width() as usize;
    let half: usize = width / 2;
    let ghost c = frame.bytes().subrange(from as int, from + count);
    let ghost plane = drawn_chroma(range, frame.y_plane(), p, width as nat, c);
    let ghost before = out@;
    let mut k: usize = 0;
    proof {
        assert(out@ =~= before + plane.take(0));
    }
    while k < count
        invariant
            k <= count,
            frame.wf(),
            raw@ == frame.bytes(),
            width == frame.frame_width(),
            half == width / 2,
            count == chroma_bytes(frame.frame_width(), frame.frame_height()),
            from + count <= raw.len(),
            c == frame.bytes().subrange(from as int, from + count),
            plane == drawn_chroma(range, frame.y_plane(), p, width as nat, c),
            marks@.len() == luma_bytes(frame.frame_width(), frame.frame_height()),
            forall|i: int|
                0 <= i < marks@.len() ==> #[trigger] marks@[i] == drawn(
                    range,
                    frame.y_plane(),
                    p,
                    i,
                ),
            out@ == before + plane.take(k as int),
        decreases count - k,
    {
        proof {
            lemma_block_inside(
                frame.frame_width() as nat,
                frame.frame_height() as nat,
                k as int,
            );
        }
        let row: usize = 2 * (k / half);
        let at: usize = row * width + 2 * (k % half);
        proof {
            assert(at == block_start(width as nat, k as int));
        }
        let mark: bool = marks[at] || marks[at + 1] || marks[at + width] || marks[at + width + 1];
        if mark {
            out.push(NEUTRAL_CHROMA);
        } else {
            out.push(raw[from + k]);
        }
        proof {
            assert(c[k as int] == raw@[from + k]);
            assert(out@.last() == plane[k as int]);
            assert(out@ =~= before + plane.take(k + 1));
        }
        k += 1;
    }
    proof {
        assert(plane.take(count as int) =~= plane);
    }
}

/// Puts what was drawn on the grey picture of a frame back into the frame: its luma,
/// and no colour where something was drawn.
pub fn put_drawing(frame: &mut Yuv420Frame, range: ColorRange, picture: &RgbFrame)
    requires
        old(frame).wf(),
        picture.wf(),
        picture.width == old(frame).frame_width(),
        picture.height == old(frame).frame_height(),
    ensures
        final(frame).wf(),
        final(frame).frame_width() == old(frame).frame_width(),
        final(frame).frame_height() == old(frame).frame_height(),
        final(frame).y_plane() == drawn_luma(range, old(frame).y_plane(), picture.data@),
        final(frame).u_plane() == drawn_chroma(
            range,
            old(frame).y_plane(),
            picture.data@,
            old(frame).frame_width() as nat,
            old(frame).u_plane(),
        ),
        final(frame).v_plane() == drawn_chroma(
            range,
            old(frame).y_plane(),
            picture.data@,
            old(frame).frame_width() as nat,
            old(frame).v_plane(),
        ),
{
    let ghost first = *frame;
    proof {
        law_planes_partition_the_frame(first);
    }
    let count: usize = luma_len(frame);
    let ghost y = frame.y_plane();
    let ghost p = picture.data@;
    let ghost luma = drawn_luma(range, y, p);
    let size: usize = picture.data.len();
    let total: usize = frame.as_raw().len();
    let mut out: Vec<u8> = Vec::new();
    let mut marks: Vec<bool> = Vec::new();
    let mut i: usize = 0;
    while i < count
        invariant
            i <= count,
            *frame == first,
            count <= first.bytes().len(),
            y == first.bytes().take(count as int),
            p == picture.data@,
            p.len() == 3 * count,
            p.len() == size,
            luma == drawn_luma(range, y, p),
            out@ == luma.take(i as int),
            marks@.len() == i,
            forall|j: int| 0 <= j < i ==> #[trigger] marks@[j] == drawn(range, y, p, j),
        decreases count - i,
    {
        let raw = frame.as_raw();
        let level: u8 = raw[i];
        let r: u8 = picture.data[3 * i];
        let g: u8 = picture.data[3 * i + 1];
        let b: u8 = picture.data[3 * i + 2];
        let mark: bool = pixel_drawn(range, level, r, g, b);
        proof {
            assert(y[i as int] == level);
        }
        if mark {
            let sum: u32 = r as u32 + g as u32 + b as u32;
            out.push(range.luma_for_grey((sum / 3) as u8));
        } else {
            out.push(level);
        }
        marks.push(mark);
        proof {
            assert(out@.last() == luma[i as int]);
            assert(out@ =~= luma.take(i + 1));
        }
        i += 1;
    }
    proof {
        assert(luma.take(count as int) =~= luma);
    }
    let width: u32 = frame.width();
    let height: u32 = frame.height();
    let chroma: usize = chroma_len(frame);
    push_chroma(&mut out, frame, &marks, count, Ghost(range), Ghost(p));
    push_chroma(&mut out, frame, &marks, count + chroma, Ghost(range), Ghost(p));
    proof {
        let u = drawn_chroma(range, y, p, width as nat, first.u_plane());
        let v = drawn_chroma(range, y, p, width as nat, first.v_plane());
        assert(first.bytes().subrange(count + chroma, count + 2 * chroma) =~= first.v_plane());
        assert(out@ == luma + u + v);
        assert(out@.take(count as int) =~= luma);
        assert(out@.subrange(count as int, count + chroma) =~= u);
        assert(out@.skip(count + chroma) =~= v);
    }
    if let Some(f) = Yuv420Frame::from_raw(width, height, out) {
        *frame = f;
    }
}

/// A frame on whose grey picture nothing was drawn stays as it is.
pub proof fn law_undrawn_frame_stays(range: ColorRange, frame: Yuv420Frame, p: Seq<u8>)
    requires
        frame.wf(),
        p.len() == 3 * luma_bytes(frame.frame_width(), frame.frame_height()),
        forall|j: int|
            0 <= j < p.len() ==> #[trigger] p[j] == grey_level(range, frame.y_plane()[j / 3]),
    ensures
        drawn_luma(range, frame.y_plane(), p) == frame.y_plane(),
        drawn_chroma(range, frame.y_plane(), p, frame.frame_width() as nat, frame.u_plane())
            == frame.u_plane(),
        drawn_chroma(range, frame.y_plane(), p, frame.frame_width() as nat, frame.v_plane())
            == frame.v_plane(),
{
    law_planes_partition_the_frame(frame);
    let y = frame.y_plane();
    let width = frame.frame_width() as nat;
    assert forall|i: int| 0 <= i < y.len() implies !drawn(range, y, p, i) by {
        assert((3 * i) / 3 == i && (3 * i + 1) / 3 == i && (3 * i + 2) / 3 == i);
    }
    assert forall|k: int| 0 <= k < frame.u_plane().len() implies !block_drawn(
        range,
        y,
        p,
        width,
        k,
    ) by {
        lemma_block_inside(width, frame.frame_height() as nat, k);
    }
    assert(drawn_luma(range, y, p) =~= y);
    assert(drawn_chroma(range, y, p, width, frame.u_plane()) =~= frame.u_plane());
    assert(drawn_chroma(range, y, p, width, frame.v_plane()) =~= frame.v_plane());
}

} // verus!
