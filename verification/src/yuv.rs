//! Planar YUV frames with a chroma sample for each block of two by two pixels.

use vstd::prelude::*;

use crate::binary64::nearest_up;
use crate::text::same_text;

verus! {

/// Whether samples use the full range of a byte or the range of broadcasting.
#[derive(Debug, Clone, Copy, PartialEq, Eq, Structural)]
pub enum ColorRange {
    Limited,
    Full,
}

/// The chroma sample that means no colour.
pub const NEUTRAL_CHROMA: u8 = 128;

impl ColorRange {
    /// The luma of black and of white.
    pub open spec fn endpoints(self) -> (nat, nat) {
        match self {
            ColorRange::Limited => (16, 235),
            ColorRange::Full => (0, 255),
        }
    }

    pub open spec fn format_name(self) -> Seq<char> {
        match self {
            ColorRange::Limited => "yuv420p"@,
            ColorRange::Full => "yuvj420p"@,
        }
    }

    /// The luma of a grey level: as far between black and white as the level is
    /// between 0 and 255, rounded to the nearest sample.
    pub open spec fn luma(self, level: u8) -> nat {
        let (black, white) = self.endpoints();
        nearest_up(black * 255 + level as nat * (white - black) as nat, 255)
    }

    pub fn from_full_range_flag(full_range: bool) -> (r: Self)
        ensures
            r == if full_range {
                ColorRange::Full
            } else {
                ColorRange::Limited
            },
    {
        if full_range {
            ColorRange::Full
        } else {
            ColorRange::Limited
        }
    }

    /// The name of the pixel format with this range.
    pub fn raw_pixel_format(self) -> (r: &'static str)
        ensures
            r@ == self.format_name(),
    {
        match self {
            ColorRange::Limited => "yuv420p",
            ColorRange::Full => "yuvj420p",
        }
    }

    fn luma_endpoints(self) -> (r: (u32, u32))
        ensures
            r.0 == self.endpoints().0,
            r.1 == self.endpoints().1,
    {
        match self {
            ColorRange::Limited => (16, 235),
            ColorRange::Full => (0, 255),
        }
    }

    /// The luma sample of a neutral grey.
    pub fn luma_for_grey(self, level: u8) -> (r: u8)
        ensures
            r == self.luma(level),
    {
        let (black, white) = self.luma_endpoints();
        proof {
            assert(level * (white - black) <= 255 * 255) by (nonlinear_arith)
                requires
                    0 <= level <= 255,
                    0 <= white - black <= 255,
            ;
            assert(level * (white - black) >= 0) by (nonlinear_arith)
                requires
                    0 <= level,
                    0 <= white - black,
            ;
            assert(black * 255 + level * (white - black) <= white * 255) by (nonlinear_arith)
                requires
                    0 <= level <= 255,
                    black <= white,
            ;
        }
        let n: u32 = black * 255 + level as u32 * (white - black);
        if 2 * (n % 255) < 255 {
            (n / 255) as u8
        } else {
            (n / 255 + 1) as u8
        }
    }
}

/// Black is black and white is white in both ranges, and a brighter level has a
/// luma that is not darker.
pub proof fn law_luma_keeps_order(range: ColorRange, a: u8, b: u8)
    requires
        a <= b,
    ensures
        range.luma(0) == range.endpoints().0,
        range.luma(255) == range.endpoints().1,
        range.endpoints().0 <= range.luma(a) <= range.luma(b) <= range.endpoints().1,
{
    let (black, white) = range.endpoints();
    let d = (white - black) as nat;
    assert(a as nat * d <= b as nat * d) by (nonlinear_arith)
        requires
            a <= b,
            d >= 0,
    ;
    assert(b as nat * d <= 255 * d) by (nonlinear_arith)
        requires
            b <= 255,
            d >= 0,
    ;
    assert(a as nat * d >= 0) by (nonlinear_arith)
        requires
            d >= 0,
            a >= 0,
    ;
    assert(0 * d == 0);
}

/// Whether the samples of a stream use the full range of a byte, given the name of the
/// range that the stream reports.
pub fn full_range_of(color_range: Option<&str>) -> (r: bool)
    ensures
        r == match color_range {
            Some(t) => t@ == "pc"@,
            None => false,
        },
{
    match color_range {
        Some(t) => same_text(t, "pc"),
        None => false,
    }
}

/// The bytes of a luma plane.
pub open spec fn luma_bytes(width: u32, height: u32) -> nat {
    width as nat * height as nat
}

/// The bytes of a chroma plane.
pub open spec fn chroma_bytes(width: u32, height: u32) -> nat {
    (width as nat / 2) * (height as nat / 2)
}

/// The bytes of a frame: a luma plane and two chroma planes.
pub open spec fn frame_bytes(width: u32, height: u32) -> nat {
    luma_bytes(width, height) + 2 * chroma_bytes(width, height)
}

/// A frame: the luma plane, and behind it the two chroma planes.
pub struct Yuv420Frame {
    data: Vec<u8>,
    width: u32,
    height: u32,
}

fn plane_bytes(width: u32, height: u32) -> (r: u64)
    ensures
        r == width * height,
{
    proof {
        assert(width * height <= u64::MAX) by (nonlinear_arith)
            requires
                0 <= width <= u32::MAX,
                0 <= height <= u32::MAX,
        ;
    }
    width as u64 * height as u64
}

impl Yuv420Frame {
    pub closed spec fn bytes(&self) -> Seq<u8> {
        self.data@
    }

    pub closed spec fn frame_width(&self) -> u32 {
        self.width
    }

    pub closed spec fn frame_height(&self) -> u32 {
        self.height
    }

    /// Whether both sides are even and above zero, and the planes fill the frame.
    pub open spec fn wf(&self) -> bool {
        &&& self.frame_width() > 0
        &&& self.frame_height() > 0
        &&& self.frame_width() % 2 == 0
        &&& self.frame_height() % 2 == 0
        &&& self.bytes().len() == frame_bytes(self.frame_width(), self.frame_height())
    }

    /// The luma plane.
    pub open spec fn y_plane(&self) -> Seq<u8> {
        self.bytes().take(luma_bytes(self.frame_width(), self.frame_height()) as int)
    }

    /// The first chroma plane.
    pub open spec fn u_plane(&self) -> Seq<u8> {
        let luma = luma_bytes(self.frame_width(), self.frame_height()) as int;
        let chroma = chroma_bytes(self.frame_width(), self.frame_height()) as int;
        self.bytes().subrange(luma, luma + chroma)
    }

    /// The second chroma plane.
    pub open spec fn v_plane(&self) -> Seq<u8> {
        let luma = luma_bytes(self.frame_width(), self.frame_height()) as int;
        let chroma = chroma_bytes(self.frame_width(), self.frame_height()) as int;
        self.bytes().skip(luma + chroma)
    }

    /// The bytes that a frame of this size takes.
    pub fn buffer_size(width: u32, height: u32) -> (r: usize)
        requires
            frame_bytes(width, height) <= usize::MAX,
        ensures
            r == frame_bytes(width, height),
    {
        proof {
            assert(luma_bytes(width, height) >= 0) by (nonlinear_arith);
            assert(chroma_bytes(width, height) >= 0) by (nonlinear_arith);
        }
        let luma: u64 = plane_bytes(width, height);
        let chroma: u64 = plane_bytes(width / 2, height / 2);
        luma as usize + 2 * chroma as usize
    }

    /// Takes a buffer as a frame; `None` where a side is odd or zero, or the buffer
    /// has another length than the frame.
    pub fn from_raw(width: u32, height: u32, data: Vec<u8>) -> (r: Option<Self>)
        ensures
            r.is_some() == (width > 0 && height > 0 && width % 2 == 0 && height % 2 == 0
                && data@.len() == frame_bytes(width, height)),
            r matches Some(f) ==> f.wf() && f.bytes() == data@ && f.frame_width() == width
                && f.frame_height() == height,
    {
        if width % 2 != 0 || height % 2 != 0 || width == 0 || height == 0 {
            return None;
        }
        let size: u128 = plane_bytes(width, height) as u128 + 2 * plane_bytes(
            width / 2,
            height / 2,
        ) as u128;
        if data.len() as u128 != size {
            return None;
        }
        Some(Yuv420Frame { data, width, height })
    }

    pub fn width(&self) -> (r: u32)
        ensures
            r == self.frame_width(),
    {
        self.width
    }

    pub fn height(&self) -> (r: u32)
        ensures
            r == self.frame_height(),
    {
        self.height
    }

    /// The size of the chroma planes.
    pub fn chroma_dimensions(&self) -> (r: (u32, u32))
        ensures
            r.0 == self.frame_width() / 2,
            r.1 == self.frame_height() / 2,
    {
        (self.width / 2, self.height / 2)
    }

    pub fn as_raw(&self) -> (r: &[u8])
        ensures
            r@ == self.bytes(),
    {
        self.data.as_slice()
    }

    pub fn into_raw(self) -> (r: Vec<u8>)
        ensures
            r@ == self.bytes(),
    {
        self.data
    }

    /// The luma plane, for writing.
    pub fn y_plane_mut(&mut self) -> (r: &mut [u8])
        requires
            old(self).wf(),
        ensures
            r@ == old(self).y_plane(),
            final(r)@.len() == r@.len() ==> {
                &&& final(self).wf()
                &&& final(self).frame_width() == old(self).frame_width()
                &&& final(self).frame_height() == old(self).frame_height()
                &&& final(self).bytes() == final(r)@ + old(self).u_plane() + old(self).v_plane()
            },
    {
        let total: usize = self.data.len();
        proof {
            assert(total == self.bytes().len());
            assert(chroma_bytes(self.width, self.height) >= 0) by (nonlinear_arith);
        }
        let luma: usize = plane_bytes(self.width, self.height) as usize;
        let (y, rest) = self.data.as_mut_slice().split_at_mut(luma);
        proof {
            assert(rest@ =~= old(self).u_plane() + old(self).v_plane());
            assert(y@ =~= old(self).y_plane());
            assert(final(y)@ + (old(self).u_plane() + old(self).v_plane()) =~= final(y)@ + old(self).u_plane()
                + old(self).v_plane());
        }
        y
    }

    /// Both chroma planes, for writing.
    pub fn chroma_planes_mut(&mut self) -> (r: (&mut [u8], &mut [u8]))
        requires
            old(self).wf(),
        ensures
            r.0@ == old(self).u_plane(),
            r.1@ == old(self).v_plane(),
            r.0@.len() == chroma_bytes(old(self).frame_width(), old(self).frame_height()),
            r.1@.len() == chroma_bytes(old(self).frame_width(), old(self).frame_height()),
            final(r.0)@.len() == r.0@.len() && final(r.1)@.len() == r.1@.len() ==> {
                &&& final(self).wf()
                &&& final(self).frame_width() == old(self).frame_width()
                &&& final(self).frame_height() == old(self).frame_height()
                &&& final(self).bytes() == old(self).y_plane() + final(r.0)@ + final(r.1)@
            },
    {
        let total: usize = self.data.len();
        proof {
            assert(total == self.bytes().len());
            assert(chroma_bytes(self.width, self.height) >= 0) by (nonlinear_arith);
            assert(luma_bytes(self.width, self.height) >= 0) by (nonlinear_arith);
        }
        let luma: usize = plane_bytes(self.width, self.height) as usize;
        let chroma: usize = plane_bytes(self.width / 2, self.height / 2) as usize;
        let (y, rest) = self.data.as_mut_slice().split_at_mut(luma);
        let (u, v) = rest.split_at_mut(chroma);
        proof {
            assert(u@ =~= old(self).u_plane());
            assert(v@ =~= old(self).v_plane());
            assert(y@ =~= old(self).y_plane());
            assert(final(y)@ + (final(u)@ + final(v)@) =~= final(y)@ + final(u)@ + final(v)@);
        }
        (u, v)
    }
}

/// The three planes make up the whole frame and do not overlap.
pub proof fn law_planes_partition_the_frame(frame: Yuv420Frame)
    requires
        frame.wf(),
    ensures
        frame.bytes() == frame.y_plane() + frame.u_plane() + frame.v_plane(),
        frame.y_plane().len() == luma_bytes(frame.frame_width(), frame.frame_height()),
        frame.u_plane().len() == chroma_bytes(frame.frame_width(), frame.frame_height()),
        frame.v_plane().len() == chroma_bytes(frame.frame_width(), frame.frame_height()),
{
    assert(chroma_bytes(frame.frame_width(), frame.frame_height()) >= 0) by (nonlinear_arith);
    assert(luma_bytes(frame.frame_width(), frame.frame_height()) >= 0) by (nonlinear_arith);
    assert(frame.bytes() =~= frame.y_plane() + frame.u_plane() + frame.v_plane());
}

/// A frame takes one and a half bytes for each pixel.
pub proof fn law_frame_size(width: u32, height: u32)
    requires
        width % 2 == 0,
        height % 2 == 0,
    ensures
        2 * frame_bytes(width, height) == 3 * (width as nat * height as nat),
{
    let w = width as int / 2;
    let h = height as int / 2;
    assert((2 * w) * (2 * h) == 4 * (w * h)) by (nonlinear_arith);
}

} // verus!
