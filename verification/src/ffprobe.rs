//! What is known of a video.

use vstd::prelude::*;

use crate::binary64::{clip_u64, lemma_small_int, unit, Real};
use crate::error::{prefixed, CoreError, ErrorView};
use crate::moment::{creation_of, parse_creation_time, UtcTime};
use crate::number_text::number_of;
use crate::numeral::{parse_unsigned, unsigned_of};
use crate::text::{
    chars_of, find, find_char, part, replace_char, replace_chars, same_text, split, split_chars,
    texts, trim, trim_chars,
};
use crate::text_map::TextMap;
use crate::yuv::full_range_of;

verus! {

/// Data beside a stream.
#[derive(Debug)]
pub struct SideData {
    pub side_data_type: Option<String>,
    pub rotation: Option<Real>,
}

/// A stream of a video file.
#[derive(Debug)]
pub struct StreamInfo {
    pub codec_type: Option<String>,
    pub width: Option<u32>,
    pub height: Option<u32>,
    pub r_frame_rate: Option<String>,
    pub avg_frame_rate: Option<String>,
    pub nb_frames: Option<String>,
    pub duration: Option<String>,
    /// The name of the range that the samples use.
    pub color_range: Option<String>,
    pub side_data_list: Vec<SideData>,
    pub tags: TextMap,
}

/// The container of a video file.
#[derive(Debug)]
pub struct FormatInfo {
    pub duration: Option<String>,
    pub tags: TextMap,
}

/// What a probe reports of a video file.
#[derive(Debug)]
pub struct ProbeReport {
    pub streams: Vec<StreamInfo>,
    pub format: Option<FormatInfo>,
}

/// What is known of a video.
#[derive(Debug, Clone, Copy, PartialEq, Eq, Structural)]
pub struct VideoInfo {
    /// The size of the frames as they are decoded, after rotation.
    pub width: u32,
    pub height: u32,
    /// The rotation in degrees, 0 where there is none.
    pub rotation_deg: i32,
    /// The frame rate: the average one rather than the largest one.
    pub fps: Real,
    /// A guess at the count of frames, for showing progress only.
    pub estimated_frames: Option<u64>,
    pub creation_time: Option<UtcTime>,
    /// The time of day at the start, in seconds since midnight.
    pub timecode_sec: Option<Real>,
    pub duration_sec: Option<Real>,
    pub has_audio: bool,
}

impl VideoInfo {
    pub open spec fn valid(self) -> bool {
        self.creation_time matches Some(t) ==> t.valid()
    }
}

/// The rate that a ratio of two numbers stands for.
pub open spec fn rate_of(value: Seq<char>) -> Option<Real> {
    let at = find(value, '/') as int;
    if at >= value.len() {
        None
    } else {
        match (number_of(value.take(at)), number_of(value.skip(at + 1))) {
            (Some(n), Some(d)) => if d.equal(Real::of_int(0)) {
                None
            } else {
                Some(n.quotient(d))
            },
            _ => None,
        }
    }
}

pub fn parse_frame_rate(value: &str) -> (r: Option<Real>)
    ensures
        r == rate_of(value@),
{
    let v = chars_of(value);
    assert(v@.skip(0) =~= v@);
    let at: usize = find_char(v.as_slice(), 0, '/');
    if at == v.len() {
        return None;
    }
    let left = part(v.as_slice(), 0, at);
    let right = part(v.as_slice(), at + 1, v.len());
    proof {
        assert(left@ =~= v@.take(at as int));
        assert(right@ =~= v@.skip(at + 1));
    }
    match (Real::parse(left.as_slice()), Real::parse(right.as_slice())) {
        (Some(n), Some(d)) => if d.eq_value(Real::from_i64(0)) {
            None
        } else {
            Some(n.over(d))
        },
        _ => None,
    }
}

/// The frame rate used for the frames of a timecode.
pub open spec fn timecode_rate(nominal_fps: Real) -> Real {
    if nominal_fps.finite() && Real::of_int(1).at_most(nominal_fps) {
        nominal_fps
    } else {
        Real::of_int(30)
    }
}

/// The seconds since midnight that hours, minutes, seconds and frames stand for,
/// where they are a time of day other than the first frame of it.
pub open spec fn timecode_value(h: nat, m: nat, s: nat, f: nat, nominal_fps: Real) -> Option<Real> {
    if h > 23 || m > 59 || s > 59 || (h == 0 && m == 0 && s == 0 && f == 0) {
        None
    } else {
        Some(
            Real::of_int((h * 3600 + m * 60 + s) as int).sum(
                Real::of_int(f as int).quotient(timecode_rate(nominal_fps)),
            ),
        )
    }
}

/// The seconds since midnight that a timecode stands for.
pub open spec fn timecode_of(text: Seq<char>, nominal_fps: Real) -> Option<Real> {
    let parts = split(replace_char(trim(text), ';', ":"@), ':');
    let max = u32::MAX as nat;
    if parts.len() != 4 {
        None
    } else {
        match (
            unsigned_of(parts[0], max),
            unsigned_of(parts[1], max),
            unsigned_of(parts[2], max),
            unsigned_of(parts[3], max),
        ) {
            (Some(h), Some(m), Some(s), Some(f)) => timecode_value(h, m, s, f, nominal_fps),
            _ => None,
        }
    }
}

/// Reads a start timecode, `HH:MM:SS:FF` or `HH:MM:SS;FF`, as seconds since
/// midnight. All zeros are what a camera writes whose clock was never set.
pub fn parse_timecode_seconds(text: &str, nominal_fps: Real) -> (r: Option<Real>)
    ensures
        r == timecode_of(text@, nominal_fps),
{
    let v = chars_of(text);
    let t = trim_chars(v.as_slice());
    let colon = chars_of(":");
    let plain = replace_chars(t.as_slice(), ';', colon.as_slice());
    let parts = split_chars(plain.as_slice(), ':');
    assert(texts(parts@).len() == parts.len());
    if parts.len() != 4 {
        return None;
    }
    proof {
        assert(texts(parts@)[0] == parts@[0]@);
        assert(texts(parts@)[1] == parts@[1]@);
        assert(texts(parts@)[2] == parts@[2]@);
        assert(texts(parts@)[3] == parts@[3]@);
    }
    let max: u64 = u32::MAX as u64;
    match (
        parse_unsigned(parts[0].as_slice(), max),
        parse_unsigned(parts[1].as_slice(), max),
        parse_unsigned(parts[2].as_slice(), max),
        parse_unsigned(parts[3].as_slice(), max),
    ) {
        (Some(h), Some(m), Some(s), Some(f)) => {
            if h > 23 || m > 59 || s > 59 {
                return None;
            }
            if h == 0 && m == 0 && s == 0 && f == 0 {
                return None;
            }
            let fps = if nominal_fps.is_finite() && Real::from_i64(1).le(nominal_fps) {
                nominal_fps
            } else {
                Real::from_i64(30)
            };
            Some(Real::from_u64(h * 3600 + m * 60 + s).plus(Real::from_u64(f).over(fps)))
        },
        _ => None,
    }
}

pub open spec fn is_text(t: Option<String>, s: Seq<char>) -> bool {
    match t {
        Some(t) => t@ == s,
        None => false,
    }
}

fn text_is(t: &Option<String>, s: &str) -> (r: bool)
    ensures
        r == is_text(*t, s@),
{
    match t {
        Some(t) => same_text(t.as_str(), s),
        None => false,
    }
}

/// The position of the first stream of a kind, or the count of streams.
pub open spec fn first_stream(streams: Seq<StreamInfo>, kind: Seq<char>) -> nat
    decreases streams.len(),
{
    if streams.len() == 0 || is_text(streams[0].codec_type, kind) {
        0
    } else {
        1 + first_stream(streams.skip(1), kind)
    }
}

fn find_stream(streams: &Vec<StreamInfo>, kind: &str) -> (r: usize)
    ensures
        r == first_stream(streams@, kind@),
        r <= streams.len(),
{
    let mut i: usize = 0;
    assert(streams@.skip(0) =~= streams@);
    while i < streams.len() && !text_is(&streams[i].codec_type, kind)
        invariant
            i <= streams.len(),
            first_stream(streams@, kind@) == i + first_stream(streams@.skip(i as int), kind@),
        decreases streams.len() - i,
    {
        proof {
            assert(streams@.skip(i as int).skip(1) =~= streams@.skip(i + 1));
        }
        i += 1;
    }
    i
}

/// The rotation that the first display matrix beside a stream gives.
pub open spec fn rotation_of(list: Seq<SideData>) -> int
    decreases list.len(),
{
    if list.len() == 0 {
        0
    } else if is_text(list[0].side_data_type, "Display Matrix"@) {
        match list[0].rotation {
            Some(r) => clip_i32(r.rounded()),
            None => 0,
        }
    } else {
        rotation_of(list.skip(1))
    }
}

/// An integer cut off at the bounds of `i32`.
pub open spec fn clip_i32(i: int) -> int {
    if i < i32::MIN {
        i32::MIN as int
    } else if i > i32::MAX {
        i32::MAX as int
    } else {
        i
    }
}

pub(crate) fn to_i32(i: i64) -> (r: i32)
    ensures
        r == clip_i32(i as int),
{
    if i < i32::MIN as i64 {
        i32::MIN
    } else if i > i32::MAX as i64 {
        i32::MAX
    } else {
        i as i32
    }
}

fn find_rotation(list: &Vec<SideData>) -> (r: i32)
    ensures
        r == rotation_of(list@),
{
    let mut i: usize = 0;
    assert(list@.skip(0) =~= list@);
    while i < list.len()
        invariant
            i <= list.len(),
            rotation_of(list@) == rotation_of(list@.skip(i as int)),
        decreases list.len() - i,
    {
        proof {
            assert(list@.skip(i as int).skip(1) =~= list@.skip(i + 1));
        }
        if text_is(&list[i].side_data_type, "Display Matrix") {
            return match list[i].rotation {
                Some(r) => to_i32(r.round_i64()),
                None => 0,
            };
        }
        i += 1;
    }
    0
}

/// A rate that frames can be decoded at.
pub open spec fn usable_rate(text: Option<String>) -> Option<Real> {
    match text {
        Some(t) => match rate_of(t@) {
            Some(f) => if f.finite() && Real::of_int(0).less(f) {
                Some(f)
            } else {
                None
            },
            None => None,
        },
        None => None,
    }
}

fn read_rate(text: &Option<String>) -> (r: Option<Real>)
    ensures
        r == usable_rate(*text),
{
    match text {
        Some(t) => match parse_frame_rate(t.as_str()) {
            Some(f) => if f.is_finite() && Real::from_i64(0).lt(f) {
                Some(f)
            } else {
                None
            },
            None => None,
        },
        None => None,
    }
}

/// The frame rate of a stream: the average one, else the largest one, else 30.
pub open spec fn fps_of(stream: StreamInfo) -> Real {
    match usable_rate(stream.avg_frame_rate) {
        Some(f) => f,
        None => match usable_rate(stream.r_frame_rate) {
            Some(f) => f,
            None => Real::of_int(30),
        },
    }
}

fn stream_fps(stream: &StreamInfo) -> (r: Real)
    ensures
        r == fps_of(*stream),
{
    match read_rate(&stream.avg_frame_rate) {
        Some(f) => f,
        None => match read_rate(&stream.r_frame_rate) {
            Some(f) => f,
            None => Real::from_i64(30),
        },
    }
}

/// The duration of a stream, or of its container where the stream gives none.
pub open spec fn duration_of_stream(stream: StreamInfo, format: Option<FormatInfo>) -> Option<Real> {
    match stream.duration {
        Some(t) => number_of(t@),
        None => match format {
            Some(f) => match f.duration {
                Some(t) => number_of(t@),
                None => None,
            },
            None => None,
        },
    }
}

fn parse_number(t: &String) -> (r: Option<Real>)
    ensures
        r == number_of(t@),
{
    let v = chars_of(t.as_str());
    Real::parse(v.as_slice())
}

fn stream_duration(stream: &StreamInfo, format: &Option<FormatInfo>) -> (r: Option<Real>)
    ensures
        r == duration_of_stream(*stream, *format),
{
    match &stream.duration {
        Some(t) => parse_number(t),
        None => match format {
            Some(f) => match &f.duration {
                Some(t) => parse_number(t),
                None => None,
            },
            None => None,
        },
    }
}

/// The count of frames: the one that is given, where it is above zero, else the
/// duration times the frame rate.
pub open spec fn frames_of(nb_frames: Option<String>, duration: Option<Real>, fps: Real) -> Option<
    nat,
> {
    let given = match nb_frames {
        Some(t) => unsigned_of(t@, u64::MAX as nat),
        None => None,
    };
    match given {
        Some(n) => if n > 0 {
            Some(n)
        } else {
            duration_frames(duration, fps)
        },
        None => duration_frames(duration, fps),
    }
}

pub open spec fn duration_frames(duration: Option<Real>, fps: Real) -> Option<nat> {
    match duration {
        Some(d) => Some(clip_u64(d.product(fps).rounded()) as nat),
        None => None,
    }
}

pub open spec fn count_view(n: Option<u64>) -> Option<nat> {
    match n {
        Some(n) => Some(n as nat),
        None => None,
    }
}

fn stream_frames(nb_frames: &Option<String>, duration: Option<Real>, fps: Real) -> (r: Option<u64>)
    ensures
        count_view(r) == frames_of(*nb_frames, duration, fps),
{
    match nb_frames {
        Some(t) => {
            let v = chars_of(t.as_str());
            match parse_unsigned(v.as_slice(), u64::MAX) {
                Some(n) => {
                    if n > 0 {
                        return Some(n);
                    }
                },
                None => {},
            }
        },
        None => {},
    }
    match duration {
        Some(d) => Some(d.times(fps).round_u64()),
        None => None,
    }
}

/// The text under a key.
pub open spec fn tag(tags: TextMap, key: Seq<char>) -> Option<Seq<char>> {
    if tags@.contains_key(key) {
        Some(tags@[key])
    } else {
        None
    }
}

pub open spec fn format_tag(format: Option<FormatInfo>, key: Seq<char>) -> Option<Seq<char>> {
    match format {
        Some(f) => tag(f.tags, key),
        None => None,
    }
}

/// The text under a key in the first stream that has one.
pub open spec fn stream_tag(streams: Seq<StreamInfo>, key: Seq<char>) -> Option<Seq<char>>
    decreases streams.len(),
{
    if streams.len() == 0 {
        None
    } else {
        match tag(streams[0].tags, key) {
            Some(t) => Some(t),
            None => stream_tag(streams.skip(1), key),
        }
    }
}

/// The timecode: that of the video stream, else of any stream, else of the
/// container.
pub open spec fn timecode_text(video: StreamInfo, report: ProbeReport) -> Option<Seq<char>> {
    match tag(video.tags, "timecode"@) {
        Some(t) => Some(t),
        None => match stream_tag(report.streams@, "timecode"@) {
            Some(t) => Some(t),
            None => format_tag(report.format, "timecode"@),
        },
    }
}

fn get_tag(tags: &TextMap, key: &str) -> (r: Option<String>)
    ensures
        match r {
            Some(t) => tag(*tags, key@) == Some(t@),
            None => tag(*tags, key@).is_none(),
        },
{
    match tags.get(key) {
        Some(t) => Some(t.clone()),
        None => None,
    }
}

fn find_timecode(video: &StreamInfo, report: &ProbeReport) -> (r: Option<String>)
    ensures
        match r {
            Some(t) => timecode_text(*video, *report) == Some(t@),
            None => timecode_text(*video, *report).is_none(),
        },
{
    match get_tag(&video.tags, "timecode") {
        Some(t) => {
            return Some(t);
        },
        None => {},
    }
    let ghost all = report.streams@;
    let mut i: usize = 0;
    assert(all.skip(0) =~= all);
    while i < report.streams.len()
        invariant
            i <= report.streams.len(),
            all == report.streams@,
            tag(video.tags, "timecode"@).is_none(),
            stream_tag(all, "timecode"@) == stream_tag(all.skip(i as int), "timecode"@),
        decreases report.streams.len() - i,
    {
        proof {
            assert(all.skip(i as int).skip(1) =~= all.skip(i + 1));
        }
        match get_tag(&report.streams[i].tags, "timecode") {
            Some(t) => {
                return Some(t);
            },
            None => {},
        }
        i += 1;
    }
    match &report.format {
        Some(f) => get_tag(&f.tags, "timecode"),
        None => None,
    }
}

/// The creation time of a video, where its container gives one that can be read.
pub open spec fn creation_of_format(format: Option<FormatInfo>) -> Option<UtcTime> {
    match format_tag(format, "creation_time"@) {
        Some(t) => match creation_of(t) {
            Ok(m) => Some(m),
            Err(_) => None,
        },
        None => None,
    }
}

/// What a report says of a video.
pub open spec fn info_agrees(info: VideoInfo, report: ProbeReport) -> bool {
    let video = report.streams@[first_stream(report.streams@, "video"@) as int];
    let coded_width = match video.width {
        Some(w) => w,
        None => 0,
    };
    let coded_height = match video.height {
        Some(h) => h,
        None => 0,
    };
    let turned = rotation_of(video.side_data_list@) % 180 == 90;
    let fps = fps_of(video);
    &&& info.rotation_deg == rotation_of(video.side_data_list@)
    &&& info.width == if turned {
        coded_height
    } else {
        coded_width
    }
    &&& info.height == if turned {
        coded_width
    } else {
        coded_height
    }
    &&& info.fps == fps
    &&& info.duration_sec == duration_of_stream(video, report.format)
    &&& count_view(info.estimated_frames) == frames_of(video.nb_frames, info.duration_sec, fps)
    &&& info.creation_time == creation_of_format(report.format)
    &&& info.timecode_sec == match timecode_text(video, report) {
        Some(t) => timecode_of(t, fps.integral()),
        None => None,
    }
    &&& info.has_audio == (first_stream(report.streams@, "audio"@) < report.streams@.len())
}

fn read_creation_time(format: &Option<FormatInfo>) -> (r: Option<UtcTime>)
    ensures
        r == creation_of_format(*format),
        r matches Some(t) ==> t.valid(),
{
    match format {
        Some(f) => match get_tag(&f.tags, "creation_time") {
            Some(t) => match parse_creation_time(t.as_str()) {
                Ok(m) => Some(m),
                Err(_) => None,
            },
            None => None,
        },
        None => None,
    }
}

/// Whether the samples of the first video stream use the full range of a byte.
pub fn video_full_range(report: &ProbeReport) -> (r: bool)
    ensures
        ({
            let at = first_stream(report.streams@, "video"@) as int;
            r == (at < report.streams@.len() && is_text(report.streams@[at].color_range, "pc"@))
        }),
{
    let at: usize = find_stream(&report.streams, "video");
    if at == report.streams.len() {
        return false;
    }
    match &report.streams[at].color_range {
        Some(t) => full_range_of(Some(t.as_str())),
        None => full_range_of(None),
    }
}

/// Takes from a probe's report what is needed of a video.
pub fn video_info(report: &ProbeReport) -> (r: Result<VideoInfo, CoreError>)
    ensures
        match r {
            Ok(info) => first_stream(report.streams@, "video"@) < report.streams@.len()
                && info_agrees(info, *report) && info.valid(),
            Err(e) => first_stream(report.streams@, "video"@) >= report.streams@.len() && e@
                == ErrorView::Ffprobe("No video stream found"@),
        },
{
    let at: usize = find_stream(&report.streams, "video");
    if at == report.streams.len() {
        return Err(CoreError::Ffprobe("No video stream found".to_owned()));
    }
    let video = &report.streams[at];
    let coded_width: u32 = match video.width {
        Some(w) => w,
        None => 0,
    };
    let coded_height: u32 = match video.height {
        Some(h) => h,
        None => 0,
    };
    let rotation_deg: i32 = find_rotation(&video.side_data_list);
    let turned = if rotation_deg >= 0 {
        rotation_deg % 180 == 90
    } else {
        (-(rotation_deg as i64)) % 180 == 90
    };
    let fps = stream_fps(video);
    let duration_sec = stream_duration(video, &report.format);
    let estimated_frames = stream_frames(&video.nb_frames, duration_sec, fps);
    let creation_time = read_creation_time(&report.format);
    let timecode_sec = match find_timecode(video, report) {
        Some(t) => parse_timecode_seconds(t.as_str(), fps.round()),
        None => None,
    };
    let has_audio = find_stream(&report.streams, "audio") < report.streams.len();
    Ok(
        VideoInfo {
            width: if turned {
                coded_height
            } else {
                coded_width
            },
            height: if turned {
                coded_width
            } else {
                coded_height
            },
            rotation_deg,
            fps,
            estimated_frames,
            creation_time,
            timecode_sec,
            duration_sec,
            has_audio,
        },
    )
}

/// A video always has a frame rate that is finite and above zero.
pub proof fn law_frame_rate_usable(stream: StreamInfo)
    ensures
        fps_of(stream).finite(),
        Real::of_int(0).less(fps_of(stream)),
{
    lemma_small_int(30);
    lemma_small_int(0);
    let u = unit();
    assert(0 * u == 0 && 30 * u > 0);
}

/// The creation time of a video, which has to be known.
pub fn get_video_creation_time_utc(info: &VideoInfo, video_path: &str) -> (r: Result<
    UtcTime,
    CoreError,
>)
    ensures
        match info.creation_time {
            Some(t) => r matches Ok(u) && u == t,
            None => r matches Err(e) && e@ == ErrorView::Ffprobe(
                "No creation_time in MP4: "@ + video_path@,
            ),
        },
{
    match info.creation_time {
        Some(t) => Ok(t),
        None => Err(CoreError::Ffprobe(prefixed("No creation_time in MP4: ", video_path))),
    }
}

/// Whether the two programs that do the work are there; the first one that is
/// missing is reported.
pub fn ensure_ffmpeg_available(ffmpeg_found: bool, ffprobe_found: bool) -> (r: Result<(), CoreError>)
    ensures
        match r {
            Ok(_) => ffmpeg_found && ffprobe_found,
            Err(e) => if !ffmpeg_found {
                e@ == ErrorView::Ffmpeg(
                    "ffmpeg was not found. Please install it and add it to PATH."@,
                )
            } else {
                !ffprobe_found && e@ == ErrorView::Ffprobe(
                    "ffprobe was not found. Please install it and add it to PATH."@,
                )
            },
        },
{
    if !ffmpeg_found {
        return Err(
            CoreError::Ffmpeg(
                "ffmpeg was not found. Please install it and add it to PATH.".to_owned(),
            ),
        );
    }
    if !ffprobe_found {
        return Err(
            CoreError::Ffprobe(
                "ffprobe was not found. Please install it and add it to PATH.".to_owned(),
            ),
        );
    }
    Ok(())
}

} // verus!
