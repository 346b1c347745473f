//! What a probe's report says of a video.

use vstd::arithmetic::div_mod::lemma_fundamental_div_mod_converse;
use vstd::prelude::*;

use crate::binary64::{lemma_int_product, lemma_nat_size, lemma_small_int, nearest_up, unit, Real};
use crate::cell_laws::{lemma_nothing_replaced, lemma_replaced_behind};
use crate::ffprobe::{
    duration_of_stream, first_stream, fps_of, frames_of, info_agrees, is_text, rate_of, rotation_of,
    timecode_of, timecode_text, timecode_value, FormatInfo, ProbeReport, SideData, StreamInfo,
    VideoInfo,
};
use crate::nearest::TWO53;
use crate::number_text::{lemma_number_of_digits, number_of};
use crate::numeral::unsigned_of;
use crate::subtitle_laws::{lemma_digits_have_no, lemma_split_behind};
use crate::text::{
    all_digits, digits_value, find, is_digit, lemma_find, replace_char, split, trim_end, trim_start,
    white,
};

verus! {

/// Whether a stream is the first one of a video.
pub open spec fn is_first_video(streams: Seq<StreamInfo>, at: int) -> bool {
    &&& 0 <= at < streams.len()
    &&& is_text(streams[at].codec_type, "video"@)
    &&& forall|k: int|
        0 <= k < at ==> !is_text((#[trigger] streams[k]).codec_type, "video"@)
}

proof fn lemma_first_video(streams: Seq<StreamInfo>, at: int)
    requires
        is_first_video(streams, at),
    ensures
        first_stream(streams, "video"@) == at,
    decreases streams.len(),
{
    if at > 0 {
        assert(!is_text(streams[0].codec_type, "video"@));
        let rest = streams.skip(1);
        assert(rest[at - 1] == streams[at]);
        assert forall|k: int| 0 <= k < at - 1 implies !is_text(
            (#[trigger] rest[k]).codec_type,
            "video"@,
        ) by {
            assert(rest[k] == streams[k + 1]);
        }
        lemma_first_video(rest, at - 1);
    }
}

/// The size of a video is that of its first video stream, turned where the picture is
/// shown on its side.
pub proof fn law_turned_video(info: VideoInfo, report: ProbeReport, at: int, w: u32, h: u32)
    requires
        info_agrees(info, report),
        is_first_video(report.streams@, at),
        report.streams@[at].width == Some(w),
        report.streams@[at].height == Some(h),
    ensures
        info.rotation_deg % 360 == 0 || info.rotation_deg % 360 == 180 ==> info.width == w
            && info.height == h,
        info.rotation_deg % 360 == 90 || info.rotation_deg % 360 == 270 ==> info.width == h
            && info.height == w,
{
    lemma_first_video(report.streams@, at);
}

/// The rotation is that of the display matrix, to the nearest degree, and none without
/// one.
pub proof fn law_rotation_of_the_matrix(list: Seq<SideData>, i: int, r: int)
    requires
        0 <= i < list.len(),
        is_text(list[i].side_data_type, "Display Matrix"@),
        forall|k: int|
            0 <= k < i ==> !is_text((#[trigger] list[k]).side_data_type, "Display Matrix"@),
        list[i].rotation == Some(Real::of_int(r)),
        -360 <= r <= 360,
    ensures
        rotation_of(list) == r,
        rotation_of(seq![]) == 0,
    decreases list.len(),
{
    if i > 0 {
        assert(!is_text(list[0].side_data_type, "Display Matrix"@));
        let rest = list.skip(1);
        assert(rest[i - 1] == list[i]);
        assert forall|k: int| 0 <= k < i - 1 implies !is_text(
            (#[trigger] rest[k]).side_data_type,
            "Display Matrix"@,
        ) by {
            assert(rest[k] == list[k + 1]);
        }
        law_rotation_of_the_matrix(rest, i - 1, r);
    } else {
        lemma_whole_rounds(r);
    }
}

/// A whole number rounds to itself.
pub proof fn lemma_whole_rounds(r: int)
    requires
        -(TWO53 as int) < r < TWO53,
    ensures
        Real::of_int(r).rounded() == r,
{
    let x = Real::of_int(r);
    let u = unit() as int;
    lemma_small_int(r);
    let a: int = if r < 0 {
        -r
    } else {
        r
    };
    if r < 0 {
        assert(-(r * u) == a * u) by (nonlinear_arith)
            requires
                a == -r,
        ;
    } else if r == 0 {
        lemma_nat_size(0);
        assert(0 * u == 0);
    }
    assert(x.size() == a * u);
    lemma_fundamental_div_mod_converse(a * u, u, a, 0);
    assert(nearest_up(x.size(), unit()) == a);
}

/// A video has sound where some stream of it is one of sound.
pub proof fn law_sound_of_a_video(info: VideoInfo, report: ProbeReport)
    requires
        info_agrees(info, report),
    ensures
        info.has_audio <==> exists|i: int|
            0 <= i < report.streams@.len() && is_text(
                (#[trigger] report.streams@[i]).codec_type,
                "audio"@,
            ),
{
    lemma_some_stream(report.streams@, "audio"@);
}

proof fn lemma_some_stream(streams: Seq<StreamInfo>, kind: Seq<char>)
    ensures
        first_stream(streams, kind) < streams.len() <==> exists|i: int|
            0 <= i < streams.len() && is_text((#[trigger] streams[i]).codec_type, kind),
    decreases streams.len(),
{
    if streams.len() > 0 {
        let rest = streams.skip(1);
        lemma_some_stream(rest, kind);
        if exists|i: int| 0 <= i < streams.len() && is_text(
            (#[trigger] streams[i]).codec_type,
            kind,
        ) {
            let i = choose|i: int|
                0 <= i < streams.len() && is_text((#[trigger] streams[i]).codec_type, kind);
            if i > 0 {
                assert(rest[i - 1] == streams[i]);
            }
        }
        if exists|i: int| 0 <= i < rest.len() && is_text((#[trigger] rest[i]).codec_type, kind) {
            let i = choose|i: int|
                0 <= i < rest.len() && is_text((#[trigger] rest[i]).codec_type, kind);
            assert(streams[i + 1] == rest[i]);
        }
        if is_text(streams[0].codec_type, kind) {
            assert(is_text(streams[0].codec_type, kind));
        }
    }
}

/// A rate is the ratio of the two numbers around its slash; without frames in a second
/// there is none.
pub proof fn law_rate_is_a_ratio(n: Seq<char>, d: Seq<char>)
    requires
        all_digits(n),
        all_digits(d),
    ensures
        0 < digits_value(d) < TWO53 ==> rate_of(n + seq!['/'] + d) == Some(
            Real::of_int(digits_value(n) as int).quotient(Real::of_int(digits_value(d) as int)),
        ),
        digits_value(d) == 0 ==> rate_of(n + seq!['/'] + d).is_none(),
{
    let s = n + seq!['/'] + d;
    lemma_digits_have_no(n, '/');
    lemma_find(s, '/');
    assert(s[n.len() as int] == '/');
    let at = find(s, '/') as int;
    assert(at == n.len()) by {
        if at < n.len() {
            assert(s[at] == n[at]);
            assert(n.contains(n[at]));
        }
    }
    assert(s.take(at) =~= n);
    assert(s.skip(at + 1) =~= d);
    lemma_number_of_digits(n);
    lemma_number_of_digits(d);
    let v = digits_value(d);
    lemma_small_int(0);
    assert(0 * unit() == 0);
    if v < TWO53 {
        lemma_small_int(v as int);
        let u = unit();
        if v > 0 {
            assert(v * u > 0) by (nonlinear_arith)
                requires
                    v > 0,
                    u > 0,
            ;
        }
    }
}

/// The frame rate is the average one where that is above zero, else the largest one,
/// else thirty.
pub proof fn law_rate_of_a_stream(video: StreamInfo, average: Real)
    requires
        video.avg_frame_rate matches Some(t) && rate_of(t@) == Some(average),
        average.finite(),
        average.value() > 0,
    ensures
        fps_of(video) == average,
{
    lemma_small_int(0);
    assert(0 * unit() == 0);
}

/// A count of frames that is given counts; without one it is the duration times the
/// frame rate.
pub proof fn law_frames_of_a_stream(
    nb_frames: Option<String>,
    duration: Option<Real>,
    fps: Real,
    seconds: nat,
    rate: nat,
)
    requires
        duration == Some(Real::of_int(seconds as int)),
        fps == Real::of_int(rate as int),
        seconds * rate < TWO53,
        seconds < TWO53,
        rate < TWO53,
    ensures
        nb_frames.is_some() && unsigned_of(nb_frames->0@, u64::MAX as nat).is_some() && unsigned_of(
            nb_frames->0@,
            u64::MAX as nat,
        )->0 > 0 ==> frames_of(nb_frames, duration, fps) == unsigned_of(
            nb_frames->0@,
            u64::MAX as nat,
        ),
        nb_frames.is_none() ==> frames_of(nb_frames, duration, fps) == Some(seconds * rate),
        nb_frames.is_none() ==> frames_of(nb_frames, None, fps).is_none(),
{
    lemma_int_product(seconds, rate);
    assert(seconds * rate >= 0) by (nonlinear_arith);
    lemma_whole_rounds((seconds * rate) as int);
}

/// A duration of the video stream counts before that of the container.
pub proof fn law_duration_of_a_video(video: StreamInfo, format: Option<FormatInfo>)
    ensures
        video.duration matches Some(t) ==> duration_of_stream(video, format) == number_of(t@),
        video.duration.is_none() && format.is_some() && format->0.duration.is_some()
            ==> duration_of_stream(video, format) == number_of(format->0.duration->0@),
        video.duration.is_none() && format.is_none() ==> duration_of_stream(video, format).is_none(),
{
}

/// A timecode of the video stream counts before those of other streams and of the
/// container.
pub proof fn law_timecode_of_the_video(video: StreamInfo, report: ProbeReport, text: Seq<char>)
    requires
        video.tags@.contains_key("timecode"@),
        video.tags@["timecode"@] == text,
    ensures
        timecode_text(video, report) == Some(text),
{
}

/// A timecode is hours, minutes, seconds and frames: whole seconds where the frame is
/// the first of a second, and with a later frame a share of the second more.
pub proof fn law_timecode_counts(h: nat, m: nat, s: nat, f: nat, fps: Real)
    requires
        h <= 23,
        m <= 59,
        s <= 59,
        h + m + s + f > 0,
        fps.finite(),
        fps.value() >= unit(),
    ensures
        timecode_value(h, m, s, f, fps) == Some(
            Real::of_int((3600 * h + 60 * m + s) as int).sum(
                Real::of_int(f as int).quotient(fps),
            ),
        ),
        timecode_value(0, 0, 0, 0, fps).is_none(),
        timecode_value(h + 24, m, s, f, fps).is_none(),
        timecode_value(h, m + 60, s, f, fps).is_none(),
        timecode_value(h, m, s + 60, f, fps).is_none(),
{
    lemma_small_int(1);
    assert(1 * unit() == unit());
}

/// A timecode reads as its four numbers, with a colon or a semicolon before the frames.
pub proof fn law_timecode_reads(
    h: Seq<char>,
    m: Seq<char>,
    s: Seq<char>,
    f: Seq<char>,
    c: char,
    fps: Real,
)
    requires
        all_digits(h),
        all_digits(m),
        all_digits(s),
        all_digits(f),
        digits_value(h) <= u32::MAX,
        digits_value(m) <= u32::MAX,
        digits_value(s) <= u32::MAX,
        digits_value(f) <= u32::MAX,
        c == ':' || c == ';',
    ensures
        timecode_of(h + seq![':'] + (m + seq![':'] + (s + seq![c] + f)), fps) == timecode_value(
            digits_value(h),
            digits_value(m),
            digits_value(s),
            digits_value(f),
            fps,
        ),
{
    let w = s + seq![c] + f;
    let v = m + seq![':'] + w;
    let t = h + seq![':'] + v;
    let colon = ":"@;
    reveal_strlit(":");
    assert(colon =~= seq![':']);
    assert(is_digit(h[0]) && is_digit(f.last()));
    assert(t[0] == h[0] && t.last() == f.last());
    assert(!white(t[0]) && !white(t.last()));
    assert(trim_start(t) == t);
    assert(trim_end(t) == t);
    lemma_digits_have_no(h, ';');
    lemma_digits_have_no(m, ';');
    lemma_digits_have_no(s, ';');
    lemma_digits_have_no(f, ';');
    lemma_nothing_replaced(h, ';', colon);
    lemma_nothing_replaced(m, ';', colon);
    lemma_nothing_replaced(s, ';', colon);
    lemma_nothing_replaced(f, ';', colon);
    let mark = seq![':'];
    assert(!mark.contains(';'));
    lemma_nothing_replaced(mark, ';', colon);
    let d = seq![c];
    assert(d.drop_last() =~= seq![]);
    assert(replace_char(d.drop_last(), ';', colon) =~= seq![]);
    assert(replace_char(d, ';', colon) =~= mark);
    lemma_replaced_behind(h + mark, v, ';', colon);
    lemma_replaced_behind(h, mark, ';', colon);
    lemma_replaced_behind(m + mark, w, ';', colon);
    lemma_replaced_behind(m, mark, ';', colon);
    lemma_replaced_behind(s + d, f, ';', colon);
    lemma_replaced_behind(s, d, ';', colon);
    let w2 = s + mark + f;
    let v2 = m + mark + w2;
    let t2 = h + mark + v2;
    assert(replace_char(t, ';', colon) == t2);
    lemma_digits_have_no(h, ':');
    lemma_digits_have_no(m, ':');
    lemma_digits_have_no(s, ':');
    lemma_digits_have_no(f, ':');
    lemma_split_behind(h, ':', v2);
    lemma_split_behind(m, ':', w2);
    lemma_split_behind(s, ':', f);
    assert(split(f, ':') =~= seq![f]);
    assert(split(t2, ':') =~= seq![h, m, s, f]);
    lemma_unsigned(h);
    lemma_unsigned(m);
    lemma_unsigned(s);
    lemma_unsigned(f);
}

proof fn lemma_unsigned(s: Seq<char>)
    requires
        all_digits(s),
        digits_value(s) <= u32::MAX,
    ensures
        unsigned_of(s, u32::MAX as nat) == Some(digits_value(s)),
{
    assert(is_digit(s[0]));
}

/// Whether a text tells a frame rate that frames can be shown at.
pub open spec fn tells_a_rate(text: Option<String>) -> bool {
    text.is_some() && rate_of(text->0@).is_some() && rate_of(text->0@)->0.finite() && rate_of(
        text->0@,
    )->0.value() > 0
}

/// Where the average frame rate cannot be used the other one is taken, and where that
/// cannot be used either it is thirty.
pub proof fn law_rate_falls_back(video: StreamInfo)
    ensures
        tells_a_rate(video.avg_frame_rate) ==> Some(fps_of(video)) == rate_of(
            video.avg_frame_rate->0@,
        ),
        !tells_a_rate(video.avg_frame_rate) && tells_a_rate(video.r_frame_rate) ==> Some(
            fps_of(video),
        ) == rate_of(video.r_frame_rate->0@),
        !tells_a_rate(video.avg_frame_rate) && !tells_a_rate(video.r_frame_rate) ==> fps_of(video)
            == Real::of_int(30),
{
    lemma_small_int(0);
    assert(0 * unit() == 0);
}

/// A video is not turned where it has no matrix, or the first one tells no rotation.
pub proof fn law_no_rotation(list: Seq<SideData>, k: int)
    requires
        0 <= k <= list.len(),
        forall|i: int|
            0 <= i < k ==> !is_text((#[trigger] list[i]).side_data_type, "Display Matrix"@),
    ensures
        k == list.len() ==> rotation_of(list) == 0,
        k < list.len() && is_text(list[k].side_data_type, "Display Matrix"@)
            && list[k].rotation.is_none() ==> rotation_of(list) == 0,
    decreases list.len(),
{
    if list.len() > 0 && k > 0 {
        assert(!is_text(list[0].side_data_type, "Display Matrix"@));
        let rest = list.skip(1);
        assert forall|i: int| 0 <= i < k - 1 implies !is_text(
            (#[trigger] rest[i]).side_data_type,
            "Display Matrix"@,
        ) by {
            assert(rest[i] == list[i + 1]);
        }
        law_no_rotation(rest, k - 1);
    }
}

} // verus!
