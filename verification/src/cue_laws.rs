//! Which second of a video each cue of a track is for.

use vstd::arithmetic::div_mod::{lemma_fundamental_div_mod, lemma_fundamental_div_mod_converse};
use vstd::arithmetic::power2::lemma_pow2_pos;
use vstd::prelude::*;

use crate::binary64::{
    lemma_nat_size, lemma_signed_int_difference, lemma_signed_int_sum, lemma_size_order, unit, Real,
};
use crate::clip_run::{frame_moment, subtitle_seconds, ClipRun};
use crate::csv_data::whole_seconds;
use crate::ffprobe::VideoInfo;
use crate::nearest::{lemma_nearest_same_ratio, nearest_magnitude, TWO52, TWO53};
use crate::subtitle::{cue_end, cue_seconds, dive_moment};

verus! {

/// A track has a cue for each second that starts before the end of the video, and no
/// more.
pub proof fn law_cues_cover_the_video(duration: Real)
    requires
        duration.finite(),
        0 <= duration.value() < TWO53 * unit(),
    ensures
        duration.value() <= cue_seconds(duration) * unit(),
        cue_seconds(duration) > 0 ==> (cue_seconds(duration) - 1) * unit() < duration.value(),
{
    let u = unit() as int;
    let d = duration.not_below_zero();
    let v = duration.value();
    lemma_pow2_pos(1074);
    assert(d.size() == v) by {
        let z = Real { bits: 0 };
        lemma_size_order(z, z);
    }
    lemma_fundamental_div_mod(v, u);
    let q = v / u;
    let r = v % u;
    assert(q < TWO53 && q >= 0) by (nonlinear_arith)
        requires
            v == u * q + r,
            0 <= r < u,
            0 <= v < TWO53 * u,
            u > 0,
    ;
    assert(u * q == q * u) by (nonlinear_arith);
    assert((q + 1) * u == q * u + u) by (nonlinear_arith);
    assert((q - 1) * u == q * u - u) by (nonlinear_arith);
}

/// A cue ends where the next one starts, and the last one where the video ends.
pub proof fn law_cues_follow_each_other(sec: nat, duration: Real)
    requires
        duration.finite(),
        sec < TWO52,
    ensures
        (sec + 1) * unit() <= duration.value() ==> cue_end(sec, duration).value() == (sec + 1)
            * unit(),
        duration.value() <= (sec + 1) * unit() ==> cue_end(sec, duration).value()
            == duration.value(),
{
    lemma_nat_size(sec + 1);
}

/// A cue shows the moment of the dive that lies as many seconds after the sync point as
/// the cue's second after that of the video.
pub proof fn law_cue_shows_its_moment(sec: nat, video_sync: int, csv_sync: int)
    requires
        sec < 1_000_000_000_000,
        -1_000_000_000_000 < video_sync < 1_000_000_000_000,
        -1_000_000_000_000 < csv_sync < 1_000_000_000_000,
    ensures
        dive_moment(sec, Real::of_int(video_sync), Real::of_int(csv_sync)) == Real::of_int(
            csv_sync + sec - video_sync,
        ),
{
    lemma_signed_int_difference(sec as int, video_sync);
    lemma_signed_int_sum(csv_sync, sec - video_sync);
}

/// The clock of the info box shows the nearest whole second, and nothing before the
/// dive.
pub proof fn law_clock_shows_the_nearest_second(x: Real)
    requires
        x.finite(),
        -(TWO53 as int) * unit() < x.value() < TWO53 * unit(),
    ensures
        x.value() >= 0 ==> -(unit() as int) <= 2 * (whole_seconds(x) * unit() - x.value())
            <= unit(),
        x.value() <= 0 ==> whole_seconds(x) == 0,
{
    let u = unit() as int;
    lemma_pow2_pos(1074);
    let v = x.size() as int;
    assert(-(TWO53 as int) * u == -(TWO53 * u)) by (nonlinear_arith);
    lemma_fundamental_div_mod(v, u);
    let q = v / u;
    let r = v % u;
    assert(0 <= q < TWO53) by (nonlinear_arith)
        requires
            v == u * q + r,
            0 <= r < u,
            0 <= v < TWO53 * u,
            u > 0,
    ;
    assert(u * q == q * u) by (nonlinear_arith);
    assert((q + 1) * u == q * u + u) by (nonlinear_arith);
    if v == 0 {
        lemma_fundamental_div_mod_converse(0, u, 0, 0);
    }
}

/// A video without a known length is as long as its frames take.
pub proof fn law_length_for_subtitles(info: VideoInfo)
    ensures
        info.duration_sec matches Some(d) ==> subtitle_seconds(info) == d,
        info.duration_sec.is_none() && info.estimated_frames.is_some() ==> subtitle_seconds(info)
            == Real::of_int(info.estimated_frames->0 as int).quotient(info.fps),
{
}

/// The frame that comes whole seconds after the first one shows the moment of the dive
/// that many seconds after the clip's start.
pub proof fn law_frame_shows_its_moment(run: ClipRun, rate: nat, sec: nat, start: int)
    requires
        0 < rate < TWO53,
        run.fps == Real::of_int(rate as int),
        run.frame_idx == sec * rate,
        sec * rate < TWO53,
        sec < TWO52,
        run.dive_start_sec == Real::of_int(start),
        -(TWO52 as int) < start < TWO52,
    ensures
        frame_moment(run) == Real::of_int(start + sec),
{
    reveal(Real::quotient);
    let u = unit();
    let n = sec * rate;
    lemma_nat_size(n);
    lemma_nat_size(rate);
    lemma_nat_size(sec);
    assert(((n * u) * u) * 1 == (sec * u) * (rate * u)) by (nonlinear_arith)
        requires
            n == sec * rate,
    ;
    assert(rate * u > 0) by (nonlinear_arith)
        requires
            rate > 0,
            u > 0,
    ;
    lemma_nearest_same_ratio((n * u) * u, rate * u, sec * u, 1);
    let q = Real::of_int(n as int).quotient(Real::of_int(rate as int));
    assert(q.magnitude() == nearest_magnitude(sec * u, 1));
    assert(q == Real::of_int(sec as int));
    lemma_signed_int_sum(start, sec as int);
}

} // verus!
