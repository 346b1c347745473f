//! Where clips come to lie in the dive.

use vstd::arithmetic::div_mod::lemma_fundamental_div_mod_converse;
use vstd::prelude::*;

use crate::binary64::{
    lemma_exact, lemma_nat_size, lemma_signed_int_difference, lemma_signed_int_sum,
    lemma_size_order, lemma_small_int, lemma_zero_quotient, unit, Real,
};
use crate::csv_data::duration_of;
use crate::error::ErrorView;
use crate::ffprobe::VideoInfo;
use crate::model::ClipView;
use crate::moment::{law_millis_antisymmetric, millis_between, UtcTime};
use crate::nearest::{lemma_nearest_same_ratio, nearest_magnitude, INFINITE, TWO52, TWO53};
use crate::number_text::number_of;
use crate::sync::{
    all_warnings, clip_start, clip_warnings, day_delta, placeable, placed, placed_clip,
    placed_clips, source_of, start_delta, ClipStartSource,
};

verus! {

/// A moment at a whole second.
pub open spec fn at_second(secs: int) -> UtcTime {
    UtcTime { secs: secs as i64, nanos: 0 }
}

/// A thousandfold of an integer, divided by a thousand, is the integer.
proof fn lemma_thousandth(d: int)
    requires
        -(TWO53 as int) < 1000 * d < TWO53,
    ensures
        Real::of_int(1000 * d).quotient(Real::of_int(1000)).value() == d * unit(),
        Real::of_int(1000 * d).quotient(Real::of_int(1000)).finite(),
        d != 0 ==> Real::of_int(1000 * d).quotient(Real::of_int(1000)) == Real::of_int(d),
{
    reveal(Real::quotient);
    let a: nat = if d < 0 {
        (-d) as nat
    } else {
        d as nat
    };
    let x = Real::of_int(1000 * d);
    let u = unit();
    lemma_small_int(1000 * d);
    lemma_small_int(d);
    lemma_nat_size(1000 * a);
    lemma_nat_size(1000);
    lemma_nat_size(a);
    let y = Real::of_int(1000);
    let big = 1000 * a;
    assert(x.size() == big * u) by {
        if d < 0 {
            assert((1000 * d) * u == -(big * u)) by (nonlinear_arith)
                requires
                    big == 1000 * (-d),
            ;
        }
    }
    assert(((big * u) * u) * 1 == (a * u) * (1000 * u)) by (nonlinear_arith)
        requires
            big == 1000 * a,
    ;
    lemma_nearest_same_ratio((big * u) * u, 1000 * u, a * u, 1);
    let q = x.quotient(y);
    assert(q.magnitude() == nearest_magnitude(a * u, 1));
    assert(q.size() == a * u);
    if d < 0 {
        assert(d * u == -(a * u)) by (nonlinear_arith)
            requires
                a == -d,
        ;
        assert(q == Real::of_int(d));
    } else if d == 0 {
        assert(0 * u == 0);
    }
}

/// Placing keeps the order and the distance of recording: how much later than the base
/// clip a clip was created is the difference of both times, before it too.
pub proof fn law_creation_delta(base: VideoInfo, info: VideoInfo, a: int, b: int)
    requires
        base.creation_time == Some(at_second(a)),
        info.creation_time == Some(at_second(b)),
        i64::MIN <= a <= i64::MAX,
        i64::MIN <= b <= i64::MAX,
        -(TWO53 as int) < 1000 * (b - a) < TWO53,
    ensures
        start_delta(ClipStartSource::CreationTime, base, info) matches Some(d) && d.finite()
            && d.value() == (b - a) * unit() && (a != b ==> d == Real::of_int(b - a)),
{
    let m = millis_between(at_second(a), at_second(b));
    let n = (b - a) * 1_000_000_000;
    assert(m == 1000 * (b - a)) by {
        if n < 0 {
            lemma_fundamental_div_mod_converse(-n, 1_000_000, 1000 * (a - b), 0);
        } else {
            lemma_fundamental_div_mod_converse(n, 1_000_000, 1000 * (b - a), 0);
        }
    }
    lemma_thousandth(b - a);
}

/// The milliseconds between two moments without leap seconds are those between their
/// nanoseconds, the fraction cut off.
pub proof fn law_millis_between(a: UtcTime, b: UtcTime)
    requires
        a.nanos < 1_000_000_000,
        b.nanos < 1_000_000_000,
    ensures
        ({
            let nanos = (b.secs - a.secs) * 1_000_000_000 + b.nanos - a.nanos;
            let millis = millis_between(a, b);
            &&& -1_000_000 < nanos - millis * 1_000_000 < 1_000_000
            &&& nanos >= 0 ==> millis >= 0 && millis * 1_000_000 <= nanos
            &&& nanos <= 0 ==> millis <= 0 && millis * 1_000_000 >= nanos
        }),
{
}

/// A clip that was created some whole seconds before or after the base clip lies as many
/// seconds before or after it in the dive.
pub proof fn law_placed_by_creation(base: VideoInfo, info: VideoInfo, a: int, b: int, start: int)
    requires
        base.creation_time == Some(at_second(a)),
        info.creation_time == Some(at_second(b)),
        i64::MIN <= a <= i64::MAX,
        i64::MIN <= b <= i64::MAX,
        -(TWO53 as int) < 1000 * (b - a) < TWO53,
        -(TWO52 as int) < start < TWO52,
    ensures
        placed(ClipStartSource::CreationTime, base, Real::of_int(start), info).value() == (start + b
            - a) * unit(),
{
    law_creation_delta(base, info, a, b);
    let u = unit();
    lemma_small_int(start);
    if a == b {
        let d = start_delta(ClipStartSource::CreationTime, base, info)->0;
        assert((b - a) * u == 0) by (nonlinear_arith)
            requires
                a == b,
        ;
        lemma_plus_zero_value(Real::of_int(start), d);
    } else {
        lemma_signed_int_sum(start, b - a);
        lemma_small_int(start + b - a);
    }
}

proof fn lemma_plus_zero_value(x: Real, z: Real)
    requires
        x.finite(),
        z.finite(),
        z.value() == 0,
    ensures
        x.sum(z).value() == x.value(),
{
    reveal(Real::sum);
    lemma_exact(x.magnitude());
    lemma_size_order(x, x);
    lemma_size_order(z, z);
    let r = x.sum(z);
    lemma_size_order(r, r);
    if x.value() == 0 {
        assert(r.magnitude() == 0);
    } else {
        assert(r.magnitude() == x.magnitude());
    }
}

/// By their timecodes a clip lies as far from the base clip as the clocks are apart,
/// where that is no more than half a day; further apart midnight lies between them.
pub proof fn law_timecode_delta(a: int, b: int)
    requires
        0 <= a < 86_400,
        0 <= b < 86_400,
    ensures
        -43_200 <= b - a <= 43_200 ==> day_delta(Real::of_int(a), Real::of_int(b)) == Real::of_int(
            b - a,
        ),
        b - a < -43_200 ==> day_delta(Real::of_int(a), Real::of_int(b)) == Real::of_int(
            b - a + 86_400,
        ),
        b - a > 43_200 ==> day_delta(Real::of_int(a), Real::of_int(b)) == Real::of_int(
            b - a - 86_400,
        ),
{
    lemma_signed_int_difference(b, a);
    lemma_small_int(b - a);
    lemma_small_int(43_200);
    lemma_small_int(-43_200);
    let u = unit();
    let d = b - a;
    assert(d < -43_200 <==> d * u < -43_200 * u) by (nonlinear_arith)
        requires
            u > 0,
    ;
    assert(d > 43_200 <==> d * u > 43_200 * u) by (nonlinear_arith)
        requires
            u > 0,
    ;
    lemma_signed_int_sum(d, 86_400);
    lemma_signed_int_difference(d, 86_400);
}

/// A clip that started by its timecode some seconds before or after the base clip lies
/// as many seconds before or after it in the dive.
pub proof fn law_placed_by_timecode(base: VideoInfo, info: VideoInfo, a: int, b: int, start: int)
    requires
        0 <= a < 86_400,
        0 <= b < 86_400,
        -43_200 <= b - a <= 43_200,
        base.timecode_sec == Some(Real::of_int(a)),
        info.timecode_sec == Some(Real::of_int(b)),
        -(TWO52 as int) < start < TWO52,
    ensures
        placed(ClipStartSource::Timecode, base, Real::of_int(start), info) == Real::of_int(
            start + b - a,
        ),
{
    law_timecode_delta(a, b);
    lemma_signed_int_sum(start, b - a);
}

/// Clips are placed by their timecodes where all of them have one, and by their creation
/// times as soon as one has none.
pub proof fn law_one_clock_for_all(infos: Seq<VideoInfo>, i: int)
    requires
        0 <= i < infos.len(),
    ensures
        infos[i].timecode_sec.is_none() ==> source_of(infos) == ClipStartSource::CreationTime,
        (forall|k: int| 0 <= k < infos.len() ==> (#[trigger] infos[k]).timecode_sec.is_some())
            ==> source_of(infos) == ClipStartSource::Timecode,
{
}

/// Without a creation time a clip, or any clip beside a base clip that has none, cannot
/// be placed by creation times, and only then.
pub proof fn law_placing_needs_a_clock(base: VideoInfo, info: VideoInfo)
    ensures
        start_delta(ClipStartSource::CreationTime, base, info).is_some() == (
        base.creation_time.is_some() && info.creation_time.is_some()),
        base.timecode_sec.is_some() && info.timecode_sec.is_some() ==> start_delta(
            ClipStartSource::Timecode,
            base,
            info,
        ).is_some(),
{
}

/// Placing a clip changes where it starts and keeps when it was recorded, and nothing
/// else.
pub proof fn law_placing_keeps_the_rest(
    clip: ClipView,
    source: ClipStartSource,
    base: VideoInfo,
    start: Real,
    info: VideoInfo,
)
    ensures
        placed_clip(clip, source, base, start, info).video_path == clip.video_path,
        placed_clip(clip, source, base, start, info).output_path == clip.output_path,
        placed_clip(clip, source, base, start, info).video_start_utc == info.creation_time,
        placed_clip(clip, source, base, start, info).dive_start_sec == placed(
            source,
            base,
            start,
            info,
        ),
{
}

/// There is nothing to warn of where a clip starts in the dive, and else there is.
pub proof fn law_warnings_of_a_clip(
    label: Seq<char>,
    start: int,
    length: int,
    dive_times: Seq<Real>,
    first: int,
    last: int,
)
    requires
        -1_000_000_000_000 < start < 1_000_000_000_000,
        0 <= length < 1_000_000_000_000,
        -1_000_000_000_000 < first <= last < 1_000_000_000_000,
        dive_times.len() > 0,
        dive_times.first() == Real::of_int(first),
        dive_times.last() == Real::of_int(last),
    ensures
        ({
            let warnings = clip_warnings(
                label,
                Real::of_int(start),
                Some(Real::of_int(length)),
                dive_times,
            );
            let outside = start + length < first || start > last;
            warnings.len() == (if outside {
                1int
            } else {
                0
            }) + (if start < 0 {
                1int
            } else {
                0
            })
        }),
{
    lemma_signed_int_sum(start, length);
    lemma_small_int(start);
    lemma_small_int(start + length);
    lemma_small_int(first);
    lemma_small_int(last);
    lemma_small_int(0);
    let u = unit();
    let e = start + length;
    assert(e * u < first * u <==> e < first) by (nonlinear_arith)
        requires
            u > 0,
    ;
    assert(last * u < start * u <==> last < start) by (nonlinear_arith)
        requires
            u > 0,
    ;
    assert(start * u < 0 * u <==> start < 0) by (nonlinear_arith)
        requires
            u > 0,
    ;
}

/// A clip that shows a dive time at a second of its video starts that second before.
pub proof fn law_clip_starts_before_its_sync_point(
    parts: Seq<Seq<char>>,
    video_sync: int,
    csv_sync: int,
)
    requires
        parts.len() == 3 || parts.len() == 4,
        number_of(parts[1]) == Some(Real::of_int(video_sync)),
        duration_of(parts[2]) == Ok::<Real, ErrorView>(Real::of_int(csv_sync)),
        -(TWO52 as int) < video_sync < TWO52,
        -(TWO52 as int) < csv_sync < TWO52,
    ensures
        clip_start(parts) == Ok::<Real, ErrorView>(Real::of_int(csv_sync - video_sync)),
{
    lemma_signed_int_difference(csv_sync, video_sync);
}

/// Seen from a clip, its base lies as far away as the clip from its base, but on the
/// other side: what was recorded before the base is placed before it.
pub proof fn law_creation_delta_turns(base: VideoInfo, info: VideoInfo, a: UtcTime, b: UtcTime)
    requires
        base.creation_time == Some(a),
        info.creation_time == Some(b),
        a.valid(),
        b.valid(),
    ensures
        start_delta(ClipStartSource::CreationTime, base, info)->0.value() == -start_delta(
            ClipStartSource::CreationTime,
            info,
            base,
        )->0.value(),
{
    law_millis_antisymmetric(a, b);
    let m = millis_between(a, b);
    if m >= 0 {
        lemma_quotient_turns(m);
    } else {
        lemma_quotient_turns(-m);
    }
}

proof fn lemma_quotient_turns(m: int)
    requires
        m >= 0,
    ensures
        Real::of_int(-m).quotient(Real::of_int(1000)).value() == -Real::of_int(m).quotient(
            Real::of_int(1000),
        ).value(),
{
    reveal(Real::quotient);
    let d = Real::of_int(1000);
    lemma_nat_size(1000);
    let x = Real::of_int(m);
    let y = Real::of_int(-m);
    if m == 0 {
        lemma_small_int(0);
        lemma_nat_size(0);
        assert(0 * unit() == 0);
        lemma_zero_quotient(d);
        let q = x.quotient(d);
        lemma_size_order(q, q);
    } else {
        assert(nearest_magnitude((m as nat) * unit(), 1) <= INFINITE);
        assert(x.magnitude() == y.magnitude());
        assert(!x.negative() && y.negative());
        let p = x.quotient(d);
        let q = y.quotient(d);
        assert(nearest_magnitude(x.size() * unit(), d.size()) <= INFINITE);
        assert(p.magnitude() == q.magnitude());
        assert(!p.negative() && q.negative());
    }
}

/// Each clip is warned of by its own name, place and length, in the order of the clips.
pub proof fn law_each_clip_is_warned_of(
    source: ClipStartSource,
    base: VideoInfo,
    base_start: Real,
    infos: Seq<VideoInfo>,
    labels: Seq<Seq<char>>,
    dive_times: Seq<Real>,
    n: nat,
)
    requires
        n < infos.len(),
        infos.len() == labels.len(),
    ensures
        all_warnings(source, base, base_start, infos, labels, dive_times, 0) == Seq::<
            Seq<char>,
        >::empty(),
        all_warnings(source, base, base_start, infos, labels, dive_times, n + 1) == all_warnings(
            source,
            base,
            base_start,
            infos,
            labels,
            dive_times,
            n,
        ) + clip_warnings(
            labels[n as int],
            base_start.sum(start_delta(source, base, infos[n as int])->0),
            infos[n as int].duration_sec,
            dive_times,
        ),
{
}

/// Clips are placed in their order, up to the first one that cannot be placed.
pub proof fn law_first_clip_without_a_place(
    source: ClipStartSource,
    base: VideoInfo,
    infos: Seq<VideoInfo>,
    k: int,
)
    requires
        0 <= k <= infos.len(),
        forall|i: int| 0 <= i < k ==> start_delta(source, base, #[trigger] infos[i]).is_some(),
        k < infos.len() ==> start_delta(source, base, infos[k]).is_none(),
    ensures
        placeable(source, base, infos) == k,
    decreases infos.len(),
{
    if k > 0 {
        assert(start_delta(source, base, infos[0]).is_some());
        let rest = infos.skip(1);
        assert forall|i: int| 0 <= i < k - 1 implies start_delta(
            source,
            base,
            #[trigger] rest[i],
        ).is_some() by {
            assert(rest[i] == infos[i + 1]);
        }
        law_first_clip_without_a_place(source, base, rest, k - 1);
    }
}

/// A clip that is not to be placed stays as it is, and one that is gets its own place.
pub proof fn law_clips_get_their_own_places(
    clips: Seq<ClipView>,
    source: ClipStartSource,
    base: VideoInfo,
    base_start: Real,
    infos: Seq<VideoInfo>,
    n: int,
    i: int,
)
    requires
        0 <= i < clips.len(),
    ensures
        ({
            let r = placed_clips(clips, source, base, base_start, infos, n);
            &&& r.len() == clips.len()
            &&& i >= n ==> r[i] == clips[i]
            &&& i < n ==> r[i].dive_start_sec == base_start.sum(
                start_delta(source, base, infos[i])->0,
            )
            &&& i < n ==> r[i].video_path == clips[i].video_path
            &&& i < n ==> r[i].output_path == clips[i].output_path
            &&& i < n ==> r[i].video_start_utc == infos[i].creation_time
        }),
{
}

} // verus!
