//! Where clips lie in a dive.

use vstd::prelude::*;

use crate::binary64::{
    clip_u64, lemma_add_zero, lemma_negated, lemma_self_difference, lemma_signed_int_difference,
    lemma_signed_int_sum, lemma_small_int, lemma_sum_bound, lemma_zero_quotient, unit, Real,
};
use crate::csv_data::{duration_of, parse_duration_to_seconds};
use crate::error::{prefixed, CoreError, ErrorView};
use crate::ffprobe::VideoInfo;
use crate::model::{clip_views, ClipJob, ClipView};
use crate::moment::{millis_between, UtcTime};
use crate::nearest::TWO52;
use crate::number_text::number_of;
use crate::numeral::{push_decimal, push_padded};
use crate::paths::{
    derive_output_path, ends_in_file_name, file_label, has_directory, is_last_part, is_overlay_of,
};
use crate::text::{
    chars_of, decimal, padded, same_text, split, split_chars, text_of, texts, trim, trim_chars,
    views,
};

verus! {

/// The message for a clip that is not given in the right form.
pub open spec fn clip_format_message() -> Seq<char> {
    "Invalid --clip format. Expected: video_path|video_sync_sec|csv_sync_mmss[|output_path]"@
}

/// The parts of a clip as it is given, without white space around them.
pub open spec fn clip_parts(spec_text: Seq<char>) -> Seq<Seq<char>> {
    split(spec_text, '|').map_values(|p: Seq<char>| trim(p))
}

/// Where a clip starts in the dive: the dive time that a second of its video
/// shows, less that second.
pub open spec fn clip_start(parts: Seq<Seq<char>>) -> Result<Real, ErrorView> {
    if parts.len() != 3 && parts.len() != 4 {
        Err(ErrorView::InvalidClipSpec(clip_format_message()))
    } else {
        match number_of(parts[1]) {
            None => Err(
                ErrorView::InvalidClipSpec("Invalid video_sync_sec in --clip: "@ + parts[1]),
            ),
            Some(video_sync) => match duration_of(parts[2]) {
                Err(e) => Err(e),
                Ok(csv_sync) => Ok(csv_sync.difference(video_sync)),
            },
        }
    }
}

/// Whether a clip is the one that was given.
pub open spec fn given_clip(job: ClipJob, parts: Seq<Seq<char>>, start: Real) -> bool {
    &&& job.video_path@ == parts[0]
    &&& parts.len() == 4 ==> job.output_path@ == parts[3]
    &&& parts.len() == 3 && has_directory(parts[0]) ==> is_overlay_of(job.output_path@, parts[0])
    &&& job.dive_start_sec == start
    &&& job.video_start_utc == None::<UtcTime>
}

/// Reads a clip given as `video_path|video_sync_sec|csv_sync_mmss[|output_path]`.
pub fn parse_clip_spec(spec_text: &str) -> (r: Result<ClipJob, CoreError>)
    ensures
        match clip_start(clip_parts(spec_text@)) {
            Err(e) => r matches Err(f) && f@ == e,
            Ok(start) => r matches Ok(job) && given_clip(job, clip_parts(spec_text@), start),
        },
{
    let v = chars_of(spec_text);
    let pieces = split_chars(v.as_slice(), '|');
    let ghost parts = clip_parts(spec_text@);
    proof {
        assert(texts(pieces@).len() == pieces.len());
        assert(parts.len() == pieces.len());
        assert forall|i: int| 0 <= i < parts.len() implies #[trigger] parts[i] == trim(
            pieces@[i]@,
        ) by {
            assert(texts(pieces@)[i] == pieces@[i]@);
        }
    }
    if pieces.len() != 3 && pieces.len() != 4 {
        return Err(
            CoreError::InvalidClipSpec(
                "Invalid --clip format. Expected: video_path|video_sync_sec|csv_sync_mmss[|output_path]".to_owned(),
            ),
        );
    }
    let video_path = text_of(trim_chars(pieces[0].as_slice()).as_slice());
    let sync = trim_chars(pieces[1].as_slice());
    let video_sync_sec = match Real::parse(sync.as_slice()) {
        Some(x) => x,
        None => {
            return Err(
                CoreError::InvalidClipSpec(
                    prefixed(
                        "Invalid video_sync_sec in --clip: ",
                        text_of(sync.as_slice()).as_str(),
                    ),
                ),
            );
        },
    };
    let csv_text = text_of(trim_chars(pieces[2].as_slice()).as_slice());
    let csv_sync_sec = match parse_duration_to_seconds(csv_text.as_str()) {
        Ok(x) => x,
        Err(e) => {
            return Err(e);
        },
    };
    let output_path = if pieces.len() == 4 {
        text_of(trim_chars(pieces[3].as_slice()).as_slice())
    } else {
        derive_output_path(video_path.as_str(), None)
    };
    Ok(
        ClipJob {
            video_path,
            output_path,
            dive_start_sec: csv_sync_sec.minus(video_sync_sec),
            video_start_utc: None,
        },
    )
}

/// Which of a video file's two clocks clips were placed by.
#[derive(Debug, Clone, Copy, PartialEq, Eq, Structural)]
pub enum ClipStartSource {
    /// The start timecode, which counts frames.
    Timecode,
    /// The creation time, which counts whole seconds.
    CreationTime,
}

impl ClipStartSource {
    pub open spec fn name(self) -> Seq<char> {
        match self {
            ClipStartSource::Timecode => "start timecode"@,
            ClipStartSource::CreationTime => "creation time"@,
        }
    }

    pub fn label(&self) -> (r: &'static str)
        ensures
            r@ == self.name(),
    {
        match self {
            ClipStartSource::Timecode => "start timecode",
            ClipStartSource::CreationTime => "creation time",
        }
    }
}

/// The clip that the others are placed by.
pub struct AutoSyncParams<'a> {
    pub base_clip: &'a str,
}

/// Which clock clips were placed by, and what looks wrong about them.
#[derive(Debug)]
pub struct AutoSyncReport {
    pub source: ClipStartSource,
    pub warnings: Vec<String>,
}

/// The seconds between two times of day that are less than half a day apart.
pub open spec fn day_delta(from: Real, to: Real) -> Real {
    let delta = to.difference(from);
    if delta.less(Real::of_int(-43_200)) {
        delta.sum(Real::of_int(86_400))
    } else if Real::of_int(43_200).less(delta) {
        delta.difference(Real::of_int(86_400))
    } else {
        delta
    }
}

/// The seconds from one time of day to another one less than half a day away,
/// also where midnight lies between them.
pub fn timecode_delta(from: Real, to: Real) -> (r: Real)
    ensures
        r == day_delta(from, to),
{
    let day = Real::from_i64(86_400);
    let delta = to.minus(from);
    if delta.lt(Real::from_i64(-43_200)) {
        delta.plus(day)
    } else if Real::from_i64(43_200).lt(delta) {
        delta.minus(day)
    } else {
        delta
    }
}

/// The nearest whole number of seconds, without its sign.
pub open spec fn absolute_seconds(seconds: Real) -> nat {
    clip_u64(seconds.absolute().rounded()) as nat
}

/// A signed duration in minutes and seconds.
pub open spec fn signed_duration(seconds: Real) -> Seq<char> {
    let total = absolute_seconds(seconds);
    (if seconds.less(Real::of_int(0)) {
        "-"@
    } else {
        ""@
    }) + decimal(total / 60) + ":"@ + padded(total % 60, 2)
}

pub fn format_signed_duration(seconds: Real) -> (r: String)
    ensures
        r@ == signed_duration(seconds),
{
    let mut r = if seconds.lt(Real::from_i64(0)) {
        "-".to_owned()
    } else {
        "".to_owned()
    };
    let total: u64 = seconds.abs().round_u64();
    push_decimal(&mut r, total / 60);
    r.push_str(":");
    push_padded(&mut r, total % 60, 2);
    r
}

/// The clock that places clips: the timecode where every clip has one.
pub open spec fn source_of(infos: Seq<VideoInfo>) -> ClipStartSource {
    if forall|i: int| 0 <= i < infos.len() ==> (#[trigger] infos[i]).timecode_sec.is_some() {
        ClipStartSource::Timecode
    } else {
        ClipStartSource::CreationTime
    }
}

/// How much later than the base clip a clip started; `None` where the clock that
/// places clips is missing in one of the two.
pub open spec fn start_delta(source: ClipStartSource, base: VideoInfo, info: VideoInfo) -> Option<
    Real,
> {
    match source {
        ClipStartSource::Timecode => Some(
            day_delta(base.timecode_sec->0, info.timecode_sec->0),
        ),
        ClipStartSource::CreationTime => match (info.creation_time, base.creation_time) {
            (Some(start), Some(base_start)) => Some(
                Real::of_int(millis_between(base_start, start)).quotient(Real::of_int(1000)),
            ),
            _ => None,
        },
    }
}

/// Where a clip starts in the dive.
pub open spec fn placed(
    source: ClipStartSource,
    base: VideoInfo,
    base_start: Real,
    info: VideoInfo,
) -> Real {
    base_start.sum(start_delta(source, base, info)->0)
}

/// The error for a clip that cannot be placed.
pub open spec fn placing_error(info: VideoInfo, label: Seq<char>, base_label: Seq<char>) -> ErrorView {
    if info.creation_time.is_none() {
        ErrorView::Ffprobe(
            "No start timecode and no creation_time in "@ + label
                + " -- auto-sync needs one of them to place the clip"@,
        )
    } else {
        ErrorView::Ffprobe(
            "No start timecode and no creation_time in base clip "@ + base_label,
        )
    }
}

pub open spec fn no_seconds(d: Option<Real>) -> Real {
    match d {
        Some(x) => x,
        None => Real::of_int(0),
    }
}

/// The warning that a clip lies outside of the dive.
pub open spec fn outside_warning(label: Seq<char>, start: Real, first: Real, last: Real) -> Seq<char> {
    label + " lands at dive time "@ + signed_duration(start) + ", outside the logged dive ("@
        + signed_duration(first) + " to "@ + signed_duration(last)
        + "). Is it from a different dive?"@
}

/// The warning that a clip starts before the dive.
pub open spec fn early_warning(label: Seq<char>, start: Real) -> Seq<char> {
    label + " starts "@ + signed_duration(start.negated())
        + " before dive time 0:00; its first frames will show no telemetry."@
}

/// What looks wrong about where a clip lies.
pub open spec fn clip_warnings(
    label: Seq<char>,
    start: Real,
    duration: Option<Real>,
    dive_times: Seq<Real>,
) -> Seq<Seq<char>> {
    let end = start.sum(no_seconds(duration));
    let outside = dive_times.len() > 0 && (end.less(dive_times.first()) || dive_times.last().less(
        start,
    ));
    (if outside {
        seq![outside_warning(label, start, dive_times.first(), dive_times.last())]
    } else {
        seq![]
    }) + if start.less(Real::of_int(0)) {
        seq![early_warning(label, start)]
    } else {
        seq![]
    }
}

/// What looks wrong about where the first clips lie.
pub open spec fn all_warnings(
    source: ClipStartSource,
    base: VideoInfo,
    base_start: Real,
    infos: Seq<VideoInfo>,
    labels: Seq<Seq<char>>,
    dive_times: Seq<Real>,
    n: nat,
) -> Seq<Seq<char>>
    decreases n,
{
    if n == 0 {
        seq![]
    } else {
        let i = n - 1;
        all_warnings(source, base, base_start, infos, labels, dive_times, i as nat)
            + clip_warnings(
            labels[i],
            placed(source, base, base_start, infos[i]),
            infos[i].duration_sec,
            dive_times,
        )
    }
}

/// A clip where it was placed.
pub open spec fn placed_clip(
    clip: ClipView,
    source: ClipStartSource,
    base: VideoInfo,
    base_start: Real,
    info: VideoInfo,
) -> ClipView {
    ClipView {
        dive_start_sec: placed(source, base, base_start, info),
        video_start_utc: info.creation_time,
        ..clip
    }
}

/// Clips of which the first `n` have been placed.
pub open spec fn placed_clips(
    clips: Seq<ClipView>,
    source: ClipStartSource,
    base: VideoInfo,
    base_start: Real,
    infos: Seq<VideoInfo>,
    n: int,
) -> Seq<ClipView> {
    Seq::new(
        clips.len(),
        |i: int|
            if i < n {
                placed_clip(clips[i], source, base, base_start, infos[i])
            } else {
                clips[i]
            },
    )
}

/// The count of clips before the first one that cannot be placed.
pub open spec fn placeable(source: ClipStartSource, base: VideoInfo, infos: Seq<VideoInfo>) -> nat
    decreases infos.len(),
{
    if infos.len() == 0 || start_delta(source, base, infos[0]).is_none() {
        0
    } else {
        1 + placeable(source, base, infos.skip(1))
    }
}

/// What placing clips reports: the first clip that cannot be placed, or else the
/// clock that was used and what looks wrong.
pub open spec fn sync_outcome(
    r: Result<AutoSyncReport, CoreError>,
    source: ClipStartSource,
    base: VideoInfo,
    base_start: Real,
    infos: Seq<VideoInfo>,
    labels: Seq<Seq<char>>,
    base_label: Seq<char>,
    dive_times: Seq<Real>,
) -> bool {
    let k = placeable(source, base, infos) as int;
    match r {
        Err(e) => k < infos.len() && e@ == placing_error(infos[k], labels[k], base_label),
        Ok(report) => k >= infos.len() && report.source == source && views(report.warnings@)
            == all_warnings(source, base, base_start, infos, labels, dive_times, infos.len()),
    }
}

/// The position of the base clip among resolved paths.
pub fn locate_base_clip(resolved: &Vec<String>, base_resolved: &str) -> (r: Result<usize, CoreError>)
    ensures
        match r {
            Ok(i) => i < resolved.len() && resolved@[i as int]@ == base_resolved@ && forall|k: int|
                0 <= k < i ==> (#[trigger] resolved@[k])@ != base_resolved@,
            Err(e) => e@ == ErrorView::Other("--base-clip must be one of the --clip paths"@)
                && forall|k: int|
                0 <= k < resolved.len() ==> (#[trigger] resolved@[k])@ != base_resolved@,
        },
{
    let mut i: usize = 0;
    while i < resolved.len()
        invariant
            i <= resolved.len(),
            forall|k: int| 0 <= k < i ==> (#[trigger] resolved@[k])@ != base_resolved@,
        decreases resolved.len() - i,
    {
        if same_text(resolved[i].as_str(), base_resolved) {
            return Ok(i);
        }
        i += 1;
    }
    Err(CoreError::Other("--base-clip must be one of the --clip paths".to_owned()))
}

fn choose_source(infos: &Vec<VideoInfo>) -> (r: ClipStartSource)
    ensures
        r == source_of(infos@),
{
    let mut i: usize = 0;
    while i < infos.len()
        invariant
            i <= infos.len(),
            forall|k: int| 0 <= k < i ==> (#[trigger] infos@[k]).timecode_sec.is_some(),
        decreases infos.len() - i,
    {
        if infos[i].timecode_sec.is_none() {
            assert(infos@[i as int].timecode_sec.is_none());
            return ClipStartSource::CreationTime;
        }
        i += 1;
    }
    ClipStartSource::Timecode
}

fn delta_between(source: ClipStartSource, base: &VideoInfo, info: &VideoInfo) -> (r: Option<Real>)
    requires
        base.valid(),
        info.valid(),
        source == ClipStartSource::Timecode ==> base.timecode_sec.is_some()
            && info.timecode_sec.is_some(),
    ensures
        r == start_delta(source, *base, *info),
{
    match source {
        ClipStartSource::Timecode => match (base.timecode_sec, info.timecode_sec) {
            (Some(from), Some(to)) => Some(timecode_delta(from, to)),
            _ => None,
        },
        ClipStartSource::CreationTime => match (info.creation_time, base.creation_time) {
            (Some(start), Some(base_start)) => Some(
                Real::from_i64(start.millis_since(&base_start)).over(Real::from_i64(1000)),
            ),
            _ => None,
        },
    }
}

fn push_warnings(
    warnings: &mut Vec<String>,
    label: &str,
    start: Real,
    duration: Option<Real>,
    dive_times: &[Real],
)
    ensures
        views(final(warnings)@) == views(old(warnings)@) + clip_warnings(
            label@,
            start,
            duration,
            dive_times@,
        ),
{
    let ghost before = views(warnings@);
    if dive_times.len() > 0 {
        let first = dive_times[0];
        let last = dive_times[dive_times.len() - 1];
        let seconds = match duration {
            Some(x) => x,
            None => Real::from_i64(0),
        };
        let end = start.plus(seconds);
        if end.lt(first) || last.lt(start) {
            let mut w = label.to_owned();
            w.push_str(" lands at dive time ");
            w.push_str(format_signed_duration(start).as_str());
            w.push_str(", outside the logged dive (");
            w.push_str(format_signed_duration(first).as_str());
            w.push_str(" to ");
            w.push_str(format_signed_duration(last).as_str());
            w.push_str("). Is it from a different dive?");
            warnings.push(w);
            assert(views(warnings@) =~= before.push(w@));
        }
    }
    let ghost middle = views(warnings@);
    if start.lt(Real::from_i64(0)) {
        let mut w = label.to_owned();
        w.push_str(" starts ");
        w.push_str(format_signed_duration(start.neg()).as_str());
        w.push_str(" before dive time 0:00; its first frames will show no telemetry.");
        warnings.push(w);
        assert(views(warnings@) =~= middle.push(w@));
    }
    assert(views(warnings@) =~= before + clip_warnings(label@, start, duration, dive_times@));
}

proof fn lemma_placeable(source: ClipStartSource, base: VideoInfo, infos: Seq<VideoInfo>, k: int)
    requires
        0 <= k <= infos.len(),
        forall|i: int|
            0 <= i < k ==> start_delta(source, base, #[trigger] infos[i]).is_some(),
        k < infos.len() ==> start_delta(source, base, infos[k]).is_none(),
    ensures
        placeable(source, base, infos) == k,
    decreases infos.len(),
{
    if k > 0 {
        assert(start_delta(source, base, infos[0]).is_some());
        assert forall|i: int| 0 <= i < k - 1 implies start_delta(
            source,
            base,
            #[trigger] infos.skip(1)[i],
        ).is_some() by {
            assert(infos.skip(1)[i] == infos[i + 1]);
        }
        lemma_placeable(source, base, infos.skip(1), k - 1);
    }
}

/// Puts a clip at a moment of the dive.
fn put_clip(jobs: &mut Vec<ClipJob>, i: usize, start: Real, creation_time: Option<UtcTime>)
    requires
        i < old(jobs).len(),
    ensures
        clip_views(final(jobs)@) == clip_views(old(jobs)@).update(
            i as int,
            (ClipView {
                dive_start_sec: start,
                video_start_utc: creation_time,
                ..clip_views(old(jobs)@)[i as int]
            }),
        ),
        final(jobs).len() == old(jobs).len(),
{
    let job = ClipJob {
        video_path: jobs[i].video_path.clone(),
        output_path: jobs[i].output_path.clone(),
        dive_start_sec: start,
        video_start_utc: creation_time,
    };
    jobs.set(i, job);
    assert(clip_views(jobs@) =~= clip_views(old(jobs)@).update(i as int, job@));
}

proof fn lemma_placed_step(
    clips: Seq<ClipView>,
    source: ClipStartSource,
    base: VideoInfo,
    base_start: Real,
    infos: Seq<VideoInfo>,
    i: int,
)
    requires
        0 <= i < clips.len(),
    ensures
        placed_clips(clips, source, base, base_start, infos, i)[i] == clips[i],
        placed_clips(clips, source, base, base_start, infos, i).update(
            i,
            placed_clip(clips[i], source, base, base_start, infos[i]),
        ) == placed_clips(clips, source, base, base_start, infos, i + 1),
{
    assert(placed_clips(clips, source, base, base_start, infos, i).update(
        i,
        placed_clip(clips[i], source, base, base_start, infos[i]),
    ) =~= placed_clips(clips, source, base, base_start, infos, i + 1));
}

/// Places clips by how much later than the base clip each started recording,
/// given the names under which they are shown.
///
/// The base clip stays where it was put by hand. All clips are measured by the
/// same clock: the two clocks of a camera can be far apart.
#[verifier::rlimit(40)]
pub fn place_clips(
    jobs: &mut Vec<ClipJob>,
    dive_times: &[Real],
    base_index: usize,
    infos: &Vec<VideoInfo>,
    labels: &Vec<String>,
    base_label: &str,
) -> (r: Result<AutoSyncReport, CoreError>)
    requires
        base_index < old(jobs).len(),
        infos.len() == old(jobs).len(),
        labels.len() == old(jobs).len(),
        forall|i: int| 0 <= i < infos.len() ==> (#[trigger] infos@[i]).valid(),
    ensures
        ({
            let source = source_of(infos@);
            let base = infos@[base_index as int];
            let base_start = old(jobs)@[base_index as int].dive_start_sec;
            let k = placeable(source, base, infos@);
            &&& clip_views(final(jobs)@) == placed_clips(
                clip_views(old(jobs)@),
                source,
                base,
                base_start,
                infos@,
                k as int,
            )
            &&& sync_outcome(
                r,
                source,
                base,
                base_start,
                infos@,
                views(labels@),
                base_label@,
                dive_times@,
            )
        }),
{
    let source = choose_source(infos);
    let base = infos[base_index];
    let base_start = jobs[base_index].dive_start_sec;
    let ghost clips = clip_views(jobs@);
    let mut warnings: Vec<String> = Vec::new();
    let mut i: usize = 0;
    proof {
        assert(clips =~= placed_clips(clips, source, base, base_start, infos@, 0));
        assert(views(warnings@) =~= seq![]);
    }
    while i < infos.len()
        invariant
            i <= infos.len(),
            infos.len() == jobs.len(),
            labels.len() == jobs.len(),
            base_index < jobs.len(),
            clips.len() == jobs.len(),
            source == source_of(infos@),
            base == infos@[base_index as int],
            clips == clip_views(old(jobs)@),
            base_start == old(jobs)@[base_index as int].dive_start_sec,
            forall|k: int| 0 <= k < infos.len() ==> (#[trigger] infos@[k]).valid(),
            forall|k: int|
                0 <= k < i ==> start_delta(source, base, #[trigger] infos@[k]).is_some(),
            clip_views(jobs@) == placed_clips(clips, source, base, base_start, infos@, i as int),
            views(warnings@) == all_warnings(
                source,
                base,
                base_start,
                infos@,
                views(labels@),
                dive_times@,
                i as nat,
            ),
        decreases infos.len() - i,
    {
        let info = infos[i];
        let delta = match delta_between(source, &base, &info) {
            Some(d) => d,
            None => {
                proof {
                    lemma_placeable(source, base, infos@, i as int);
                }
                if info.creation_time.is_none() {
                    let mut m = prefixed(
                        "No start timecode and no creation_time in ",
                        labels[i].as_str(),
                    );
                    m.push_str(" -- auto-sync needs one of them to place the clip");
                    return Err(CoreError::Ffprobe(m));
                }
                return Err(
                    CoreError::Ffprobe(
                        prefixed(
                            "No start timecode and no creation_time in base clip ",
                            base_label,
                        ),
                    ),
                );
            },
        };
        let start = base_start.plus(delta);
        push_warnings(&mut warnings, labels[i].as_str(), start, info.duration_sec, dive_times);
        let ghost before = clip_views(jobs@);
        put_clip(jobs, i, start, info.creation_time);
        proof {
            lemma_placed_step(clips, source, base, base_start, infos@, i as int);
        }
        i += 1;
    }
    proof {
        lemma_placeable(source, base, infos@, i as int);
    }
    Ok(AutoSyncReport { source, warnings })
}

/// The names under which clips are shown.
pub open spec fn labels_fit(jobs: Seq<ClipJob>, labels: Seq<Seq<char>>) -> bool {
    &&& labels.len() == jobs.len()
    &&& forall|i: int|
        0 <= i < jobs.len() && ends_in_file_name((#[trigger] jobs[i]).video_path@) ==> is_last_part(
            labels[i],
            jobs[i].video_path@,
        )
}

/// Places clips by how much later than the base clip each started recording,
/// given what is known of their videos.
pub fn compute_auto_sync(
    jobs: &mut Vec<ClipJob>,
    dive_times: &[Real],
    params: &AutoSyncParams<'_>,
    base_index: usize,
    infos: &Vec<VideoInfo>,
) -> (r: Result<AutoSyncReport, CoreError>)
    requires
        base_index < old(jobs).len(),
        infos.len() == old(jobs).len(),
        forall|i: int| 0 <= i < infos.len() ==> (#[trigger] infos@[i]).valid(),
    ensures
        ({
            let source = source_of(infos@);
            let base = infos@[base_index as int];
            let base_start = old(jobs)@[base_index as int].dive_start_sec;
            let k = placeable(source, base, infos@);
            &&& clip_views(final(jobs)@) == placed_clips(
                clip_views(old(jobs)@),
                source,
                base,
                base_start,
                infos@,
                k as int,
            )
            &&& exists|labels: Seq<Seq<char>>, base_label: Seq<char>|
                labels_fit(old(jobs)@, labels) && (ends_in_file_name(params.base_clip@)
                    ==> is_last_part(base_label, params.base_clip@)) && #[trigger] sync_outcome(
                    r,
                    source,
                    base,
                    base_start,
                    infos@,
                    labels,
                    base_label,
                    dive_times@,
                )
        }),
{
    let mut labels: Vec<String> = Vec::new();
    let mut i: usize = 0;
    while i < jobs.len()
        invariant
            i <= jobs.len(),
            *jobs == *old(jobs),
            labels.len() == i,
            forall|k: int|
                #![trigger jobs@[k]]
                0 <= k < i && ends_in_file_name(jobs@[k].video_path@) ==> is_last_part(
                    labels@[k]@,
                    jobs@[k].video_path@,
                ),
        decreases jobs.len() - i,
    {
        labels.push(file_label(jobs[i].video_path.as_str()));
        i += 1;
    }
    let base_label = file_label(params.base_clip);
    assert(labels_fit(old(jobs)@, views(labels@)));
    place_clips(jobs, dive_times, base_index, infos, &labels, base_label.as_str())
}

/// The base clip stays where it was put by hand.
pub proof fn law_base_clip_keeps_its_place(source: ClipStartSource, base: VideoInfo, base_start: Real)
    requires
        base_start.finite(),
        source == ClipStartSource::Timecode ==> base.timecode_sec.is_some()
            && base.timecode_sec->0.finite(),
        source == ClipStartSource::CreationTime ==> base.creation_time.is_some(),
    ensures
        start_delta(source, base, base).is_some(),
        placed(source, base, base_start, base).value() == base_start.value(),
{
    let zero = Real { bits: 0 };
    lemma_small_int(43_200);
    lemma_small_int(-43_200);
    lemma_small_int(1000);
    lemma_small_int(0);
    lemma_add_zero(base_start);
    let u = unit();
    assert(-43_200 * u < 0 && 0 < 43_200 * u && 1000 * u > 0 && 0 * u == 0);
    lemma_zero_quotient(Real::of_int(1000));
    match source {
        ClipStartSource::Timecode => {
            let t = base.timecode_sec->0;
            lemma_self_difference(t);
            assert(day_delta(t, t) == zero);
        },
        ClipStartSource::CreationTime => {
            let t = base.creation_time->0;
            assert(millis_between(t, t) == 0);
        },
    }
}

/// A difference of less than a day, moved by a day towards zero where it is more
/// than half a day, is at most half a day.
proof fn lemma_wrapped(delta: Real, day: Real, low: Real, high: Real)
    requires
        delta.finite(),
        day.finite(),
        low.finite(),
        high.finite(),
        day.value() == 86_400 * unit(),
        low.value() == -43_200 * unit(),
        high.value() == 43_200 * unit(),
        -86_400 * unit() <= delta.value() <= 86_400 * unit(),
        unit() > 0,
    ensures
        ({
            let r = if delta.less(low) {
                delta.sum(day)
            } else if high.less(delta) {
                delta.difference(day)
            } else {
                delta
            };
            r.finite() && -43_200 * unit() <= r.value() <= 43_200 * unit()
        }),
{
    if delta.less(low) {
        lemma_sum_bound(delta, day, 43_200);
    } else if high.less(delta) {
        lemma_negated(day);
        lemma_sum_bound(delta, day.negated(), 43_200);
    }
}

/// The seconds between two times of day are at most half a day, in either
/// direction.
pub proof fn law_day_delta_is_short(from: Real, to: Real)
    requires
        from.finite(),
        to.finite(),
        0 <= from.value() < 86_400 * unit(),
        0 <= to.value() < 86_400 * unit(),
    ensures
        day_delta(from, to).finite(),
        -43_200 * unit() <= day_delta(from, to).value() <= 43_200 * unit(),
{
    lemma_negated(from);
    lemma_sum_bound(to, from.negated(), 86_400);
    lemma_small_int(43_200);
    lemma_small_int(-43_200);
    lemma_small_int(86_400);
    lemma_wrapped(
        to.difference(from),
        Real::of_int(86_400),
        Real::of_int(-43_200),
        Real::of_int(43_200),
    );
}

/// The dive time at the second of the video that a clip was put in sync at is the
/// one that was given, for whole seconds.
pub proof fn law_sync_point_shows_given_time(csv_sync: int, video_sync: int)
    requires
        -(TWO52 as int) < 2 * csv_sync < TWO52,
        -(TWO52 as int) < 2 * video_sync < TWO52,
    ensures
        Real::of_int(csv_sync).difference(Real::of_int(video_sync)).sum(Real::of_int(video_sync))
            == Real::of_int(csv_sync),
{
    lemma_signed_int_difference(csv_sync, video_sync);
    lemma_signed_int_sum(csv_sync - video_sync, video_sync);
}

} // verus!
