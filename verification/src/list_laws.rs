//! The list of clips: how it is filled, edited and turned into work.

use vstd::arithmetic::power2::{lemma2_to64, lemma_pow2_adds, lemma_pow2_pos, pow2};
use vstd::prelude::*;

use crate::binary64::{
    lemma_exact_shifted, lemma_negated, lemma_signed_int_difference, lemma_signed_int_sum,
    lemma_size_at_most, lemma_small_int, unit, Real,
};
use crate::csv_data::{column_map_of, duration_of, fields_of};
use crate::error::ErrorView;
use crate::model::{ClipJob, DiveSample};
use crate::nearest::{lemma_nearest_monotone, nearest_magnitude, TWO52};
use crate::number_text::number_of;
use crate::overlay_lines::overlay_lines;
use crate::pipeline::{codec_named, known_trial, name_key};
use crate::preview::{preview_refusal, previewed, typed_sync};
use crate::session::{
    config_agrees, edited_entry, first_bad_entry, first_missing, found_before, fresh_entry,
    in_recorded_order, job_agrees, last_moment, paths_added, scrubbed, start_refusal, text_before,
    with_found, ClipEntry, EntryView, FoundClip, RunConfig, Settings,
};
use crate::sync::clip_start;
use crate::text::trim;

verus! {

/// A step moves the shown moment by its length, as long as that stays inside of the
/// clip; a step over the clip's start ends there.
pub proof fn law_step_moves_by_its_length(current: int, delta: int, duration: nat)
    requires
        -(TWO52 as int) < current < TWO52,
        -(TWO52 as int) < delta < TWO52,
        -(TWO52 as int) < current + delta < TWO52,
        0 < duration < 0x1_0000_0000_0000,
    ensures
        0 <= current + delta < duration ==> scrubbed(
            Real::of_int(current),
            Real::of_int(delta),
            Real::of_int(duration as int),
        ).value() == (current + delta) * unit(),
        current + delta < 0 ==> scrubbed(
            Real::of_int(current),
            Real::of_int(delta),
            Real::of_int(duration as int),
        ) == Real::of_int(0),
        current + delta >= duration ==> scrubbed(
            Real::of_int(current),
            Real::of_int(delta),
            Real::of_int(duration as int),
        ) == last_moment(Real::of_int(duration as int)),
{
    let u = unit();
    let k = current + delta;
    let d = duration as int;
    lemma_signed_int_sum(current, delta);
    lemma_small_int(k);
    lemma_small_int(d);
    lemma_small_int(0);
    assert(0 * u == 0);
    assert(d * u > 0) by (nonlinear_arith)
        requires
            d > 0,
            u > 0,
    ;
    law_last_moment(duration);
    assert(k < 0 ==> k * u < 0) by (nonlinear_arith)
        requires
            u > 0,
    ;
    assert(k >= 0 ==> k * u >= 0) by (nonlinear_arith)
        requires
            u > 0,
    ;
    assert(k <= d - 1 ==> k * u <= (d - 1) * u) by (nonlinear_arith)
        requires
            u > 0,
    ;
    assert((32 * d - 2) * u == 32 * (d * u) - 2 * u) by (nonlinear_arith);
    assert((32 * d - 1) * u == 32 * (d * u) - u) by (nonlinear_arith);
    assert((d - 1) * u == d * u - u) by (nonlinear_arith);
    assert(k >= d ==> k * u >= d * u) by (nonlinear_arith)
        requires
            u > 0,
    ;
}

/// The last moment that can be shown lies before the clip's end, between a sixteenth
/// and a thirty-second of a second.
pub proof fn law_last_moment(duration: nat)
    requires
        0 < duration < 0x1_0000_0000_0000,
    ensures
        last_moment(Real::of_int(duration as int)).finite(),
        (32 * duration - 2) * unit() <= 32 * last_moment(Real::of_int(duration as int)).value() <= (
        32 * duration - 1) * unit(),
{
    reveal(Real::sum);
    let u = unit();
    let d = duration as int;
    let p = pow2(1069);
    lemma_pow2_adds(5, 1069);
    lemma2_to64();
    lemma_pow2_pos(1069);
    assert(u == 32 * p);
    lemma_small_int(d);
    lemma_twentieth();
    let step = Real::of_ratio(5, 100);
    lemma_negated(step);
    let end = Real::of_int(d);
    let r = end.difference(step);
    let exact = end.value() - step.value();
    let lo = (32 * d - 2) as nat;
    let hi = (32 * d - 1) as nat;
    assert(d * u == (32 * d) * p) by (nonlinear_arith)
        requires
            u == 32 * p,
    ;
    assert(lo * p == (32 * d) * p - 2 * p) by (nonlinear_arith)
        requires
            lo == 32 * d - 2,
    ;
    assert(hi * p == (32 * d) * p - p) by (nonlinear_arith)
        requires
            hi == 32 * d - 1,
    ;
    assert(lo * p > 0) by (nonlinear_arith)
        requires
            lo > 0,
            p > 0,
    ;
    lemma_exact_shifted(lo, 1069);
    lemma_exact_shifted(hi, 1069);
    lemma_nearest_monotone(lo * p, 1, exact as nat, 1);
    lemma_nearest_monotone(exact as nat, 1, hi * p, 1);
    assert(r.magnitude() == nearest_magnitude(exact as nat, 1));
    lemma_size_at_most(nearest_magnitude(lo * p, 1), r.magnitude());
    lemma_size_at_most(r.magnitude(), nearest_magnitude(hi * p, 1));
    assert(lo * u == 32 * (lo * p)) by (nonlinear_arith)
        requires
            u == 32 * p,
    ;
    assert(hi * u == 32 * (hi * p)) by (nonlinear_arith)
        requires
            u == 32 * p,
    ;
}

/// A twentieth lies between a thirty-second and a sixteenth.
proof fn lemma_twentieth()
    ensures
        Real::of_ratio(5, 100).finite(),
        pow2(1069) <= Real::of_ratio(5, 100).value() <= 2 * pow2(1069),
{
    let u = unit();
    let p = pow2(1069);
    lemma_pow2_adds(5, 1069);
    lemma2_to64();
    lemma_pow2_pos(1069);
    assert(u == 32 * p);
    let r = Real::of_ratio(5, 100);
    lemma_exact_shifted(1, 1069);
    lemma_exact_shifted(2, 1069);
    lemma_nearest_monotone(1 * p, 1, 5 * u, 100);
    lemma_nearest_monotone(5 * u, 100, 2 * p, 1);
    assert(r.magnitude() == nearest_magnitude(5 * u, 100));
    lemma_size_at_most(nearest_magnitude(1 * p, 1), r.magnitude());
    lemma_size_at_most(r.magnitude(), nearest_magnitude(2 * p, 1));
}

/// The files of a list are those that were found, in another order.
pub proof fn law_found_files_stay(files: Seq<FoundClip>)
    ensures
        in_recorded_order(files).to_multiset() == files.to_multiset(),
        in_recorded_order(files).len() == files.len(),
    decreases files.len(),
{
    if files.len() > 0 {
        let rest = files.drop_last();
        law_found_files_stay(rest);
        lemma_with_found_keeps(in_recorded_order(rest), files.last());
        assert(files =~= rest.push(files.last()));
        rest.to_multiset_ensures();
        in_recorded_order(rest).to_multiset_ensures();
    } else {
        assert(in_recorded_order(files) =~= files);
    }
}

proof fn lemma_with_found_keeps(files: Seq<FoundClip>, x: FoundClip)
    ensures
        with_found(files, x).to_multiset() == files.push(x).to_multiset(),
        with_found(files, x).len() == files.len() + 1,
    decreases files.len(),
{
    if files.len() > 0 && found_before(x, files.last()) {
        let rest = files.drop_last();
        let last = files.last();
        lemma_with_found_keeps(rest, x);
        with_found(rest, x).to_multiset_ensures();
        rest.to_multiset_ensures();
        files.to_multiset_ensures();
        assert(files =~= rest.push(last));
        assert(with_found(files, x).to_multiset() =~= files.push(x).to_multiset());
    }
}

/// Whether files stand in the order of their times, those without one first.
pub open spec fn by_time(files: Seq<FoundClip>) -> bool {
    forall|i: int, j: int|
        #![trigger files[i], files[j]]
        0 <= i < j < files.len() ==> (files[j].recorded_at.is_none()
            ==> files[i].recorded_at.is_none()) && (files[i].recorded_at.is_some()
            && files[j].recorded_at.is_some() ==> files[i].recorded_at->0
            <= files[j].recorded_at->0)
}

/// Files are listed in the order in which they were recorded; those whose time is not
/// known come first.
pub proof fn law_files_by_time(files: Seq<FoundClip>)
    ensures
        by_time(in_recorded_order(files)),
    decreases files.len(),
{
    if files.len() > 0 {
        let rest = files.drop_last();
        law_files_by_time(rest);
        lemma_with_found_by_time(in_recorded_order(rest), files.last());
    }
}

proof fn lemma_with_found_by_time(files: Seq<FoundClip>, x: FoundClip)
    requires
        by_time(files),
    ensures
        by_time(with_found(files, x)),
        forall|i: int|
            0 <= i < with_found(files, x).len() ==> (#[trigger] with_found(files, x)[i]) == x
                || files.contains(with_found(files, x)[i]),
    decreases files.len(),
{
    let r = with_found(files, x);
    if files.len() > 0 && found_before(x, files.last()) {
        let rest = files.drop_last();
        let last = files.last();
        lemma_with_found_keeps(rest, x);
        assert forall|i: int, j: int|
            #![trigger rest[i], rest[j]]
            0 <= i < j < rest.len() implies (rest[j].recorded_at.is_none()
            ==> rest[i].recorded_at.is_none()) && (rest[i].recorded_at.is_some()
            && rest[j].recorded_at.is_some() ==> rest[i].recorded_at->0
            <= rest[j].recorded_at->0) by {
            assert(rest[i] == files[i] && rest[j] == files[j]);
        }
        lemma_with_found_by_time(rest, x);
        let head = with_found(rest, x);
        assert forall|i: int| 0 <= i < r.len() implies (#[trigger] r[i]) == x || files.contains(
            r[i],
        ) by {
            if i < head.len() {
                assert(r[i] == head[i]);
                if head[i] != x {
                    assert(rest.contains(head[i]));
                    let k = choose|k: int| 0 <= k < rest.len() && rest[k] == head[i];
                    assert(files[k] == head[i]);
                }
            } else {
                assert(files[files.len() - 1] == r[i]);
            }
        }
        assert forall|i: int, j: int|
            #![trigger r[i], r[j]]
            0 <= i < j < r.len() implies (r[j].recorded_at.is_none()
            ==> r[i].recorded_at.is_none()) && (r[i].recorded_at.is_some()
            && r[j].recorded_at.is_some() ==> r[i].recorded_at->0 <= r[j].recorded_at->0) by {
            assert(r[i] == head[i]);
            if j < head.len() {
                assert(r[j] == head[j]);
            } else {
                assert(r[j] == last);
                if head[i] != x {
                    assert(rest.contains(head[i]));
                    let k = choose|k: int| 0 <= k < rest.len() && rest[k] == head[i];
                    assert(files[k] == head[i]);
                    assert(files[files.len() - 1] == last);
                }
            }
        }
    } else {
        assert forall|i: int| 0 <= i < r.len() implies (#[trigger] r[i]) == x || files.contains(
            r[i],
        ) by {
            if i < files.len() {
                assert(files[i] == r[i]);
            }
        }
        assert forall|i: int, j: int|
            #![trigger r[i], r[j]]
            0 <= i < j < r.len() implies (r[j].recorded_at.is_none()
            ==> r[i].recorded_at.is_none()) && (r[i].recorded_at.is_some()
            && r[j].recorded_at.is_some() ==> r[i].recorded_at->0 <= r[j].recorded_at->0) by {
            assert(r[i] == files[i]);
            if j < files.len() {
                assert(r[j] == files[j]);
            } else {
                let last = files[files.len() - 1];
                assert(r[j] == x);
            }
        }
    }
}

/// Of two files of the same time the one whose name comes first is listed first.
pub proof fn law_files_of_one_time(a: FoundClip, b: FoundClip)
    requires
        a.recorded_at == b.recorded_at,
        text_before(a.name@, b.name@),
        !text_before(b.name@, a.name@),
    ensures
        in_recorded_order(seq![a, b]) == seq![a, b],
        in_recorded_order(seq![b, a]) == seq![a, b],
{
    reveal_with_fuel(in_recorded_order, 3);
    reveal_with_fuel(with_found, 3);
    let s = seq![a, b];
    let t = seq![b, a];
    assert(s.drop_last() =~= seq![a]);
    assert(s.drop_last().drop_last() =~= seq![]);
    assert(t.drop_last() =~= seq![b]);
    assert(t.drop_last().drop_last() =~= seq![]);
    assert(in_recorded_order(seq![a]) =~= seq![a]);
    assert(in_recorded_order(seq![b]) =~= seq![b]);
    assert(in_recorded_order(s) =~= seq![a, b]);
    assert(seq![b].drop_last() =~= seq![]);
    assert(with_found(seq![b].drop_last(), a) =~= seq![a]);
    assert(in_recorded_order(t) =~= seq![a, b]);
}

/// A text comes before another one where the first character that differs is smaller,
/// or where it is the beginning of the other one.
pub proof fn law_order_of_texts(a: Seq<char>, b: Seq<char>, k: int)
    requires
        0 <= k <= a.len(),
        k <= b.len(),
        a.take(k) == b.take(k),
    ensures
        k < a.len() && k < b.len() && a[k] != b[k] ==> text_before(a, b) == ((
        a[k] as u32) < (b[k] as u32)),
        k == a.len() ==> text_before(a, b) == (a.len() < b.len()),
        k == b.len() ==> !text_before(a, b),
    decreases k,
{
    if k > 0 {
        assert(a.take(k)[0] == a[0] && b.take(k)[0] == b[0]);
        assert(a.skip(1).take(k - 1) =~= a.take(k).skip(1));
        assert(b.skip(1).take(k - 1) =~= b.take(k).skip(1));
        assert(k < a.len() ==> a.skip(1)[k - 1] == a[k]);
        assert(k < b.len() ==> b.skip(1)[k - 1] == b[k]);
        law_order_of_texts(a.skip(1), b.skip(1), k - 1);
    }
}

/// Every found video is listed then, and what was listed before stays in front.
pub proof fn law_found_videos_are_listed(paths: Seq<Seq<char>>, files: Seq<FoundClip>)
    ensures
        paths.is_prefix_of(paths_added(paths, files)),
        forall|i: int|
            0 <= i < files.len() ==> paths_added(paths, files).contains((#[trigger] files[i]).path@),
    decreases files.len(),
{
    if files.len() > 0 {
        let rest = files.drop_last();
        law_found_videos_are_listed(paths, rest);
        let before = paths_added(paths, rest);
        let after = paths_added(paths, files);
        assert(before.is_prefix_of(after));
        assert(after.take(paths.len() as int) =~= before.take(paths.len() as int));
        assert forall|i: int| 0 <= i < files.len() implies after.contains(
            (#[trigger] files[i]).path@,
        ) by {
            if i < rest.len() {
                assert(rest[i] == files[i]);
                assert(before.contains(files[i].path@));
                let k = choose|k: int| 0 <= k < before.len() && before[k] == files[i].path@;
                assert(after[k] == before[k]);
            } else if !before.contains(files.last().path@) {
                assert(after[before.len() as int] == files[i].path@);
            }
        }
    }
}

/// The video that is told missing is the first one that is not there.
pub proof fn law_first_missing_video(entries: Seq<ClipEntry>, exist: Seq<bool>, k: int)
    requires
        entries.len() == exist.len(),
        0 <= k <= entries.len(),
        forall|i: int| 0 <= i < k ==> #[trigger] exist[i],
    ensures
        k < entries.len() && !exist[k] ==> first_missing(entries, exist) == Some(
            entries[k].video_path@,
        ),
        k == entries.len() ==> first_missing(entries, exist).is_none(),
    decreases entries.len(),
{
    if entries.len() > 0 && k > 0 {
        assert(exist[0]);
        assert forall|i: int| 0 <= i < k - 1 implies #[trigger] exist.skip(1)[i] by {
            assert(exist[i + 1]);
        }
        law_first_missing_video(entries.skip(1), exist.skip(1), k - 1);
    }
}

/// A run starts exactly where nothing is missing that it needs.
pub proof fn law_run_starts_when_ready(
    s: Settings,
    entries: Seq<ClipEntry>,
    csv_exists: bool,
    videos_exist: Seq<bool>,
)
    requires
        entries.len() == videos_exist.len(),
    ensures
        start_refusal(s, entries, csv_exists, videos_exist).is_none() == (trim(s.csv_path@).len()
            > 0 && csv_exists && entries.len() > 0 && fields_of(s.fields@).is_ok() && column_map_of(
            s.column_map@,
        ).is_ok() && all_there(videos_exist) && codec_named(name_key(s.codec@)).is_some() && (
        s.merge_enabled ==> trim(s.merge_output@).len() > 0) && (s.auto_sync ==> s.base_clip_index
            < entries.len() && number_of(trim(s.base_video_sync@)).is_some())),
{
    if all_there(videos_exist) {
        law_first_missing_video(entries, videos_exist, entries.len() as int);
    } else {
        lemma_some_missing(entries, videos_exist);
    }
}

/// Whether all videos are there.
pub open spec fn all_there(exist: Seq<bool>) -> bool {
    forall|i: int| 0 <= i < exist.len() ==> #[trigger] exist[i]
}

proof fn lemma_some_missing(entries: Seq<ClipEntry>, exist: Seq<bool>)
    requires
        entries.len() == exist.len(),
        exists|i: int| 0 <= i < entries.len() && !#[trigger] exist[i],
    ensures
        first_missing(entries, exist).is_some(),
    decreases entries.len(),
{
    let i = choose|i: int| 0 <= i < entries.len() && !#[trigger] exist[i];
    if exist[0] {
        assert(!exist.skip(1)[i - 1]);
        lemma_some_missing(entries.skip(1), exist.skip(1));
    }
}

/// A clip starts in the dive as long before the dive time that it is in sync with as
/// the video takes to get there.
pub proof fn law_start_of_a_clip(
    e: EntryView,
    parts: Seq<Seq<char>>,
    job: ClipJob,
    video_sync: int,
    csv_sync: int,
)
    requires
        -(TWO52 as int) < video_sync < TWO52,
        -(TWO52 as int) < csv_sync < TWO52,
        e.video_sync_sec == Real::of_int(video_sync),
        duration_of(e.csv_sync_mmss) == Ok::<Real, ErrorView>(Real::of_int(csv_sync)),
        parts.len() == 3 || parts.len() == 4,
        number_of(parts[1]) == Some(Real::of_int(video_sync)),
        duration_of(parts[2]) == Ok::<Real, ErrorView>(Real::of_int(csv_sync)),
    ensures
        job_agrees(job, e) ==> job.dive_start_sec == Real::of_int(csv_sync - video_sync)
            && job.video_path@ == e.video_path,
        clip_start(parts) == Ok::<Real, ErrorView>(Real::of_int(csv_sync - video_sync)),
{
    lemma_signed_int_difference(csv_sync, video_sync);
}

/// The first clip whose time cannot be read is found: all before it can be.
pub proof fn law_first_bad_clip(entries: Seq<EntryView>, k: int)
    requires
        0 <= k <= entries.len(),
        forall|i: int|
            0 <= i < k ==> duration_of((#[trigger] entries[i]).csv_sync_mmss).is_ok(),
        k < entries.len() ==> duration_of(entries[k].csv_sync_mmss).is_err(),
    ensures
        first_bad_entry(entries) == k,
    decreases entries.len(),
{
    if k > 0 {
        assert(duration_of(entries[0].csv_sync_mmss).is_ok());
        let rest = entries.skip(1);
        assert forall|i: int| 0 <= i < k - 1 implies duration_of(
            (#[trigger] rest[i]).csv_sync_mmss,
        ).is_ok() by {
            assert(rest[i] == entries[i + 1]);
        }
        law_first_bad_clip(rest, k - 1);
    }
}

/// An edited clip is taken exactly where it has a video, an output, a second of the
/// video and a time of the dive; it keeps them without the space around them.
pub proof fn law_edited_clip(
    video: Seq<char>,
    video_sync: Seq<char>,
    csv_sync: Seq<char>,
    output: Seq<char>,
)
    ensures
        ({
            let r = edited_entry(video, video_sync, csv_sync, output);
            &&& r.is_ok() == (trim(video).len() > 0 && trim(output).len() > 0 && number_of(
                trim(video_sync),
            ).is_some() && duration_of(trim(csv_sync)).is_ok())
            &&& r.is_ok() ==> r->Ok_0.video_path == trim(video)
            &&& r.is_ok() ==> r->Ok_0.output_path == trim(output)
            &&& r.is_ok() ==> r->Ok_0.csv_sync_mmss == trim(csv_sync)
            &&& r.is_ok() ==> Some(r->Ok_0.video_sync_sec) == number_of(trim(video_sync))
        }),
{
}

/// A clip can be previewed exactly where it is in the list, its video and the log are
/// there, and the log can be read.
pub proof fn law_preview_needs(
    entries: Seq<ClipEntry>,
    idx: nat,
    video_exists: bool,
    csv_path: Seq<char>,
    csv_exists: bool,
    column_map: Seq<char>,
)
    ensures
        preview_refusal(entries, idx, video_exists, csv_path, csv_exists, column_map).is_none() == (
        idx < entries.len() && video_exists && csv_exists && trim(csv_path).len() > 0
            && column_map_of(column_map).is_ok()),
{
}

/// A preview shows the moment of the dive that the clip is in sync with, and the lines
/// of that moment.
pub proof fn law_preview_shows_its_sync_point(
    entries: Seq<ClipEntry>,
    idx: nat,
    fields: Seq<char>,
    samples: Seq<DiveSample>,
    times: Seq<Real>,
    interpolate: bool,
)
    requires
        idx < entries.len(),
    ensures
        ({
            let r = previewed(entries, idx, fields, samples, times, interpolate);
            let moment = duration_of(entries[idx as int].csv_sync_mmss@);
            &&& r.is_ok() == (fields_of(fields).is_ok() && moment.is_ok())
            &&& r.is_ok() ==> r->Ok_0.0 == moment->Ok_0
            &&& r.is_ok() ==> r->Ok_0.1 == overlay_lines(
                fields_of(fields)->Ok_0,
                samples,
                times,
                moment->Ok_0,
                interpolate,
            )
        }),
{
}

/// A typed sync point changes that of its clip once it is a time, and nothing else.
pub proof fn law_typed_sync_point(entries: Seq<EntryView>, idx: nat, text: Seq<char>, i: int)
    requires
        0 <= i < entries.len(),
    ensures
        ({
            let r = typed_sync(entries, idx, text);
            &&& r.len() == entries.len()
            &&& i != idx ==> r[i] == entries[i]
            &&& r[i].video_path == entries[i].video_path
            &&& r[i].output_path == entries[i].output_path
            &&& r[i].video_sync_sec == entries[i].video_sync_sec
            &&& i == idx && duration_of(text).is_ok() ==> r[i].csv_sync_mmss == text
            &&& duration_of(text).is_err() ==> r[i] == entries[i]
        }),
{
}

/// A run does what was asked for: it draws the fields, the graph and the curve that were
/// chosen, in the size and the way that were chosen, and joins clips and places them by
/// their clocks where that was asked for.
pub proof fn law_run_is_as_asked(c: RunConfig, s: Settings, entries: Seq<ClipEntry>)
    requires
        config_agrees(c, s, entries),
    ensures
        c.csv_path@ == trim(s.csv_path@),
        fields_of(s.fields@).is_ok(),
        c.options.fields@ == fields_of(s.fields@)->Ok_0,
        c.options.show_graph == s.show_graph,
        c.options.interpolate == s.interpolate,
        c.options.resolution == s.resolution,
        c.options.mode == s.mode,
        c.options.hw_accel == s.hw_accel,
        Some(c.options.codec) == codec_named(name_key(s.codec@)),
        c.merge_output.is_some() == s.merge_enabled,
        c.auto_sync.is_some() == s.auto_sync,
        s.auto_sync ==> c.auto_sync->0.base_clip@ == entries[s.base_clip_index as int].video_path@,
{
}

/// A video that was found starts in sync at the start of both the video and the dive.
pub proof fn law_new_clips_start_at_zero(e: ClipEntry)
    requires
        fresh_entry(e),
    ensures
        e.video_sync_sec == Real::of_int(0),
        e.csv_sync_mmss@ == "0:00"@,
{
}

/// The outcome of a trial is known once it was noted, for its encoder and its size of
/// frames alone.
pub proof fn law_noted_trial_is_known(
    entries: Seq<(String, u32, u32, bool)>,
    entry: (String, u32, u32, bool),
    name: Seq<char>,
    width: u32,
    height: u32,
)
    ensures
        known_trial(seq![], name, width, height).is_none(),
        known_trial(entries.push(entry), entry.0@, entry.1, entry.2) == Some(entry.3),
        name != entry.0@ || width != entry.1 || height != entry.2 ==> known_trial(
            entries.push(entry),
            name,
            width,
            height,
        ) == known_trial(entries, name, width, height),
{
    assert(entries.push(entry).drop_last() =~= entries);
}

} // verus!
