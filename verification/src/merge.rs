//! Joining the clips of one dive into a single video.

use vstd::prelude::*;

use crate::binary64::Real;
use crate::clip_run::{ensure_output_differs_from_input, same_file, subtitle_seconds};
use crate::error::{CoreError, ErrorView};
use crate::ffprobe::VideoInfo;
use crate::model::{clip_views, ClipJob, ClipView};
use crate::moment::UtcTime;
use crate::number_text::fixed;
use crate::numeral::{lemma_padded, parse_signed, push_decimal, push_padded, signed_of};
use crate::paths::{
    file_in, has_directory, is_file_in, is_file_name, is_parts_of, is_plain_directory,
    parts_directory,
};
use crate::pipeline::{push_args, OutputMode};
use crate::subtitle::{concat_srt, cues_text, part_cues, SrtPart};
use crate::text::{
    chars_of, decimal, find, find_char, is_digit, padded, part, replace_char, replace_chars,
    same_text, str_views, text_of, trim, trim_chars, views,
};

verus! {

/// Whether a moment that may not be known is at or before another one; one that
/// is not known comes first.
pub open spec fn moment_at_most(a: Option<UtcTime>, b: Option<UtcTime>) -> bool {
    match (a, b) {
        (None, _) => true,
        (Some(_), None) => false,
        (Some(x), Some(y)) => !y.earlier(x),
    }
}

fn moment_le(a: &Option<UtcTime>, b: &Option<UtcTime>) -> (r: bool)
    ensures
        r == moment_at_most(*a, *b),
{
    match (a, b) {
        (None, _) => true,
        (Some(_), None) => false,
        (Some(x), Some(y)) => !y.is_earlier(x),
    }
}

/// Whether a clip comes at or before another one: by where they start in the
/// dive, and where neither starts before the other by when they were recorded.
pub open spec fn clip_at_most(a: ClipView, b: ClipView) -> bool {
    a.dive_start_sec.less(b.dive_start_sec) || (!b.dive_start_sec.less(a.dive_start_sec)
        && moment_at_most(a.video_start_utc, b.video_start_utc))
}

/// Clips in the order of the dive with one more put in its place: after those
/// that are not later.
pub open spec fn with_clip(clips: Seq<ClipView>, x: ClipView) -> Seq<ClipView>
    decreases clips.len(),
{
    if clips.len() == 0 || clip_at_most(clips.last(), x) {
        clips.push(x)
    } else {
        with_clip(clips.drop_last(), x).push(clips.last())
    }
}

/// Clips in the order of the dive; those that come at once keep their order.
pub open spec fn in_dive_order(clips: Seq<ClipView>) -> Seq<ClipView>
    decreases clips.len(),
{
    if clips.len() == 0 {
        seq![]
    } else {
        with_clip(in_dive_order(clips.drop_last()), clips.last())
    }
}

/// Whether clips have an order: each starts at some moment of the dive.
pub open spec fn clips_ordered(clips: Seq<ClipView>) -> bool {
    forall|i: int| 0 <= i < clips.len() ==> !(#[trigger] clips[i]).dive_start_sec.nan()
}

fn insert_clip(jobs: &mut Vec<ClipJob>, x: ClipJob)
    ensures
        clip_views(final(jobs)@) == with_clip(clip_views(old(jobs)@), x@),
        final(jobs).len() == old(jobs).len() + 1,
{
    let ghost s = clip_views(jobs@);
    let mut at: usize = jobs.len();
    proof {
        assert(s.take(at as int) =~= s);
        assert(with_clip(s, x@) =~= with_clip(s, x@) + s.skip(at as int));
    }
    while at > 0 && !(jobs[at - 1].dive_start_sec.lt(x.dive_start_sec)
        || (!x.dive_start_sec.lt(jobs[at - 1].dive_start_sec) && moment_le(
        &jobs[at - 1].video_start_utc,
        &x.video_start_utc,
    )))
        invariant
            at <= jobs.len(),
            *jobs == *old(jobs),
            s == clip_views(jobs@),
            with_clip(s, x@) == with_clip(s.take(at as int), x@) + s.skip(at as int),
        decreases at,
    {
        proof {
            let t = s.take(at as int);
            assert(t.drop_last() =~= s.take(at - 1));
            assert(t.last() == jobs@[at - 1]@);
            assert(with_clip(t, x@) + s.skip(at as int) =~= with_clip(s.take(at - 1), x@) + s.skip(
                at - 1,
            ));
        }
        at -= 1;
    }
    proof {
        if at > 0 {
            assert(s.take(at as int).last() == jobs@[at - 1]@);
        }
        assert(s.insert(at as int, x@) =~= s.take(at as int).push(x@) + s.skip(at as int));
    }
    jobs.insert(at, x);
    assert(clip_views(jobs@) =~= s.insert(at as int, x@));
}

/// Puts clips in the order in which they happened during the dive.
pub fn sort_jobs_chronologically(jobs: &mut Vec<ClipJob>)
    ensures
        clip_views(final(jobs)@) == in_dive_order(clip_views(old(jobs)@)),
        final(jobs).len() == old(jobs).len(),
{
    let ghost s = clip_views(jobs@);
    let mut sorted: Vec<ClipJob> = Vec::new();
    assert(clip_views(sorted@) =~= in_dive_order(s.take(0)));
    assert(s.skip(0) =~= s);
    while jobs.len() > 0
        invariant
            s == clip_views(old(jobs)@),
            sorted.len() + jobs.len() == s.len(),
            clip_views(sorted@) == in_dive_order(s.take(sorted@.len() as int)),
            clip_views(jobs@) == s.skip(sorted@.len() as int),
        decreases jobs.len(),
    {
        let ghost k = sorted@.len() as int;
        let ghost rest = jobs@;
        let x = jobs.remove(0);
        proof {
            assert(clip_views(rest)[0] == x@);
            assert(s[k] == x@);
            assert(s.take(k + 1).drop_last() =~= s.take(k));
            assert(s.take(k + 1).last() == x@);
            assert forall|i: int| 0 <= i < jobs@.len() implies clip_views(jobs@)[i] == s.skip(k + 1)[i] by {
                assert(clip_views(rest)[i + 1] == rest[i + 1]@);
                assert(s.skip(k)[i + 1] == s[k + i + 1]);
            }
            assert(clip_views(jobs@) =~= s.skip(k + 1));
        }
        insert_clip(&mut sorted, x);
    }
    assert(s.take(sorted@.len() as int) =~= s);
    *jobs = sorted;
}

/// Sorting keeps every clip.
pub proof fn law_sorting_keeps_clips(clips: Seq<ClipView>)
    ensures
        in_dive_order(clips).to_multiset() == clips.to_multiset(),
        in_dive_order(clips).len() == clips.len(),
    decreases clips.len(),
{
    if clips.len() > 0 {
        let rest = clips.drop_last();
        law_sorting_keeps_clips(rest);
        lemma_with_clip_keeps(in_dive_order(rest), clips.last());
        assert(clips =~= rest.push(clips.last()));
        rest.to_multiset_ensures();
        in_dive_order(rest).to_multiset_ensures();
    } else {
        assert(in_dive_order(clips) =~= clips);
    }
}

proof fn lemma_with_clip_keeps(clips: Seq<ClipView>, x: ClipView)
    ensures
        with_clip(clips, x).to_multiset() == clips.push(x).to_multiset(),
        with_clip(clips, x).len() == clips.len() + 1,
    decreases clips.len(),
{
    if clips.len() > 0 && !clip_at_most(clips.last(), x) {
        let rest = clips.drop_last();
        lemma_with_clip_keeps(rest, x);
        with_clip(rest, x).to_multiset_ensures();
        rest.to_multiset_ensures();
        rest.push(x).to_multiset_ensures();
        clips.to_multiset_ensures();
        assert(clips =~= rest.push(clips.last()));
    }
}

/// Whether each clip comes at or before every later one.
pub open spec fn chronological(clips: Seq<ClipView>) -> bool {
    forall|i: int, j: int|
        #![trigger clips[i], clips[j]]
        0 <= i <= j < clips.len() ==> clip_at_most(clips[i], clips[j])
}

/// Sorted clips come one after the other in the dive.
pub proof fn law_sorting_orders_clips(clips: Seq<ClipView>)
    requires
        clips_ordered(clips),
    ensures
        chronological(in_dive_order(clips)),
        clips_ordered(in_dive_order(clips)),
    decreases clips.len(),
{
    if clips.len() > 0 {
        let rest = clips.drop_last();
        assert(clips_ordered(rest)) by {
            assert forall|i: int| 0 <= i < rest.len() implies !(#[trigger] rest[i]).dive_start_sec.nan() by {
                assert(rest[i] == clips[i]);
            }
        }
        law_sorting_orders_clips(rest);
        assert(!clips[clips.len() - 1].dive_start_sec.nan());
        lemma_with_clip_orders(in_dive_order(rest), clips.last());
    }
}

proof fn lemma_clip_order(a: ClipView, b: ClipView, c: ClipView)
    requires
        !a.dive_start_sec.nan(),
        !b.dive_start_sec.nan(),
        !c.dive_start_sec.nan(),
    ensures
        clip_at_most(a, a),
        clip_at_most(a, b) || clip_at_most(b, a),
        clip_at_most(a, b) && clip_at_most(b, c) ==> clip_at_most(a, c),
{
}

proof fn lemma_with_clip_orders(clips: Seq<ClipView>, x: ClipView)
    requires
        chronological(clips),
        clips_ordered(clips),
        !x.dive_start_sec.nan(),
    ensures
        chronological(with_clip(clips, x)),
        clips_ordered(with_clip(clips, x)),
        forall|i: int|
            #![trigger with_clip(clips, x)[i]]
            0 <= i < with_clip(clips, x).len() ==> with_clip(clips, x)[i] == x || clips.contains(
                with_clip(clips, x)[i],
            ),
    decreases clips.len(),
{
    let r = with_clip(clips, x);
    if clips.len() == 0 || clip_at_most(clips.last(), x) {
        assert forall|i: int| #![trigger r[i]] 0 <= i < r.len() implies !r[i].dive_start_sec.nan()
            && (r[i] == x || clips.contains(r[i])) by {
            if i < clips.len() {
                assert(r[i] == clips[i]);
            }
        }
        assert forall|i: int, j: int| #![trigger r[i], r[j]] 0 <= i <= j < r.len() implies clip_at_most(
            r[i],
            r[j],
        ) by {
            lemma_clip_order(r[i], r[i], r[i]);
            if j < clips.len() {
                assert(clip_at_most(clips[i], clips[j]));
            } else if i < clips.len() {
                assert(clip_at_most(clips[i], clips[clips.len() - 1]));
                lemma_clip_order(clips[i], clips.last(), x);
            }
        }
    } else {
        let rest = clips.drop_last();
        let last = clips.last();
        assert(clips[clips.len() - 1] == last);
        assert forall|i: int| 0 <= i < rest.len() implies #[trigger] rest[i] == clips[i] by {}
        assert forall|i: int| 0 <= i < rest.len() implies !(#[trigger] rest[i]).dive_start_sec.nan() by {
            assert(rest[i] == clips[i]);
        }
        assert(chronological(rest)) by {
            assert forall|i: int, j: int| #![trigger rest[i], rest[j]] 0 <= i <= j < rest.len() implies clip_at_most(
                rest[i],
                rest[j],
            ) by {
                assert(clip_at_most(clips[i], clips[j]));
            }
        }
        lemma_with_clip_orders(rest, x);
        let inner = with_clip(rest, x);
        lemma_clip_order(x, last, last);
        lemma_clip_order(last, last, last);
        assert forall|i: int| #![trigger r[i]] 0 <= i < r.len() implies !r[i].dive_start_sec.nan()
            && (r[i] == x || clips.contains(r[i])) && clip_at_most(r[i], last) by {
            if i < inner.len() {
                assert(r[i] == inner[i]);
                if inner[i] != x {
                    let k = choose|k: int| 0 <= k < rest.len() && rest[k] == inner[i];
                    assert(clips[k] == inner[i]);
                    assert(clip_at_most(clips[k], clips[clips.len() - 1]));
                }
            } else {
                assert(r[i] == last);
            }
        }
        assert forall|i: int, j: int| #![trigger r[i], r[j]] 0 <= i <= j < r.len() implies clip_at_most(
            r[i],
            r[j],
        ) by {
            if j < inner.len() {
                assert(clip_at_most(inner[i], inner[j]));
                assert(r[i] == inner[i] && r[j] == inner[j]);
            } else {
                assert(r[j] == last);
            }
        }
    }
}

/// Where the results of single clips are kept until they are joined.
#[derive(Debug, Clone)]
pub struct MergePlan {
    pub parts_dir: String,
    /// The files in the order of the clips.
    pub part_paths: Vec<String>,
}

/// The name of the file for a clip's result.
pub open spec fn part_name(i: nat) -> Seq<char> {
    "part_"@ + padded(i, 3) + ".mp4"@
}

/// Different clips have different names for their results.
pub proof fn law_part_names_differ(i: nat, j: nat)
    requires
        i != j,
    ensures
        part_name(i) != part_name(j),
{
    lemma_padded(i, 3);
    lemma_padded(j, 3);
    reveal_strlit("part_");
    reveal_strlit(".mp4");
    let a = part_name(i);
    let b = part_name(j);
    if a == b {
        assert(a.subrange(5, a.len() - 4) =~= padded(i, 3));
        assert(b.subrange(5, b.len() - 4) =~= padded(j, 3));
    }
}

/// The results of different clips go to different files of a directory.
pub proof fn law_part_paths_differ(
    directory: Seq<char>,
    i: nat,
    j: nat,
    p: Seq<char>,
    q: Seq<char>,
)
    requires
        i != j,
        is_file_in(p, directory + "/"@, part_name(i)),
        is_file_in(q, directory + "/"@, part_name(j)),
    ensures
        p != q,
{
    law_part_names_differ(i, j);
    reveal_strlit("/");
    reveal_strlit("\\");
    let n = directory.len() as int + 1;
    assert(p.skip(n) =~= part_name(i));
    assert(q.skip(n) =~= part_name(j));
}

proof fn lemma_part_name_plain(i: nat)
    ensures
        is_file_name(part_name(i)),
{
    lemma_padded(i, 3);
    reveal_strlit("part_");
    reveal_strlit(".mp4");
    let n = part_name(i);
    let d = padded(i, 3);
    assert forall|c: char| (c == '/' || c == '\\' || c == ':') implies !n.contains(c) by {
        if n.contains(c) {
            let k = choose|k: int| 0 <= k < n.len() && n[k] == c;
            if k < 5 {
                assert("part_"@[k] == c);
            } else if k < 5 + d.len() {
                assert(is_digit(d[k - 5]));
            } else {
                assert(".mp4"@[k - 5 - d.len()] == c);
            }
        }
    }
}

/// Whether an input is the same file as the output.
pub open spec fn collides(inputs: Seq<Seq<char>>, output: Seq<char>, fold_case: bool) -> bool {
    exists|i: int| 0 <= i < inputs.len() && same_file(#[trigger] inputs[i], output, fold_case)
}

/// What speaks against merging: that there is nothing to merge, or that the
/// output is one of the inputs.
pub open spec fn merge_refusal(
    inputs: Seq<Seq<char>>,
    output: Seq<char>,
    fold_case: bool,
    merge_output: Seq<char>,
) -> Option<ErrorView> {
    if inputs.len() == 0 {
        Some(ErrorView::Other("Merging needs at least one clip"@))
    } else if collides(inputs, output, fold_case) {
        Some(ErrorView::Other("Output path must differ from the input video: "@ + merge_output))
    } else {
        None
    }
}

/// Checks that there is something to merge and that the output is none of the
/// inputs, given all paths resolved.
pub fn check_merge_inputs(
    resolved_inputs: &Vec<String>,
    resolved_output: &str,
    fold_case: bool,
    merge_output: &str,
) -> (r: Result<(), CoreError>)
    ensures
        match r {
            Ok(_) => merge_refusal(
                views(resolved_inputs@),
                resolved_output@,
                fold_case,
                merge_output@,
            ).is_none(),
            Err(e) => merge_refusal(
                views(resolved_inputs@),
                resolved_output@,
                fold_case,
                merge_output@,
            ) == Some(e@),
        },
{
    let ghost all = views(resolved_inputs@);
    assert(all.len() == resolved_inputs.len());
    if resolved_inputs.len() == 0 {
        return Err(CoreError::Other("Merging needs at least one clip".to_owned()));
    }
    let mut i: usize = 0;
    while i < resolved_inputs.len()
        invariant
            i <= resolved_inputs.len(),
            resolved_inputs.len() > 0,
            all == views(resolved_inputs@),
            forall|k: int|
                0 <= k < i ==> !same_file(#[trigger] all[k], resolved_output@, fold_case),
        decreases resolved_inputs.len() - i,
    {
        assert(all[i as int] == resolved_inputs@[i as int]@);
        match ensure_output_differs_from_input(
            resolved_inputs[i].as_str(),
            resolved_output,
            fold_case,
            merge_output,
        ) {
            Ok(_) => {},
            Err(e) => {
                return Err(e);
            },
        }
        i += 1;
    }
    Ok(())
}

/// A clip whose result goes to another file.
pub open spec fn redirected(clip: ClipView, path: Seq<char>) -> ClipView {
    ClipView { output_path: path, ..clip }
}

fn part_file_name(i: usize) -> (r: String)
    ensures
        r@ == part_name(i as nat),
{
    let mut r = "part_".to_owned();
    push_padded(&mut r, i as u64, 3);
    r.push_str(".mp4");
    r
}

/// Prepares a merged run: puts clips in the order of the dive and sends the result
/// of each to a numbered file beside the merged video.
pub fn plan_merge(
    jobs: &mut Vec<ClipJob>,
    merge_output: &str,
    resolved_inputs: &Vec<String>,
    resolved_output: &str,
    fold_case: bool,
) -> (r: Result<MergePlan, CoreError>)
    requires
        resolved_inputs.len() == old(jobs).len(),
    ensures
        match r {
            Err(e) => final(jobs)@ == old(jobs)@ && merge_refusal(
                views(resolved_inputs@),
                resolved_output@,
                fold_case,
                merge_output@,
            ) == Some(e@),
            Ok(plan) => {
                let sorted = in_dive_order(clip_views(old(jobs)@));
                &&& merge_refusal(
                    views(resolved_inputs@),
                    resolved_output@,
                    fold_case,
                    merge_output@,
                ).is_none()
                &&& has_directory(merge_output@) ==> is_parts_of(plan.parts_dir@, merge_output@)
                    && is_plain_directory(plan.parts_dir@)
                &&& plan.part_paths@.len() == sorted.len()
                &&& forall|i: int|
                    #![trigger plan.part_paths@[i]]
                    0 <= i < sorted.len() && is_plain_directory(plan.parts_dir@) ==> is_file_in(
                        plan.part_paths@[i]@,
                        plan.parts_dir@ + "/"@,
                        part_name(i as nat),
                    )
                &&& clip_views(final(jobs)@) == Seq::new(
                    sorted.len(),
                    |i: int| redirected(sorted[i], plan.part_paths@[i]@),
                )
            },
        },
{
    match check_merge_inputs(resolved_inputs, resolved_output, fold_case, merge_output) {
        Ok(_) => {},
        Err(e) => {
            return Err(e);
        },
    }
    sort_jobs_chronologically(jobs);
    let ghost sorted = clip_views(jobs@);
    let parts_dir = parts_directory(merge_output);
    let mut part_paths: Vec<String> = Vec::new();
    let mut i: usize = 0;
    while i < jobs.len()
        invariant
            i <= jobs.len(),
            jobs.len() == sorted.len(),
            part_paths.len() == i,
            forall|k: int|
                #![trigger part_paths@[k]]
                0 <= k < i && is_plain_directory(parts_dir@) ==> is_file_in(
                    part_paths@[k]@,
                    parts_dir@ + "/"@,
                    part_name(k as nat),
                ),
            forall|k: int|
                0 <= k < i ==> (#[trigger] clip_views(jobs@)[k]) == redirected(
                    sorted[k],
                    part_paths@[k]@,
                ),
            forall|k: int| i <= k < jobs.len() ==> (#[trigger] clip_views(jobs@)[k]) == sorted[k],
        decreases jobs.len() - i,
    {
        proof {
            lemma_part_name_plain(i as nat);
        }
        let path = file_in(parts_dir.as_str(), part_file_name(i).as_str());
        let ghost before = clip_views(jobs@);
        let job = ClipJob {
            video_path: jobs[i].video_path.clone(),
            output_path: path.clone(),
            dive_start_sec: jobs[i].dive_start_sec,
            video_start_utc: jobs[i].video_start_utc,
        };
        proof {
            assert(before[i as int] == jobs@[i as int]@);
            assert(before[i as int] == sorted[i as int]);
        }
        jobs.set(i, job);
        part_paths.push(path);
        proof {
            assert(clip_views(jobs@) =~= before.update(i as int, job@));
        }
        i += 1;
    }
    assert(clip_views(jobs@) =~= Seq::new(
        sorted.len(),
        |i: int| redirected(sorted[i], part_paths@[i]@),
    ));
    Ok(MergePlan { parts_dir, part_paths })
}

/// What follows when the joining of parts has ended.
#[derive(Debug, Clone, Copy, PartialEq, Eq, Structural)]
pub struct AfterJoin {
    /// Whether the joined subtitle track is written beside the video.
    pub write_subtitles: bool,
    /// Whether the parts are removed, once the track is written.
    pub remove_parts: bool,
    /// Whether the joining was finished.
    pub finished: bool,
}

/// Decides what follows when the joining of parts has ended: the parts go only where
/// it was finished, and a track is written only where the clips have subtitles.
pub fn after_join(finished: bool, mode: OutputMode) -> (r: AfterJoin)
    ensures
        r.write_subtitles == (finished && mode == OutputMode::Subtitles),
        r.remove_parts == finished,
        r.finished == finished,
{
    AfterJoin {
        write_subtitles: finished && mode == OutputMode::Subtitles,
        remove_parts: finished,
        finished,
    }
}

/// What is known of a part that is to be joined.
#[derive(Debug)]
pub struct PartInfo {
    pub path: String,
    pub width: u32,
    pub height: u32,
    pub fps: Real,
    pub duration_sec: Real,
    pub has_audio: bool,
}

/// The length of a part.
pub fn part_duration(info: &VideoInfo) -> (r: Real)
    ensures
        r == subtitle_seconds(*info),
{
    match info.duration_sec {
        Some(d) => d,
        None => match info.estimated_frames {
            Some(n) => Real::from_u64(n).over(info.fps),
            None => Real::from_i64(0),
        },
    }
}

/// What is known of a part, given what is known of its video.
pub fn part_info(path: &str, info: &VideoInfo) -> (r: PartInfo)
    ensures
        r.path@ == path@,
        r.width == info.width,
        r.height == info.height,
        r.fps == info.fps,
        r.duration_sec == subtitle_seconds(*info),
        r.has_audio == info.has_audio,
{
    PartInfo {
        path: path.to_owned(),
        width: info.width,
        height: info.height,
        fps: info.fps,
        duration_sec: part_duration(info),
        has_audio: info.has_audio,
    }
}

/// Whether two parts have the same picture size and sound, and nearly the same
/// frame rate.
pub open spec fn alike(p: PartInfo, first: PartInfo) -> bool {
    p.width == first.width && p.height == first.height && p.fps.difference(
        first.fps,
    ).absolute().less(Real::of_ratio(1, 100)) && p.has_audio == first.has_audio
}

/// Whether parts can be joined without encoding them again.
pub open spec fn uniform(parts: Seq<PartInfo>) -> bool {
    parts.len() > 0 ==> forall|i: int|
        0 <= i < parts.len() ==> alike(#[trigger] parts[i], parts[0])
}

pub fn parts_are_uniform(parts: &Vec<PartInfo>) -> (r: bool)
    ensures
        r == uniform(parts@),
{
    if parts.len() == 0 {
        return true;
    }
    let first = &parts[0];
    let mut i: usize = 0;
    while i < parts.len()
        invariant
            i <= parts.len(),
            parts.len() > 0,
            *first == parts@[0],
            forall|k: int| 0 <= k < i ==> alike(#[trigger] parts@[k], parts@[0]),
        decreases parts.len() - i,
    {
        let p = &parts[i];
        if !(p.width == first.width && p.height == first.height && p.fps.minus(
            first.fps,
        ).abs().lt(Real::from_ratio(1, 100)) && p.has_audio == first.has_audio) {
            assert(!alike(parts@[i as int], parts@[0]));
            return false;
        }
        i += 1;
    }
    true
}

/// The length of the first `n` parts together.
pub open spec fn summed_seconds(durations: Seq<Real>, n: nat) -> Real
    decreases n,
{
    if n == 0 {
        Real::of_int(0)
    } else {
        summed_seconds(durations, (n - 1) as nat).sum(durations[n - 1])
    }
}

pub open spec fn part_durations(parts: Seq<PartInfo>) -> Seq<Real> {
    parts.map_values(|p: PartInfo| p.duration_sec)
}

/// The length of the merged video.
pub fn total_seconds(parts: &Vec<PartInfo>) -> (r: Real)
    ensures
        r == summed_seconds(part_durations(parts@), parts@.len()),
{
    let mut total = Real::from_i64(0);
    let mut i: usize = 0;
    while i < parts.len()
        invariant
            i <= parts.len(),
            total == summed_seconds(part_durations(parts@), i as nat),
        decreases parts.len() - i,
    {
        total = total.plus(parts[i].duration_sec);
        i += 1;
    }
    total
}

/// How parts are joined.
#[derive(Debug, Clone, Copy, PartialEq, Eq, Structural)]
pub enum MergeRoute {
    /// As they are, without encoding them again.
    Copy,
    /// Encoded again into one size.
    Reencode,
}

pub open spec fn mismatch_message() -> Seq<char> {
    "Cannot merge these clips in subtitle mode: they differ in resolution, frame rate or audio, which a lossless copy cannot join. Use overlay mode to merge them (it re-encodes), or merge clips recorded with matching camera settings."@
}

/// How parts are joined, or why they cannot be.
pub open spec fn route_of(parts: Seq<PartInfo>, mode: OutputMode) -> Result<MergeRoute, ErrorView> {
    if uniform(parts) {
        Ok(MergeRoute::Copy)
    } else if mode == OutputMode::Subtitles {
        Err(ErrorView::Other(mismatch_message()))
    } else {
        Ok(MergeRoute::Reencode)
    }
}

/// Chooses how to join parts: as they are wherever that can be done. With
/// subtitles nothing is encoded again, so that parts that differ are refused.
pub fn choose_route(parts: &Vec<PartInfo>, mode: OutputMode) -> (r: Result<MergeRoute, CoreError>)
    ensures
        match route_of(parts@, mode) {
            Ok(route) => r matches Ok(chosen) && chosen == route,
            Err(e) => r matches Err(f) && f@ == e,
        },
{
    if parts_are_uniform(parts) {
        Ok(MergeRoute::Copy)
    } else if mode == OutputMode::Subtitles {
        Err(
            CoreError::Other(
                "Cannot merge these clips in subtitle mode: they differ in resolution, frame rate or audio, which a lossless copy cannot join. Use overlay mode to merge them (it re-encodes), or merge clips recorded with matching camera settings.".to_owned(),
            ),
        )
    } else {
        Ok(MergeRoute::Reencode)
    }
}

/// What comes after an attempt to join parts as they are.
#[derive(Debug)]
pub enum AfterCopy {
    /// The merge ended: whether it was finished or stopped.
    Ended { finished: bool },
    Reencode,
    Fail { error: CoreError },
}

/// What comes after an attempt to join parts as they are: one that failed is made good
/// by encoding them again, but not with subtitles.
pub open spec fn copied(result: Result<bool, CoreError>, mode: OutputMode) -> AfterCopy {
    match result {
        Ok(finished) => AfterCopy::Ended { finished },
        Err(error) => if mode == OutputMode::Subtitles {
            AfterCopy::Fail { error }
        } else {
            AfterCopy::Reencode
        },
    }
}

/// Decides what comes after an attempt to join parts as they are.
pub fn after_copy(result: Result<bool, CoreError>, mode: OutputMode) -> (r: AfterCopy)
    ensures
        r == copied(result, mode),
{
    match result {
        Ok(finished) => AfterCopy::Ended { finished },
        Err(error) => if mode == OutputMode::Subtitles {
            AfterCopy::Fail { error }
        } else {
            AfterCopy::Reencode
        },
    }
}

/// A path as the list of files to join holds it.
pub open spec fn escaped_path(path: Seq<char>) -> Seq<char> {
    replace_char(replace_char(path, '\\', "/"@), '\'', "'\\''"@)
}

/// The list of files to join.
pub open spec fn concat_list(paths: Seq<Seq<char>>) -> Seq<char>
    decreases paths.len(),
{
    if paths.len() == 0 {
        ""@
    } else {
        concat_list(paths.drop_last()) + ("file '"@ + escaped_path(paths.last()) + "'\n"@)
    }
}

/// Writes the list of files to join, given their absolute paths.
pub fn concat_list_text(absolute_paths: &Vec<String>) -> (r: String)
    ensures
        r@ == concat_list(views(absolute_paths@)),
{
    let mut text = String::new();
    let slash = chars_of("/");
    let quote = chars_of("'\\''");
    let ghost all = views(absolute_paths@);
    let mut i: usize = 0;
    proof {
        reveal_strlit("");
        assert(text@ =~= concat_list(all.take(0)));
    }
    while i < absolute_paths.len()
        invariant
            i <= absolute_paths.len(),
            all == views(absolute_paths@),
            slash@ == "/"@,
            quote@ == "'\\''"@,
            text@ == concat_list(all.take(i as int)),
        decreases absolute_paths.len() - i,
    {
        proof {
            assert(all.take(i + 1).drop_last() =~= all.take(i as int));
            assert(all.take(i + 1).last() == absolute_paths@[i as int]@);
        }
        let ghost before = text@;
        let v = chars_of(absolute_paths[i].as_str());
        let forward = replace_chars(v.as_slice(), '\\', slash.as_slice());
        let escaped = replace_chars(forward.as_slice(), '\'', quote.as_slice());
        text.push_str("file '");
        text.push_str(text_of(escaped.as_slice()).as_str());
        text.push_str("'\n");
        proof {
            assert(text@ =~= before + ("file '"@ + escaped_path(absolute_paths@[i as int]@)
                + "'\n"@));
        }
        i += 1;
    }
    assert(all.take(i as int) =~= all);
    text
}

/// The arguments by which a program reports how far it is.
pub open spec fn progress_arg_list() -> Seq<Seq<char>> {
    seq!["-progress"@, "pipe:1"@, "-nostats"@]
}

/// The arguments for joining the files of a list as they are.
pub open spec fn concat_copy_arg_list(list_path: Seq<char>, output: Seq<char>) -> Seq<Seq<char>> {
    seq![
        "-y"@,
        "-nostdin"@,
        "-v"@,
        "error"@,
        "-f"@,
        "concat"@,
        "-safe"@,
        "0"@,
        "-i"@,
        list_path,
        "-map"@,
        "0:v:0"@,
        "-map"@,
        "0:a:0?"@,
        "-map"@,
        "0:s:0?"@,
        "-c"@,
        "copy"@,
        output,
    ] + progress_arg_list()
}

pub fn concat_copy_args(list_path: &str, output: &str) -> (r: Vec<String>)
    ensures
        views(r@) == concat_copy_arg_list(list_path@, output@),
{
    let list: Vec<&str> = vec![
        "-y",
        "-nostdin",
        "-v",
        "error",
        "-f",
        "concat",
        "-safe",
        "0",
        "-i",
        list_path,
        "-map",
        "0:v:0",
        "-map",
        "0:a:0?",
        "-map",
        "0:s:0?",
        "-c",
        "copy",
        output,
        "-progress",
        "pipe:1",
        "-nostats",
    ];
    let mut r: Vec<String> = Vec::new();
    push_args(&mut r, &list);
    assert(views(r@) =~= concat_copy_arg_list(list_path@, output@));
    r
}

pub open spec fn area(p: PartInfo) -> nat {
    p.width as nat * p.height as nat
}

/// The position of the part with the largest picture among the first `n`, the last
/// one of several.
pub open spec fn largest_part(parts: Seq<PartInfo>, n: nat) -> nat
    decreases n,
{
    if n <= 1 {
        0
    } else {
        let best = largest_part(parts, (n - 1) as nat);
        if area(parts[n - 1]) >= area(parts[best as int]) {
            (n - 1) as nat
        } else {
            best
        }
    }
}

/// The largest frame rate among the first `n` parts.
pub open spec fn largest_fps(parts: Seq<PartInfo>, n: nat) -> Real
    decreases n,
{
    if n == 0 {
        Real::of_int(0)
    } else {
        largest_fps(parts, (n - 1) as nat).greatest(parts[n - 1].fps)
    }
}

pub open spec fn any_audio(parts: Seq<PartInfo>) -> bool {
    exists|i: int| 0 <= i < parts.len() && (#[trigger] parts[i]).has_audio
}

/// The even part of a side.
pub open spec fn even_side(n: u32) -> u32 {
    (n - n % 2) as u32
}

/// The picture size, frame rate and sound of a merged video.
#[derive(Debug, Clone, Copy, PartialEq, Eq, Structural)]
pub struct MergeTarget {
    pub width: u32,
    pub height: u32,
    pub fps: Real,
    pub with_audio: bool,
}

/// What parts are encoded into: the largest picture, with even sides, the largest
/// frame rate, and sound where any part has it.
pub open spec fn target_of(parts: Seq<PartInfo>) -> MergeTarget {
    let largest = parts[largest_part(parts, parts.len()) as int];
    MergeTarget {
        width: even_side(largest.width),
        height: even_side(largest.height),
        fps: largest_fps(parts, parts.len()),
        with_audio: any_audio(parts),
    }
}

fn part_area(p: &PartInfo) -> (r: u64)
    ensures
        r == area(*p),
{
    proof {
        assert(p.width * p.height <= u64::MAX) by (nonlinear_arith)
            requires
                0 <= p.width <= u32::MAX,
                0 <= p.height <= u32::MAX,
        ;
    }
    p.width as u64 * p.height as u64
}

/// Finds what parts are encoded into; a picture without pixels is refused.
pub fn merge_target(parts: &Vec<PartInfo>) -> (r: Result<MergeTarget, CoreError>)
    requires
        parts.len() > 0,
    ensures
        match r {
            Ok(t) => t == target_of(parts@) && t.width > 0 && t.height > 0,
            Err(e) => (target_of(parts@).width == 0 || target_of(parts@).height == 0) && e@
                == ErrorView::Ffprobe("Could not determine a frame size to merge into"@),
        },
{
    let mut best: usize = 0;
    let mut fps = Real::from_i64(0);
    let mut with_audio = false;
    let mut i: usize = 0;
    while i < parts.len()
        invariant
            i <= parts.len(),
            parts.len() > 0,
            best < parts.len(),
            i > 0 ==> best < i,
            best == largest_part(parts@, i as nat),
            fps == largest_fps(parts@, i as nat),
            with_audio ==> any_audio(parts@),
            !with_audio ==> forall|k: int| 0 <= k < i ==> !(#[trigger] parts@[k]).has_audio,
        decreases parts.len() - i,
    {
        let p = &parts[i];
        if i > 0 && part_area(p) >= part_area(&parts[best]) {
            best = i;
        }
        fps = fps.max(p.fps);
        if p.has_audio {
            assert(parts@[i as int].has_audio);
            with_audio = true;
        }
        i += 1;
    }
    let width: u32 = parts[best].width - parts[best].width % 2;
    let height: u32 = parts[best].height - parts[best].height % 2;
    if width == 0 || height == 0 {
        return Err(
            CoreError::Ffprobe("Could not determine a frame size to merge into".to_owned()),
        );
    }
    Ok(MergeTarget { width, height, fps, with_audio })
}

/// The largest picture is the size that every other part is made to fit.
pub proof fn law_largest_part(parts: Seq<PartInfo>, n: nat, i: int)
    requires
        0 <= i < n <= parts.len(),
    ensures
        largest_part(parts, n) < n,
        area(parts[i]) <= area(parts[largest_part(parts, n) as int]),
    decreases n,
{
    if n > 1 {
        if i < n - 1 {
            law_largest_part(parts, (n - 1) as nat, i);
        } else {
            law_largest_part(parts, (n - 1) as nat, 0);
        }
    }
}

/// Whether a part needs silence in the place of sound.
pub open spec fn needs_silence(p: PartInfo, with_audio: bool) -> bool {
    with_audio && !p.has_audio
}

/// How many of the first `n` parts need silence.
pub open spec fn silent_before(parts: Seq<PartInfo>, with_audio: bool, n: nat) -> nat
    decreases n,
{
    if n == 0 {
        0
    } else {
        silent_before(parts, with_audio, (n - 1) as nat) + if needs_silence(
            parts[n - 1],
            with_audio,
        ) {
            1nat
        } else {
            0
        }
    }
}

/// The arguments that open the first `n` parts.
pub open spec fn input_arg_list(parts: Seq<PartInfo>, n: nat) -> Seq<Seq<char>>
    decreases n,
{
    if n == 0 {
        seq![]
    } else {
        input_arg_list(parts, (n - 1) as nat) + seq!["-i"@, parts[n - 1].path@]
    }
}

/// The arguments that give silence as long as a part, but not shorter than a
/// millisecond.
pub open spec fn silence_args(p: PartInfo) -> Seq<Seq<char>> {
    seq![
        "-f"@,
        "lavfi"@,
        "-t"@,
        fixed(p.duration_sec.greatest(Real::of_ratio(1, 1000)), 6),
        "-i"@,
        "anullsrc=channel_layout=stereo:sample_rate=48000"@,
    ]
}

/// The arguments that give silence for those of the first `n` parts that need it.
pub open spec fn silence_arg_list(parts: Seq<PartInfo>, with_audio: bool, n: nat) -> Seq<Seq<char>>
    decreases n,
{
    if n == 0 {
        seq![]
    } else {
        silence_arg_list(parts, with_audio, (n - 1) as nat) + if needs_silence(
            parts[n - 1],
            with_audio,
        ) {
            silence_args(parts[n - 1])
        } else {
            seq![]
        }
    }
}

/// The filter that makes a part's picture fit.
pub open spec fn video_filter(i: nat, target: MergeTarget) -> Seq<char> {
    let size = decimal(target.width as nat) + ":"@ + decimal(target.height as nat);
    "["@ + decimal(i) + ":v]scale="@ + size + ":force_original_aspect_ratio=decrease,pad="@ + size
        + ":(ow-iw)/2:(oh-ih)/2,setsar=1,fps="@ + fixed(target.fps, 6) + "[v"@ + decimal(i) + "];"@
}

/// Where a part's sound comes from: the part itself, or the silence that stands
/// in for it.
pub open spec fn audio_source(parts: Seq<PartInfo>, i: nat) -> Seq<char> {
    if needs_silence(parts[i as int], true) {
        decimal(parts.len() + silent_before(parts, true, i)) + ":a"@
    } else {
        decimal(i) + ":a:0"@
    }
}

/// The filter that makes a part's sound fit.
pub open spec fn audio_filter(parts: Seq<PartInfo>, i: nat) -> Seq<char> {
    "["@ + audio_source(parts, i)
        + "]aresample=async=1,aformat=sample_fmts=fltp:sample_rates=48000:channel_layouts=stereo[a"@
        + decimal(i) + "];"@
}

/// The filters of the first `n` parts.
pub open spec fn part_filters(parts: Seq<PartInfo>, target: MergeTarget, n: nat) -> Seq<char>
    decreases n,
{
    if n == 0 {
        ""@
    } else {
        let i = (n - 1) as nat;
        part_filters(parts, target, i) + video_filter(i, target) + if target.with_audio {
            audio_filter(parts, i)
        } else {
            ""@
        }
    }
}

/// The streams of the first `n` parts that are joined.
pub open spec fn joined_streams(with_audio: bool, n: nat) -> Seq<char>
    decreases n,
{
    if n == 0 {
        ""@
    } else {
        let i = (n - 1) as nat;
        joined_streams(with_audio, i) + "[v"@ + decimal(i) + "]"@ + if with_audio {
            "[a"@ + decimal(i) + "]"@
        } else {
            ""@
        }
    }
}

/// The whole filter that joins parts.
pub open spec fn merge_filter(parts: Seq<PartInfo>, target: MergeTarget) -> Seq<char> {
    part_filters(parts, target, parts.len()) + joined_streams(target.with_audio, parts.len())
        + "concat=n="@ + decimal(parts.len()) + ":v=1:a="@ + (if target.with_audio {
        "1"@
    } else {
        "0"@
    }) + "[vout]"@ + (if target.with_audio {
        "[aout]"@
    } else {
        ""@
    })
}

fn push_video_filter(out: &mut String, i: usize, target: &MergeTarget)
    ensures
        final(out)@ == old(out)@ + video_filter(i as nat, *target),
{
    let mut size = String::new();
    push_decimal(&mut size, target.width as u64);
    proof {
        reveal_strlit("");
        assert(size@ =~= decimal(target.width as nat));
    }
    size.push_str(":");
    push_decimal(&mut size, target.height as u64);
    let mut s = "[".to_owned();
    push_decimal(&mut s, i as u64);
    s.push_str(":v]scale=");
    s.push_str(size.as_str());
    s.push_str(":force_original_aspect_ratio=decrease,pad=");
    s.push_str(size.as_str());
    s.push_str(":(ow-iw)/2:(oh-ih)/2,setsar=1,fps=");
    target.fps.push_fixed(&mut s, 6);
    s.push_str("[v");
    push_decimal(&mut s, i as u64);
    s.push_str("];");
    out.push_str(s.as_str());
}

fn push_audio_filter(out: &mut String, parts: &Vec<PartInfo>, i: usize, silent: usize)
    requires
        i < parts.len() < 0x4000_0000_0000_0000,
        silent == silent_before(parts@, true, i as nat),
        silent <= i,
    ensures
        final(out)@ == old(out)@ + audio_filter(parts@, i as nat),
{
    let mut s = "[".to_owned();
    if !parts[i].has_audio {
        push_decimal(&mut s, parts.len() as u64 + silent as u64);
        s.push_str(":a");
    } else {
        push_decimal(&mut s, i as u64);
        s.push_str(":a:0");
    }
    s.push_str(
        "]aresample=async=1,aformat=sample_fmts=fltp:sample_rates=48000:channel_layouts=stereo[a",
    );
    push_decimal(&mut s, i as u64);
    s.push_str("];");
    assert(s@ =~= audio_filter(parts@, i as nat));
    out.push_str(s.as_str());
}

fn merge_filter_text(parts: &Vec<PartInfo>, target: &MergeTarget) -> (r: String)
    requires
        parts.len() < 0x4000_0000_0000_0000,
    ensures
        r@ == merge_filter(parts@, *target),
{
    let mut filter = String::new();
    let mut silent: usize = 0;
    let mut i: usize = 0;
    proof {
        reveal_strlit("");
        assert(filter@ =~= ""@);
    }
    while i < parts.len()
        invariant
            i <= parts.len(),
            parts.len() < 0x4000_0000_0000_0000,
            silent <= i,
            silent == silent_before(parts@, true, i as nat),
            filter@ == part_filters(parts@, *target, i as nat),
        decreases parts.len() - i,
    {
        let ghost before = filter@;
        push_video_filter(&mut filter, i, target);
        if target.with_audio {
            push_audio_filter(&mut filter, parts, i, silent);
        } else {
            proof {
                reveal_strlit("");
                assert(filter@ =~= before + video_filter(i as nat, *target) + ""@);
            }
        }
        if !parts[i].has_audio {
            silent += 1;
        }
        i += 1;
    }
    let ghost filters = filter@;
    let mut j: usize = 0;
    proof {
        reveal_strlit("");
        assert(filter@ =~= filters + joined_streams(target.with_audio, 0));
    }
    while j < parts.len()
        invariant
            j <= parts.len(),
            filter@ == filters + joined_streams(target.with_audio, j as nat),
        decreases parts.len() - j,
    {
        let ghost before = joined_streams(target.with_audio, j as nat);
        filter.push_str("[v");
        push_decimal(&mut filter, j as u64);
        filter.push_str("]");
        if target.with_audio {
            filter.push_str("[a");
            push_decimal(&mut filter, j as u64);
            filter.push_str("]");
        }
        proof {
            reveal_strlit("");
            assert(filter@ =~= filters + joined_streams(target.with_audio, (j + 1) as nat));
        }
        j += 1;
    }
    filter.push_str("concat=n=");
    push_decimal(&mut filter, parts.len() as u64);
    filter.push_str(":v=1:a=");
    filter.push_str(
        if target.with_audio {
            "1"
        } else {
            "0"
        },
    );
    filter.push_str("[vout]");
    filter.push_str(
        if target.with_audio {
            "[aout]"
        } else {
            ""
        },
    );
    assert(filter@ =~= merge_filter(parts@, *target));
    filter
}

/// The arguments for joining parts by encoding them again.
pub open spec fn reencode_arg_list(
    parts: Seq<PartInfo>,
    target: MergeTarget,
    output: Seq<char>,
    encoder: Seq<char>,
    pix_fmt: Seq<char>,
    extra: Seq<Seq<char>>,
) -> Seq<Seq<char>> {
    let none: Seq<Seq<char>> = seq![];
    seq!["-y"@, "-nostdin"@, "-v"@, "error"@] + input_arg_list(parts, parts.len())
        + silence_arg_list(parts, target.with_audio, parts.len()) + seq![
        "-filter_complex"@,
        merge_filter(parts, target),
        "-map"@,
        "[vout]"@,
    ] + (if target.with_audio {
        seq!["-map"@, "[aout]"@]
    } else {
        none
    }) + seq!["-c:v"@, encoder] + extra + seq!["-pix_fmt"@, pix_fmt] + (if target.with_audio {
        seq!["-c:a"@, "aac"@, "-b:a"@, "192k"@]
    } else {
        none
    }) + seq![output] + progress_arg_list()
}

fn push_input_args(r: &mut Vec<String>, parts: &Vec<PartInfo>)
    ensures
        views(final(r)@) == views(old(r)@) + input_arg_list(parts@, parts@.len()),
{
    let ghost before = views(r@);
    let mut i: usize = 0;
    assert(before + input_arg_list(parts@, 0) =~= before);
    while i < parts.len()
        invariant
            i <= parts.len(),
            views(r@) == before + input_arg_list(parts@, i as nat),
        decreases parts.len() - i,
    {
        let list: Vec<&str> = vec!["-i", parts[i].path.as_str()];
        push_args(r, &list);
        proof {
            assert(str_views(list@) =~= seq!["-i"@, parts@[i as int].path@]);
            assert(views(r@) =~= before + input_arg_list(parts@, (i + 1) as nat));
        }
        i += 1;
    }
}

fn push_silence_args(r: &mut Vec<String>, parts: &Vec<PartInfo>, with_audio: bool)
    ensures
        views(final(r)@) == views(old(r)@) + silence_arg_list(parts@, with_audio, parts@.len()),
{
    let ghost before = views(r@);
    let mut i: usize = 0;
    assert(before + silence_arg_list(parts@, with_audio, 0) =~= before);
    while i < parts.len()
        invariant
            i <= parts.len(),
            views(r@) == before + silence_arg_list(parts@, with_audio, i as nat),
        decreases parts.len() - i,
    {
        if with_audio && !parts[i].has_audio {
            let mut length = String::new();
            parts[i].duration_sec.max(Real::from_ratio(1, 1000)).push_fixed(&mut length, 6);
            proof {
                reveal_strlit("");
                assert(length@ =~= fixed(
                    parts@[i as int].duration_sec.greatest(Real::of_ratio(1, 1000)),
                    6,
                ));
            }
            let list: Vec<&str> = vec![
                "-f",
                "lavfi",
                "-t",
                length.as_str(),
                "-i",
                "anullsrc=channel_layout=stereo:sample_rate=48000",
            ];
            push_args(r, &list);
            assert(str_views(list@) =~= silence_args(parts@[i as int]));
        }
        assert(views(r@) =~= before + silence_arg_list(parts@, with_audio, (i + 1) as nat));
        i += 1;
    }
}

/// The arguments for joining parts by encoding them again. Each part without sound
/// gets silence where another one has sound.
pub fn concat_reencode_args(
    parts: &Vec<PartInfo>,
    target: &MergeTarget,
    output: &str,
    encoder: &str,
    pix_fmt: &str,
    extra: &Vec<&str>,
) -> (r: Vec<String>)
    requires
        parts.len() < 0x4000_0000_0000_0000,
    ensures
        views(r@) == reencode_arg_list(
            parts@,
            *target,
            output@,
            encoder@,
            pix_fmt@,
            str_views(extra@),
        ),
{
    let mut r: Vec<String> = Vec::new();
    let head: Vec<&str> = vec!["-y", "-nostdin", "-v", "error"];
    push_args(&mut r, &head);
    push_input_args(&mut r, parts);
    push_silence_args(&mut r, parts, target.with_audio);
    let filter = merge_filter_text(parts, target);
    let filters: Vec<&str> = vec!["-filter_complex", filter.as_str(), "-map", "[vout]"];
    push_args(&mut r, &filters);
    let sound: Vec<&str> = if target.with_audio {
        vec!["-map", "[aout]"]
    } else {
        Vec::new()
    };
    push_args(&mut r, &sound);
    let video: Vec<&str> = vec!["-c:v", encoder];
    push_args(&mut r, &video);
    push_args(&mut r, extra);
    let format: Vec<&str> = vec!["-pix_fmt", pix_fmt];
    push_args(&mut r, &format);
    let codec: Vec<&str> = if target.with_audio {
        vec!["-c:a", "aac", "-b:a", "192k"]
    } else {
        Vec::new()
    };
    push_args(&mut r, &codec);
    let tail: Vec<&str> = vec![output, "-progress", "pipe:1", "-nostats"];
    push_args(&mut r, &tail);
    proof {
        assert(views(r@) =~= reencode_arg_list(
            parts@,
            *target,
            output@,
            encoder@,
            pix_fmt@,
            str_views(extra@),
        ));
    }
    r
}

/// The position that a line of a program's report gives, in seconds.
pub open spec fn reported_position(line: Seq<char>) -> Option<Real> {
    let at = find(line, '=') as int;
    let key = line.take(at);
    if at >= line.len() || (key != "out_time_us"@ && key != "out_time_ms"@) {
        None
    } else {
        match signed_of(trim(line.skip(at + 1))) {
            Some(micros) => Some(
                Real::of_int(
                    if micros < 0 {
                        0
                    } else {
                        micros
                    },
                ).quotient(Real::of_int(1_000_000)),
            ),
            None => None,
        }
    }
}

/// Reads the position in a line of a program's report.
pub fn parse_progress_line(line: &str) -> (r: Option<Real>)
    ensures
        r == reported_position(line@),
{
    let v = chars_of(line);
    assert(v@.skip(0) =~= v@);
    let at: usize = find_char(v.as_slice(), 0, '=');
    if at == v.len() {
        return None;
    }
    let left = part(v.as_slice(), 0, at);
    let right = part(v.as_slice(), at + 1, v.len());
    proof {
        assert(left@ =~= v@.take(at as int));
        assert(right@ =~= v@.skip(at + 1));
    }
    let key = text_of(left.as_slice());
    if !same_text(key.as_str(), "out_time_us") && !same_text(key.as_str(), "out_time_ms") {
        return None;
    }
    let value = trim_chars(right.as_slice());
    match parse_signed(value.as_slice()) {
        Some(micros) => Some(
            Real::from_i64(
                if micros < 0 {
                    0
                } else {
                    micros
                },
            ).over(Real::from_i64(1_000_000)),
        ),
        None => None,
    }
}

/// The subtitle tracks of parts, each with the length of the parts before it.
pub open spec fn offset_parts(texts: Seq<String>, durations: Seq<Real>, parts: Seq<SrtPart<'_>>) -> bool {
    &&& parts.len() == texts.len()
    &&& forall|i: int|
        #![trigger parts[i]]
        0 <= i < parts.len() ==> parts[i].srt@ == texts[i]@ && parts[i].offset_sec
            == summed_seconds(durations, i as nat)
}

/// Joins the subtitle tracks of parts: each is moved by the length of the parts
/// before it.
pub fn merged_srt(texts: &Vec<String>, durations: &Vec<Real>) -> (r: Result<String, CoreError>)
    requires
        texts.len() == durations.len(),
    ensures
        exists|parts: Seq<SrtPart<'_>>| #[trigger]
            offset_parts(texts@, durations@, parts) && match part_cues(seq![], parts) {
                Ok(cues) => r matches Ok(t) && t@ == cues_text(cues),
                Err(e) => r matches Err(f) && f@ == e,
            },
{
    let mut parts: Vec<SrtPart<'_>> = Vec::new();
    let mut offset = Real::from_i64(0);
    let mut i: usize = 0;
    while i < texts.len()
        invariant
            i <= texts.len(),
            texts.len() == durations.len(),
            parts.len() == i,
            offset == summed_seconds(durations@, i as nat),
            forall|k: int|
                #![trigger parts@[k]]
                0 <= k < i ==> parts@[k].srt@ == texts@[k]@ && parts@[k].offset_sec
                    == summed_seconds(durations@, k as nat),
        decreases texts.len() - i,
    {
        parts.push(SrtPart { srt: texts[i].as_str(), offset_sec: offset });
        offset = offset.plus(durations[i]);
        i += 1;
    }
    assert(offset_parts(texts@, durations@, parts@));
    concat_srt(parts.as_slice())
}

} // verus!
