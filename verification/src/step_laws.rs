//! How runs go on after a step, how parts are joined, and how times are read.

use vstd::prelude::*;

use crate::binary64::{lemma_signed_int_difference, Real};
use crate::cell_laws::lemma_nothing_replaced;
use crate::clip_run::{piece_end, same_file, wait_before_retry, ClipRun, PIPE_CHUNK};
use crate::command_line::{first_bad_clip, jobs_agree};
use crate::csv_data::duration_of;
use crate::error::{CoreError, ErrorView};
use crate::ffprobe::{creation_of_format, stream_tag, FormatInfo, StreamInfo};
use crate::merge::{audio_source, copied, merge_refusal, needs_silence, silent_before, PartInfo};
use crate::model::ClipJob;
use crate::moment::{
    creation_of, first_reading, formatted_moment, naive_of, rfc3339_moment, UtcTime,
};
use crate::nearest::TWO52;
use crate::pipeline::OutputMode;
use crate::run_report::percent_of;
use crate::subtitle::{
    block_cue, block_cues, cue_text, cues_text, part_cues, srt_blocks, srt_millis, CueView, SrtPart,
};
use crate::subtitle_laws::{law_timestamp_shifts_exactly, FIRST_UNMOVED_MILLIS};
use crate::sync::{clip_parts, clip_start};
use crate::text::{decimal, join, trim};
use crate::track_laws::{all_one_line, lemma_block_reads, span_line};
use crate::worker_run::{NextView, RunEvent, Told, WorkerRun};

verus! {

/// A clip that failed ends the run with what it failed with, and one that was stopped
/// ends it without success; so does joining.
pub proof fn law_failure_ends_the_run(run: WorkerRun, event: RunEvent, outcome: Result<bool, String>)
    requires
        event == (RunEvent::ClipEnded { outcome }) || event == (RunEvent::Combined { outcome }),
        outcome != Ok::<bool, String>(true),
    ensures
        run.after(event).1 is Finish,
        outcome.is_ok() ==> run.after(event).1 == (NextView::Finish { result: Ok(false) }),
        outcome.is_err() ==> run.after(event).1->result.is_err(),
        outcome.is_err() && run.merge.is_none() ==> run.after(event).1->result->Err_0
            == outcome->Err_0@,
        outcome.is_err() && run.merge.is_some() ==> run.after(event).1->result->Err_0
            == outcome->Err_0@ + ("\nPartial results kept in: "@ + (run.merge->0).1@),
{
    reveal_strlit("");
    if outcome.is_err() && run.merge.is_none() {
        assert(outcome->Err_0@ + ""@ =~= outcome->Err_0@);
    }
}

/// A clip that is done is told as so far as its frames and those before it come to, and
/// told as done with its file.
pub proof fn law_done_clip_is_told(run: WorkerRun)
    requires
        run.wf(),
        run.progress.idx < run.names@.len(),
    ensures
        ({
            let told = run.after(RunEvent::ClipEnded { outcome: Ok(true) }).0;
            let idx = run.progress.idx as int;
            &&& told.len() >= 2
            &&& told[0] == Told::Progress(
                percent_of(
                    (run.progress.base_done + run.progress.clip_totals@[idx]) as nat,
                    run.progress.total_all as nat,
                ),
            )
            &&& told[1] == Told::Log(
                "["@ + decimal((idx + 1) as nat) + "/"@ + decimal(run.names@.len()) + "] "@
                    + "Done: "@ + run.names@[idx].output_path@,
            )
        }),
{
}

/// Clips are joined where there are some and none of them is the output.
pub proof fn law_merging_needs_another_file(
    inputs: Seq<Seq<char>>,
    output: Seq<char>,
    fold_case: bool,
    merge_output: Seq<char>,
    i: int,
)
    requires
        0 <= i < inputs.len(),
    ensures
        same_file(inputs[i], output, fold_case) ==> merge_refusal(
            inputs,
            output,
            fold_case,
            merge_output,
        ).is_some(),
        (forall|k: int| 0 <= k < inputs.len() ==> !same_file(#[trigger] inputs[k], output, fold_case))
            ==> merge_refusal(inputs, output, fold_case, merge_output).is_none(),
        merge_refusal(seq![], output, fold_case, merge_output).is_some(),
{
}

/// The sound of a part that has some is its own; each other part gets a silence of its
/// own behind all parts, in their order.
pub proof fn law_sound_of_a_part(parts: Seq<PartInfo>, i: nat, j: nat)
    requires
        i < j < parts.len(),
    ensures
        parts[i as int].has_audio ==> audio_source(parts, i) == decimal(i) + ":a:0"@,
        !parts[i as int].has_audio ==> silent_before(parts, true, i) < silent_before(parts, true, j),
        !parts[i as int].has_audio ==> audio_source(parts, i) == decimal(
            parts.len() + silent_before(parts, true, i),
        ) + ":a"@,
        silent_before(parts, true, 0) == 0,
        needs_silence(parts[i as int], true) == !parts[i as int].has_audio,
        !needs_silence(parts[i as int], false),
{
    lemma_silences(parts, i + 1, j);
}

proof fn lemma_silences(parts: Seq<PartInfo>, i: nat, j: nat)
    requires
        i <= j <= parts.len(),
    ensures
        silent_before(parts, true, i) <= silent_before(parts, true, j),
    decreases j,
{
    if i < j {
        lemma_silences(parts, i, (j - 1) as nat);
    }
}

/// Between two parts with sound no silence is counted, and each one without counts once.
pub proof fn law_silences_count_once(parts: Seq<PartInfo>, n: nat)
    requires
        n < parts.len(),
    ensures
        silent_before(parts, true, n + 1) == silent_before(parts, true, n) + if parts[n as int].has_audio {
            0int
        } else {
            1
        },
        silent_before(parts, false, n) == 0,
    decreases n,
{
    if n > 0 {
        law_silences_count_once(parts, (n - 1) as nat);
    }
}

/// Of the ways to read a time the first one that reads it counts.
pub proof fn law_first_reading_counts(
    readings: Seq<Option<(i64, u32)>>,
    k: int,
)
    requires
        0 <= k <= readings.len(),
        forall|i: int| 0 <= i < k ==> (#[trigger] readings[i]).is_none(),
    ensures
        k < readings.len() && readings[k].is_some() ==> first_reading(readings) == Some(
            UtcTime { secs: (readings[k]->0).0, nanos: (readings[k]->0).1 },
        ),
        k == readings.len() ==> first_reading(readings).is_none(),
    decreases readings.len(),
{
    if readings.len() > 0 && k > 0 {
        assert(readings[0].is_none());
        let rest = readings.skip(1);
        assert forall|i: int| 0 <= i < k - 1 implies (#[trigger] rest[i]).is_none() by {
            assert(rest[i] == readings[i + 1]);
        }
        law_first_reading_counts(rest, k - 1);
    }
}

/// A creation time with an offset is read with it; one without is read as it stands.
pub proof fn law_creation_time_reads(text: Seq<char>, secs: i64, nanos: u32)
    requires
        !trim(text).contains('Z'),
    ensures
        rfc3339_moment(trim(text)) == Some((secs, nanos)) ==> creation_of(text) == Ok::<
            UtcTime,
            ErrorView,
        >(UtcTime { secs, nanos }),
        rfc3339_moment(trim(text)).is_none() && formatted_moment(
            trim(text),
            "%Y-%m-%d %H:%M:%S%.f"@,
        ) == Some((secs, nanos)) ==> creation_of(text) == Ok::<UtcTime, ErrorView>(
            UtcTime { secs, nanos },
        ),
        formatted_moment(text, "%Y-%m-%d %H:%M:%S%.f"@) == Some((secs, nanos)) ==> naive_of(text)
            == Ok::<UtcTime, ErrorView>(UtcTime { secs, nanos }),
{
    reveal_with_fuel(first_reading, 4);
    let t = trim(text);
    lemma_nothing_replaced(t, 'Z', "+00:00"@);
}

/// Moments are ordered: of two different ones exactly one is earlier.
pub proof fn law_order_of_moments(a: UtcTime, b: UtcTime, c: UtcTime)
    ensures
        !a.earlier(a),
        a != b ==> a.earlier(b) != b.earlier(a),
        a.earlier(b) && b.earlier(c) ==> a.earlier(c),
        a.secs < b.secs ==> a.earlier(b),
{
}

/// Only with subtitles does a failed copy end the joining; else the parts are encoded
/// again. A copy that ran is all that is done.
pub proof fn law_failed_copy_is_made_good(result: Result<bool, CoreError>, mode: OutputMode)
    ensures
        (copied(result, mode) is Reencode) == (result.is_err() && mode != OutputMode::Subtitles),
        (copied(result, mode) is Fail) == (result.is_err() && mode == OutputMode::Subtitles),
        copied(result, mode) is Fail ==> copied(result, mode)->error == result->Err_0,
        result.is_ok() ==> copied(result, mode) is Ended && copied(result, mode)->finished
            == result->Ok_0,
{
}

/// A write that may succeed later is tried ten times more, each time after a longer
/// wait; another one is not tried again.
pub proof fn law_writes_are_tried_again(attempt: u64)
    ensures
        wait_before_retry(false, attempt).is_none(),
        wait_before_retry(true, attempt).is_some() == (attempt < 10),
        wait_before_retry(true, 0) == Some(50u64),
        attempt < 9 ==> wait_before_retry(true, (attempt + 1) as u64)->0 == wait_before_retry(
            true,
            attempt,
        )->0 + 50,
{
}

/// The pieces of a frame follow each other to its end, and none is too long; all but the
/// last one are as long as they may be.
pub proof fn law_pieces_of_a_frame(len: nat, offset: nat)
    requires
        offset < len,
    ensures
        offset < piece_end(len, offset) <= len,
        piece_end(len, offset) - offset <= PIPE_CHUNK,
        piece_end(len, offset) < len ==> piece_end(len, offset) - offset == PIPE_CHUNK,
{
}

/// At the end of a clip all frames that were done are told, out of no fewer.
pub proof fn law_progress_at_the_end(run: ClipRun)
    ensures
        run.progress_at_end().0 == run.frame_idx,
        run.progress_at_end().1 >= run.frame_idx,
        run.progress_at_end().1 >= run.total_estimate,
        run.progress_at_end().1 == run.frame_idx || run.progress_at_end().1 == run.total_estimate,
{
}

/// The milliseconds of a moment grow with it, and those of a whole second are a
/// thousand for each second.
pub proof fn law_milliseconds_of_a_moment(a: UtcTime, b: UtcTime)
    requires
        a.nanos < 1_000_000_000,
        b.nanos < 1_000_000_000,
    ensures
        a.earlier(b) ==> a.millis() <= b.millis(),
        a.nanos == 0 ==> a.millis() == 1000 * a.secs,
        1000 * a.secs <= a.millis() < 1000 * a.secs + 1000,
        a.secs == b.secs && b.nanos == a.nanos + 1_000_000 ==> b.millis() == a.millis() + 1,
{
}

/// A cue that was written with its times is moved as a whole by whole seconds: both of
/// its times by exactly these, and its text not at all.
pub proof fn law_cue_moves_as_a_whole(
    number: nat,
    start: nat,
    end: nat,
    text: Seq<Seq<char>>,
    seconds: nat,
)
    requires
        text.len() > 0,
        all_one_line(text),
        start + 1000 * seconds < FIRST_UNMOVED_MILLIS,
        end + 1000 * seconds < FIRST_UNMOVED_MILLIS,
    ensures
        ({
            let block = join(seq![decimal(number), span_line(start, end)] + text, seq!['\n']);
            let moved = block_cue(block, Real::of_int(seconds as int));
            &&& moved.is_ok()
            &&& srt_millis(moved->Ok_0.start) == start + 1000 * seconds
            &&& srt_millis(moved->Ok_0.end) == end + 1000 * seconds
            &&& moved->Ok_0.text == join(text, "\n"@)
        }),
{
    lemma_block_reads(number, start, end, text, Real::of_int(seconds as int));
    law_timestamp_shifts_exactly(start, seconds);
    law_timestamp_shifts_exactly(end, seconds);
}

/// Cues are written one after the other and numbered from one.
pub proof fn law_cues_are_numbered(cues: Seq<CueView>, cue: CueView)
    ensures
        cues_text(seq![]) == ""@,
        cues_text(cues.push(cue)) == cues_text(cues) + cue_text(
            cues.len() + 1,
            cue.start,
            cue.end,
            cue.text,
        ),
{
    assert(cues.push(cue).drop_last() =~= cues);
}

/// The cues of a part come behind those of the parts before it.
pub proof fn law_parts_in_turn(before: Seq<CueView>, part: SrtPart<'_>, rest: Seq<SrtPart<'_>>)
    ensures
        part_cues(before, seq![]) == Ok::<Seq<CueView>, ErrorView>(before),
        match block_cues(before, srt_blocks(part.srt@), part.offset_sec) {
            Ok(cues) => part_cues(before, seq![part] + rest) == part_cues(cues, rest),
            Err(e) => part_cues(before, seq![part] + rest) == Err::<Seq<CueView>, ErrorView>(e),
        },
{
    let all = seq![part] + rest;
    assert(all[0] == part);
    assert(all.skip(1) =~= rest);
}

/// A tag of streams is that of the first one that has it.
pub proof fn law_tag_of_the_first_stream(streams: Seq<StreamInfo>, key: Seq<char>, k: int)
    requires
        0 <= k <= streams.len(),
        forall|i: int| 0 <= i < k ==> !(#[trigger] streams[i]).tags@.contains_key(key),
    ensures
        k < streams.len() && streams[k].tags@.contains_key(key) ==> stream_tag(streams, key) == Some(
            streams[k].tags@[key],
        ),
        k == streams.len() ==> stream_tag(streams, key).is_none(),
    decreases streams.len(),
{
    if streams.len() > 0 && k > 0 {
        assert(!streams[0].tags@.contains_key(key));
        let rest = streams.skip(1);
        assert forall|i: int| 0 <= i < k - 1 implies !(#[trigger] rest[i]).tags@.contains_key(key) by {
            assert(rest[i] == streams[i + 1]);
        }
        law_tag_of_the_first_stream(rest, key, k - 1);
    }
}

/// The time at which a video was recorded is that which its container tells, where it
/// tells one that can be read.
pub proof fn law_recorded_time(format: FormatInfo)
    ensures
        creation_of_format(None).is_none(),
        !format.tags@.contains_key("creation_time"@) ==> creation_of_format(Some(format)).is_none(),
        format.tags@.contains_key("creation_time"@) && creation_of(
            format.tags@["creation_time"@],
        ).is_ok() ==> creation_of_format(Some(format)) == Some(
            creation_of(format.tags@["creation_time"@])->Ok_0,
        ),
        format.tags@.contains_key("creation_time"@) && creation_of(
            format.tags@["creation_time"@],
        ).is_err() ==> creation_of_format(Some(format)).is_none(),
{
}

/// The first clip of a command line that is not given right is told; all before it are.
pub proof fn law_first_wrong_clip(clips: Seq<String>, k: int)
    requires
        0 <= k <= clips.len(),
        forall|i: int| 0 <= i < k ==> clip_start(clip_parts((#[trigger] clips[i])@)).is_ok(),
        k < clips.len() ==> clip_start(clip_parts(clips[k]@)).is_err(),
    ensures
        first_bad_clip(clips) == k,
    decreases clips.len(),
{
    if k > 0 {
        assert(clip_start(clip_parts(clips[0]@)).is_ok());
        let rest = clips.skip(1);
        assert forall|i: int| 0 <= i < k - 1 implies clip_start(
            clip_parts((#[trigger] rest[i])@),
        ).is_ok() by {
            assert(rest[i] == clips[i + 1]);
        }
        law_first_wrong_clip(rest, k - 1);
    }
}

/// A command line with a single video asks for one job, which starts in the dive as long
/// before its sync point as the video takes to get there; one with neither a video nor
/// clips is refused.
pub proof fn law_job_of_a_single_video(
    r: Result<Vec<ClipJob>, CoreError>,
    video: Option<Seq<char>>,
    output: Option<Seq<char>>,
    video_sync: int,
    csv_sync: int,
    text: Seq<char>,
)
    requires
        -(TWO52 as int) < video_sync < TWO52,
        -(TWO52 as int) < csv_sync < TWO52,
        duration_of(text) == Ok::<Real, ErrorView>(Real::of_int(csv_sync)),
        jobs_agree(r, seq![], video, output, Real::of_int(video_sync), text),
    ensures
        r.is_ok() == video.is_some(),
        r.is_ok() ==> r->Ok_0@.len() == 1,
        r.is_ok() ==> r->Ok_0@[0].video_path@ == video->0,
        r.is_ok() && output.is_some() ==> r->Ok_0@[0].output_path@ == output->0,
        r.is_ok() ==> r->Ok_0@[0].dive_start_sec == Real::of_int(csv_sync - video_sync),
{
    lemma_signed_int_difference(csv_sync, video_sync);
}

} // verus!
