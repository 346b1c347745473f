//! How the work on clips goes on and ends, and how far it is.

use vstd::prelude::*;

use crate::binary64::{lemma_int_product, lemma_nat_size, lemma_size_at_most, unit, Real};
use crate::clip_run::{
    clip_outcome, plan_agrees, same_file, step_agrees, wait_agrees, ClipAction, ClipEvent, ClipPlan,
    ClipRun, ExitReport, WaitAction, WaitEvent,
};
use crate::csv_data::{clock_text, whole_seconds};
use crate::ffprobe::VideoInfo;
use crate::graph_laws::{between, lemma_single_between};
use crate::nearest::{lemma_nearest_monotone, lemma_nearest_same_ratio, nearest_magnitude, TWO53};
use crate::pipeline::OutputResolution;
use crate::run_report::{
    after_event, counted, frame_sum, merge_percent_of, merge_span, percent_of, rate_of, RunProgress,
    RunView, WorkerEvent,
};

verus! {

/// A clip is done where the encoder succeeded, and the decoder did or the work was
/// stopped; all frames were done where it was not stopped.
pub proof fn law_outcome_of_a_clip(
    cancelled: bool,
    decoder: Option<ExitReport>,
    decoder_stderr: Seq<char>,
    encoder: Result<ExitReport, String>,
    encoder_stderr: Seq<char>,
)
    ensures
        ({
            let r = clip_outcome(cancelled, decoder, decoder_stderr, encoder, encoder_stderr);
            &&& r.is_ok() == (encoder.is_ok() && encoder->Ok_0.success && (cancelled
                || decoder.is_none() || decoder->0.success))
            &&& r.is_ok() ==> r->Ok_0 == !cancelled
            &&& r.is_err() ==> r->Err_0 is Ffmpeg
        }),
{
}

/// What the encoder failed with is told whatever became of the decoder.
pub proof fn law_encoder_failure_first(
    cancelled: bool,
    decoder: Option<ExitReport>,
    decoder_stderr: Seq<char>,
    encoder: Result<ExitReport, String>,
    encoder_stderr: Seq<char>,
)
    requires
        encoder.is_err() || !encoder->Ok_0.success,
    ensures
        clip_outcome(cancelled, decoder, decoder_stderr, encoder, encoder_stderr) == clip_outcome(
            true,
            None,
            seq![],
            encoder,
            encoder_stderr,
        ),
        clip_outcome(cancelled, decoder, decoder_stderr, encoder, encoder_stderr).is_err(),
{
}

/// A written frame counts once, and nothing else does; every tenth one is reported.
pub proof fn law_written_frames_count(
    before: ClipRun,
    event: ClipEvent,
    action: ClipAction,
    after: ClipRun,
)
    requires
        before.frame_idx < u64::MAX,
        step_agrees(before, event, action, after),
    ensures
        after.frame_idx == before.frame_idx + if event is FrameWritten {
            1int
        } else {
            0
        },
        after.total_estimate == before.total_estimate,
        after.fps == before.fps,
        after.dive_start_sec == before.dive_start_sec,
        (action is Report) == (event is FrameWritten && after.frame_idx % 10 == 0),
        action matches ClipAction::Report { done, total } ==> done == after.frame_idx && total
            == before.total_estimate,
{
}

/// The work ends by a stop, at the last frame or by a failure, and by nothing else.
pub proof fn law_end_of_a_clip(
    before: ClipRun,
    event: ClipEvent,
    action: ClipAction,
    after: ClipRun,
)
    requires
        before.frame_idx < u64::MAX,
        step_agrees(before, event, action, after),
    ensures
        event matches ClipEvent::Polled { stop } ==> if stop {
            action == (ClipAction::Finish { cancelled: true })
        } else {
            action is ReadFrame
        },
        action is Finish ==> event is EndOfFrames || event is Polled,
        event is EndOfFrames ==> action == (ClipAction::Finish { cancelled: false }),
        (action is Fail) == (event is ReadFailed || event is WriteFailed),
        (action is DrawAndWrite) == (event is FrameRead),
{
}

/// A program that is waited for is done where it succeeded, is stopped where that was
/// asked for, and is looked at again else while it runs.
pub proof fn law_waiting_ends(what: Seq<char>, event: WaitEvent, action: WaitAction)
    requires
        wait_agrees(what, event, action),
    ensures
        (action is Done) == (event is Exited && event->report.success),
        (action is Cancel) == (event is Running && event->stop),
        (action is Sleep) == (event is Running && !event->stop),
{
}

/// A clip is scaled exactly where the size of its frames changes, and then to the size
/// that is written; where the original size is kept nothing is scaled.
pub proof fn law_scaled_where_the_size_changes(
    plan: ClipPlan,
    info: VideoInfo,
    resolution: OutputResolution,
    full_range: bool,
)
    requires
        plan_agrees(plan, info, resolution, full_range),
    ensures
        plan.scale_to.is_none() == (plan.out_width == info.width && plan.out_height == info.height),
        plan.scale_to.is_some() ==> plan.scale_to->0 == (plan.out_width, plan.out_height),
        resolution is Original ==> plan.out_width == info.width && plan.out_height == info.height,
        (plan.range is Full) == full_range,
        info.estimated_frames.is_some() ==> plan.total_estimate == info.estimated_frames->0,
        info.estimated_frames.is_none() ==> plan.total_estimate == 0,
{
}

/// Whether two paths are the same file does not depend on which one is named first,
/// and a path is the same as itself; where case counts, only equal paths are the same.
pub proof fn law_same_file(a: Seq<char>, b: Seq<char>, fold_case: bool)
    ensures
        same_file(a, a, fold_case),
        same_file(a, b, fold_case) == same_file(b, a, fold_case),
        same_file(a, b, false) == (a == b),
        same_file(a, b, false) ==> same_file(a, b, true),
{
}

/// The quotient of natural numbers lies between the integers that their ratio lies
/// between.
proof fn lemma_quotient_between(n: nat, d: nat, lo: nat, hi: nat)
    requires
        n < TWO53,
        0 < d < TWO53,
        hi < TWO53,
        lo * d <= n <= hi * d,
    ensures
        between(Real::of_int(n as int).quotient(Real::of_int(d as int)), lo as int, hi as int),
        !Real::of_int(n as int).quotient(Real::of_int(d as int)).negative(),
{
    reveal(Real::quotient);
    let u = unit();
    lemma_nat_size(n);
    lemma_nat_size(d);
    assert(lo <= hi) by (nonlinear_arith)
        requires
            lo * d <= hi * d,
            d > 0,
    ;
    lemma_nat_size(lo);
    lemma_nat_size(hi);
    let a = (n * u) * u;
    let b = d * u;
    assert(b > 0) by (nonlinear_arith)
        requires
            b == d * u,
            d > 0,
            u > 0,
    ;
    assert((lo * u) * b <= a * 1) by (nonlinear_arith)
        requires
            a == (n * u) * u,
            b == d * u,
            lo * d <= n,
            u > 0,
    ;
    assert(a * 1 <= (hi * u) * b) by (nonlinear_arith)
        requires
            a == (n * u) * u,
            b == d * u,
            n <= hi * d,
            u > 0,
    ;
    lemma_nearest_monotone(lo * u, 1, a, b);
    lemma_nearest_monotone(a, b, hi * u, 1);
    let q = Real::of_int(n as int).quotient(Real::of_int(d as int));
    assert(q.magnitude() == nearest_magnitude(a, b));
    lemma_size_at_most(nearest_magnitude(lo * u, 1), q.magnitude());
    lemma_size_at_most(q.magnitude(), nearest_magnitude(hi * u, 1));
}

/// The percentage of frames lies between the whole percentages around it: it is 0
/// before the first frame and 100 at the last one.
pub proof fn law_percentage_of_frames(done: nat, total: nat, lo: nat, hi: nat)
    requires
        100 * done < TWO53,
        0 < total < TWO53,
        hi < 0x100_0000,
        lo * total <= 100 * done <= hi * total,
    ensures
        between(percent_of(done, total), lo as int, hi as int),
{
    lemma_int_product(done, 100);
    assert(done * 100 == 100 * done);
    lemma_quotient_between(100 * done, total, lo, hi);
    lemma_single_between(
        Real::of_int((100 * done) as int).quotient(Real::of_int(total as int)),
        lo,
        hi,
    );
}

/// How far a run is counts the frames of the clips that are done and those of the
/// current one, out of the frames of all clips.
pub proof fn law_percentage_of_a_run(
    run: RunProgress,
    done: u64,
    total_reported: u64,
    lo: nat,
    hi: nat,
)
    requires
        run.wf(),
        run.idx < run.clip_totals@.len(),
        done <= if total_reported > 0 {
            total_reported
        } else {
            run.clip_totals@[run.idx as int]
        },
        100 * (frame_sum(run.clip_totals@, run.idx as nat) + done) < TWO53,
        0 < frame_sum(run.clip_totals@, run.clip_totals@.len()) < TWO53,
        hi < 0x100_0000,
        ({
            let share = 100 * (frame_sum(run.clip_totals@, run.idx as nat) + done);
            let all = frame_sum(run.clip_totals@, run.clip_totals@.len());
            lo * all <= share <= hi * all
        }),
    ensures
        between(run.percent_at(done, total_reported), lo as int, hi as int),
{
    law_percentage_of_frames(
        (run.base_done + done) as nat,
        run.total_all as nat,
        lo,
        hi,
    );
}

/// Frames beyond those that a clip has do not count.
pub proof fn law_frames_beyond_the_end(run: RunProgress, done: u64, total_reported: u64)
    requires
        total_reported > 0,
        done >= total_reported,
    ensures
        run.percent_at(done, total_reported) == run.percent_at(total_reported, total_reported),
{
}

/// A clip counts with its frames, and with one where it has none or they are not known.
pub proof fn law_clips_count(n: u64)
    ensures
        n > 0 ==> counted(Some(n)) == n,
        counted(Some(0)) == 1,
        counted(None) == 1,
{
}

/// So many frames in each of some seconds are so many frames per second; nothing is
/// done where the count did not grow.
pub proof fn law_frames_per_second(last_done: u64, done: u64, seconds: nat, rate: nat)
    requires
        0 < seconds < TWO53,
        rate * seconds < TWO53,
        rate < TWO53,
    ensures
        done == last_done + rate * seconds ==> rate_of(done, last_done, Real::of_int(seconds as int))
            == Real::of_int(rate as int),
        done <= last_done ==> rate_of(done, last_done, Real::of_int(seconds as int))
            == Real::of_int(0),
{
    let n = rate * seconds;
    assert(n >= 0) by (nonlinear_arith)
        requires
            n == rate * seconds,
    ;
    lemma_exact_ratio(rate, seconds);
    assert(0 * seconds == 0);
    lemma_exact_ratio(0, seconds);
}

pub proof fn lemma_exact_ratio(rate: nat, seconds: nat)
    requires
        0 < seconds < TWO53,
        rate * seconds < TWO53,
        rate < TWO53,
    ensures
        Real::of_int((rate * seconds) as int).quotient(Real::of_int(seconds as int))
            == Real::of_int(rate as int),
{
    reveal(Real::quotient);
    let u = unit();
    let n = rate * seconds;
    lemma_nat_size(n);
    lemma_nat_size(seconds);
    lemma_nat_size(rate);
    assert(((n * u) * u) * 1 == (rate * u) * (seconds * u)) by (nonlinear_arith)
        requires
            n == rate * seconds,
    ;
    assert(seconds * u > 0) by (nonlinear_arith)
        requires
            seconds > 0,
            u > 0,
    ;
    lemma_nearest_same_ratio((n * u) * u, seconds * u, rate * u, 1);
    let q = Real::of_int(n as int).quotient(Real::of_int(seconds as int));
    assert(q.magnitude() == nearest_magnitude(rate * u, 1));
    assert(q == Real::of_int(rate as int));
}

/// How far a merge is lies between the whole percentages around it, and is all of it
/// at the end and beyond.
pub proof fn law_percentage_of_a_merge(done: nat, total: nat, lo: nat, hi: nat)
    requires
        100 * done < TWO53,
        0 < total < TWO53,
        hi < TWO53,
        lo * total <= 100 * done <= hi * total,
    ensures
        hi <= 100 ==> between(
            merge_percent_of(Real::of_int(done as int), Real::of_int(total as int)),
            lo as int,
            hi as int,
        ),
        done >= total ==> merge_percent_of(Real::of_int(done as int), Real::of_int(total as int)).value()
            == 100 * unit(),
{
    lemma_int_product(done, 100);
    assert(done * 100 == 100 * done);
    lemma_quotient_between(100 * done, total, lo, hi);
    lemma_nat_size(100);
    let u = unit();
    assert(100 * total <= 100 * done || done < total);
    if done >= total {
        assert(100 * total <= 100 * done);
        assert(100 * done <= (100 * done) * total) by (nonlinear_arith)
            requires
                total >= 1,
        ;
        lemma_quotient_between(100 * done, total, 100, 100 * done);
    }
    assert(hi <= 100 ==> hi * u <= 100 * u) by (nonlinear_arith);
    assert(lo <= hi) by (nonlinear_arith)
        requires
            lo * total <= hi * total,
            total > 0,
    ;
    assert(hi <= 100 ==> lo * u <= 100 * u) by (nonlinear_arith)
        requires
            lo <= hi,
    ;
}

/// An event changes what it tells of and nothing else.
pub proof fn law_events_change_their_own(s: RunView, event: WorkerEvent)
    ensures
        ({
            let t = after_event(s, event);
            &&& event !is Log && !(event matches WorkerEvent::Done(Err(_))) ==> t.log_lines
                == s.log_lines
            &&& event !is Progress && !(event matches WorkerEvent::Done(Ok(true))) ==> t.progress
                == s.progress
            &&& event !is Fps && !(event matches WorkerEvent::Done(Ok(false))) ==> t.fps == s.fps
            &&& event !is Status && event !is Done ==> t.status == s.status
            &&& event !is Encoder ==> t.encoder_info == s.encoder_info
            &&& t.running == (s.running && event !is Done)
            &&& s.log_lines.is_prefix_of(t.log_lines)
        }),
{
    let t = after_event(s, event);
    assert(t.log_lines.take(s.log_lines.len() as int) =~= s.log_lines);
}

/// What an event tells of is shown.
pub proof fn law_events_are_shown(s: RunView, event: WorkerEvent)
    ensures
        ({
            let t = after_event(s, event);
            &&& event matches WorkerEvent::Log(line) ==> t.log_lines.last() == line@
            &&& event matches WorkerEvent::Progress(p) ==> t.progress == p
            &&& event matches WorkerEvent::Fps(f) ==> t.fps == f
            &&& event matches WorkerEvent::Status(text) ==> t.status == text@
            &&& event matches WorkerEvent::Encoder(text) ==> t.encoder_info == text@
            &&& event matches WorkerEvent::Done(Ok(true)) ==> t.progress == Real::of_int(100)
            &&& event matches WorkerEvent::Done(Ok(false)) ==> t.fps == Real::of_int(0)
            &&& event matches WorkerEvent::Done(Err(e)) ==> t.log_lines.last() == "Error: "@ + e@
        }),
{
}

/// A merge never shows more than its whole length.
pub proof fn law_merge_shows_at_most_its_length(done: nat, total: nat)
    requires
        done < TWO53,
        total < TWO53,
    ensures
        done >= total ==> merge_span(Real::of_int(done as int), Real::of_int(total as int))
            == merge_span(Real::of_int(total as int), Real::of_int(total as int)),
        done <= total ==> merge_span(Real::of_int(done as int), Real::of_int(total as int))
            == clock_text(whole_seconds(Real::of_int(done as int))) + " / "@ + clock_text(
            whole_seconds(Real::of_int(total as int)),
        ),
{
    lemma_nat_size(done);
    lemma_nat_size(total);
    let u = unit();
    assert(done > total ==> done * u > total * u) by (nonlinear_arith)
        requires
            u > 0,
    ;
    assert(done < total ==> done * u < total * u) by (nonlinear_arith)
        requires
            u > 0,
    ;
}

} // verus!
