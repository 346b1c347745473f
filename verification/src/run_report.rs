//! What is shown of a run: how far it is, and what happened.

use vstd::prelude::*;

use crate::binary64::Real;
use crate::csv_data::{clock_text, format_duration, whole_seconds};
use crate::error::prefixed;
use crate::ffprobe::{clip_i32, to_i32};
use crate::number_text::fixed;
use crate::numeral::{push_decimal, push_decimal_int};
use crate::text::{decimal, decimal_int, views};
use crate::update_check::UpdateStatus;

verus! {

/// What the work on a run tells of itself.
#[derive(Debug)]
pub enum WorkerEvent {
    Log(String),
    /// How far the run is, in percent.
    Progress(Real),
    Status(String),
    /// Frames done in a second.
    Fps(Real),
    Encoder(String),
    /// Whether all clips were finished, or the run was stopped, or what failed.
    Done(Result<bool, String>),
}

/// What is shown of a run.
#[derive(Debug)]
pub struct RunState {
    pub status: String,
    pub progress: Real,
    pub fps: Real,
    pub encoder_info: String,
    pub log_lines: Vec<String>,
    pub running: bool,
}

/// What is shown of a run, as contracts speak of it.
pub struct RunView {
    pub status: Seq<char>,
    pub progress: Real,
    pub fps: Real,
    pub encoder_info: Seq<char>,
    pub log_lines: Seq<Seq<char>>,
    pub running: bool,
}

impl View for RunState {
    type V = RunView;

    open spec fn view(&self) -> RunView {
        RunView {
            status: self.status@,
            progress: self.progress,
            fps: self.fps,
            encoder_info: self.encoder_info@,
            log_lines: views(self.log_lines@),
            running: self.running,
        }
    }
}

/// What an event makes of what is shown.
pub open spec fn after_event(s: RunView, event: WorkerEvent) -> RunView {
    match event {
        WorkerEvent::Log(line) => RunView { log_lines: s.log_lines.push(line@), ..s },
        WorkerEvent::Progress(p) => RunView { progress: p, ..s },
        WorkerEvent::Status(text) => RunView { status: text@, ..s },
        WorkerEvent::Fps(f) => RunView { fps: f, ..s },
        WorkerEvent::Encoder(text) => RunView { encoder_info: text@, ..s },
        WorkerEvent::Done(result) => match result {
            Ok(true) => RunView {
                running: false,
                status: "Done"@,
                progress: Real::of_int(100),
                ..s
            },
            Ok(false) => RunView {
                running: false,
                status: "Cancelled"@,
                fps: Real::of_int(0),
                ..s
            },
            Err(e) => RunView {
                running: false,
                status: "Error"@,
                log_lines: s.log_lines.push("Error: "@ + e@),
                ..s
            },
        },
    }
}

impl RunState {
    pub fn new() -> (r: RunState)
        ensures
            r@ == (RunView {
                status: "Ready"@,
                progress: Real::of_int(0),
                fps: Real::of_int(0),
                encoder_info: ""@,
                log_lines: seq![],
                running: false,
            }),
    {
        let r = RunState {
            status: "Ready".to_owned(),
            progress: Real::from_i64(0),
            fps: Real::from_i64(0),
            encoder_info: "".to_owned(),
            log_lines: Vec::new(),
            running: false,
        };
        assert(r@.log_lines =~= seq![]);
        r
    }

    /// Shows a line among those that were shown before.
    pub fn log(&mut self, line: String)
        ensures
            final(self)@ == (RunView { log_lines: old(self)@.log_lines.push(line@), ..old(self)@ }),
    {
        self.log_lines.push(line);
        assert(self@.log_lines =~= old(self)@.log_lines.push(line@));
    }

    /// Takes up an event.
    pub fn apply(&mut self, event: WorkerEvent)
        ensures
            final(self)@ == after_event(old(self)@, event),
    {
        match event {
            WorkerEvent::Log(line) => self.log(line),
            WorkerEvent::Progress(p) => {
                self.progress = p;
            },
            WorkerEvent::Status(text) => {
                self.status = text;
            },
            WorkerEvent::Fps(f) => {
                self.fps = f;
            },
            WorkerEvent::Encoder(text) => {
                self.encoder_info = text;
            },
            WorkerEvent::Done(result) => {
                self.running = false;
                match result {
                    Ok(finished) => if finished {
                        self.status = "Done".to_owned();
                        self.progress = Real::from_i64(100);
                    } else {
                        self.status = "Cancelled".to_owned();
                        self.fps = Real::from_i64(0);
                    },
                    Err(e) => {
                        self.status = "Error".to_owned();
                        self.log(prefixed("Error: ", e.as_str()));
                    },
                }
            },
        }
    }

    /// Shows that a run has started.
    pub fn begin(&mut self)
        ensures
            final(self)@ == (RunView {
                status: "Processing..."@,
                progress: Real::of_int(0),
                fps: Real::of_int(0),
                encoder_info: ""@,
                log_lines: old(self)@.log_lines.push("Starting processing..."@),
                running: true,
            }),
    {
        self.running = true;
        self.status = "Processing...".to_owned();
        self.progress = Real::from_i64(0);
        self.fps = Real::from_i64(0);
        self.encoder_info = "".to_owned();
        self.log("Starting processing...".to_owned());
    }

    /// Shows that a stop was asked for.
    pub fn cancel_requested(&mut self)
        ensures
            final(self)@ == (RunView {
                status: "Cancelling..."@,
                log_lines: old(self)@.log_lines.push("Cancel requested..."@),
                ..old(self)@
            }),
    {
        self.log("Cancel requested...".to_owned());
        self.status = "Cancelling...".to_owned();
    }

    /// The text of the progress bar: how far the run is, and how fast while it runs.
    pub fn bar_text(&self) -> (r: String)
        ensures
            r@ == decimal_int(clip_i32(self.progress.truncated())) + if self.running
                && Real::of_int(0).less(self.fps) {
                "% ("@ + fixed(self.fps, 1) + " fps)"@
            } else {
                "%"@
            },
    {
        let mut r = String::new();
        push_decimal_int(&mut r, to_i32(self.progress.trunc_i64()) as i64);
        let ghost number = decimal_int(clip_i32(self.progress.truncated()));
        proof {
            reveal_strlit("");
            assert(r@ =~= number);
        }
        if self.running && Real::from_i64(0).lt(self.fps) {
            r.push_str("% (");
            self.fps.push_fixed(&mut r, 1);
            r.push_str(" fps)");
            assert(r@ =~= number + ("% ("@ + fixed(self.fps, 1) + " fps)"@));
        } else {
            r.push_str("%");
        }
        r
    }

    /// Takes up what is known of newer versions: the version and where it is, where
    /// there is one; what failed is shown.
    pub fn apply_update(&mut self, status: UpdateStatus) -> (r: Option<(String, String)>)
        ensures
            match status {
                UpdateStatus::Available { version, url } => {
                    &&& r == Some((version, url))
                    &&& final(self)@ == old(self)@
                },
                UpdateStatus::UpToDate => r.is_none() && final(self)@ == old(self)@,
                UpdateStatus::Error(e) => r.is_none() && final(self)@ == (RunView {
                    log_lines: old(self)@.log_lines.push("Update check failed: "@ + e@),
                    ..old(self)@
                }),
            },
    {
        match status {
            UpdateStatus::Available { version, url } => Some((version, url)),
            UpdateStatus::UpToDate => None,
            UpdateStatus::Error(e) => {
                self.log(prefixed("Update check failed: ", e.as_str()));
                None
            },
        }
    }
}

/// How far a run over several clips is.
#[derive(Debug)]
pub struct RunProgress {
    /// The frames of each clip, at least one.
    pub clip_totals: Vec<u64>,
    /// The frames of all clips, at least one.
    pub total_all: u64,
    pub idx: usize,
    /// The frames of the clips that are done.
    pub base_done: u64,
}

/// The frames that a clip is counted with.
pub open spec fn counted(n: Option<u64>) -> u64 {
    match n {
        Some(n) => if n == 0 {
            1
        } else {
            n
        },
        None => 1,
    }
}

/// The frames that clips are counted with.
pub open spec fn counted_all(frames: Seq<Option<u64>>) -> Seq<u64> {
    frames.map_values(|n: Option<u64>| counted(n))
}

/// The frames of the first `n` clips.
pub open spec fn frame_sum(totals: Seq<u64>, n: nat) -> nat
    decreases n,
{
    if n == 0 {
        0
    } else {
        frame_sum(totals, (n - 1) as nat) + totals[n - 1] as nat
    }
}

proof fn lemma_frame_sum(totals: Seq<u64>, i: nat, n: nat)
    requires
        i <= n <= totals.len(),
    ensures
        frame_sum(totals, i) <= frame_sum(totals, n),
    decreases n,
{
    if i < n {
        lemma_frame_sum(totals, i, (n - 1) as nat);
    }
}

/// A share of all frames in percent, in single precision.
pub open spec fn percent_of(done: nat, total: nat) -> Real {
    Real::of_int(done as int).product(Real::of_int(100)).quotient(
        Real::of_int(total as int),
    ).single()
}

/// The percentage of a whole in single precision.
fn percent(done: u64, total: u64) -> (r: Real)
    ensures
        r == percent_of(done as nat, total as nat),
{
    Real::from_u64(done).times(Real::from_i64(100)).over(Real::from_u64(total)).to_single()
}

impl RunProgress {
    /// Whether the counts of frames agree with each other.
    pub open spec fn wf(self) -> bool {
        let all = frame_sum(self.clip_totals@, self.clip_totals@.len());
        &&& all <= u64::MAX
        &&& self.total_all == if all == 0 {
            1
        } else {
            all as int
        }
        &&& self.idx <= self.clip_totals@.len()
        &&& self.base_done == frame_sum(self.clip_totals@, self.idx as nat)
    }

    /// How far the run is when some frames of its current clip are done, given how
    /// many the clip was found to have, 0 where that is not known.
    pub open spec fn percent_at(self, done: u64, total_reported: u64) -> Real {
        let total = if total_reported > 0 {
            total_reported
        } else {
            self.clip_totals@[self.idx as int]
        };
        let counted_done = if done < total {
            done
        } else {
            total
        };
        percent_of((self.base_done + counted_done) as nat, self.total_all as nat)
    }

    /// Starts a run over clips, given the guesses at their counts of frames.
    pub fn start(frames: &Vec<Option<u64>>) -> (r: RunProgress)
        requires
            frame_sum(counted_all(frames@), frames@.len()) <= u64::MAX,
        ensures
            r.wf(),
            r.clip_totals@ == counted_all(frames@),
            r.idx == 0,
    {
        let ghost all = counted_all(frames@);
        let mut clip_totals: Vec<u64> = Vec::new();
        let mut sum: u64 = 0;
        let mut i: usize = 0;
        while i < frames.len()
            invariant
                i <= frames.len(),
                all == counted_all(frames@),
                clip_totals.len() == i,
                forall|k: int| 0 <= k < i ==> (#[trigger] clip_totals@[k]) == counted(frames@[k]),
                sum == frame_sum(all, i as nat),
                frame_sum(all, frames@.len()) <= u64::MAX,
            decreases frames.len() - i,
        {
            let n: u64 = match frames[i] {
                Some(n) => if n == 0 {
                    1
                } else {
                    n
                },
                None => 1,
            };
            proof {
                assert(all[i as int] == n);
                lemma_frame_sum(all, (i + 1) as nat, frames@.len());
            }
            clip_totals.push(n);
            sum = sum + n;
            i += 1;
        }
        proof {
            assert(clip_totals@ =~= all);
        }
        let total_all: u64 = if sum == 0 {
            1
        } else {
            sum
        };
        RunProgress { clip_totals, total_all, idx: 0, base_done: 0 }
    }

    /// How far the run is, given how far the work on its current clip is: the frames
    /// done, and how many it has, 0 where that is not known.
    pub fn clip_progress(&self, done: u64, total_reported: u64) -> (r: Real)
        requires
            self.wf(),
            self.idx < self.clip_totals.len(),
            self.base_done + done <= u64::MAX || self.base_done + total_reported <= u64::MAX,
        ensures
            r == self.percent_at(done, total_reported),
    {
        let total: u64 = if total_reported > 0 {
            total_reported
        } else {
            self.clip_totals[self.idx]
        };
        let counted_done: u64 = if done < total {
            done
        } else {
            total
        };
        proof {
            lemma_frame_sum(self.clip_totals@, (self.idx + 1) as nat, self.clip_totals@.len());
        }
        percent(self.base_done + counted_done, self.total_all)
    }

    /// Goes on to the next clip, and says how far the run is.
    pub fn clip_done(&mut self) -> (r: Real)
        requires
            old(self).wf(),
            old(self).idx < old(self).clip_totals.len(),
        ensures
            final(self).wf(),
            final(self).clip_totals@ == old(self).clip_totals@,
            final(self).idx == old(self).idx + 1,
            r == percent_of(final(self).base_done as nat, final(self).total_all as nat),
    {
        proof {
            lemma_frame_sum(self.clip_totals@, (self.idx + 1) as nat, self.clip_totals@.len());
        }
        self.base_done = self.base_done + self.clip_totals[self.idx];
        self.idx = self.idx + 1;
        percent(self.base_done, self.total_all)
    }
}

/// When all clips are done, all frames are, and the run is at a hundred percent of
/// its frames.
pub proof fn law_run_ends_complete(p: RunProgress)
    requires
        p.wf(),
        p.idx == p.clip_totals@.len(),
        p.clip_totals@.len() > 0,
        forall|i: int| 0 <= i < p.clip_totals@.len() ==> (#[trigger] p.clip_totals@[i]) > 0,
    ensures
        p.base_done == p.total_all,
{
    let n = p.clip_totals@.len();
    assert(p.clip_totals@[n - 1] > 0);
}

/// Frames done in a second, given the frames done now and before, and the seconds
/// between.
pub open spec fn rate_of(done: u64, last_done: u64, elapsed: Real) -> Real {
    Real::of_int(
        if done > last_done {
            done - last_done
        } else {
            0
        },
    ).quotient(elapsed)
}

pub fn frame_rate(done: u64, last_done: u64, elapsed: Real) -> (r: Real)
    ensures
        r == rate_of(done, last_done, elapsed),
{
    let frames: u64 = if done > last_done {
        done - last_done
    } else {
        0
    };
    Real::from_u64(frames).over(elapsed)
}

/// Whether the speed is measured now: not at the last report, which waits for the
/// file to be closed, and not more often than ten times a second.
pub fn measures_rate(done: u64, total: u64, elapsed: Real) -> (r: bool)
    ensures
        r == (!(total > 0 && done >= total) && Real::of_ratio(1, 10).at_most(elapsed)),
{
    !(total > 0 && done >= total) && Real::from_ratio(1, 10).le(elapsed)
}

/// The position of a clip in a run.
pub open spec fn position_text(i: nat, total: nat) -> Seq<char> {
    "["@ + decimal(i) + "/"@ + decimal(total) + "] "@
}

fn push_position(out: &mut String, i: u64, total: u64)
    ensures
        final(out)@ == old(out)@ + position_text(i as nat, total as nat),
{
    out.push_str("[");
    push_decimal(out, i);
    out.push_str("/");
    push_decimal(out, total);
    out.push_str("] ");
    assert(out@ =~= old(out)@ + position_text(i as nat, total as nat));
}

/// The line that shows how far the work on a clip is.
pub open spec fn frame_line(i: nat, total: nat, done: nat, frames: nat, fps: Option<Real>) -> Seq<char> {
    "\r"@ + position_text(i, total) + "Frame "@ + decimal(done) + (if frames > 0 {
        "/"@ + decimal(frames)
    } else {
        ""@
    }) + match fps {
        Some(f) => " ("@ + fixed(f, 1) + " fps)   "@,
        None => " (done)   "@,
    }
}

/// The line that shows how far the work on a clip is, with its speed while it goes
/// on.
pub fn clip_progress_line(i: u64, total: u64, done: u64, frames: u64, fps: Option<Real>) -> (r: String)
    ensures
        r@ == frame_line(i as nat, total as nat, done as nat, frames as nat, fps),
{
    let mut r = "\r".to_owned();
    push_position(&mut r, i, total);
    r.push_str("Frame ");
    push_decimal(&mut r, done);
    if frames > 0 {
        r.push_str("/");
        push_decimal(&mut r, frames);
    }
    let ghost head = r@;
    match fps {
        Some(f) => {
            r.push_str(" (");
            f.push_fixed(&mut r, 1);
            r.push_str(" fps)   ");
        },
        None => r.push_str(" (done)   "),
    }
    proof {
        reveal_strlit("");
        assert(r@ =~= frame_line(i as nat, total as nat, done as nat, frames as nat, fps));
    }
    r
}

/// The line that is shown at a report on a clip: that it is done at its last frame,
/// and else its speed, not more often than ten times a second.
pub fn clip_report_line(
    i: u64,
    total: u64,
    done: u64,
    frames: u64,
    last_done: u64,
    elapsed: Real,
) -> (r: Option<String>)
    ensures
        match r {
            Some(t) => {
                ||| frames > 0 && done >= frames && t@ == frame_line(
                    i as nat,
                    total as nat,
                    done as nat,
                    frames as nat,
                    None,
                )
                ||| !(frames > 0 && done >= frames) && Real::of_ratio(1, 10).at_most(elapsed) && t@
                    == frame_line(
                    i as nat,
                    total as nat,
                    done as nat,
                    frames as nat,
                    Some(rate_of(done, last_done, elapsed)),
                )
            },
            None => !(frames > 0 && done >= frames) && !Real::of_ratio(1, 10).at_most(elapsed),
        },
{
    if frames > 0 && done >= frames {
        Some(clip_progress_line(i, total, done, frames, None))
    } else if measures_rate(done, frames, elapsed) {
        let fps = frame_rate(done, last_done, elapsed);
        Some(clip_progress_line(i, total, done, frames, Some(fps)))
    } else {
        None
    }
}

/// The line that shows which clip is worked on.
pub fn clip_started_line(i: u64, total: u64, video: &str, output: &str) -> (r: String)
    ensures
        r@ == position_text(i as nat, total as nat) + video@ + " -> "@ + output@,
{
    let mut r = String::new();
    push_position(&mut r, i, total);
    r.push_str(video);
    r.push_str(" -> ");
    r.push_str(output);
    assert(r@ =~= position_text(i as nat, total as nat) + video@ + " -> "@ + output@);
    r
}

/// The line that shows which clip is done.
pub fn clip_done_line(i: u64, total: u64, output: &str) -> (r: String)
    ensures
        r@ == position_text(i as nat, total as nat) + "Done: "@ + output@,
{
    let mut r = String::new();
    push_position(&mut r, i, total);
    r.push_str("Done: ");
    r.push_str(output);
    assert(r@ =~= position_text(i as nat, total as nat) + "Done: "@ + output@);
    r
}

/// Where the results of single clips were left, where clips are merged.
pub open spec fn parts_text(parts_dir: Option<Seq<char>>) -> Seq<char> {
    match parts_dir {
        Some(d) => "\nPartial results kept in: "@ + d,
        None => ""@,
    }
}

/// A message followed by where the results of single clips were left.
pub fn with_parts_note(message: &str, parts_dir: Option<&str>) -> (r: String)
    ensures
        r@ == message@ + parts_text(
            match parts_dir {
                Some(d) => Some(d@),
                None => None,
            },
        ),
{
    let mut r = message.to_owned();
    match parts_dir {
        Some(d) => {
            r.push_str("\nPartial results kept in: ");
            r.push_str(d);
            assert(r@ =~= message@ + ("\nPartial results kept in: "@ + d@));
        },
        None => {
            proof {
                reveal_strlit("");
                assert(r@ =~= message@ + ""@);
            }
        },
    }
    r
}

/// The line that shows that clips are joined.
pub fn combining_line(total: u64, output: &str) -> (r: String)
    ensures
        r@ == "Combining "@ + decimal(total as nat) + " clip(s) into "@ + output@ + "..."@,
{
    let mut r = "Combining ".to_owned();
    push_decimal(&mut r, total);
    r.push_str(" clip(s) into ");
    r.push_str(output);
    r.push_str("...");
    r
}

/// Decides whether the progress of a merge is shown now: where its length is known,
/// and not more often than the given time apart, but always at its end.
pub fn shows_merge(done: Real, total: Real, elapsed: Real, apart: Real) -> (r: bool)
    ensures
        r == (!total.at_most(Real::of_int(0)) && !(elapsed.less(apart) && done.less(total))),
{
    !total.le(Real::from_i64(0)) && !(elapsed.lt(apart) && done.lt(total))
}

/// How far a merge is in percent, at most all of it.
pub open spec fn merge_percent_of(done: Real, total: Real) -> Real {
    done.product(Real::of_int(100)).quotient(total).least(Real::of_int(100))
}

pub fn merge_percent(done: Real, total: Real) -> (r: Real)
    ensures
        r == merge_percent_of(done, total),
{
    done.times(Real::from_i64(100)).over(total).min(Real::from_i64(100))
}

/// How far a merge is, in minutes and seconds.
pub open spec fn merge_span(done: Real, total: Real) -> Seq<char> {
    clock_text(whole_seconds(done.least(total))) + " / "@ + clock_text(whole_seconds(total))
}

fn push_merge_span(out: &mut String, done: Real, total: Real)
    ensures
        final(out)@ == old(out)@ + merge_span(done, total),
{
    out.push_str(format_duration(done.min(total)).as_str());
    out.push_str(" / ");
    out.push_str(format_duration(total).as_str());
    assert(out@ =~= old(out)@ + merge_span(done, total));
}

/// The line that shows how far a merge is.
pub fn merge_progress_line(done: Real, total: Real) -> (r: String)
    ensures
        r@ == "\rCombining "@ + merge_span(done, total) + " ("@ + fixed(
            merge_percent_of(done, total),
            0,
        ) + "%)   "@,
{
    let mut r = "\rCombining ".to_owned();
    push_merge_span(&mut r, done, total);
    r.push_str(" (");
    merge_percent(done, total).push_fixed(&mut r, 0);
    r.push_str("%)   ");
    r
}

/// The status that shows how far a merge is.
pub fn merge_status(done: Real, total: Real) -> (r: String)
    ensures
        r@ == "Combining clips... "@ + merge_span(done, total),
{
    let mut r = "Combining clips... ".to_owned();
    push_merge_span(&mut r, done, total);
    r
}

} // verus!
