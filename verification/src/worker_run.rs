//! A run over all clips: which clip is worked on next, and what is told of the run.

use vstd::prelude::*;

use crate::binary64::Real;
use crate::error::prefixed;
use crate::model::ClipJob;
use crate::paths::{ends_in_file_name, file_label, is_last_part};
use crate::run_report::{
    clip_done_line, clip_started_line, combining_line, frame_rate, measures_rate, merge_percent,
    merge_percent_of, merge_span, merge_status, parts_text, percent_of, position_text, rate_of,
    shows_merge, with_parts_note, RunProgress, WorkerEvent,
};
use crate::sync::{format_signed_duration, signed_duration, AutoSyncReport};
use crate::text::{decimal, views};

verus! {

/// What the work on a run tells of itself, as contracts speak of it.
pub enum Told {
    Log(Seq<char>),
    Progress(Real),
    Status(Seq<char>),
    Fps(Real),
    Encoder(Seq<char>),
    Done(Result<bool, Seq<char>>),
}

impl View for WorkerEvent {
    type V = Told;

    open spec fn view(&self) -> Told {
        match self {
            WorkerEvent::Log(t) => Told::Log(t@),
            WorkerEvent::Progress(p) => Told::Progress(*p),
            WorkerEvent::Status(t) => Told::Status(t@),
            WorkerEvent::Fps(f) => Told::Fps(*f),
            WorkerEvent::Encoder(t) => Told::Encoder(t@),
            WorkerEvent::Done(Ok(b)) => Told::Done(Ok(*b)),
            WorkerEvent::Done(Err(e)) => Told::Done(Err(e@)),
        }
    }
}

pub open spec fn told(events: Seq<WorkerEvent>) -> Seq<Told> {
    events.map_values(|e: WorkerEvent| e@)
}

fn tell(events: &mut Vec<WorkerEvent>, event: WorkerEvent)
    ensures
        told(final(events)@) == told(old(events)@).push(event@),
{
    events.push(event);
    assert(told(events@) =~= told(old(events)@).push(event@));
}

/// The names under which a clip is shown.
#[derive(Debug)]
pub struct ClipNames {
    pub video: String,
    pub output: String,
    pub output_path: String,
}

/// Whether names are those of a clip.
pub open spec fn names_agree(names: ClipNames, job: ClipJob) -> bool {
    &&& names.output_path@ == job.output_path@
    &&& ends_in_file_name(job.video_path@) ==> is_last_part(names.video@, job.video_path@)
    &&& ends_in_file_name(job.output_path@) ==> is_last_part(names.output@, job.output_path@)
}

/// The names under which clips are shown.
pub fn clip_names(jobs: &Vec<ClipJob>) -> (r: Vec<ClipNames>)
    ensures
        r@.len() == jobs@.len(),
        forall|i: int| 0 <= i < r@.len() ==> names_agree(#[trigger] r@[i], jobs@[i]),
{
    let mut r: Vec<ClipNames> = Vec::new();
    let mut i: usize = 0;
    while i < jobs.len()
        invariant
            i <= jobs.len(),
            r@.len() == i,
            forall|k: int| 0 <= k < i ==> names_agree(#[trigger] r@[k], jobs@[k]),
        decreases jobs.len() - i,
    {
        let names = ClipNames {
            video: file_label(jobs[i].video_path.as_str()),
            output: file_label(jobs[i].output_path.as_str()),
            output_path: jobs[i].output_path.clone(),
        };
        r.push(names);
        i += 1;
    }
    r
}

/// The lines that tell where clips were placed: by which clock, and each clip with
/// the moment of the dive at which it starts.
pub open spec fn placement(
    clock: Seq<char>,
    prefix: Seq<char>,
    names: Seq<ClipNames>,
    jobs: Seq<ClipJob>,
) -> Seq<Seq<char>> {
    seq!["Auto-sync: clips placed by "@ + clock + "."@] + Seq::new(
        names.len(),
        |i: int|
            prefix + names[i].video@ + " -> CSV "@ + signed_duration(jobs[i].dive_start_sec),
    )
}

/// The lines that tell where clips were placed.
pub fn placement_lines(
    report: &AutoSyncReport,
    prefix: &str,
    names: &Vec<ClipNames>,
    jobs: &Vec<ClipJob>,
) -> (r: Vec<String>)
    requires
        names.len() == jobs.len(),
    ensures
        views(r@) == placement(report.source.name(), prefix@, names@, jobs@),
{
    let mut r: Vec<String> = Vec::new();
    let mut line = prefixed("Auto-sync: clips placed by ", report.source.label());
    line.push_str(".");
    r.push(line);
    let ghost all = placement(report.source.name(), prefix@, names@, jobs@);
    proof {
        assert(views(r@) =~= all.take(1));
    }
    let mut i: usize = 0;
    while i < names.len()
        invariant
            i <= names.len(),
            names.len() == jobs.len(),
            all == placement(report.source.name(), prefix@, names@, jobs@),
            views(r@) == all.take(i + 1),
        decreases names.len() - i,
    {
        let mut line = prefixed(prefix, names[i].video.as_str());
        line.push_str(" -> CSV ");
        line.push_str(format_signed_duration(jobs[i].dive_start_sec).as_str());
        proof {
            assert(line@ == all[i + 1]);
        }
        let ghost before = r@;
        r.push(line);
        proof {
            assert(views(r@) =~= views(before).push(line@));
            assert(all.take(i + 2) =~= all.take(i + 1).push(all[i + 1]));
        }
        i += 1;
    }
    proof {
        assert(all.take(all.len() as int) =~= all);
    }
    r
}

/// What is done next in a run.
#[derive(Debug)]
pub enum RunAction {
    ProcessClip { index: usize },
    Combine,
    Finish { result: Result<bool, String> },
}

/// What is done next in a run, as contracts speak of it.
pub enum NextView {
    ProcessClip { index: nat },
    Combine,
    Finish { result: Result<bool, Seq<char>> },
}

impl View for RunAction {
    type V = NextView;

    open spec fn view(&self) -> NextView {
        match self {
            RunAction::ProcessClip { index } => NextView::ProcessClip { index: *index as nat },
            RunAction::Combine => NextView::Combine,
            RunAction::Finish { result: Ok(b) } => NextView::Finish { result: Ok(*b) },
            RunAction::Finish { result: Err(e) } => NextView::Finish { result: Err(e@) },
        }
    }
}

/// How a step of a run ended: whether it was finished or stopped, or what failed.
#[derive(Debug)]
pub enum RunEvent {
    ClipEnded { outcome: Result<bool, String> },
    Combined { outcome: Result<bool, String> },
}

/// A run over clips.
#[derive(Debug)]
pub struct WorkerRun {
    pub names: Vec<ClipNames>,
    /// Where the clips are joined: the result, and the directory of the parts.
    pub merge: Option<(String, String)>,
    pub progress: RunProgress,
    /// The frames of the current clip when the speed was measured last.
    pub last_done: u64,
}

/// The directory of the parts, where clips are joined.
pub open spec fn parts_of(merge: Option<(String, String)>) -> Option<Seq<char>> {
    match merge {
        Some((_, dir)) => Some(dir@),
        None => None,
    }
}

/// What follows when the first clips of a run are done: the next clip, or else the
/// joining where it is asked for, or else the end.
pub open spec fn next_step(
    names: Seq<ClipNames>,
    merge: Option<(String, String)>,
    idx: nat,
) -> (Seq<Told>, NextView) {
    if idx < names.len() {
        let clip = names[idx as int];
        (
            seq![
                Told::Log(
                    position_text(idx + 1, names.len()) + clip.video@ + " -> "@ + clip.output@,
                ),
            ],
            NextView::ProcessClip { index: idx },
        )
    } else {
        match merge {
            Some((output, _)) => (
                seq![
                    Told::Log(
                        "Combining "@ + decimal(names.len()) + " clip(s) into "@ + output@ + "..."@,
                    ),
                    Told::Fps(Real::of_int(0)),
                    Told::Progress(Real::of_int(0)),
                    Told::Status("Combining clips..."@),
                ],
                NextView::Combine,
            ),
            None => (seq![], NextView::Finish { result: Ok(true) }),
        }
    }
}

/// What a step that did not succeed leads to: the end, and where parts were left.
pub open spec fn ended_early(
    outcome: Result<bool, String>,
    stopped: Seq<char>,
    parts: Option<Seq<char>>,
) -> (Seq<Told>, NextView) {
    match outcome {
        Err(e) => (seq![], NextView::Finish { result: Err(e@ + parts_text(parts)) }),
        Ok(_) => (
            seq![Told::Log(stopped + parts_text(parts))],
            NextView::Finish { result: Ok(false) },
        ),
    }
}

fn end_early(
    outcome: Result<bool, String>,
    stopped: &str,
    parts: Option<&str>,
) -> (r: (Vec<WorkerEvent>, RunAction))
    ensures
        (told(r.0@), r.1@) == ended_early(
            outcome,
            stopped@,
            match parts {
                Some(d) => Some(d@),
                None => None,
            },
        ),
{
    let mut events: Vec<WorkerEvent> = Vec::new();
    proof {
        assert(told(events@) =~= seq![]);
    }
    match outcome {
        Err(e) => (
            events,
            RunAction::Finish { result: Err(with_parts_note(e.as_str(), parts)) },
        ),
        Ok(_) => {
            tell(&mut events, WorkerEvent::Log(with_parts_note(stopped, parts)));
            proof {
                assert(told(events@) =~= seq![events@[0]@]);
            }
            (events, RunAction::Finish { result: Ok(false) })
        },
    }
}

impl WorkerRun {
    /// Whether the run counts the frames of the clips that it is over.
    pub open spec fn wf(self) -> bool {
        self.progress.wf() && self.progress.clip_totals@.len() == self.names@.len()
    }

    fn parts(&self) -> (r: Option<&str>)
        ensures
            match r {
                Some(d) => parts_of(self.merge) == Some(d@),
                None => parts_of(self.merge).is_none(),
            },
    {
        match &self.merge {
            Some(m) => Some(m.1.as_str()),
            None => None,
        }
    }

    fn go_on(&self, events: &mut Vec<WorkerEvent>) -> (r: RunAction)
        requires
            self.wf(),
        ensures
            told(final(events)@) == told(old(events)@) + next_step(
                self.names@,
                self.merge,
                self.progress.idx as nat,
            ).0,
            r@ == next_step(self.names@, self.merge, self.progress.idx as nat).1,
    {
        let ghost before = told(events@);
        let total: u64 = self.names.len() as u64;
        let idx: usize = self.progress.idx;
        let ghost next = next_step(self.names@, self.merge, idx as nat);
        if idx < self.names.len() {
            let clip = &self.names[idx];
            let line = clip_started_line(
                idx as u64 + 1,
                total,
                clip.video.as_str(),
                clip.output.as_str(),
            );
            tell(events, WorkerEvent::Log(line));
            proof {
                assert(told(events@) =~= before + next.0);
            }
            return RunAction::ProcessClip { index: idx };
        }
        match &self.merge {
            Some(m) => {
                tell(events, WorkerEvent::Log(combining_line(total, m.0.as_str())));
                tell(events, WorkerEvent::Fps(Real::from_i64(0)));
                tell(events, WorkerEvent::Progress(Real::from_i64(0)));
                tell(events, WorkerEvent::Status("Combining clips...".to_owned()));
                proof {
                    assert(told(events@) =~= before + next.0);
                }
                RunAction::Combine
            },
            None => {
                proof {
                    assert(told(events@) =~= before + next.0);
                }
                RunAction::Finish { result: Ok(true) }
            },
        }
    }

    /// Starts a run over clips.
    pub fn start(names: Vec<ClipNames>, merge: Option<(String, String)>, progress: RunProgress) -> (r: (
        WorkerRun,
        Vec<WorkerEvent>,
        RunAction,
    ))
        requires
            progress.wf(),
            progress.clip_totals@.len() == names@.len(),
        ensures
            r.0.wf(),
            r.0.names == names,
            r.0.merge == merge,
            r.0.progress == progress,
            r.0.last_done == 0,
            (told(r.1@), r.2@) == next_step(names@, merge, progress.idx as nat),
    {
        let run = WorkerRun { names, merge, progress, last_done: 0 };
        let mut events: Vec<WorkerEvent> = Vec::new();
        proof {
            assert(told(events@) =~= seq![]);
        }
        let action = run.go_on(&mut events);
        proof {
            let next = next_step(names@, merge, progress.idx as nat);
            assert(seq![] + next.0 =~= next.0);
        }
        (run, events, action)
    }

    /// What a step leads to.
    pub open spec fn after(self, event: RunEvent) -> (Seq<Told>, NextView) {
        let parts = parts_of(self.merge);
        let idx = self.progress.idx as nat;
        match event {
            RunEvent::ClipEnded { outcome: Ok(true) } => {
                let done = self.progress.base_done + self.progress.clip_totals@[idx as int];
                let next = next_step(self.names@, self.merge, idx + 1);
                (
                    seq![
                        Told::Progress(percent_of(done as nat, self.progress.total_all as nat)),
                        Told::Log(
                            position_text(idx + 1, self.names@.len()) + "Done: "@
                                + self.names@[idx as int].output_path@,
                        ),
                    ] + next.0,
                    next.1,
                )
            },
            RunEvent::ClipEnded { outcome } => ended_early(
                outcome,
                "Cancelled: processing stopped."@,
                parts,
            ),
            RunEvent::Combined { outcome: Ok(true) } => (
                match self.merge {
                    Some((output, _)) => seq![Told::Log("Done: "@ + output@)],
                    None => seq![],
                },
                NextView::Finish { result: Ok(true) },
            ),
            RunEvent::Combined { outcome } => ended_early(
                outcome,
                "Cancelled: combining stopped."@,
                parts,
            ),
        }
    }

    /// Takes up how a step ended: what is told, and what is done next. Only a clip
    /// that is worked on can end.
    pub fn step(&mut self, event: RunEvent) -> (r: (Vec<WorkerEvent>, RunAction))
        requires
            old(self).wf(),
            event is ClipEnded ==> old(self).progress.idx < old(self).names.len(),
        ensures
            final(self).wf(),
            final(self).names == old(self).names,
            final(self).merge == old(self).merge,
            final(self).progress.clip_totals@ == old(self).progress.clip_totals@,
            (told(r.0@), r.1@) == old(self).after(event),
            event matches RunEvent::ClipEnded { outcome: Ok(true) } ==> final(self).progress.idx
                == old(self).progress.idx + 1 && final(self).last_done == 0,
            !(event matches RunEvent::ClipEnded { outcome: Ok(true) }) ==> *final(self) == *old(
                self,
            ),
    {
        let mut events: Vec<WorkerEvent> = Vec::new();
        proof {
            assert(told(events@) =~= seq![]);
        }
        match event {
            RunEvent::ClipEnded { outcome } => {
                if let Ok(true) = outcome {
                    let total: u64 = self.names.len() as u64;
                    let idx: usize = self.progress.idx;
                    let ghost expected = self.after(event);
                    let percent = self.progress.clip_done();
                    tell(&mut events, WorkerEvent::Progress(percent));
                    let line = clip_done_line(
                        idx as u64 + 1,
                        total,
                        self.names[idx].output_path.as_str(),
                    );
                    tell(&mut events, WorkerEvent::Log(line));
                    self.last_done = 0;
                    let ghost first = told(events@);
                    let action = self.go_on(&mut events);
                    proof {
                        assert(first =~= expected.0.take(2));
                        assert(told(events@) =~= expected.0);
                    }
                    (events, action)
                } else {
                    end_early(outcome, "Cancelled: processing stopped.", self.parts())
                }
            },
            RunEvent::Combined { outcome } => {
                if let Ok(true) = outcome {
                    match &self.merge {
                        Some(m) => {
                            tell(
                                &mut events,
                                WorkerEvent::Log(prefixed("Done: ", m.0.as_str())),
                            );
                            proof {
                                assert(told(events@) =~= seq![events@[0]@]);
                            }
                        },
                        None => {},
                    }
                    (events, RunAction::Finish { result: Ok(true) })
                } else {
                    end_early(outcome, "Cancelled: combining stopped.", self.parts())
                }
            },
        }
    }

    /// Tells how far the work on the current clip is, given the frames done, how many
    /// it has, 0 where that is not known, and the seconds since the speed was
    /// measured last. Says besides whether the speed was measured now.
    pub fn clip_report(&mut self, done: u64, total_reported: u64, elapsed: Real) -> (r: (
        Vec<WorkerEvent>,
        bool,
    ))
        requires
            old(self).wf(),
            old(self).progress.idx < old(self).names.len(),
            old(self).progress.base_done + done <= u64::MAX || old(self).progress.base_done
                + total_reported <= u64::MAX,
        ensures
            final(self).wf(),
            final(self).names == old(self).names,
            final(self).merge == old(self).merge,
            final(self).progress == old(self).progress,
            r.1 == (!(total_reported > 0 && done >= total_reported) && Real::of_ratio(
                1,
                10,
            ).at_most(elapsed)),
            final(self).last_done == if r.1 {
                done
            } else {
                old(self).last_done
            },
            told(r.0@) == seq![
                Told::Progress(old(self).progress.percent_at(done, total_reported)),
            ] + if r.1 {
                seq![Told::Fps(rate_of(done, old(self).last_done, elapsed))]
            } else {
                seq![]
            },
    {
        let mut events: Vec<WorkerEvent> = Vec::new();
        tell(
            &mut events,
            WorkerEvent::Progress(self.progress.clip_progress(done, total_reported)),
        );
        let measured = measures_rate(done, total_reported, elapsed);
        if measured {
            tell(&mut events, WorkerEvent::Fps(frame_rate(done, self.last_done, elapsed)));
            self.last_done = done;
            proof {
                assert(told(events@) =~= seq![events@[0]@] + seq![events@[1]@]);
            }
        } else {
            proof {
                assert(told(events@) =~= seq![events@[0]@] + seq![]);
            }
        }
        (events, measured)
    }
}

/// Tells how far the joining is, given the seconds since that was told last: not more
/// often than four times a second, but always at its end.
pub fn combine_report(done: Real, total: Real, elapsed: Real) -> (r: Vec<WorkerEvent>)
    ensures
        told(r@) == if !total.at_most(Real::of_int(0)) && !(elapsed.less(Real::of_ratio(1, 4))
            && done.less(total)) {
            seq![
                Told::Progress(merge_percent_of(done, total).single()),
                Told::Status("Combining clips... "@ + merge_span(done, total)),
            ]
        } else {
            seq![]
        },
{
    let mut events: Vec<WorkerEvent> = Vec::new();
    if shows_merge(done, total, elapsed, Real::from_ratio(1, 4)) {
        tell(&mut events, WorkerEvent::Progress(merge_percent(done, total).to_single()));
        tell(&mut events, WorkerEvent::Status(merge_status(done, total)));
        proof {
            assert(told(events@) =~= seq![events@[0]@, events@[1]@]);
        }
    } else {
        proof {
            assert(told(events@) =~= seq![]);
        }
    }
    events
}

/// A run succeeds only at its end: after the last clip where clips are not joined,
/// and after joining where they are.
pub proof fn law_success_comes_last(run: WorkerRun, event: RunEvent)
    requires
        run.wf(),
        event is ClipEnded ==> run.progress.idx < run.names@.len(),
        run.after(event).1 == (NextView::Finish { result: Ok(true) }),
    ensures
        event matches RunEvent::ClipEnded { outcome } ==> {
            &&& outcome == Ok::<bool, String>(true)
            &&& run.merge.is_none()
            &&& run.progress.idx + 1 == run.names@.len()
        },
        event matches RunEvent::Combined { outcome } ==> outcome == Ok::<bool, String>(true),
{
}

/// While every step succeeds, each clip is worked on in its turn, and the joining
/// comes after the last one.
pub proof fn law_clips_in_turn(run: WorkerRun, event: RunEvent)
    requires
        run.wf(),
        run.progress.idx < run.names@.len(),
        event == (RunEvent::ClipEnded { outcome: Ok(true) }),
    ensures
        run.progress.idx + 1 < run.names@.len() ==> run.after(event).1 == (NextView::ProcessClip {
            index: (run.progress.idx + 1) as nat,
        }),
        run.progress.idx + 1 == run.names@.len() && run.merge.is_some() ==> run.after(event).1
            == NextView::Combine,
{
}

} // verus!
