use dive_overlay::binary64::Real;
use dive_overlay::run_report::{
    clip_done_line, clip_progress_line, clip_report_line, clip_started_line, combining_line, frame_rate, measures_rate, merge_percent,
    merge_progress_line, merge_status, shows_merge, with_parts_note, RunProgress, RunState, WorkerEvent,
};
use dive_overlay::model::ClipJob;
use dive_overlay::sync::{AutoSyncReport, ClipStartSource};
use dive_overlay::update_check::{is_newer, judge_release, UpdateStatus};
use dive_overlay::worker_run::{clip_names, combine_report, placement_lines, RunAction, RunEvent, WorkerRun};

fn num(x: f64) -> Real {
    Real::from_bits(x.to_bits())
}

#[test]
fn newer_patch_version_is_detected() {
    assert!(is_newer("0.1.1", "0.1.0"));
    assert!(is_newer("0.2.0", "0.1.9"));
    assert!(is_newer("1.0.0", "0.9.9"));
}

#[test]
fn equal_or_older_version_is_not_newer() {
    assert!(!is_newer("0.1.0", "0.1.0"));
    assert!(!is_newer("0.1.0", "0.1.1"));
    assert!(!is_newer("0.0.9", "0.1.0"));
}

#[test]
fn versions_are_compared_number_by_number() {
    assert!(is_newer("0.10.0", "0.9.9"));
    assert!(is_newer("1.0.0", "1.0"));
    assert!(!is_newer("1.0", "1.0.0"));
    // What is no number counts as zero.
    assert!(!is_newer("1.x", "1.0"));
    assert!(!is_newer("99999999999.0", "0.0"));
}

#[test]
fn a_newer_release_is_reported() {
    match judge_release("v1.2.0".to_string(), "https://x".to_string(), "1.1.9") {
        UpdateStatus::Available { version, url } => assert_eq!((version.as_str(), url.as_str()), ("v1.2.0", "https://x")),
        other => panic!("{other:?}"),
    }
    assert!(matches!(
        judge_release("v1.2.0".to_string(), String::new(), "1.2.0"),
        UpdateStatus::UpToDate
    ));
}

#[test]
fn a_run_shows_what_happens() {
    let mut s = RunState::new();
    assert_eq!((s.status.as_str(), s.running), ("Ready", false));
    assert_eq!(s.bar_text(), "0%");
    s.begin();
    assert_eq!((s.status.as_str(), s.running), ("Processing...", true));
    s.apply(WorkerEvent::Progress(num(41.9)));
    s.apply(WorkerEvent::Fps(num(12.34)));
    assert_eq!(s.bar_text(), "41% (12.3 fps)");
    s.apply(WorkerEvent::Encoder("Software: libx264".to_string()));
    s.apply(WorkerEvent::Status("Combining clips...".to_string()));
    s.apply(WorkerEvent::Log("hello".to_string()));
    assert_eq!(s.encoder_info, "Software: libx264");
    assert_eq!(s.status, "Combining clips...");
    s.cancel_requested();
    assert_eq!(s.status, "Cancelling...");
    s.apply(WorkerEvent::Done(Ok(false)));
    assert_eq!((s.status.as_str(), s.running, s.fps), ("Cancelled", false, num(0.0)));
    assert_eq!(s.log_lines, vec!["Starting processing...", "hello", "Cancel requested..."]);
    s.apply(WorkerEvent::Done(Ok(true)));
    assert_eq!((s.status.as_str(), s.progress), ("Done", num(100.0)));
    s.apply(WorkerEvent::Done(Err("broken".to_string())));
    assert_eq!(s.status, "Error");
    assert_eq!(s.log_lines.last().unwrap(), "Error: broken");
}

#[test]
fn what_is_known_of_updates_is_taken_up() {
    let mut s = RunState::new();
    let newer = UpdateStatus::Available {
        version: "v2".to_string(),
        url: "u".to_string(),
    };
    assert_eq!(s.apply_update(newer), Some(("v2".to_string(), "u".to_string())));
    assert_eq!(s.apply_update(UpdateStatus::UpToDate), None);
    assert!(s.log_lines.is_empty());
    assert_eq!(s.apply_update(UpdateStatus::Error("offline".to_string())), None);
    assert_eq!(s.log_lines, vec!["Update check failed: offline"]);
}

#[test]
fn progress_counts_all_clips() {
    let mut p = RunProgress::start(&vec![Some(100), None, Some(0), Some(298)]);
    assert_eq!(p.clip_totals, vec![100, 1, 1, 298]);
    assert_eq!(p.total_all, 400);
    assert_eq!(p.clip_progress(50, 100), num(12.5));
    // More frames than were expected do not count.
    assert_eq!(p.clip_progress(150, 100), num(25.0));
    assert_eq!(p.clip_progress(7, 0), num((7.0f64 * 100.0 / 400.0) as f32 as f64));
    assert_eq!(p.clip_done(), num(25.0));
    assert_eq!(p.clip_done(), num((101.0f64 * 100.0 / 400.0) as f32 as f64));
    p.clip_done();
    assert_eq!(p.clip_done(), num(100.0));
    assert_eq!(p.base_done, p.total_all);
}

#[test]
fn the_speed_is_measured_now_and_then() {
    assert_eq!(frame_rate(30, 10, num(0.5)), num(40.0));
    assert_eq!(frame_rate(10, 30, num(0.5)), num(0.0));
    assert!(measures_rate(10, 0, num(0.1)));
    assert!(!measures_rate(10, 0, num(0.09)));
    assert!(!measures_rate(20, 20, num(5.0)));
}

#[test]
fn lines_tell_how_far_a_run_is() {
    assert_eq!(
        clip_progress_line(1, 3, 20, 100, Some(num(9.96))),
        "\r[1/3] Frame 20/100 (10.0 fps)   "
    );
    assert_eq!(clip_progress_line(1, 3, 20, 0, Some(num(5.0))), "\r[1/3] Frame 20 (5.0 fps)   ");
    assert_eq!(clip_progress_line(2, 3, 100, 100, None), "\r[2/3] Frame 100/100 (done)   ");
    assert_eq!(clip_started_line(1, 2, "a.mp4", "b.mp4"), "[1/2] a.mp4 -> b.mp4");
    assert_eq!(clip_done_line(2, 2, "b.mp4"), "[2/2] Done: b.mp4");
    assert_eq!(combining_line(2, "full.mp4"), "Combining 2 clip(s) into full.mp4...");
    assert_eq!(
        with_parts_note("it failed", Some("full_parts")),
        "it failed\nPartial results kept in: full_parts"
    );
    assert_eq!(with_parts_note("it failed", None), "it failed");
}

#[test]
fn a_merge_tells_how_far_it_is() {
    assert_eq!(merge_percent(num(30.0), num(120.0)), num(25.0));
    assert_eq!(merge_percent(num(130.0), num(120.0)), num(100.0));
    assert_eq!(
        merge_progress_line(num(30.4), num(120.0)),
        "\rCombining 00:30 / 02:00 (25%)   "
    );
    assert_eq!(merge_status(num(130.0), num(120.0)), "Combining clips... 02:00 / 02:00");
    assert!(!shows_merge(num(1.0), num(0.0), num(9.0), num(0.2)));
    assert!(!shows_merge(num(1.0), num(5.0), num(0.1), num(0.2)));
    assert!(shows_merge(num(5.0), num(5.0), num(0.1), num(0.2)));
    assert!(shows_merge(num(1.0), num(5.0), num(0.2), num(0.2)));
}

fn job(video_path: &str, output_path: &str, dive_start_sec: f64) -> ClipJob {
    ClipJob {
        video_path: video_path.to_string(),
        output_path: output_path.to_string(),
        dive_start_sec: num(dive_start_sec),
        video_start_utc: None,
    }
}

fn said(events: &[WorkerEvent]) -> Vec<String> {
    events.iter().map(|e| format!("{e:?}")).collect()
}

fn logged(events: &[WorkerEvent]) -> Vec<&str> {
    events
        .iter()
        .filter_map(|e| match e {
            WorkerEvent::Log(t) => Some(t.as_str()),
            _ => None,
        })
        .collect()
}

fn two_clips(merge: bool) -> (WorkerRun, Vec<WorkerEvent>, RunAction) {
    let jobs = vec![job("in/a.mp4", "out/a_overlay.mp4", 0.0), job("in/b.mp4", "out/b_overlay.mp4", 90.0)];
    let merge = merge.then(|| ("dive.mp4".to_string(), "parts".to_string()));
    WorkerRun::start(clip_names(&jobs), merge, RunProgress::start(&vec![Some(30), Some(10)]))
}

#[test]
fn a_run_works_on_each_clip_in_turn() {
    let (mut run, events, action) = two_clips(false);
    assert_eq!(logged(&events), ["[1/2] a.mp4 -> a_overlay.mp4"]);
    assert!(matches!(action, RunAction::ProcessClip { index: 0 }));
    let (events, measured) = run.clip_report(15, 0, num(0.5));
    assert!(measured);
    assert_eq!(said(&events), said(&[WorkerEvent::Progress(num(37.5)), WorkerEvent::Fps(num(30.0))]));
    let (events, measured) = run.clip_report(16, 0, num(0.01));
    assert!(!measured);
    assert_eq!(said(&events), said(&[WorkerEvent::Progress(num(40.0))]));
    let (events, action) = run.step(RunEvent::ClipEnded { outcome: Ok(true) });
    assert_eq!(
        said(&events),
        said(&[
            WorkerEvent::Progress(num(75.0)),
            WorkerEvent::Log("[1/2] Done: out/a_overlay.mp4".to_string()),
            WorkerEvent::Log("[2/2] b.mp4 -> b_overlay.mp4".to_string()),
        ])
    );
    assert!(matches!(action, RunAction::ProcessClip { index: 1 }));
    let (events, action) = run.step(RunEvent::ClipEnded { outcome: Ok(true) });
    assert_eq!(logged(&events), ["[2/2] Done: out/b_overlay.mp4"]);
    assert!(matches!(action, RunAction::Finish { result: Ok(true) }));
}

#[test]
fn a_run_that_joins_its_clips_says_so() {
    let (mut run, _, _) = two_clips(true);
    run.step(RunEvent::ClipEnded { outcome: Ok(true) });
    let (events, action) = run.step(RunEvent::ClipEnded { outcome: Ok(true) });
    assert_eq!(logged(&events)[1..], ["Combining 2 clip(s) into dive.mp4..."]);
    assert!(matches!(action, RunAction::Combine));
    let (events, action) = run.step(RunEvent::Combined { outcome: Ok(true) });
    assert_eq!(logged(&events), ["Done: dive.mp4"]);
    assert!(matches!(action, RunAction::Finish { result: Ok(true) }));
    let (events, action) = run.step(RunEvent::Combined { outcome: Ok(false) });
    assert_eq!(logged(&events), ["Cancelled: combining stopped.\nPartial results kept in: parts"]);
    assert!(matches!(action, RunAction::Finish { result: Ok(false) }));
}

#[test]
fn a_run_that_ends_early_says_where_parts_are() {
    let (mut run, _, _) = two_clips(true);
    let (events, action) = run.step(RunEvent::ClipEnded { outcome: Ok(false) });
    assert_eq!(logged(&events), ["Cancelled: processing stopped.\nPartial results kept in: parts"]);
    assert!(matches!(action, RunAction::Finish { result: Ok(false) }));
    let failed = RunEvent::ClipEnded { outcome: Err("no disk".to_string()) };
    let (events, action) = run.step(failed);
    assert!(events.is_empty());
    match action {
        RunAction::Finish { result: Err(e) } => assert_eq!(e, "no disk\nPartial results kept in: parts"),
        other => panic!("{other:?}"),
    }
    let (mut run, _, _) = two_clips(false);
    let (events, _) = run.step(RunEvent::ClipEnded { outcome: Ok(false) });
    assert_eq!(logged(&events), ["Cancelled: processing stopped."]);
}

#[test]
fn joining_is_reported_now_and_then() {
    assert!(combine_report(num(1.0), num(0.0), num(9.0)).is_empty());
    assert!(combine_report(num(1.0), num(10.0), num(0.1)).is_empty());
    let at_end = [
        WorkerEvent::Progress(num(100.0)),
        WorkerEvent::Status("Combining clips... 00:10 / 00:10".to_string()),
    ];
    assert_eq!(said(&combine_report(num(10.0), num(10.0), num(0.1))), said(&at_end));
    let third = (100.0f64 / 3.0) as f32 as f64;
    let at_third = [
        WorkerEvent::Progress(num(third)),
        WorkerEvent::Status("Combining clips... 00:01 / 00:03".to_string()),
    ];
    assert_eq!(said(&combine_report(num(1.0), num(3.0), num(0.25))), said(&at_third));
}

#[test]
fn placed_clips_are_listed() {
    let jobs = vec![job("in/a.mp4", "a", 0.0), job("b.mp4", "b", -65.0)];
    let report = AutoSyncReport {
        source: ClipStartSource::Timecode,
        warnings: Vec::new(),
    };
    assert_eq!(
        placement_lines(&report, "  ", &clip_names(&jobs), &jobs),
        ["Auto-sync: clips placed by start timecode.", "  a.mp4 -> CSV 0:00", "  b.mp4 -> CSV -1:05"]
    );
}

#[test]
fn a_clip_is_reported_ten_times_a_second() {
    assert_eq!(clip_report_line(1, 2, 5, 10, 0, num(0.05)), None);
    assert_eq!(
        clip_report_line(1, 2, 5, 10, 0, num(0.5)).unwrap(),
        "\r[1/2] Frame 5/10 (10.0 fps)   "
    );
    assert_eq!(clip_report_line(1, 2, 10, 10, 0, num(0.0)).unwrap(), "\r[1/2] Frame 10/10 (done)   ");
    assert_eq!(clip_report_line(2, 2, 7, 0, 7, num(1.0)).unwrap(), "\r[2/2] Frame 7 (0.0 fps)   ");
}
