use dive_overlay::binary64::Real;
use dive_overlay::ffprobe::VideoInfo;
use dive_overlay::model::ClipJob;
use dive_overlay::moment::{parse_creation_time, parse_datetime_text, parse_datetime_utc, UtcTime};
use dive_overlay::paths::{derive_output_path, file_label};
use dive_overlay::sync::{
    compute_auto_sync, format_signed_duration, locate_base_clip, parse_clip_spec, timecode_delta, AutoSyncParams,
    ClipStartSource,
};

fn num(x: f64) -> Real {
    Real::from_bits(x.to_bits())
}

fn float(x: Real) -> f64 {
    f64::from_bits(x.to_bits())
}

fn job(video: &str, dive_start_sec: f64) -> ClipJob {
    ClipJob {
        video_path: video.to_string(),
        output_path: derive_output_path(video, None),
        dive_start_sec: num(dive_start_sec),
        video_start_utc: None,
    }
}

/// What a probe finds of a clip of two seconds.
fn clip(creation_time: Option<&str>, timecode_sec: Option<f64>) -> VideoInfo {
    VideoInfo {
        width: 64,
        height: 64,
        rotation_deg: 0,
        fps: num(30.0),
        estimated_frames: Some(60),
        creation_time: creation_time.map(|t| parse_creation_time(t).unwrap()),
        timecode_sec: timecode_sec.map(num),
        duration_sec: Some(num(2.0)),
        has_audio: false,
    }
}

fn seconds(n: usize) -> Vec<Real> {
    (0..n).map(|s| num(s as f64)).collect()
}

#[test]
fn parse_clip_spec_three_and_four_parts() {
    let job = parse_clip_spec("video.mp4|1.5|0:10").unwrap();
    // Video second 1.5 shows dive time 0:10, so the clip opened at 8.5 s.
    assert_eq!(job.dive_start_sec, num(8.5));
    assert_eq!(job.output_path, "video_overlay.mp4");

    let job2 = parse_clip_spec("video.mp4|1.5|0:10|out.mp4").unwrap();
    assert_eq!(job2.output_path, "out.mp4");

    assert!(parse_clip_spec("only_one_part").is_err());
}

#[test]
fn clip_errors_say_what_was_wrong() {
    assert_eq!(
        parse_clip_spec("a|b").unwrap_err().message(),
        "Invalid --clip format. Expected: video_path|video_sync_sec|csv_sync_mmss[|output_path]"
    );
    assert_eq!(
        parse_clip_spec("a| x |0:10").unwrap_err().message(),
        "Invalid video_sync_sec in --clip: x"
    );
    assert_eq!(
        parse_clip_spec("a|1|y").unwrap_err().message(),
        "Invalid time value: y"
    );
}

#[test]
fn derive_output_path_uses_stem_suffix() {
    assert_eq!(derive_output_path("clip1.mp4", None), "clip1_overlay.mp4");
    assert_eq!(derive_output_path("clip1.mp4", Some("custom.mp4".to_string())), "custom.mp4");
    assert_eq!(derive_output_path("a.b.c", None), "a.b_overlay.mp4");
    assert_eq!(derive_output_path("noext", None), "noext_overlay.mp4");
    assert_eq!(derive_output_path(".hidden", None), ".hidden_overlay.mp4");
    assert_eq!(file_label("some/dir/clip.mp4"), "clip.mp4");
}

#[test]
fn parse_datetime_variants() {
    assert!(parse_datetime_utc("2025-07-05", "15:32:55").is_ok());
    assert!(parse_datetime_text("2025-07-05 15:32:55").is_ok());
    assert!(parse_datetime_text("2025-07-05T15:32:55Z").is_ok());
}

#[test]
fn moments_are_seconds_since_1970() {
    let t = parse_datetime_text(" 2025-07-05T15:32:55.25+02:00 ").unwrap();
    assert_eq!(
        t,
        UtcTime {
            secs: 1_751_722_375,
            nanos: 250_000_000
        }
    );
    assert_eq!(parse_datetime_utc(" 2025-07-05 ", "13:32:55.25").unwrap(), t);
    assert_eq!(
        parse_datetime_text("nothing").unwrap_err().message(),
        "Unknown date/time format: nothing"
    );
    assert_eq!(t.timestamp_millis(), 1_751_722_375_250);
    let later = parse_datetime_text("2025-07-05T13:32:56Z").unwrap();
    assert_eq!(later.millis_since(&t), 750);
    assert_eq!(t.millis_since(&later), -750);
    assert!(t.is_earlier(&later) && !later.is_earlier(&t));
    let before = parse_datetime_text("1969-12-31T23:59:59.5Z").unwrap();
    assert_eq!(
        before,
        UtcTime {
            secs: -1,
            nanos: 500_000_000
        }
    );
    assert_eq!(before.timestamp_millis(), -500);
}

#[test]
fn a_leap_second_counts() {
    let leap = parse_datetime_text("2016-12-31T23:59:60Z").unwrap();
    let last = parse_datetime_text("2016-12-31T23:59:59Z").unwrap();
    let noon = parse_datetime_text("2016-12-31T12:00:00Z").unwrap();
    assert_eq!(leap.millis_since(&last), 1000);
    assert_eq!(leap.millis_since(&noon), 43_200_000);
    assert_eq!(noon.millis_since(&leap), -43_200_000);
}

#[test]
fn timecode_delta_wraps_across_midnight() {
    // 23:59:00 -> 00:01:00 is two minutes forward, not 23h58m backward.
    assert_eq!(timecode_delta(num(86_340.0), num(60.0)), num(120.0));
    // ...and the reverse stays negative rather than jumping a day ahead.
    assert_eq!(timecode_delta(num(60.0), num(86_340.0)), num(-120.0));
    assert_eq!(timecode_delta(num(100.0), num(400.0)), num(300.0));
}

#[test]
fn two_times_of_day_are_at_most_half_a_day_apart() {
    for (a, b) in [(0.0, 43_200.0), (0.0, 43_200.5), (86_399.9, 0.1), (0.1, 86_399.9), (43_200.0, 0.0)] {
        assert!(float(timecode_delta(num(a), num(b))).abs() <= 43_200.0);
    }
}

#[test]
fn signed_durations_keep_their_sign() {
    assert_eq!(format_signed_duration(num(-61.4)), "-1:01");
    assert_eq!(format_signed_duration(num(3600.0)), "60:00");
    assert_eq!(format_signed_duration(num(-0.2)), "-0:00");
    assert_eq!(format_signed_duration(num(59.5)), "1:00");
}

#[test]
fn auto_sync_offsets_from_the_base_clips_own_sync_point() {
    let infos = vec![
        clip(Some("2025-07-05T10:00:00Z"), Some(36_000.0)),
        clip(Some("2025-07-05T10:05:00Z"), Some(36_300.0)),
    ];
    // The base clip opens at dive second 118 (its diver read 2:00 on the
    // computer 2 s into the video); the other clip's own value is
    // meaningless here and must be overwritten.
    let mut jobs = vec![job("base.mp4", 118.0), job("second.mp4", -9.0)];
    let params = AutoSyncParams { base_clip: "base.mp4" };
    // A long dive, so neither clip trips the out-of-range warning.
    let report = compute_auto_sync(&mut jobs, &seconds(3600), &params, 0, &infos).unwrap();

    assert_eq!(report.source, ClipStartSource::Timecode);
    assert!(report.warnings.is_empty(), "unexpected warnings: {:?}", report.warnings);
    // The base clip keeps the sync point it was given by hand...
    assert!((float(jobs[0].dive_start_sec) - 118.0).abs() < 0.1);
    // ...and the second, recorded 300 s later, is offset by exactly that.
    assert!((float(jobs[1].dive_start_sec) - 418.0).abs() < 0.1);
    assert_eq!(jobs[1].video_start_utc, infos[1].creation_time);
    assert_eq!(jobs[1].video_path, "second.mp4");
}

#[test]
fn auto_sync_falls_back_to_creation_time_when_a_clip_has_no_timecode() {
    // The base has a timecode two hours off its creation_time, mimicking
    // a camera whose RTC and UTC clock disagree. Mixing the two sources
    // would place the second clip 2 h away; using creation_time for both
    // keeps it at +300 s.
    let infos = vec![
        clip(Some("2025-07-05T10:00:00Z"), Some(43_200.0)),
        clip(Some("2025-07-05T10:05:00Z"), None),
    ];
    let mut jobs = vec![job("base.mp4", 120.0), job("second.mp4", 0.0)];
    let params = AutoSyncParams { base_clip: "base.mp4" };
    let report = compute_auto_sync(&mut jobs, &[], &params, 0, &infos).unwrap();

    assert_eq!(report.source, ClipStartSource::CreationTime);
    assert_eq!(report.source.label(), "creation time");
    assert!((float(jobs[1].dive_start_sec) - 420.0).abs() < 0.1);
}

#[test]
fn auto_sync_leaves_a_clip_recorded_before_the_dive_where_it_lands() {
    let infos = vec![
        clip(Some("2025-07-05T10:05:00Z"), Some(36_300.0)),
        clip(Some("2025-07-05T10:00:00Z"), Some(36_000.0)),
    ];
    // The base opens at dive second 60; the other clip started 300 s
    // earlier, so it opens 240 s before the dive did.
    let mut jobs = vec![job("base.mp4", 60.0), job("early.mp4", 0.0)];
    let params = AutoSyncParams { base_clip: "base.mp4" };
    let report = compute_auto_sync(&mut jobs, &seconds(3600), &params, 0, &infos).unwrap();

    assert!((float(jobs[1].dive_start_sec) - -240.0).abs() < 0.1);
    assert!(
        report.warnings.iter().any(|w| w.contains("before dive time 0:00")),
        "expected a pre-dive warning: {:?}",
        report.warnings
    );
}

#[test]
fn auto_sync_warns_when_a_clip_lands_outside_the_dive() {
    let infos = vec![
        clip(Some("2025-07-05T10:00:00Z"), Some(36_000.0)),
        clip(Some("2025-07-05T14:00:00Z"), Some(50_400.0)),
    ];
    let mut jobs = vec![job("dir/base.mp4", 0.0), job("dir/other.mp4", 0.0)];
    let params = AutoSyncParams { base_clip: "dir/base.mp4" };
    let report = compute_auto_sync(&mut jobs, &seconds(1800), &params, 0, &infos).unwrap();

    assert_eq!(report.warnings.len(), 1, "warnings: {:?}", report.warnings);
    assert_eq!(
        report.warnings[0],
        "other.mp4 lands at dive time 240:00, outside the logged dive (0:00 to 29:59). Is it from a different dive?"
    );
}

#[test]
fn auto_sync_rejects_a_base_clip_outside_the_job_list() {
    let err = locate_base_clip(&vec!["a.mp4".to_string()], "not_in_list.mp4").unwrap_err();
    assert!(err.message().contains("must be one of"), "unexpected error: {}", err.message());
    let paths = vec!["a.mp4".to_string(), "b.mp4".to_string(), "b.mp4".to_string()];
    assert_eq!(locate_base_clip(&paths, "b.mp4").unwrap(), 1);
}

#[test]
fn a_clip_without_a_clock_cannot_be_placed() {
    let infos = vec![
        clip(Some("2025-07-05T10:00:00Z"), None),
        clip(Some("2025-07-05T10:01:00Z"), None),
        clip(None, Some(1.0)),
    ];
    let mut jobs = vec![job("base.mp4", 5.0), job("b.mp4", 0.0), job("c.mp4", 7.0)];
    let params = AutoSyncParams { base_clip: "base.mp4" };
    let err = compute_auto_sync(&mut jobs, &[], &params, 0, &infos).unwrap_err();
    assert_eq!(
        err.message(),
        "ffprobe error: No start timecode and no creation_time in c.mp4 -- auto-sync needs one of them to place the clip"
    );
    // The clips before it have been placed, it has not.
    assert_eq!(jobs[1].dive_start_sec, num(65.0));
    assert_eq!(jobs[2].dive_start_sec, num(7.0));

    let infos = vec![clip(Some("2025-07-05T10:00:00Z"), None), clip(None, None)];
    let mut jobs = vec![job("a.mp4", 0.0), job("base.mp4", 0.0)];
    let params = AutoSyncParams { base_clip: "base.mp4" };
    let err = compute_auto_sync(&mut jobs, &[], &params, 1, &infos).unwrap_err();
    assert_eq!(
        err.message(),
        "ffprobe error: No start timecode and no creation_time in base clip base.mp4"
    );
}

#[test]
fn the_overlay_goes_beside_the_video() {
    let beside = derive_output_path("dives/day 1/clip.mp4", None);
    assert!(beside == "dives/day 1/clip_overlay.mp4" || beside == "dives/day 1\\clip_overlay.mp4");
    assert_eq!(derive_output_path("/clip.mp4", None), "/clip_overlay.mp4");
    assert_eq!(file_label("/clip.mp4"), "clip.mp4");
}

#[test]
fn the_overlay_stays_in_a_relative_directory() {
    let beside = |video: &str| derive_output_path(video, None).replace('\\', "/");
    assert_eq!(beside("./clip.mp4"), "./clip_overlay.mp4");
    assert_eq!(beside("../clip.mp4"), "../clip_overlay.mp4");
    assert_eq!(beside("a/../clip.mp4"), "a/../clip_overlay.mp4");
    assert_eq!(beside("C:/clip.mp4"), "C:/clip_overlay.mp4");
    // With a backslash the text is the same, whether it separates or not.
    assert_eq!(derive_output_path("C:\\dives\\clip.mp4", None), "C:\\dives\\clip_overlay.mp4");
    let label = file_label("C:\\dives\\clip.mp4");
    assert!(label == "clip.mp4" || label == "C:\\dives\\clip.mp4");
}

#[test]
fn the_overlay_has_the_parent_of_the_video() {
    for video in ["a//clip.mp4", "a/./clip.mp4", "./a//b/./clip.mp4", "/./clip.mp4", "././clip.mp4", "a/.//../clip.mp4"] {
        let beside = derive_output_path(video, None);
        let want = std::path::Path::new(video).with_file_name("clip_overlay.mp4");
        assert_eq!(std::path::Path::new(&beside), want, "{video}");
        assert!(beside.ends_with("clip_overlay.mp4"));
    }
}
