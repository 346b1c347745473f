use dive_overlay::binary64::Real;
use dive_overlay::command_line::{build_jobs, check_auto_sync, codec_option, mode_option, preset_option};
use dive_overlay::paths::{as_concat_list, as_mp4, as_srt};
use dive_overlay::pipeline::{Codec, OutputMode, OutputResolution, Preset};
use dive_overlay::preview::{check_preview, preview_lines, type_csv_sync};
use dive_overlay::session::{
    add_found, apply_edit, check_settings, jobs_from_entries, remove_clip, scrubbed_video_sync, ClipDialogState,
    ClipEntry, FoundClip, Settings,
};
use dive_overlay::{DiveSample, Field};

fn num(x: f64) -> Real {
    Real::from_bits(x.to_bits())
}

fn entry(video_path: &str, csv_sync_mmss: &str, output_path: &str) -> ClipEntry {
    ClipEntry {
        video_path: video_path.to_string(),
        video_sync_sec: num(0.0),
        csv_sync_mmss: csv_sync_mmss.to_string(),
        output_path: output_path.to_string(),
    }
}

#[test]
fn scrubbing_stays_inside_the_clip() {
    let scrub = |current: f64, delta: f64, duration: f64| scrubbed_video_sync(num(current), num(delta), num(duration));
    // Ordinary steps in both directions.
    assert_eq!(scrub(10.0, 5.0, 60.0), num(15.0));
    assert_eq!(scrub(10.0, -5.0, 60.0), num(5.0));
    // Never before the first frame...
    assert_eq!(scrub(2.0, -60.0, 60.0), num(0.0));
    // ...and never past the last one, where the seek would decode nothing.
    assert_eq!(scrub(59.0, 60.0, 60.0), num(59.95));
    // No duration reported: only the lower bound can be enforced.
    assert_eq!(scrub(10.0, 600.0, 0.0), num(610.0));
    assert_eq!(scrub(10.0, -600.0, 0.0), num(0.0));
}

#[test]
fn the_editor_says_what_is_wrong() {
    let mut d = ClipDialogState::new_edit(1, &entry("a.mp4", "0:10", "b.mp4"), "2.5");
    let e = d.validate().unwrap();
    assert_eq!(
        (e.video_path.as_str(), e.video_sync_sec, e.csv_sync_mmss.as_str(), e.output_path.as_str()),
        ("a.mp4", num(2.5), "0:10", "b.mp4")
    );
    d.csv_sync = " 1: ".to_string();
    assert_eq!(
        d.validate().unwrap_err(),
        "CSV sync invalid: Invalid time value: Unknown time format: 1:"
    );
    d.video_sync = "x".to_string();
    assert_eq!(d.validate().unwrap_err(), "Video sync must be a number.");
    d.output = "  ".to_string();
    assert_eq!(d.validate().unwrap_err(), "Please specify an output path.");
    d.video = "".to_string();
    assert_eq!(d.validate().unwrap_err(), "Please select a video file.");
}

#[test]
fn edits_and_removals_touch_the_right_clip() {
    let mut list = vec![entry("a", "0:00", "x"), entry("b", "0:00", "y"), entry("c", "0:00", "z")];
    apply_edit(&mut list, 1, entry("B", "0:00", "y"));
    apply_edit(&mut list, 9, entry("?", "0:00", "y"));
    assert_eq!(list.iter().map(|e| e.video_path.clone()).collect::<Vec<_>>(), vec!["a", "B", "c"]);
    assert_eq!(remove_clip(&mut list, 1, Some(2)), Some(1));
    assert_eq!(list[1].video_path, "c");
    assert_eq!(remove_clip(&mut list, 1, Some(1)), None);
    assert_eq!(remove_clip(&mut list, 0, None), None);
    assert!(list.is_empty());
}

#[test]
fn files_are_listed_once_in_the_order_in_which_they_were_recorded() {
    let found = |at: Option<i64>, name: &str| FoundClip {
        recorded_at: at,
        name: name.to_string(),
        path: name.to_string(),
    };
    let mut list = vec![entry("old.mp4", "1:00", "o.mp4")];
    let added = add_found(
        &mut list,
        vec![
            found(Some(9), "late.mp4"),
            found(Some(5), "b.mp4"),
            found(None, "z.mp4"),
            found(Some(5), "a.mp4"),
            found(Some(1), "old.mp4"),
            found(None, "y.mp4"),
            found(Some(9), "late.mp4"),
        ],
    );
    assert_eq!(added, 5);
    let order: Vec<_> = list.iter().map(|e| e.video_path.clone()).collect();
    assert_eq!(order, vec!["old.mp4", "y.mp4", "z.mp4", "a.mp4", "b.mp4", "late.mp4"]);
    assert_eq!(list[0].csv_sync_mmss, "1:00");
    assert_eq!(list[3].output_path, "a_overlay.mp4");
    assert_eq!(list[3].csv_sync_mmss, "0:00");
}

fn settings() -> Settings {
    Settings {
        csv_path: " dive.csv ".to_string(),
        fields: "time,depth".to_string(),
        codec: "hevc".to_string(),
        preset: "bogus".to_string(),
        hw_accel: true,
        column_map: "time=TIME".to_string(),
        resolution: OutputResolution::Uhd4k,
        show_graph: true,
        interpolate: true,
        mode: OutputMode::Overlay,
        merge_enabled: true,
        merge_output: " full.mov ".to_string(),
        auto_sync: true,
        base_clip_index: 0,
        base_video_sync: " 1.5 ".to_string(),
    }
}

#[test]
fn a_run_that_can_start_is_what_was_asked_for() {
    let list = vec![entry("a.mp4", "0:00", "x.mp4")];
    let c = check_settings(&settings(), &list, true, &vec![true]).unwrap();
    assert_eq!(c.csv_path, "dive.csv");
    assert_eq!(c.column_map.get("time").unwrap(), "TIME");
    assert_eq!(c.options.fields, vec![Field::Time, Field::Depth]);
    assert_eq!(c.options.codec, Codec::H265);
    assert_eq!(c.options.preset, Preset::VeryFast);
    assert_eq!(c.options.resolution, OutputResolution::Uhd4k);
    assert_eq!(c.merge_output.as_deref(), Some("full.mp4"));
    let auto = c.auto_sync.unwrap();
    assert_eq!((auto.base_clip.as_str(), auto.base_video_sync_sec), ("a.mp4", num(1.5)));
}

#[test]
fn a_run_that_cannot_start_says_why() {
    let list = vec![entry("a.mp4", "0:00", "x.mp4"), entry("b.mp4", "0:00", "y.mp4")];
    let refuse = |s: &Settings, csv: bool, videos: &Vec<bool>| check_settings(s, &list, csv, videos).unwrap_err();
    let all = vec![true, true];
    let mut s = settings();
    s.base_video_sync = "x".to_string();
    assert_eq!(refuse(&s, true, &all), "Error: the base clip's video sync must be a number.");
    s.base_clip_index = 2;
    assert_eq!(refuse(&s, true, &all), "Error: please select a base clip for auto-sync.");
    s.merge_output = " ".to_string();
    assert_eq!(
        refuse(&s, true, &all),
        "Error: please specify an output path for the combined video."
    );
    s.codec = "vhs".to_string();
    assert_eq!(refuse(&s, true, &all), "Error: unknown codec: vhs");
    assert_eq!(refuse(&s, true, &vec![true, false]), "Error: video not found: b.mp4");
    s.column_map = "x=y".to_string();
    assert_eq!(
        refuse(&s, true, &all),
        "Error: invalid column mapping: Unknown column-map key: x"
    );
    s.fields = "".to_string();
    assert_eq!(
        refuse(&s, true, &all),
        "Error: invalid field list: --fields must not be empty"
    );
    assert_eq!(
        check_settings(&s, &Vec::new(), true, &Vec::new()).unwrap_err(),
        "Error: please add at least one clip."
    );
    assert_eq!(refuse(&s, false, &all), "Error: CSV not found: dive.csv");
    s.csv_path = "  ".to_string();
    assert_eq!(refuse(&s, false, &all), "Error: please select a CSV file.");
}

#[test]
fn the_list_becomes_jobs() {
    let mut second = entry("b.mp4", "1:00", "dir.b");
    second.video_sync_sec = num(2.5);
    let jobs = jobs_from_entries(&vec![entry("a.mp4", "0:10", "x.mov"), second]).unwrap();
    assert_eq!(jobs[0].output_path, "x.mp4");
    assert_eq!(jobs[0].dive_start_sec, num(10.0));
    assert_eq!(jobs[1].output_path, "dir.mp4");
    assert_eq!(jobs[1].dive_start_sec, num(57.5));
    let err = jobs_from_entries(&vec![entry("a.mp4", "0:10", "x"), entry("b.mp4", "z", "y")]).unwrap_err();
    assert_eq!(err.message(), "Invalid time value: z");
    assert_eq!(as_mp4("noext"), "noext.mp4");
    assert_eq!(as_srt("a.b.mp4"), "a.b.srt");
    assert_eq!(as_concat_list("m.mp4"), "m.concat.txt");
    assert_eq!(as_mp4("a.b/c//d.mov"), "a.b/c//d.mp4");
    assert_eq!(as_srt("/x/.hidden"), "/x/.hidden.srt");
    assert_eq!(as_concat_list("a.b/c"), "a.b/c.concat.txt");
}

#[test]
fn a_command_line_becomes_jobs() {
    let jobs = build_jobs(&Vec::new(), Some("input.mp4"), None, num(3.2), "0:10").unwrap();
    assert_eq!(jobs.len(), 1);
    assert_eq!(jobs[0].output_path, "input_overlay.mp4");
    assert_eq!(jobs[0].dive_start_sec, num(10.0 - 3.2));
    let jobs = build_jobs(&Vec::new(), Some("input.mp4"), Some("o.mp4".to_string()), num(0.0), "0:10").unwrap();
    assert_eq!(jobs[0].output_path, "o.mp4");
    let clips = vec!["a.mp4|2|0:10|x.mp4".to_string(), "b.mp4|1|18:35".to_string()];
    let jobs = build_jobs(&clips, None, None, num(0.0), "bad").unwrap();
    assert_eq!(jobs[1].dive_start_sec, num(1114.0));
    let clips = vec!["a.mp4|2|0:10".to_string(), "b.mp4".to_string()];
    assert!(build_jobs(&clips, Some("v"), None, num(0.0), "0:00").is_err());
    assert_eq!(
        build_jobs(&Vec::new(), None, None, num(0.0), "0:00").unwrap_err().message(),
        "Please specify --video or at least one --clip"
    );
    assert!(build_jobs(&Vec::new(), Some("v"), None, num(0.0), "x").is_err());
}

#[test]
fn options_that_are_none_are_refused() {
    assert_eq!(mode_option("subtitles").unwrap(), OutputMode::Subtitles);
    assert_eq!(
        mode_option("both").unwrap_err().message(),
        "Invalid --mode value: both (expected: overlay, subtitles)"
    );
    assert_eq!(preset_option("Slow").unwrap(), Preset::Slow);
    assert_eq!(
        preset_option("x").unwrap_err().message(),
        "Invalid --preset value: x (expected: ultrafast, superfast, veryfast, faster, fast, medium, slow, slower, veryslow, placebo)"
    );
    assert_eq!(codec_option("MJPG").unwrap(), Codec::Mjpeg);
    assert_eq!(
        codec_option("vp9").unwrap_err().message(),
        "Invalid --codec value: vp9 (expected: auto, avc1, H264, hevc, H265, mp4v, XVID, MJPG)"
    );
    let clips = vec!["x".to_string()];
    assert!(check_auto_sync(&clips, "x").is_ok());
    assert_eq!(
        check_auto_sync(&Vec::new(), "x").unwrap_err().message(),
        "Auto-sync requires --clip entries"
    );
    assert_eq!(
        check_auto_sync(&clips, "").unwrap_err().message(),
        "Auto-sync requires --base-clip"
    );
}

#[test]
fn a_preview_says_what_it_lacks() {
    let entries = vec![entry("a.mp4", "0:10", "b.mp4")];
    let check = |idx: usize, video: bool, csv: &str, exists: bool, map: &str| {
        check_preview(&entries, idx, video, csv, exists, map).err()
    };
    let none = Some("Please select a valid CSV file first.".to_string());
    assert_eq!(check(1, true, "d.csv", true, ""), Some("Invalid clip index".to_string()));
    assert_eq!(check(0, false, "d.csv", true, ""), Some("Video not found: a.mp4".to_string()));
    assert_eq!(check(0, true, "  ", true, ""), none);
    assert_eq!(check(0, true, "d.csv", false, ""), none);
    assert!(check(0, true, "d.csv", true, "nonsense").is_some());
    assert_eq!(check(0, true, "d.csv", true, "time=TIME"), None);
}

#[test]
fn a_preview_shows_the_sync_point() {
    let mut entries = vec![entry("a.mp4", "0:10", "b.mp4")];
    assert_eq!(type_csv_sync(&mut entries, 0, "1:30"), None);
    let samples = vec![DiveSample {
        elapsed_sec: num(60.0),
        depth_m: Some(num(12.0)),
        temp_c: None,
        pressure_bar: None,
        heart_rate: None,
    }];
    let times = vec![num(60.0)];
    let (moment, lines) = preview_lines(&entries, 0, "time,depth", &samples, &times, false).unwrap();
    assert_eq!(moment, num(90.0));
    assert_eq!(lines, ["Dive time: 01:30", "Depth: 12.0 m"]);
    assert!(preview_lines(&entries, 3, "time", &samples, &times, false).is_err());
    assert!(preview_lines(&entries, 0, "height", &samples, &times, false).is_err());
}

#[test]
fn a_half_typed_sync_point_changes_nothing() {
    let mut entries = vec![entry("a.mp4", "0:10", "b.mp4")];
    let before = entries[0].csv_sync_mmss.clone();
    assert!(type_csv_sync(&mut entries, 0, "1:").is_some());
    assert_eq!(entries[0].csv_sync_mmss, before);
    assert_eq!(type_csv_sync(&mut entries, 0, "2:05"), None);
    assert_eq!(entries[0].csv_sync_mmss, "2:05");
    assert_eq!(type_csv_sync(&mut entries, 7, "2:05"), None);
}
