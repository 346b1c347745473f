use dive_overlay::binary64::Real;
use dive_overlay::merge::{
    after_copy, after_join, check_merge_inputs, choose_route, concat_copy_args, concat_list_text, concat_reencode_args,
    merge_target, merged_srt, parse_progress_line, part_duration, part_info, parts_are_uniform, plan_merge,
    sort_jobs_chronologically, total_seconds, AfterCopy, AfterJoin, MergeRoute, PartInfo,
};
use dive_overlay::ffprobe::VideoInfo;
use dive_overlay::model::ClipJob;
use dive_overlay::moment::parse_datetime_text;
use dive_overlay::pipeline::OutputMode;
use dive_overlay::CoreError;

fn num(x: f64) -> Real {
    Real::from_bits(x.to_bits())
}

fn float(x: Real) -> f64 {
    f64::from_bits(x.to_bits())
}

fn job(video: &str, dive_start_sec: f64) -> ClipJob {
    ClipJob {
        video_path: video.to_string(),
        output_path: "out.mp4".to_string(),
        dive_start_sec: num(dive_start_sec),
        video_start_utc: None,
    }
}

fn part(path: &str, width: u32, height: u32, fps: f64, secs: f64, audio: bool) -> PartInfo {
    PartInfo {
        path: path.to_string(),
        width,
        height,
        fps: num(fps),
        duration_sec: num(secs),
        has_audio: audio,
    }
}

fn strings(list: &[&str]) -> Vec<String> {
    list.iter().map(|s| s.to_string()).collect()
}

#[test]
fn sorts_clips_into_dive_order_not_list_order() {
    let mut jobs = vec![
        job("third.mp4", 598.0),
        job("first.mp4", 58.0),
        job("second.mp4", 295.0),
    ];
    sort_jobs_chronologically(&mut jobs);
    let order: Vec<_> = jobs.iter().map(|j| j.video_path.clone()).collect();
    assert_eq!(order, vec!["first.mp4", "second.mp4", "third.mp4"]);
}

#[test]
fn equal_dive_starts_fall_back_to_the_recording_timestamp() {
    let mut later = job("later.mp4", 100.0);
    later.video_start_utc = Some(parse_datetime_text("2025-07-05T10:05:00Z").unwrap());
    let mut earlier = job("earlier.mp4", 100.0);
    earlier.video_start_utc = Some(parse_datetime_text("2025-07-05T10:00:00Z").unwrap());
    let unknown = job("unknown.mp4", 100.0);

    let mut jobs = vec![later, earlier, unknown];
    sort_jobs_chronologically(&mut jobs);
    assert_eq!(jobs[0].video_path, "unknown.mp4");
    assert_eq!(jobs[1].video_path, "earlier.mp4");
}

#[test]
fn clips_that_come_at_once_keep_their_order() {
    let mut jobs = vec![job("b.mp4", 1.0), job("a.mp4", 1.0), job("c.mp4", 0.0)];
    sort_jobs_chronologically(&mut jobs);
    let order: Vec<_> = jobs.iter().map(|j| j.video_path.clone()).collect();
    assert_eq!(order, vec!["c.mp4", "b.mp4", "a.mp4"]);
}

#[test]
fn plan_merge_orders_jobs_and_redirects_them_to_numbered_parts() {
    let mut jobs = vec![job("b.mp4", 200.0), job("a.mp4", 100.0)];
    let inputs = strings(&["/b.mp4", "/a.mp4"]);
    let plan = plan_merge(&mut jobs, "dive_full.mp4", &inputs, "/dive_full.mp4", false).unwrap();

    assert_eq!(jobs[0].video_path, "a.mp4");
    assert_eq!(plan.parts_dir, "dive_full_parts");
    assert_eq!(jobs[0].output_path, plan.part_paths[0]);
    assert_eq!(jobs[1].output_path, plan.part_paths[1]);
    assert!(plan.part_paths[0].ends_with("part_000.mp4"));
    assert!(plan.part_paths[1].ends_with("part_001.mp4"));
    assert!(plan.part_paths[0].starts_with("dive_full_parts"));
}

#[test]
fn plan_merge_rejects_an_output_that_is_also_an_input() {
    let mut jobs = vec![job("clip.mp4", 0.0)];
    let inputs = strings(&["/x/clip.mp4"]);
    let err = plan_merge(&mut jobs, "x/clip.mp4", &inputs, "/x/clip.mp4", false).unwrap_err();
    assert_eq!(err.message(), "Output path must differ from the input video: x/clip.mp4");
    assert_eq!(jobs[0].output_path, "out.mp4");
    // Where upper and lower case are alike.
    assert!(plan_merge(&mut jobs, "X", &inputs, "/X/CLIP.MP4", true).is_err());
    assert!(check_merge_inputs(&inputs, "/X/CLIP.MP4", false, "X").is_ok());
    let err = plan_merge(&mut Vec::new(), "x.mp4", &Vec::new(), "/x.mp4", false).unwrap_err();
    assert_eq!(err.message(), "Merging needs at least one clip");
}

#[test]
fn merges_uniform_clips_losslessly_into_one_file() {
    let parts = vec![
        part("a.mp4", 160, 120, 10.0, 1.0, true),
        part("b.mp4", 160, 120, 10.005, 2.0, true),
    ];
    assert!(parts_are_uniform(&parts));
    assert_eq!(choose_route(&parts, OutputMode::Overlay).unwrap(), MergeRoute::Copy);
    assert_eq!(total_seconds(&parts), num(3.0));
    assert_eq!(
        concat_copy_args("merged.concat.txt", "merged.mp4").join(" "),
        "-y -nostdin -v error -f concat -safe 0 -i merged.concat.txt -map 0:v:0 -map 0:a:0? -map 0:s:0? \
         -c copy merged.mp4 -progress pipe:1 -nostats"
    );
    assert!(matches!(after_copy(Ok(true), OutputMode::Overlay), AfterCopy::Ended { finished: true }));
}

#[test]
fn a_copy_that_fails_is_made_good_by_encoding() {
    let failed = || Err(CoreError::Ffmpeg("no".to_string()));
    assert!(matches!(after_copy(failed(), OutputMode::Overlay), AfterCopy::Reencode));
    match after_copy(failed(), OutputMode::Subtitles) {
        AfterCopy::Fail { error } => assert_eq!(error.message(), "ffmpeg error: no"),
        other => panic!("{other:?}"),
    }
}

#[test]
fn reports_merge_progress_against_the_total_length() {
    assert_eq!(parse_progress_line("out_time_us=1500000"), Some(num(1.5)));
    assert_eq!(parse_progress_line("out_time_ms= 2000000 "), Some(num(2.0)));
    assert_eq!(parse_progress_line("out_time_us=-5"), Some(num(0.0)));
    assert_eq!(parse_progress_line("out_time_us=N/A"), None);
    assert_eq!(parse_progress_line("frame=12"), None);
    assert_eq!(parse_progress_line("progress"), None);
}

#[test]
fn merges_mismatched_clips_by_re_encoding_into_the_largest_frame() {
    let parts = vec![
        part("a.mp4", 320, 241, 10.0, 1.0, true),
        part("b.mp4", 160, 120, 12.5, 1.25, false),
    ];
    assert_eq!(choose_route(&parts, OutputMode::Overlay).unwrap(), MergeRoute::Reencode);
    let target = merge_target(&parts).unwrap();
    assert_eq!((target.width, target.height), (320, 240));
    assert_eq!(target.fps, num(12.5));
    // Silence was synthesized for the audio-less part, so the merged
    // file has one continuous audio stream rather than none.
    assert!(target.with_audio);
    let args = concat_reencode_args(&parts, &target, "merged.mp4", "libx264", "yuv420p", &vec!["-preset", "fast"]);
    let filter = "[0:v]scale=320:240:force_original_aspect_ratio=decrease,pad=320:240:(ow-iw)/2:(oh-ih)/2,setsar=1,fps=12.500000[v0];\
                  [0:a:0]aresample=async=1,aformat=sample_fmts=fltp:sample_rates=48000:channel_layouts=stereo[a0];\
                  [1:v]scale=320:240:force_original_aspect_ratio=decrease,pad=320:240:(ow-iw)/2:(oh-ih)/2,setsar=1,fps=12.500000[v1];\
                  [2:a]aresample=async=1,aformat=sample_fmts=fltp:sample_rates=48000:channel_layouts=stereo[a1];\
                  [v0][a0][v1][a1]concat=n=2:v=1:a=1[vout][aout]";
    assert_eq!(
        args,
        strings(&[
            "-y", "-nostdin", "-v", "error", "-i", "a.mp4", "-i", "b.mp4", "-f", "lavfi", "-t", "1.250000", "-i",
            "anullsrc=channel_layout=stereo:sample_rate=48000", "-filter_complex", filter, "-map", "[vout]", "-map",
            "[aout]", "-c:v", "libx264", "-preset", "fast", "-pix_fmt", "yuv420p", "-c:a", "aac", "-b:a", "192k",
            "merged.mp4", "-progress", "pipe:1", "-nostats",
        ])
    );
}

#[test]
fn silent_parts_are_joined_without_sound() {
    let parts = vec![part("a.mp4", 4, 4, 5.0, 0.0, false), part("b.mp4", 2, 2, 5.0, 0.0, false)];
    let target = merge_target(&parts).unwrap();
    let args = concat_reencode_args(&parts, &target, "m.mp4", "mpeg4", "yuv420p", &Vec::new());
    assert!(args.iter().all(|a| a != "-c:a" && a != "[aout]" && a != "lavfi"));
    assert!(args.iter().any(|a| a.ends_with("[v0][v1]concat=n=2:v=1:a=0[vout]")));
    let err = merge_target(&vec![part("a.mp4", 1, 900, 5.0, 0.0, false)]).unwrap_err();
    assert_eq!(err.message(), "ffprobe error: Could not determine a frame size to merge into");
}

#[test]
fn of_parts_of_the_same_area_the_last_one_gives_the_size() {
    let parts = vec![part("a.mp4", 200, 100, 5.0, 0.0, false), part("b.mp4", 100, 200, 5.0, 0.0, false)];
    let target = merge_target(&parts).unwrap();
    assert_eq!((target.width, target.height), (100, 200));
}

#[test]
fn subtitle_mode_refuses_to_merge_mismatched_clips_instead_of_re_encoding() {
    let parts = vec![
        part("a.mp4", 320, 240, 10.0, 1.0, true),
        part("b.mp4", 160, 120, 10.0, 1.0, true),
    ];
    let err = choose_route(&parts, OutputMode::Subtitles).unwrap_err();
    assert!(err.message().contains("subtitle mode"), "unexpected error: {}", err.message());
}

#[test]
fn merged_srt_sidecar_shifts_each_part_onto_the_joined_timeline() {
    let texts = strings(&[
        "1\n00:00:00,000 --> 00:00:01,000\nDive: 0:10\n\n",
        "",
        "1\n00:00:00,000 --> 00:00:01,000\nDive: 5:00\n\n",
    ]);
    let durations = vec![num(2.0), num(3.5), num(2.0)];
    let text = merged_srt(&texts, &durations).unwrap();
    assert!(text.contains("1\n00:00:00,000 --> 00:00:01,000\nDive: 0:10"), "{text}");
    // The later part starts behind the ones before it, and is renumbered.
    assert!(text.contains("2\n00:00:05,500 --> 00:00:06,500\nDive: 5:00"), "{text}");
}

#[test]
fn the_list_of_files_to_join_escapes_what_it_has_to() {
    assert_eq!(
        concat_list_text(&strings(&["C:\\clips\\a.mp4", "/it's/b.mp4"])),
        "file 'C:/clips/a.mp4'\nfile '/it'\\''s/b.mp4'\n"
    );
    assert_eq!(concat_list_text(&Vec::new()), "");
}

#[test]
fn the_length_of_a_part_comes_from_its_frames_where_nothing_else_is_known() {
    let mut info = VideoInfo {
        width: 64,
        height: 48,
        rotation_deg: 0,
        fps: num(25.0),
        estimated_frames: Some(50),
        creation_time: None,
        timecode_sec: None,
        duration_sec: None,
        has_audio: true,
    };
    assert_eq!(part_duration(&info), num(2.0));
    let p = part_info("a.mp4", &info);
    assert_eq!((p.path.as_str(), p.width, p.height, p.has_audio), ("a.mp4", 64, 48, true));
    info.duration_sec = Some(num(2.5));
    assert_eq!(float(part_duration(&info)), 2.5);
    info.duration_sec = None;
    info.estimated_frames = None;
    assert_eq!(float(part_duration(&info)), 0.0);
}

#[test]
fn clips_without_a_place_in_the_dive_are_ordered_by_their_recording() {
    let mut first = job("first.mp4", f64::NAN);
    first.video_start_utc = Some(parse_datetime_text("2025-07-05T10:00:00Z").unwrap());
    let mut second = job("second.mp4", f64::NAN);
    second.video_start_utc = Some(parse_datetime_text("2025-07-05T10:05:00Z").unwrap());
    let mut jobs = vec![second, first];
    sort_jobs_chronologically(&mut jobs);
    assert_eq!(jobs[0].video_path, "first.mp4");
}

#[test]
fn merges_clips_that_carry_a_timecode_track_and_keeps_the_subtitles() {
    let args = concat_copy_args("merged.concat.txt", "merged.mp4");
    let mapped: Vec<&str> = args
        .windows(2)
        .filter(|pair| pair[0] == "-map")
        .map(|pair| pair[1].as_str())
        .collect();
    // Picture, sound and subtitles, and neither all streams nor data tracks.
    assert!(mapped.iter().any(|t| t.starts_with("0:v")), "{mapped:?}");
    assert!(mapped.iter().any(|t| t.starts_with("0:a")), "{mapped:?}");
    assert!(
        mapped.iter().any(|t| t.starts_with("0:s")),
        "subtitle track was dropped: {mapped:?}"
    );
    assert!(mapped.iter().all(|t| *t != "0" && !t.starts_with("0:d")), "{mapped:?}");
    assert!(matches!(after_copy(Ok(true), OutputMode::Subtitles), AfterCopy::Ended { finished: true }));
}

#[test]
fn parts_go_only_after_a_finished_merge() {
    let kept = AfterJoin {
        write_subtitles: false,
        remove_parts: false,
        finished: false,
    };
    assert_eq!(after_join(false, OutputMode::Subtitles), kept);
    assert_eq!(after_join(false, OutputMode::Overlay), kept);
    let joined = after_join(true, OutputMode::Overlay);
    assert_eq!((joined.write_subtitles, joined.remove_parts, joined.finished), (false, true, true));
    let joined = after_join(true, OutputMode::Subtitles);
    assert_eq!((joined.write_subtitles, joined.remove_parts, joined.finished), (true, true, true));
}

#[test]
fn parts_lie_beside_a_video_in_any_directory() {
    for (output, directory) in [
        ("./out.mp4", "./out_parts"),
        ("../out.mp4", "../out_parts"),
        ("a/../out.mp4", "a/../out_parts"),
        ("/dives/out.mp4", "/dives/out_parts"),
    ] {
        let mut jobs = vec![job("a.mp4", 0.0)];
        let plan = plan_merge(&mut jobs, output, &strings(&["/a.mp4"]), "/x.mp4", false).unwrap();
        assert_eq!(plan.parts_dir.replace('\\', "/"), directory);
        assert_eq!(plan.part_paths[0].replace('\\', "/"), format!("{directory}/part_000.mp4"));
    }
}

#[test]
fn parts_lie_in_the_parent_of_a_video() {
    for output in ["a//out.mp4", "a/./out.mp4", "./a//b/./out.mp4", "/./out.mp4"] {
        let mut jobs = vec![job("a.mp4", 0.0)];
        let plan = plan_merge(&mut jobs, output, &strings(&["/a.mp4"]), "/x.mp4", false).unwrap();
        let directory = std::path::Path::new(output).with_file_name("out_parts");
        assert_eq!(std::path::Path::new(&plan.parts_dir), directory, "{output}");
        assert_eq!(std::path::Path::new(&plan.part_paths[0]), directory.join("part_000.mp4"), "{output}");
    }
}
