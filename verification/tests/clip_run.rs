use dive_overlay::binary64::Real;
use dive_overlay::clip_run::{
    check_clip_paths, chunk_end, clip_subtitles, decoder_args, encoder_args, end_subtitles,
    ensure_output_differs_from_input, ffmpeg_failure, finish_clip, frame_args, is_transient_pipe_error, plan_clip, remux_args, retry_delay, take_frame,
    wait_step, ClipAction, ClipEvent, ClipRun, ExitReport, FrameOutcome, WaitAction, WaitEvent, PIPE_CHUNK,
};
use dive_overlay::ffprobe::VideoInfo;
use dive_overlay::model::ClipJob;
use dive_overlay::pipeline::{Codec, OutputMode, OutputResolution, Preset, ProcessingOptions};
use dive_overlay::yuv::ColorRange;
use dive_overlay::{DiveSample, Field};

fn num(x: f64) -> Real {
    Real::from_bits(x.to_bits())
}

fn job() -> ClipJob {
    ClipJob {
        video_path: "in.mp4".to_string(),
        output_path: "out.mp4".to_string(),
        dive_start_sec: num(100.0),
        video_start_utc: None,
    }
}

fn info(width: u32, height: u32) -> VideoInfo {
    VideoInfo {
        width,
        height,
        rotation_deg: 0,
        fps: num(10.0),
        estimated_frames: Some(25),
        creation_time: None,
        timecode_sec: None,
        duration_sec: None,
        has_audio: false,
    }
}

fn exit(success: bool, text: &str) -> ExitReport {
    ExitReport {
        success,
        text: text.to_string(),
    }
}

#[test]
fn rejects_output_equal_to_input_even_when_spelled_differently() {
    assert!(ensure_output_differs_from_input("/d/input.mp4", "/d/input.mp4", false, "input.mp4").is_err());
    assert!(ensure_output_differs_from_input("/d/input.mp4", "/D/INPUT.MP4", true, "x").is_err());
    assert!(ensure_output_differs_from_input("/d/input.mp4", "/D/INPUT.MP4", false, "x").is_ok());
    assert!(ensure_output_differs_from_input("/d/input.mp4", "/d/other.mp4", false, "x").is_ok());
    let err = check_clip_paths(&job(), true, "/in.mp4", "/in.mp4", false).unwrap_err();
    assert!(err.message().contains("must differ"), "unexpected error: {}", err.message());
    let err = check_clip_paths(&job(), false, "/in.mp4", "/in.mp4", false).unwrap_err();
    assert_eq!(err.message(), "Video not found: in.mp4");
    assert!(check_clip_paths(&job(), true, "/in.mp4", "/out.mp4", false).is_ok());
}

#[test]
fn encoder_failure_reports_ffmpeg_stderr() {
    assert_eq!(
        ffmpeg_failure("Encoder", "exit status: 1", "out.mp4: Is a directory").message(),
        "ffmpeg error: Encoder exited with error: exit status: 1\nout.mp4: Is a directory"
    );
    assert_eq!(
        ffmpeg_failure("Decoder", "exit status: 1", "").message(),
        "ffmpeg error: Decoder exited with error: exit status: 1"
    );
    let mut run = ClipRun {
        frame_idx: 3,
        total_estimate: 0,
        fps: num(10.0),
        dive_start_sec: num(0.0),
    };
    let fail = |run: &mut ClipRun, encoder: Option<ExitReport>, stderr: &str| match run.step(ClipEvent::WriteFailed {
        error: "broken pipe".to_string(),
        encoder,
        stderr: stderr.to_string(),
    }) {
        ClipAction::Fail { error } => error.message(),
        other => panic!("{other:?}"),
    };
    assert_eq!(
        fail(&mut run, Some(exit(false, "exit status: 1")), "bad codec"),
        "ffmpeg error: Encoder exited with error: exit status: 1\nbad codec"
    );
    assert_eq!(
        fail(&mut run, Some(exit(true, "exit status: 0")), "odd"),
        "ffmpeg error: Error writing frames: broken pipe\nodd"
    );
    assert_eq!(fail(&mut run, None, ""), "ffmpeg error: Error writing frames: broken pipe");
    assert_eq!(run.frame_idx, 3);
}

#[test]
fn downscales_the_output_to_the_selected_resolution() {
    let plan = plan_clip(&job(), &info(2560, 1440), OutputResolution::Hd720p, false).unwrap();
    assert_eq!((plan.out_width, plan.out_height), (1280, 720));
    assert_eq!(plan.scale_to, Some((1280, 720)));
    assert_eq!(plan.range, ColorRange::Limited);
    assert_eq!(plan.total_estimate, 25);
    assert_eq!(
        decoder_args("in.mp4", "29.97", plan.scale_to, plan.range).join(" "),
        "-nostdin -v error -i in.mp4 -an -f rawvideo -pix_fmt yuv420p -vf scale=1280:720 -fps_mode cfr -r 29.97 pipe:1"
    );
}

#[test]
fn original_resolution_leaves_the_frame_size_untouched() {
    let plan = plan_clip(&job(), &info(640, 360), OutputResolution::Original, true).unwrap();
    assert_eq!((plan.out_width, plan.out_height), (640, 360));
    assert_eq!(plan.scale_to, None);
    assert_eq!(
        decoder_args("in.mp4", "10", plan.scale_to, plan.range).join(" "),
        "-nostdin -v error -i in.mp4 -an -f rawvideo -pix_fmt yuvj420p -fps_mode cfr -r 10 pipe:1"
    );
    assert_eq!(
        encoder_args("out.mp4", "in.mp4", 640, 360, "10", plan.range, "libx264", "yuv420p", &vec!["-preset", "fast"])
            .join(" "),
        "-y -v error -f rawvideo -pix_fmt yuvj420p -s 640x360 -r 10 -i pipe:0 -i in.mp4 -map 0:v:0 -map 1:a:0? \
         -c:v libx264 -preset fast -pix_fmt yuv420p -c:a aac -b:a 192k -shortest out.mp4"
    );
}

#[test]
fn frames_that_cannot_be_encoded_are_refused() {
    let err = plan_clip(&job(), &info(0, 360), OutputResolution::Original, false).unwrap_err();
    assert_eq!(err.message(), "ffprobe error: Could not determine video resolution: in.mp4");
    let plan = plan_clip(&job(), &info(641, 481), OutputResolution::Fhd1080p, false).unwrap();
    assert_eq!((plan.out_width, plan.out_height, plan.scale_to), (640, 480, Some((640, 480))));
    let err = plan_clip(&job(), &info(641, 360), OutputResolution::Original, false).unwrap_err();
    assert_eq!(
        err.message(),
        "ffmpeg error: Frame size 641x360 has an odd dimension, which planar 4:2:0 video cannot represent. \
         Choose an explicit output resolution (e.g. --resolution 1080p) to scale it to an even size."
    );
}

/// Works on frames until the source ends or a stop is asked for.
fn drive(frames: u64, stop_after: u64) -> (ClipRun, bool, Vec<(u64, u64)>, Vec<Real>) {
    let plan = plan_clip(&job(), &info(64, 48), OutputResolution::Original, false).unwrap();
    let mut run = ClipRun::start(&job(), &info(64, 48), &plan);
    let mut reports = Vec::new();
    let mut moments = Vec::new();
    let mut read = 0;
    let mut action = ClipAction::Poll;
    loop {
        action = match action {
            ClipAction::Poll => run.step(ClipEvent::Polled { stop: read >= stop_after }),
            ClipAction::ReadFrame => {
                if read == frames {
                    run.step(ClipEvent::EndOfFrames)
                } else {
                    read += 1;
                    run.step(ClipEvent::FrameRead)
                }
            }
            ClipAction::DrawAndWrite { dive_sec } => {
                moments.push(dive_sec);
                run.step(ClipEvent::FrameWritten)
            }
            ClipAction::Report { done, total } => {
                reports.push((done, total));
                ClipAction::Poll
            }
            ClipAction::Finish { cancelled } => return (run, cancelled, reports, moments),
            ClipAction::Fail { error } => panic!("{}", error.message()),
        };
    }
}

#[test]
fn every_frame_is_drawn_at_its_moment_of_the_dive() {
    let (run, cancelled, reports, moments) = drive(32, 1000);
    assert!(!cancelled);
    assert_eq!(run.frame_idx, 32);
    assert_eq!(reports, vec![(10, 25), (20, 25), (30, 25)]);
    assert_eq!(moments.len(), 32);
    assert_eq!(moments[0], num(100.0));
    assert_eq!(moments[7], num(100.0 + 7.0 / 10.0));
    assert_eq!(run.final_progress(), (32, 32));
}

#[test]
fn stop_flag_halts_processing_early_and_still_finalizes_output() {
    let (run, cancelled, _, _) = drive(100, 5);
    assert!(cancelled);
    assert_eq!(run.frame_idx, 5);
    assert_eq!(run.final_progress(), (5, 25));
    // A stopped decoder is no failure, and the output is closed as usual.
    assert_eq!(
        finish_clip(true, &Some(exit(false, "signal: 9")), "", &Ok(exit(true, "exit status: 0")), "").unwrap(),
        false
    );
}

#[test]
fn the_end_of_a_clip_tells_what_failed() {
    let good = || Ok(exit(true, "exit status: 0"));
    assert!(finish_clip(false, &Some(exit(true, "exit status: 0")), "", &good(), "").unwrap());
    let err = finish_clip(false, &Some(exit(false, "exit status: 2")), "no frames", &good(), "").unwrap_err();
    assert_eq!(err.message(), "ffmpeg error: Decoder exited with error: exit status: 2\nno frames");
    let bad = Ok(exit(false, "exit status: 1"));
    let err = finish_clip(false, &Some(exit(false, "exit status: 2")), "x", &bad, "full disk").unwrap_err();
    assert_eq!(err.message(), "ffmpeg error: Encoder exited with error: exit status: 1\nfull disk");
    let gone = Err("no child".to_string());
    let err = finish_clip(true, &None, "", &gone, "").unwrap_err();
    assert_eq!(err.message(), "ffmpeg error: Encoder process failed: no child");
    assert!(finish_clip(false, &None, "", &good(), "").unwrap());
    let mut run = drive(1, 9).0;
    match run.step(ClipEvent::ReadFailed { error: "gone".to_string() }) {
        ClipAction::Fail { error } => assert_eq!(error.message(), "ffmpeg error: Error reading frames: gone"),
        other => panic!("{other:?}"),
    }
}

#[test]
fn processes_synthetic_clip_in_subtitle_mode_without_reencoding() {
    let samples = vec![DiveSample {
        elapsed_sec: num(0.0),
        depth_m: Some(num(1.5)),
        temp_c: None,
        pressure_bar: None,
        heart_rate: None,
    }];
    let options = ProcessingOptions {
        fields: vec![Field::Time, Field::Depth],
        codec: Codec::Auto,
        preset: Preset::VeryFast,
        hw_accel: false,
        show_graph: false,
        mode: OutputMode::Subtitles,
        interpolate: false,
        resolution: OutputResolution::Original,
    };
    // 25 frames at ten a second.
    let srt = clip_subtitles(&job(), &samples, &[num(0.0)], &options, &info(64, 48));
    assert_eq!(
        srt,
        "1\n00:00:00,000 --> 00:00:01,000\nDive time: 01:40\nDepth: 1.5 m\n\n\
         2\n00:00:01,000 --> 00:00:02,000\nDive time: 01:41\nDepth: 1.5 m\n\n\
         3\n00:00:02,000 --> 00:00:02,500\nDive time: 01:42\nDepth: 1.5 m\n\n"
    );
    assert_eq!(
        remux_args("in.mp4", "out.srt", "out.mp4").join(" "),
        "-y -nostdin -v error -i in.mp4 -i out.srt -map 0:v:0 -map 0:a:0? -map 1:0 -c:v copy -c:a copy \
         -c:s mov_text out.mp4"
    );
}

#[test]
fn a_program_that_is_waited_for_can_be_stopped() {
    assert!(matches!(
        wait_step("Remux", WaitEvent::Running { stop: false }),
        WaitAction::Sleep { millis: 100 }
    ));
    assert!(matches!(wait_step("Remux", WaitEvent::Running { stop: true }), WaitAction::Cancel));
    let done = WaitEvent::Exited {
        report: exit(true, "exit status: 0"),
        stderr: "a warning".to_string(),
    };
    assert!(matches!(wait_step("Remux", done), WaitAction::Done));
    let failed = WaitEvent::Exited {
        report: exit(false, "exit status: 1"),
        stderr: "why".to_string(),
    };
    match wait_step("Remux", failed) {
        WaitAction::Fail { error } => {
            assert_eq!(error.message(), "ffmpeg error: Remux exited with error: exit status: 1\nwhy")
        }
        other => panic!("{other:?}"),
    }
    match wait_step("Remux", WaitEvent::WaitFailed { error: "lost".to_string() }) {
        WaitAction::Fail { error } => assert_eq!(error.message(), "ffmpeg error: Error waiting for ffmpeg: lost"),
        other => panic!("{other:?}"),
    }
}

#[test]
fn frames_are_written_in_pieces_and_tried_again() {
    let mut offset = 0;
    let mut pieces = Vec::new();
    let len = 2 * PIPE_CHUNK + 17;
    while offset < len {
        let end = chunk_end(len, offset);
        pieces.push(end - offset);
        offset = end;
    }
    assert_eq!(pieces, vec![PIPE_CHUNK, PIPE_CHUNK, 17]);
    assert!(is_transient_pipe_error(true, None));
    assert!(is_transient_pipe_error(false, Some(1450)));
    assert!(!is_transient_pipe_error(false, Some(32)));
    assert_eq!(retry_delay(true, 0), Some(50));
    assert_eq!(retry_delay(true, 9), Some(500));
    assert_eq!(retry_delay(true, 10), None);
    assert_eq!(retry_delay(false, 0), None);
}

#[test]
fn extract_frame_at_matches_video_dimensions() {
    let info = info(2, 2);
    match take_frame(&info, (0..20).collect(), true) {
        FrameOutcome::Picture { bytes } => assert_eq!(bytes, (0..12).collect::<Vec<u8>>()),
        other => panic!("{other:?}"),
    }
    assert!(matches!(take_frame(&info, vec![0; 11], true), FrameOutcome::Retry));
    match take_frame(&info, vec![0; 11], false) {
        FrameOutcome::Fail { error } => {
            assert_eq!(error.message(), "ffmpeg error: Could not read a frame at the sync point")
        }
        other => panic!("{other:?}"),
    }
    assert_eq!(
        frame_args("in.mp4", "1.5", true).join(" "),
        "-nostdin -v error -ss 1.5 -i in.mp4 -frames:v 1 -f rawvideo -pix_fmt rgb24 pipe:1"
    );
    assert_eq!(
        frame_args("in.mp4", "1.5", false).join(" "),
        "-nostdin -v error -i in.mp4 -ss 1.5 -frames:v 1 -f rawvideo -pix_fmt rgb24 pipe:1"
    );
}

#[test]
fn a_stopped_subtitle_run_leaves_no_files() {
    let end = end_subtitles(false);
    assert_eq!((end.remove_files, end.done, end.total, end.finished), (true, 0, 1, false));
    let end = end_subtitles(true);
    assert_eq!((end.remove_files, end.done, end.total, end.finished), (false, 1, 1, true));
}
