//! The course of working on a clip, decided step by step.
//!
//! Programs are started, files read and written, and time spent elsewhere; what
//! to do next, with which arguments, and how it ended is decided here.

use vstd::prelude::*;

use crate::binary64::{lemma_signed_int_difference, Real};
use crate::error::{prefixed, CoreError, ErrorView};
use crate::ffprobe::VideoInfo;
use crate::lookup::ascending;
use crate::model::{ClipJob, DiveSample};
use crate::numeral::push_decimal;
use crate::pipeline::{push_args, size_arg, size_text, OutputResolution, ProcessingOptions};
use crate::nearest::TWO52;
use crate::subtitle::{build_srt, dive_moment, track_from};
use crate::text::{chars_of, decimal, lower, lower_text, same_text, str_views, views};
use crate::yuv::ColorRange;

verus! {

/// How a program ended: whether it succeeded, and its status in words.
#[derive(Debug)]
pub struct ExitReport {
    pub success: bool,
    pub text: String,
}

/// The message for a program that failed, with what it wrote about it.
pub open spec fn failure_text(what: Seq<char>, status: Seq<char>, stderr: Seq<char>) -> Seq<char> {
    what + " exited with error: "@ + status + if stderr.len() == 0 {
        ""@
    } else {
        "\n"@ + stderr
    }
}

fn is_empty_text(s: &str) -> (r: bool)
    ensures
        r == (s@.len() == 0),
{
    chars_of(s).len() == 0
}

/// The error for a program that failed.
pub fn ffmpeg_failure(what: &str, status: &str, stderr_text: &str) -> (r: CoreError)
    ensures
        r@ == ErrorView::Ffmpeg(failure_text(what@, status@, stderr_text@)),
{
    let mut m = what.to_owned();
    m.push_str(" exited with error: ");
    m.push_str(status);
    if is_empty_text(stderr_text) {
        proof {
            reveal_strlit("");
            assert(m@ =~= failure_text(what@, status@, stderr_text@));
        }
    } else {
        m.push_str("\n");
        m.push_str(stderr_text);
        assert(m@ =~= failure_text(what@, status@, stderr_text@));
    }
    CoreError::Ffmpeg(m)
}

/// Whether two resolved paths are the same file, upper and lower case being alike
/// on some systems.
pub open spec fn same_file(a: Seq<char>, b: Seq<char>, fold_case: bool) -> bool {
    if fold_case {
        lower(a) == lower(b)
    } else {
        a == b
    }
}

/// Refuses an output that would overwrite its own input, given both paths
/// resolved.
pub fn ensure_output_differs_from_input(
    resolved_video: &str,
    resolved_output: &str,
    fold_case: bool,
    output_path: &str,
) -> (r: Result<(), CoreError>)
    ensures
        match r {
            Ok(_) => !same_file(resolved_video@, resolved_output@, fold_case),
            Err(e) => same_file(resolved_video@, resolved_output@, fold_case) && e@
                == ErrorView::Other("Output path must differ from the input video: "@ + output_path@),
        },
{
    let same = if fold_case {
        same_text(lower_text(resolved_video).as_str(), lower_text(resolved_output).as_str())
    } else {
        same_text(resolved_video, resolved_output)
    };
    if same {
        return Err(
            CoreError::Other(prefixed("Output path must differ from the input video: ", output_path)),
        );
    }
    Ok(())
}

/// Checks what has to hold before a clip is looked at: its video is there, and its
/// output is another file.
pub fn check_clip_paths(
    job: &ClipJob,
    video_exists: bool,
    resolved_video: &str,
    resolved_output: &str,
    fold_case: bool,
) -> (r: Result<(), CoreError>)
    ensures
        match r {
            Ok(_) => video_exists && !same_file(resolved_video@, resolved_output@, fold_case),
            Err(e) => if !video_exists {
                e@ == ErrorView::VideoNotFound(job.video_path@)
            } else {
                same_file(resolved_video@, resolved_output@, fold_case) && e@ == ErrorView::Other(
                    "Output path must differ from the input video: "@ + job.output_path@,
                )
            },
        },
{
    if !video_exists {
        return Err(CoreError::VideoNotFound(job.video_path.clone()));
    }
    ensure_output_differs_from_input(
        resolved_video,
        resolved_output,
        fold_case,
        job.output_path.as_str(),
    )
}

/// The error for a video whose size is not known.
pub open spec fn no_size_error(video_path: Seq<char>) -> ErrorView {
    ErrorView::Ffprobe("Could not determine video resolution: "@ + video_path)
}

/// Checks that the size of a video is known.
pub fn check_frame_size(info: &VideoInfo, video_path: &str) -> (r: Result<(), CoreError>)
    ensures
        match r {
            Ok(_) => info.width > 0 && info.height > 0,
            Err(e) => (info.width == 0 || info.height == 0) && e@ == no_size_error(video_path@),
        },
{
    if info.width == 0 || info.height == 0 {
        return Err(
            CoreError::Ffprobe(prefixed("Could not determine video resolution: ", video_path)),
        );
    }
    Ok(())
}

/// The size at which a clip is worked on.
#[derive(Debug, Clone, Copy)]
pub struct ClipPlan {
    pub out_width: u32,
    pub out_height: u32,
    /// The size that decoding scales to, where it is not that of the source.
    pub scale_to: Option<(u32, u32)>,
    pub range: ColorRange,
    /// The count of frames to expect, 0 where it is not known.
    pub total_estimate: u64,
}

/// The message for a frame with an odd side.
pub open spec fn odd_size_text(width: u32, height: u32) -> Seq<char> {
    "Frame size "@ + size_text(width, height)
        + " has an odd dimension, which planar 4:2:0 video cannot represent. Choose an explicit output resolution (e.g. --resolution 1080p) to scale it to an even size."@
}

/// Whether a plan is the one for a video.
pub open spec fn plan_agrees(
    plan: ClipPlan,
    info: VideoInfo,
    resolution: OutputResolution,
    full_range: bool,
) -> bool {
    let (w, h) = resolution.target(info.width, info.height);
    &&& plan.out_width == w
    &&& plan.out_height == h
    &&& plan.scale_to == if w == info.width && h == info.height {
        None
    } else {
        Some((plan.out_width, plan.out_height))
    }
    &&& plan.range == if full_range {
        ColorRange::Full
    } else {
        ColorRange::Limited
    }
    &&& plan.total_estimate == match info.estimated_frames {
        Some(n) => n,
        None => 0,
    }
}

/// Plans the work on a clip; a size that is not known or has an odd side is
/// refused.
pub fn plan_clip(
    job: &ClipJob,
    info: &VideoInfo,
    resolution: OutputResolution,
    full_range: bool,
) -> (r: Result<ClipPlan, CoreError>)
    ensures
        ({
            let (w, h) = resolution.target(info.width, info.height);
            if info.width == 0 || info.height == 0 {
                r matches Err(e) && e@ == no_size_error(job.video_path@)
            } else if w % 2 != 0 || h % 2 != 0 {
                r matches Err(e) && e@ == ErrorView::Ffmpeg(odd_size_text(w as u32, h as u32))
            } else {
                r matches Ok(plan) && plan_agrees(plan, *info, resolution, full_range)
                    && plan.out_width > 0 && plan.out_height > 0
            }
        }),
{
    match check_frame_size(info, job.video_path.as_str()) {
        Ok(_) => {},
        Err(e) => {
            return Err(e);
        },
    }
    let (out_width, out_height) = resolution.target_dimensions(info.width, info.height);
    if out_width % 2 != 0 || out_height % 2 != 0 {
        let mut m = "Frame size ".to_owned();
        m.push_str(size_arg(out_width, out_height).as_str());
        m.push_str(
            " has an odd dimension, which planar 4:2:0 video cannot represent. Choose an explicit output resolution (e.g. --resolution 1080p) to scale it to an even size.",
        );
        return Err(CoreError::Ffmpeg(m));
    }
    let scale_to = if out_width == info.width && out_height == info.height {
        None
    } else {
        Some((out_width, out_height))
    };
    Ok(
        ClipPlan {
            out_width,
            out_height,
            scale_to,
            range: ColorRange::from_full_range_flag(full_range),
            total_estimate: match info.estimated_frames {
                Some(n) => n,
                None => 0,
            },
        },
    )
}

/// What follows when the work on a clip with subtitles has ended.
#[derive(Debug, Clone, Copy, PartialEq, Eq, Structural)]
pub struct SubtitleEnd {
    /// Whether both the video and its track are removed.
    pub remove_files: bool,
    /// The steps that are done, of the one that there is.
    pub done: u64,
    pub total: u64,
    pub finished: bool,
}

/// Decides what follows when the work on a clip with subtitles has ended: what was
/// stopped leaves no files behind.
pub fn end_subtitles(finished: bool) -> (r: SubtitleEnd)
    ensures
        r.remove_files == !finished,
        r.done == if finished {
            1u64
        } else {
            0
        },
        r.total == 1,
        r.finished == finished,
{
    SubtitleEnd {
        remove_files: !finished,
        done: if finished {
            1
        } else {
            0
        },
        total: 1,
        finished,
    }
}

/// The filter that scales a picture.
pub open spec fn scale_filter(size: (u32, u32)) -> Seq<char> {
    "scale="@ + decimal(size.0 as nat) + ":"@ + decimal(size.1 as nat)
}

/// The arguments for decoding a video to raw frames at a constant rate.
pub open spec fn decoder_arg_list(
    video_path: Seq<char>,
    fps: Seq<char>,
    scale_to: Option<(u32, u32)>,
    range: ColorRange,
) -> Seq<Seq<char>> {
    seq![
        "-nostdin"@,
        "-v"@,
        "error"@,
        "-i"@,
        video_path,
        "-an"@,
        "-f"@,
        "rawvideo"@,
        "-pix_fmt"@,
        range.format_name(),
    ] + (match scale_to {
        Some(size) => seq!["-vf"@, scale_filter(size)],
        None => seq![],
    }) + seq!["-fps_mode"@, "cfr"@, "-r"@, fps, "pipe:1"@]
}

/// The arguments for decoding a video, given its frame rate in words.
pub fn decoder_args(
    video_path: &str,
    fps: &str,
    scale_to: Option<(u32, u32)>,
    range: ColorRange,
) -> (r: Vec<String>)
    ensures
        views(r@) == decoder_arg_list(video_path@, fps@, scale_to, range),
{
    let mut r: Vec<String> = Vec::new();
    let head: Vec<&str> = vec![
        "-nostdin",
        "-v",
        "error",
        "-i",
        video_path,
        "-an",
        "-f",
        "rawvideo",
        "-pix_fmt",
        range.raw_pixel_format(),
    ];
    push_args(&mut r, &head);
    match scale_to {
        Some((w, h)) => {
            let mut filter = "scale=".to_owned();
            push_decimal(&mut filter, w as u64);
            filter.push_str(":");
            push_decimal(&mut filter, h as u64);
            let scale: Vec<&str> = vec!["-vf", filter.as_str()];
            push_args(&mut r, &scale);
        },
        None => {},
    }
    let tail: Vec<&str> = vec!["-fps_mode", "cfr", "-r", fps, "pipe:1"];
    push_args(&mut r, &tail);
    assert(views(r@) =~= decoder_arg_list(video_path@, fps@, scale_to, range));
    r
}

/// The arguments for encoding raw frames, with the sound of the original.
pub open spec fn encoder_arg_list(
    output_path: Seq<char>,
    original_input: Seq<char>,
    width: u32,
    height: u32,
    fps: Seq<char>,
    range: ColorRange,
    encoder: Seq<char>,
    pix_fmt: Seq<char>,
    extra: Seq<Seq<char>>,
) -> Seq<Seq<char>> {
    seq![
        "-y"@,
        "-v"@,
        "error"@,
        "-f"@,
        "rawvideo"@,
        "-pix_fmt"@,
        range.format_name(),
        "-s"@,
        size_text(width, height),
        "-r"@,
        fps,
        "-i"@,
        "pipe:0"@,
        "-i"@,
        original_input,
        "-map"@,
        "0:v:0"@,
        "-map"@,
        "1:a:0?"@,
        "-c:v"@,
        encoder,
    ] + extra + seq![
        "-pix_fmt"@,
        pix_fmt,
        "-c:a"@,
        "aac"@,
        "-b:a"@,
        "192k"@,
        "-shortest"@,
        output_path,
    ]
}

/// The arguments for encoding raw frames, given the frame rate in words.
pub fn encoder_args(
    output_path: &str,
    original_input: &str,
    width: u32,
    height: u32,
    fps: &str,
    range: ColorRange,
    encoder: &str,
    pix_fmt: &str,
    extra: &Vec<&str>,
) -> (r: Vec<String>)
    ensures
        views(r@) == encoder_arg_list(
            output_path@,
            original_input@,
            width,
            height,
            fps@,
            range,
            encoder@,
            pix_fmt@,
            str_views(extra@),
        ),
{
    let size = size_arg(width, height);
    let mut r: Vec<String> = Vec::new();
    let head: Vec<&str> = vec![
        "-y",
        "-v",
        "error",
        "-f",
        "rawvideo",
        "-pix_fmt",
        range.raw_pixel_format(),
        "-s",
        size.as_str(),
        "-r",
        fps,
        "-i",
        "pipe:0",
        "-i",
        original_input,
        "-map",
        "0:v:0",
        "-map",
        "1:a:0?",
        "-c:v",
        encoder,
    ];
    push_args(&mut r, &head);
    push_args(&mut r, extra);
    let tail: Vec<&str> = vec![
        "-pix_fmt",
        pix_fmt,
        "-c:a",
        "aac",
        "-b:a",
        "192k",
        "-shortest",
        output_path,
    ];
    push_args(&mut r, &tail);
    assert(views(r@) =~= encoder_arg_list(
        output_path@,
        original_input@,
        width,
        height,
        fps@,
        range,
        encoder@,
        pix_fmt@,
        str_views(extra@),
    ));
    r
}

/// What happened while the frames of a clip are worked on.
#[derive(Debug)]
pub enum ClipEvent {
    /// Whether a stop was asked for, looked up before each frame.
    Polled { stop: bool },
    FrameRead,
    EndOfFrames,
    ReadFailed { error: String },
    FrameWritten,
    /// Writing failed; how the encoder ended, where that is known, and what it
    /// wrote about it.
    WriteFailed { error: String, encoder: Option<ExitReport>, stderr: String },
}

/// What to do next with the frames of a clip.
#[derive(Debug)]
pub enum ClipAction {
    Poll,
    ReadFrame,
    /// Draw what holds at a moment of the dive and write the frame.
    DrawAndWrite { dive_sec: Real },
    /// Show how far the work is, and go on.
    Report { done: u64, total: u64 },
    /// Close both programs; whether the work was stopped early.
    Finish { cancelled: bool },
    Fail { error: CoreError },
}

/// The work on the frames of a clip.
#[derive(Debug, Clone, Copy, PartialEq, Eq, Structural)]
pub struct ClipRun {
    pub frame_idx: u64,
    pub total_estimate: u64,
    pub fps: Real,
    pub dive_start_sec: Real,
}

/// The moment of the dive at a frame.
pub open spec fn frame_moment(run: ClipRun) -> Real {
    run.dive_start_sec.sum(Real::of_int(run.frame_idx as int).quotient(run.fps))
}

/// The error for frames that cannot be written: the encoder's own failure, where
/// it has one to tell.
pub open spec fn write_error(error: Seq<char>, encoder: Option<ExitReport>, stderr: Seq<char>) -> ErrorView {
    match encoder {
        Some(report) if !report.success => ErrorView::Ffmpeg(
            failure_text("Encoder"@, report.text@, stderr),
        ),
        _ => ErrorView::Ffmpeg(
            "Error writing frames: "@ + error + if stderr.len() == 0 {
                ""@
            } else {
                "\n"@ + stderr
            },
        ),
    }
}

fn write_failure(error: &str, encoder: &Option<ExitReport>, stderr: &str) -> (r: CoreError)
    ensures
        r@ == write_error(error@, *encoder, stderr@),
{
    match encoder {
        Some(report) => {
            if !report.success {
                return ffmpeg_failure("Encoder", report.text.as_str(), stderr);
            }
        },
        None => {},
    }
    let mut m = prefixed("Error writing frames: ", error);
    if is_empty_text(stderr) {
        proof {
            reveal_strlit("");
            assert(m@ =~= "Error writing frames: "@ + error@ + ""@);
        }
    } else {
        m.push_str("\n");
        m.push_str(stderr);
        assert(m@ =~= "Error writing frames: "@ + error@ + ("\n"@ + stderr@));
    }
    CoreError::Ffmpeg(m)
}

/// Whether an action is the one to take on an event, and what becomes of the run.
pub open spec fn step_agrees(before: ClipRun, event: ClipEvent, action: ClipAction, after: ClipRun) -> bool {
    match event {
        ClipEvent::Polled { stop } => after == before && if stop {
            action == (ClipAction::Finish { cancelled: true })
        } else {
            action == ClipAction::ReadFrame
        },
        ClipEvent::FrameRead => after == before && action == (ClipAction::DrawAndWrite {
            dive_sec: frame_moment(before),
        }),
        ClipEvent::EndOfFrames => after == before && action == (ClipAction::Finish {
            cancelled: false,
        }),
        ClipEvent::ReadFailed { error } => after == before && (action matches ClipAction::Fail {
            error: e,
        } && e@ == ErrorView::Ffmpeg("Error reading frames: "@ + error@)),
        ClipEvent::FrameWritten => {
            let n = (before.frame_idx + 1) as u64;
            &&& after == (ClipRun { frame_idx: n, ..before })
            &&& action == if n % 10 == 0 {
                ClipAction::Report { done: n, total: before.total_estimate }
            } else {
                ClipAction::Poll
            }
        },
        ClipEvent::WriteFailed { error, encoder, stderr } => after == before && (
        action matches ClipAction::Fail { error: e } && e@ == write_error(
            error@,
            encoder,
            stderr@,
        )),
    }
}

impl ClipRun {
    /// Starts the work on the frames of a clip.
    pub fn start(job: &ClipJob, info: &VideoInfo, plan: &ClipPlan) -> (r: ClipRun)
        ensures
            r == (ClipRun {
                frame_idx: 0,
                total_estimate: plan.total_estimate,
                fps: info.fps,
                dive_start_sec: job.dive_start_sec,
            }),
    {
        ClipRun {
            frame_idx: 0,
            total_estimate: plan.total_estimate,
            fps: info.fps,
            dive_start_sec: job.dive_start_sec,
        }
    }

    /// Decides what to do on an event.
    pub fn step(&mut self, event: ClipEvent) -> (action: ClipAction)
        requires
            old(self).frame_idx < u64::MAX,
        ensures
            step_agrees(*old(self), event, action, *final(self)),
    {
        match event {
            ClipEvent::Polled { stop } => if stop {
                ClipAction::Finish { cancelled: true }
            } else {
                ClipAction::ReadFrame
            },
            ClipEvent::FrameRead => {
                let video_sec = Real::from_u64(self.frame_idx).over(self.fps);
                ClipAction::DrawAndWrite { dive_sec: self.dive_start_sec.plus(video_sec) }
            },
            ClipEvent::EndOfFrames => ClipAction::Finish { cancelled: false },
            ClipEvent::ReadFailed { error } => ClipAction::Fail {
                error: CoreError::Ffmpeg(prefixed("Error reading frames: ", error.as_str())),
            },
            ClipEvent::FrameWritten => {
                self.frame_idx = self.frame_idx + 1;
                if self.frame_idx % 10 == 0 {
                    ClipAction::Report { done: self.frame_idx, total: self.total_estimate }
                } else {
                    ClipAction::Poll
                }
            },
            ClipEvent::WriteFailed { error, encoder, stderr } => ClipAction::Fail {
                error: write_failure(error.as_str(), &encoder, stderr.as_str()),
            },
        }
    }

    /// How far the work is when it is done: no fewer frames in all than were done.
    pub open spec fn progress_at_end(self) -> (u64, u64) {
        (
            self.frame_idx,
            if self.total_estimate >= self.frame_idx {
                self.total_estimate
            } else {
                self.frame_idx
            },
        )
    }

    pub fn final_progress(&self) -> (r: (u64, u64))
        ensures
            r == self.progress_at_end(),
    {
        if self.total_estimate >= self.frame_idx {
            (self.frame_idx, self.total_estimate)
        } else {
            (self.frame_idx, self.frame_idx)
        }
    }
}

/// Whether decoding counts as done: a stopped one always does.
pub open spec fn decoder_done(cancelled: bool, decoder: Option<ExitReport>) -> bool {
    cancelled || match decoder {
        Some(report) => report.success,
        None => false,
    }
}

/// How the work on a clip ended.
pub open spec fn clip_outcome(
    cancelled: bool,
    decoder: Option<ExitReport>,
    decoder_stderr: Seq<char>,
    encoder: Result<ExitReport, String>,
    encoder_stderr: Seq<char>,
) -> Result<bool, ErrorView> {
    match encoder {
        Err(e) => Err(ErrorView::Ffmpeg("Encoder process failed: "@ + e@)),
        Ok(report) => if !report.success {
            Err(ErrorView::Ffmpeg(failure_text("Encoder"@, report.text@, encoder_stderr)))
        } else if !decoder_done(cancelled, decoder) && decoder.is_some() {
            Err(ErrorView::Ffmpeg(failure_text("Decoder"@, decoder->0.text@, decoder_stderr)))
        } else {
            Ok(!cancelled)
        },
    }
}

/// Decides how the work on a clip ended, given how both programs ended and what
/// they wrote: whether all frames were done, or the first failure, the encoder's
/// before the decoder's.
pub fn finish_clip(
    cancelled: bool,
    decoder: &Option<ExitReport>,
    decoder_stderr: &str,
    encoder: &Result<ExitReport, String>,
    encoder_stderr: &str,
) -> (r: Result<bool, CoreError>)
    ensures
        match r {
            Ok(done) => clip_outcome(
                cancelled,
                *decoder,
                decoder_stderr@,
                *encoder,
                encoder_stderr@,
            ) == Ok::<bool, ErrorView>(done),
            Err(e) => clip_outcome(
                cancelled,
                *decoder,
                decoder_stderr@,
                *encoder,
                encoder_stderr@,
            ) == Err::<bool, ErrorView>(e@),
        },
{
    match encoder {
        Err(e) => {
            return Err(CoreError::Ffmpeg(prefixed("Encoder process failed: ", e.as_str())));
        },
        Ok(report) => {
            if !report.success {
                return Err(ffmpeg_failure("Encoder", report.text.as_str(), encoder_stderr));
            }
        },
    }
    match decoder {
        Some(report) => {
            if !cancelled && !report.success {
                return Err(ffmpeg_failure("Decoder", report.text.as_str(), decoder_stderr));
            }
        },
        None => {},
    }
    Ok(!cancelled)
}

/// The length of a video for its subtitles: the one that is known, else the count
/// of frames over the frame rate, else nothing.
pub open spec fn subtitle_seconds(info: VideoInfo) -> Real {
    match info.duration_sec {
        Some(d) => d,
        None => match info.estimated_frames {
            Some(n) => Real::of_int(n as int).quotient(info.fps),
            None => Real::of_int(0),
        },
    }
}

/// Builds the subtitle track of a clip.
pub fn clip_subtitles(
    job: &ClipJob,
    samples: &[DiveSample],
    times: &[Real],
    options: &ProcessingOptions,
    info: &VideoInfo,
) -> (r: String)
    requires
        times.len() <= samples.len(),
        ascending(times@),
    ensures
        r@ == track_from(
            options.fields@,
            samples@,
            times@,
            Real::of_int(0),
            job.dive_start_sec,
            subtitle_seconds(*info),
            options.interpolate,
            0,
        ),
{
    let duration = match info.duration_sec {
        Some(d) => d,
        None => match info.estimated_frames {
            Some(n) => Real::from_u64(n).over(info.fps),
            None => Real::from_i64(0),
        },
    };
    build_srt(
        options.fields.as_slice(),
        samples,
        times,
        Real::from_i64(0),
        job.dive_start_sec,
        duration,
        options.interpolate,
    )
}

/// The arguments for putting a subtitle track beside the streams of a video,
/// which are copied as they are.
pub open spec fn remux_arg_list(video_path: Seq<char>, srt_path: Seq<char>, output_path: Seq<char>) -> Seq<
    Seq<char>,
> {
    seq![
        "-y"@,
        "-nostdin"@,
        "-v"@,
        "error"@,
        "-i"@,
        video_path,
        "-i"@,
        srt_path,
        "-map"@,
        "0:v:0"@,
        "-map"@,
        "0:a:0?"@,
        "-map"@,
        "1:0"@,
        "-c:v"@,
        "copy"@,
        "-c:a"@,
        "copy"@,
        "-c:s"@,
        "mov_text"@,
        output_path,
    ]
}

pub fn remux_args(video_path: &str, srt_path: &str, output_path: &str) -> (r: Vec<String>)
    ensures
        views(r@) == remux_arg_list(video_path@, srt_path@, output_path@),
{
    let list: Vec<&str> = vec![
        "-y",
        "-nostdin",
        "-v",
        "error",
        "-i",
        video_path,
        "-i",
        srt_path,
        "-map",
        "0:v:0",
        "-map",
        "0:a:0?",
        "-map",
        "1:0",
        "-c:v",
        "copy",
        "-c:a",
        "copy",
        "-c:s",
        "mov_text",
        output_path,
    ];
    let mut r: Vec<String> = Vec::new();
    push_args(&mut r, &list);
    assert(views(r@) =~= remux_arg_list(video_path@, srt_path@, output_path@));
    r
}

/// What happened while a program runs that is only waited for.
#[derive(Debug)]
pub enum WaitEvent {
    /// It still runs; whether a stop was asked for.
    Running { stop: bool },
    Exited { report: ExitReport, stderr: String },
    WaitFailed { error: String },
}

/// What to do about a program that is only waited for.
#[derive(Debug)]
pub enum WaitAction {
    /// Look again after some milliseconds.
    Sleep { millis: u64 },
    /// Stop the program and remove what it wrote.
    Cancel,
    Done,
    Fail { error: CoreError },
}

/// Whether an action is the one to take on an event.
pub open spec fn wait_agrees(what: Seq<char>, event: WaitEvent, action: WaitAction) -> bool {
    match event {
        WaitEvent::Running { stop } => if stop {
            action == WaitAction::Cancel
        } else {
            action == (WaitAction::Sleep { millis: 100 })
        },
        WaitEvent::Exited { report, stderr } => if report.success {
            action == WaitAction::Done
        } else {
            action matches WaitAction::Fail { error: e } && e@ == ErrorView::Ffmpeg(
                failure_text(what, report.text@, stderr@),
            )
        },
        WaitEvent::WaitFailed { error } => action matches WaitAction::Fail { error: e } && e@
            == ErrorView::Ffmpeg("Error waiting for ffmpeg: "@ + error@),
    }
}

/// Decides what to do about a program that is only waited for.
pub fn wait_step(what: &str, event: WaitEvent) -> (action: WaitAction)
    ensures
        wait_agrees(what@, event, action),
{
    match event {
        WaitEvent::Running { stop } => if stop {
            WaitAction::Cancel
        } else {
            WaitAction::Sleep { millis: 100 }
        },
        WaitEvent::Exited { report, stderr } => if report.success {
            WaitAction::Done
        } else {
            WaitAction::Fail {
                error: ffmpeg_failure(what, report.text.as_str(), stderr.as_str()),
            }
        },
        WaitEvent::WaitFailed { error } => WaitAction::Fail {
            error: CoreError::Ffmpeg(prefixed("Error waiting for ffmpeg: ", error.as_str())),
        },
    }
}

/// The most bytes that are written to an encoder at once.
pub const PIPE_CHUNK: usize = 262_144;

/// The end of the piece of a frame that starts at an offset.
pub open spec fn piece_end(len: nat, offset: nat) -> nat {
    if len <= offset + PIPE_CHUNK {
        len
    } else {
        offset + PIPE_CHUNK as nat
    }
}

pub fn chunk_end(len: usize, offset: usize) -> (r: usize)
    requires
        offset < len,
    ensures
        r == piece_end(len as nat, offset as nat),
        offset < r <= len,
{
    if len - offset <= PIPE_CHUNK {
        len
    } else {
        offset + PIPE_CHUNK
    }
}

/// Whether a failed write may succeed when it is tried again.
pub fn is_transient_pipe_error(interrupted: bool, os_error: Option<i32>) -> (r: bool)
    ensures
        r == (interrupted || os_error == Some(1450i32)),
{
    interrupted || match os_error {
        Some(code) => code == 1450,
        None => false,
    }
}

/// How many milliseconds to wait before a write is tried again, given how often
/// it was tried again already: longer each time, and ten times at most.
pub open spec fn wait_before_retry(transient: bool, attempt: u64) -> Option<u64> {
    if transient && attempt < 10 {
        Some((50 * (attempt + 1)) as u64)
    } else {
        None
    }
}

pub fn retry_delay(transient: bool, attempt: u64) -> (r: Option<u64>)
    ensures
        r == wait_before_retry(transient, attempt),
{
    if transient && attempt < 10 {
        Some(50 * (attempt + 1))
    } else {
        None
    }
}

/// The arguments for reading one frame at a second, given in words; the second is
/// looked for before the video is opened, or else after it.
pub open spec fn frame_arg_list(video_path: Seq<char>, second: Seq<char>, input_side: bool) -> Seq<
    Seq<char>,
> {
    let seek = seq!["-ss"@, second];
    let none: Seq<Seq<char>> = seq![];
    seq!["-nostdin"@, "-v"@, "error"@] + (if input_side {
        seek
    } else {
        none
    }) + seq!["-i"@, video_path] + (if input_side {
        none
    } else {
        seek
    }) + seq!["-frames:v"@, "1"@, "-f"@, "rawvideo"@, "-pix_fmt"@, "rgb24"@, "pipe:1"@]
}

pub fn frame_args(video_path: &str, second: &str, input_side: bool) -> (r: Vec<String>)
    ensures
        views(r@) == frame_arg_list(video_path@, second@, input_side),
{
    let mut r: Vec<String> = Vec::new();
    let head: Vec<&str> = vec!["-nostdin", "-v", "error"];
    push_args(&mut r, &head);
    let seek: Vec<&str> = vec!["-ss", second];
    if input_side {
        push_args(&mut r, &seek);
    }
    let input: Vec<&str> = vec!["-i", video_path];
    push_args(&mut r, &input);
    if !input_side {
        push_args(&mut r, &seek);
    }
    let tail: Vec<&str> = vec!["-frames:v", "1", "-f", "rawvideo", "-pix_fmt", "rgb24", "pipe:1"];
    push_args(&mut r, &tail);
    assert(views(r@) =~= frame_arg_list(video_path@, second@, input_side));
    r
}

/// The bytes of a picture with three bytes for each pixel.
pub open spec fn rgb_bytes(width: u32, height: u32) -> nat {
    width as nat * height as nat * 3
}

/// What to do with the bytes that were read for a frame.
#[derive(Debug)]
pub enum FrameOutcome {
    Picture { bytes: Vec<u8> },
    /// Look for the frame the other way.
    Retry,
    Fail { error: CoreError },
}

/// Takes a frame from the bytes that were read: the first bytes where there are
/// enough, else one more try the other way.
pub fn take_frame(info: &VideoInfo, bytes: Vec<u8>, input_side: bool) -> (r: FrameOutcome)
    ensures
        if bytes@.len() >= rgb_bytes(info.width, info.height) {
            r matches FrameOutcome::Picture { bytes: b } && b@ == bytes@.take(
                rgb_bytes(info.width, info.height) as int,
            )
        } else if input_side {
            r == FrameOutcome::Retry
        } else {
            r matches FrameOutcome::Fail { error: e } && e@ == ErrorView::Ffmpeg(
                "Could not read a frame at the sync point"@,
            )
        },
{
    proof {
        assert(info.width * info.height <= 0xffff_ffff_0000_0001) by (nonlinear_arith)
            requires
                0 <= info.width <= u32::MAX,
                0 <= info.height <= u32::MAX,
        ;
        assert(info.width * info.height >= 0) by (nonlinear_arith);
    }
    let size: u128 = info.width as u128 * info.height as u128 * 3;
    if bytes.len() as u128 >= size {
        let mut b = bytes;
        b.truncate(size as usize);
        assert(b@ =~= bytes@.take(size as int));
        FrameOutcome::Picture { bytes: b }
    } else if input_side {
        FrameOutcome::Retry
    } else {
        FrameOutcome::Fail {
            error: CoreError::Ffmpeg("Could not read a frame at the sync point".to_owned()),
        }
    }
}

/// A frame at a whole second of the video shows what the subtitle of that second
/// shows: both stand for the same moment of the dive.
pub proof fn law_modes_show_the_same_moment(run: ClipRun, sec: nat)
    requires
        sec < TWO52,
        Real::of_int(run.frame_idx as int).quotient(run.fps) == Real::of_int(sec as int),
    ensures
        frame_moment(run) == dive_moment(sec, Real::of_int(0), run.dive_start_sec),
{
    lemma_signed_int_difference(sec as int, 0);
}

} // verus!
