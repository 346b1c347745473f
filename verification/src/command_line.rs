//! The jobs and options that a command line asks for.

use vstd::prelude::*;

use crate::binary64::Real;
use crate::csv_data::{duration_of, parse_duration_to_seconds};
use crate::error::{CoreError, ErrorView};
use crate::model::ClipJob;
use crate::moment::UtcTime;
use crate::paths::{derive_output_path, has_directory, is_overlay_of};
use crate::pipeline::{codec_named, mode_named, name_key, preset_named, Codec, OutputMode, Preset};
use crate::sync::{clip_parts, clip_start, given_clip, parse_clip_spec};
use crate::text::chars_of;

verus! {

/// The first clip that is not given in the right form.
pub open spec fn first_bad_clip(clips: Seq<String>) -> nat
    decreases clips.len(),
{
    if clips.len() == 0 || clip_start(clip_parts(clips[0]@)) is Err {
        0
    } else {
        1 + first_bad_clip(clips.skip(1))
    }
}

/// Whether a job is the one for a single video.
pub open spec fn single_job(
    job: ClipJob,
    video: Seq<char>,
    output: Option<Seq<char>>,
    start: Real,
) -> bool {
    &&& job.video_path@ == video
    &&& match output {
        Some(p) => job.output_path@ == p,
        None => has_directory(video) ==> is_overlay_of(job.output_path@, video),
    }
    &&& job.dive_start_sec == start
    &&& job.video_start_utc == None::<UtcTime>
}

/// What jobs a command line asks for: those of its clips, else that of its single
/// video.
pub open spec fn jobs_agree(
    r: Result<Vec<ClipJob>, CoreError>,
    clips: Seq<String>,
    video: Option<Seq<char>>,
    output: Option<Seq<char>>,
    video_sync_sec: Real,
    csv_sync_mmss: Seq<char>,
) -> bool {
    if clips.len() > 0 {
        let k = first_bad_clip(clips) as int;
        match r {
            Err(e) => k < clips.len() && clip_start(clip_parts(clips[k]@)) == Err::<
                Real,
                ErrorView,
            >(e@),
            Ok(jobs) => k >= clips.len() && jobs@.len() == clips.len() && forall|i: int|
                #![trigger jobs@[i]]
                0 <= i < clips.len() ==> given_clip(
                    jobs@[i],
                    clip_parts(clips[i]@),
                    clip_start(clip_parts(clips[i]@))->Ok_0,
                ),
        }
    } else {
        match video {
            None => r matches Err(e) && e@ == ErrorView::Other(
                "Please specify --video or at least one --clip"@,
            ),
            Some(video) => match duration_of(csv_sync_mmss) {
                Err(e) => r matches Err(f) && f@ == e,
                Ok(csv_sync) => r matches Ok(jobs) && jobs@.len() == 1 && single_job(
                    jobs@[0],
                    video,
                    output,
                    csv_sync.difference(video_sync_sec),
                ),
            },
        }
    }
}

/// Makes the jobs that a command line asks for.
pub fn build_jobs(
    clips: &Vec<String>,
    video: Option<&str>,
    output: Option<String>,
    video_sync_sec: Real,
    csv_sync_mmss: &str,
) -> (r: Result<Vec<ClipJob>, CoreError>)
    ensures
        jobs_agree(
            r,
            clips@,
            match video {
                Some(v) => Some(v@),
                None => None,
            },
            match output {
                Some(o) => Some(o@),
                None => None,
            },
            video_sync_sec,
            csv_sync_mmss@,
        ),
{
    let mut jobs: Vec<ClipJob> = Vec::new();
    if clips.len() > 0 {
        let ghost all = clips@;
        let mut i: usize = 0;
        assert(all.skip(0) =~= all);
        while i < clips.len()
            invariant
                i <= clips.len(),
                clips.len() > 0,
                all == clips@,
                jobs.len() == i,
                first_bad_clip(all) == i + first_bad_clip(all.skip(i as int)),
                forall|k: int|
                    #![trigger jobs@[k]]
                    0 <= k < i ==> given_clip(
                        jobs@[k],
                        clip_parts(all[k]@),
                        clip_start(clip_parts(all[k]@))->Ok_0,
                    ),
            decreases clips.len() - i,
        {
            proof {
                assert(all.skip(i as int)[0] == all[i as int]);
                assert(all.skip(i as int).skip(1) =~= all.skip(i + 1));
            }
            match parse_clip_spec(clips[i].as_str()) {
                Ok(job) => jobs.push(job),
                Err(e) => {
                    return Err(e);
                },
            }
            i += 1;
        }
        return Ok(jobs);
    }
    match video {
        None => Err(CoreError::Other("Please specify --video or at least one --clip".to_owned())),
        Some(v) => {
            let output_path = derive_output_path(v, output);
            match parse_duration_to_seconds(csv_sync_mmss) {
                Err(e) => Err(e),
                Ok(csv_sync) => {
                    jobs.push(
                        ClipJob {
                            video_path: v.to_owned(),
                            output_path,
                            dive_start_sec: csv_sync.minus(video_sync_sec),
                            video_start_utc: None,
                        },
                    );
                    Ok(jobs)
                },
            }
        },
    }
}

/// Checks what placing clips by their clocks needs: clips, and one to start from.
pub fn check_auto_sync(clips: &Vec<String>, base_clip: &str) -> (r: Result<(), CoreError>)
    ensures
        match r {
            Ok(_) => clips@.len() > 0 && base_clip@.len() > 0,
            Err(e) => if clips@.len() == 0 {
                e@ == ErrorView::Other("Auto-sync requires --clip entries"@)
            } else {
                base_clip@.len() == 0 && e@ == ErrorView::Other("Auto-sync requires --base-clip"@)
            },
        },
{
    if clips.len() == 0 {
        return Err(CoreError::Other("Auto-sync requires --clip entries".to_owned()));
    }
    if chars_of(base_clip).len() == 0 {
        return Err(CoreError::Other("Auto-sync requires --base-clip".to_owned()));
    }
    Ok(())
}

/// The message for a value that an option does not have.
pub open spec fn invalid_value(option: Seq<char>, value: Seq<char>, expected: Seq<char>) -> ErrorView {
    ErrorView::Other(
        "Invalid --"@ + option + " value: "@ + value + " (expected: "@ + expected + ")"@,
    )
}

fn invalid(option: &str, value: &str, expected: &str) -> (r: CoreError)
    ensures
        r@ == invalid_value(option@, value@, expected@),
{
    let mut m = "Invalid --".to_owned();
    m.push_str(option);
    m.push_str(" value: ");
    m.push_str(value);
    m.push_str(" (expected: ");
    m.push_str(expected);
    m.push_str(")");
    CoreError::Other(m)
}

/// The mode that a command line asks for.
pub fn mode_option(value: &str) -> (r: Result<OutputMode, CoreError>)
    ensures
        match mode_named(name_key(value@)) {
            Some(m) => r matches Ok(n) && n == m,
            None => r matches Err(e) && e@ == invalid_value(
                "mode"@,
                value@,
                "overlay, subtitles"@,
            ),
        },
{
    match OutputMode::parse(value) {
        Some(m) => Ok(m),
        None => Err(invalid("mode", value, "overlay, subtitles")),
    }
}

/// The preset that a command line asks for.
pub fn preset_option(value: &str) -> (r: Result<Preset, CoreError>)
    ensures
        match preset_named(name_key(value@)) {
            Some(p) => r matches Ok(q) && q == p,
            None => r matches Err(e) && e@ == invalid_value(
                "preset"@,
                value@,
                "ultrafast, superfast, veryfast, faster, fast, medium, slow, slower, veryslow, placebo"@,
            ),
        },
{
    match Preset::parse(value) {
        Some(p) => Ok(p),
        None => Err(
            invalid(
                "preset",
                value,
                "ultrafast, superfast, veryfast, faster, fast, medium, slow, slower, veryslow, placebo",
            ),
        ),
    }
}

/// The codec that a command line asks for.
pub fn codec_option(value: &str) -> (r: Result<Codec, CoreError>)
    ensures
        match codec_named(name_key(value@)) {
            Some(c) => r matches Ok(d) && d == c,
            None => r matches Err(e) && e@ == invalid_value(
                "codec"@,
                value@,
                "auto, avc1, H264, hevc, H265, mp4v, XVID, MJPG"@,
            ),
        },
{
    match Codec::parse(value) {
        Some(c) => Ok(c),
        None => Err(
            invalid("codec", value, "auto, avc1, H264, hevc, H265, mp4v, XVID, MJPG"),
        ),
    }
}

} // verus!
