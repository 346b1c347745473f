use dive_overlay::binary64::Real;
use dive_overlay::ffprobe::{
    ensure_ffmpeg_available, get_video_creation_time_utc, parse_frame_rate, parse_timecode_seconds,
    video_full_range, video_info, FormatInfo, ProbeReport, SideData, StreamInfo,
};
use dive_overlay::moment::parse_creation_time;
use dive_overlay::text_map::TextMap;

fn num(x: f64) -> Real {
    Real::from_bits(x.to_bits())
}

fn float(x: Real) -> f64 {
    f64::from_bits(x.to_bits())
}

fn stream(kind: &str) -> StreamInfo {
    StreamInfo {
        codec_type: Some(kind.to_string()),
        width: None,
        height: None,
        r_frame_rate: None,
        avg_frame_rate: None,
        nb_frames: None,
        duration: None,
        color_range: None,
        side_data_list: Vec::new(),
        tags: TextMap::new(),
    }
}

fn video(width: u32, height: u32, rate: &str) -> StreamInfo {
    let mut s = stream("video");
    s.width = Some(width);
    s.height = Some(height);
    s.r_frame_rate = Some(rate.to_string());
    s
}

fn tags(pairs: &[(&str, &str)]) -> TextMap {
    let mut t = TextMap::new();
    for (k, v) in pairs {
        t.insert(k.to_string(), v.to_string());
    }
    t
}

fn report(streams: Vec<StreamInfo>) -> ProbeReport {
    ProbeReport {
        streams,
        format: Some(FormatInfo {
            duration: None,
            tags: TextMap::new(),
        }),
    }
}

#[test]
fn parses_fixture_json() {
    let mut v = video(1280, 720, "30/1");
    v.nb_frames = Some("150".to_string());
    v.duration = Some("5.000000".to_string());
    let info = video_info(&ProbeReport {
        streams: vec![v, stream("audio")],
        format: Some(FormatInfo {
            duration: Some("5.000000".to_string()),
            tags: tags(&[("creation_time", "2025-07-05T15:30:00.000000Z")]),
        }),
    })
    .unwrap();
    assert_eq!(info.width, 1280);
    assert_eq!(info.height, 720);
    assert_eq!(info.fps, num(30.0));
    assert_eq!(info.estimated_frames, Some(150));
    assert!(info.creation_time.is_some());
    assert!(info.has_audio);
    assert_eq!(info.duration_sec, Some(num(5.0)));
    assert_eq!(
        get_video_creation_time_utc(&info, "v.mp4").unwrap(),
        info.creation_time.unwrap()
    );
}

#[test]
fn falls_back_to_duration_times_fps_when_nb_frames_missing() {
    let mut v = video(640, 480, "25/1");
    v.duration = Some("2.000000".to_string());
    let info = video_info(&report(vec![v])).unwrap();
    assert_eq!(info.estimated_frames, Some(50));
    assert!(info.creation_time.is_none());
    assert!(!info.has_audio);
    assert_eq!(
        get_video_creation_time_utc(&info, "v.mp4").unwrap_err().message(),
        "ffprobe error: No creation_time in MP4: v.mp4"
    );
}

#[test]
fn swaps_dimensions_for_90_degree_rotation_tag() {
    let rotated = |r: f64| {
        let mut v = video(1920, 1080, "30/1");
        v.side_data_list = vec![
            SideData {
                side_data_type: Some("Other".to_string()),
                rotation: Some(num(45.0)),
            },
            SideData {
                side_data_type: Some("Display Matrix".to_string()),
                rotation: Some(num(r)),
            },
        ];
        video_info(&report(vec![v])).unwrap()
    };
    let info = rotated(-90.0);
    assert_eq!((info.width, info.height), (1080, 1920));
    assert_eq!(info.rotation_deg, -90);
    let info = rotated(180.0);
    assert_eq!((info.width, info.height), (1920, 1080));
    assert_eq!(info.rotation_deg, 180);
    let info = rotated(270.0);
    assert_eq!((info.width, info.height), (1080, 1920));
}

#[test]
fn prefers_avg_frame_rate_over_r_frame_rate() {
    let with_avg = |avg: &str| {
        let mut v = video(64, 48, "30/1");
        v.avg_frame_rate = Some(avg.to_string());
        video_info(&report(vec![v])).unwrap().fps
    };
    assert_eq!(with_avg("14/1"), num(14.0));
    assert_eq!(with_avg("0/0"), num(30.0));
    assert_eq!(with_avg("-5/1"), num(30.0));
    assert_eq!(with_avg("30000/1001"), num(30000.0 / 1001.0));
}

#[test]
fn frame_rates_are_ratios() {
    assert_eq!(parse_frame_rate("30/1"), Some(num(30.0)));
    assert_eq!(parse_frame_rate("30"), None);
    assert_eq!(parse_frame_rate("30/0"), None);
    assert_eq!(parse_frame_rate("x/1"), None);
}

#[test]
fn a_file_without_a_picture_is_refused() {
    let err = video_info(&report(vec![stream("audio")])).unwrap_err();
    assert_eq!(err.message(), "ffprobe error: No video stream found");
}

#[test]
fn parses_tolerant_creation_time_variants() {
    assert!(parse_creation_time("2025-07-05T15:30:00.000000Z").is_ok());
    assert!(parse_creation_time("2025-07-05T15:30:00+00:00").is_ok());
    assert!(parse_creation_time("2025-07-05 15:30:00").is_ok());
    assert!(parse_creation_time("not-a-date").is_err());
    assert_eq!(
        parse_creation_time(" not-a-date ").unwrap_err().message(),
        "ffprobe error: Unknown creation_time format: not-a-date"
    );
}

#[test]
fn parses_timecode_at_the_nominal_frame_rate() {
    let tc = float(parse_timecode_seconds("12:40:24:19", num(30.0)).unwrap());
    assert!((tc - (12.0 * 3600.0 + 40.0 * 60.0 + 24.0 + 19.0 / 30.0)).abs() < 1e-6);
    // Drop-frame notation uses a semicolon before the frames field.
    assert_eq!(parse_timecode_seconds("01:00:00;00", num(30.0)), Some(num(3600.0)));
    // An unset camera clock writes all zeroes; treating that as midnight
    // would place the clip 12 hours from every real timecode.
    assert_eq!(parse_timecode_seconds("00:00:00:00", num(30.0)), None);
    assert_eq!(parse_timecode_seconds("not a timecode", num(30.0)), None);
    assert_eq!(parse_timecode_seconds("10:00:00", num(30.0)), None);
    assert_eq!(parse_timecode_seconds("25:00:00:00", num(30.0)), None);
}

#[test]
fn the_timecode_of_the_video_stream_comes_first() {
    let mut v = video(64, 64, "30/1");
    v.tags = tags(&[("timecode", "12:40:24:19")]);
    let mut other = stream("data");
    other.tags = tags(&[("timecode", "01:00:00:00")]);
    let tc = float(video_info(&report(vec![other, v])).unwrap().timecode_sec.unwrap());
    assert!((tc - (12.0 * 3600.0 + 40.0 * 60.0 + 24.0 + 19.0 / 30.0)).abs() < 0.05);

    let mut other = stream("data");
    other.tags = tags(&[("timecode", "01:00:00:00")]);
    let info = video_info(&report(vec![video(64, 64, "30/1"), other])).unwrap();
    assert_eq!(info.timecode_sec, Some(num(3600.0)));

    let info = video_info(&ProbeReport {
        streams: vec![video(64, 64, "30/1")],
        format: Some(FormatInfo {
            duration: Some("7.5".to_string()),
            tags: tags(&[("timecode", "02:00:00:00")]),
        }),
    })
    .unwrap();
    assert_eq!(info.timecode_sec, Some(num(7200.0)));
    assert_eq!(info.duration_sec, Some(num(7.5)));
    assert_eq!(info.estimated_frames, Some(225));
}

#[test]
fn ffmpeg_and_ffprobe_are_available() {
    ensure_ffmpeg_available(true, true).expect("both programs were found");
    assert_eq!(
        ensure_ffmpeg_available(false, false).unwrap_err().message(),
        "ffmpeg error: ffmpeg was not found. Please install it and add it to PATH."
    );
    assert_eq!(
        ensure_ffmpeg_available(true, false).unwrap_err().message(),
        "ffprobe error: ffprobe was not found. Please install it and add it to PATH."
    );
}

#[test]
fn the_first_video_stream_says_which_range_is_used() {
    let mut first = video(640, 480, "30/1");
    let mut second = video(320, 240, "30/1");
    second.color_range = Some("pc".to_string());
    let report = |streams: Vec<StreamInfo>| ProbeReport { streams, format: None };
    assert!(!video_full_range(&report(vec![])));
    assert!(!video_full_range(&report(vec![stream("audio")])));
    assert!(!video_full_range(&report(vec![first, second])));
    first = video(640, 480, "30/1");
    first.color_range = Some("pc".to_string());
    let mut sound = stream("audio");
    sound.color_range = Some("tv".to_string());
    assert!(video_full_range(&report(vec![sound, first])));
}
