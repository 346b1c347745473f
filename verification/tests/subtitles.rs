use dive_overlay::binary64::Real;
use dive_overlay::subtitle::{build_srt, concat_srt, format_srt_timestamp, parse_srt_timestamp, SrtPart};
use dive_overlay::text::chars_of;
use dive_overlay::{DiveSample, Field};

fn num(x: f64) -> Real {
    Real::from_bits(x.to_bits())
}

fn stamp(text: &str) -> Option<Real> {
    parse_srt_timestamp(chars_of(text).as_slice())
}

fn sample(elapsed_sec: f64, depth_m: f64) -> DiveSample {
    DiveSample {
        elapsed_sec: num(elapsed_sec),
        depth_m: Some(num(depth_m)),
        temp_c: None,
        pressure_bar: None,
        heart_rate: None,
    }
}

fn times(samples: &[DiveSample]) -> Vec<Real> {
    samples.iter().map(|s| s.elapsed_sec).collect()
}

#[test]
fn formats_srt_timestamps() {
    assert_eq!(format_srt_timestamp(num(0.0)), "00:00:00,000");
    assert_eq!(format_srt_timestamp(num(61.5)), "00:01:01,500");
    assert_eq!(format_srt_timestamp(num(3661.25)), "01:01:01,250");
}

#[test]
fn builds_one_cue_per_second_covering_the_full_duration() {
    let samples = vec![sample(0.0, 1.0), sample(1.0, 2.0), sample(2.0, 3.0)];
    let srt = build_srt(
        &[Field::Time, Field::Depth],
        &samples,
        &times(&samples),
        num(0.0),
        num(0.0),
        num(2.5),
        false,
    );
    assert_eq!(srt.matches(" --> ").count(), 3);
    assert!(srt.starts_with("1\n00:00:00,000 --> 00:00:01,000\n"));
    assert!(srt.contains("00:00:02,000 --> 00:00:02,500\n"));
    assert!(srt.contains("Depth: 2.0 m"));
}

#[test]
fn shifts_cues_by_sync_offset() {
    let samples = vec![sample(10.0, 5.0)];
    let srt = build_srt(
        &[Field::Depth],
        &samples,
        &times(&samples),
        num(0.0),
        num(10.0),
        num(1.0),
        false,
    );
    assert!(srt.contains("Depth: 5.0 m"));
    assert!(!srt.contains("No data"));
}

#[test]
fn parses_srt_timestamps_back_into_seconds() {
    assert_eq!(stamp("00:00:00,000"), Some(num(0.0)));
    assert_eq!(stamp("00:01:01,500"), Some(num(61.5)));
    assert_eq!(stamp("01:01:01.250"), Some(num(3661.25)));
    assert_eq!(stamp("nope"), None);
    assert_eq!(stamp("00:00,000"), None);
}

#[test]
fn round_trips_every_timestamp_a_built_track_contains() {
    let samples = vec![sample(0.0, 1.0), sample(1.0, 2.0)];
    let srt = build_srt(
        &[Field::Depth],
        &samples,
        &times(&samples),
        num(0.0),
        num(0.0),
        num(2.0),
        false,
    );
    for line in srt.lines().filter(|l| l.contains(" --> ")) {
        let (start, end) = line.split_once(" --> ").unwrap();
        assert_eq!(format_srt_timestamp(stamp(start).unwrap()), start);
        assert_eq!(format_srt_timestamp(stamp(end).unwrap()), end);
    }
}

#[test]
fn a_timestamp_reads_back_as_it_was_written() {
    for text in ["00:00:00,001", "12:34:56,789", "99:59:59,999", "123456:07:08,009"] {
        assert_eq!(format_srt_timestamp(stamp(text).unwrap()), text);
    }
}

#[test]
fn concat_srt_shifts_and_renumbers_cues() {
    let first = "1\n00:00:00,000 --> 00:00:01,000\nDepth: 1.0 m\n\n\
                 2\n00:00:01,000 --> 00:00:02,000\nDepth: 2.0 m\n\n";
    let second = "1\n00:00:00,000 --> 00:00:01,000\nDepth: 9.0 m\n\n";

    let merged = concat_srt(&[
        SrtPart {
            srt: first,
            offset_sec: num(0.0),
        },
        SrtPart {
            srt: second,
            offset_sec: num(2.0),
        },
    ])
    .unwrap();

    assert_eq!(merged.matches(" --> ").count(), 3);
    // Cue numbers keep climbing across the seam rather than restarting.
    assert!(
        merged.contains("3\n00:00:02,000 --> 00:00:03,000\nDepth: 9.0 m"),
        "{merged}"
    );
    assert!(merged.starts_with("1\n00:00:00,000 --> 00:00:01,000\nDepth: 1.0 m"));
}

#[test]
fn concat_srt_keeps_multi_line_cues_and_tolerates_crlf() {
    let part = "1\r\n00:00:00,000 --> 00:00:01,000\r\nDive: 0:10\r\nDepth: 3.0 m\r\n\r\n";
    let merged = concat_srt(&[SrtPart {
        srt: part,
        offset_sec: num(90.0),
    }])
    .unwrap();
    assert_eq!(merged, "1\n00:01:30,000 --> 00:01:31,000\nDive: 0:10\nDepth: 3.0 m\n\n");
}

#[test]
fn concat_srt_accepts_an_empty_part_and_rejects_a_malformed_one() {
    let ok = concat_srt(&[
        SrtPart {
            srt: "",
            offset_sec: num(0.0),
        },
        SrtPart {
            srt: "1\n00:00:00,000 --> 00:00:01,000\nDepth: 1.0 m\n\n",
            offset_sec: num(5.0),
        },
    ])
    .unwrap();
    assert_eq!(ok, "1\n00:00:05,000 --> 00:00:06,000\nDepth: 1.0 m\n\n");

    let err = concat_srt(&[SrtPart {
        srt: "1\n00:00:00,000 -> 00:00:01,000\nDepth: 1.0 m\n\n",
        offset_sec: num(0.0),
    }])
    .unwrap_err();
    assert!(
        err.message().contains("Malformed SRT block"),
        "unexpected error: {}",
        err.message()
    );
}

#[test]
fn concat_srt_says_which_time_it_cannot_read() {
    let err = concat_srt(&[SrtPart {
        srt: "1\n 00:00:00 --> 00:00:01,000\nx\n\n",
        offset_sec: num(0.0),
    }])
    .unwrap_err();
    assert_eq!(err.message(), "Invalid SRT timestamp: 00:00:00 --> 00:00:01,000");
}

#[test]
fn a_track_of_no_length_has_no_cues() {
    for d in [0.0, -1.0, f64::NAN] {
        assert_eq!(build_srt(&[Field::Time], &[], &[], num(0.0), num(0.0), num(d), false), "");
    }
    assert_eq!(
        build_srt(&[Field::Time], &[], &[], num(1.0), num(61.0), num(0.25), false),
        "1\n00:00:00,000 --> 00:00:00,250\nDive time: 01:00\n\n"
    );
}

#[test]
fn joining_one_track_gives_it_back() {
    let samples = vec![sample(0.0, 1.0), sample(1.0, 2.0), sample(2.0, 3.0)];
    let srt = build_srt(
        &[Field::Time, Field::Depth],
        &samples,
        &times(&samples),
        num(0.0),
        num(0.0),
        num(3.333),
        true,
    );
    let part = SrtPart {
        srt: srt.as_str(),
        offset_sec: num(0.0),
    };
    assert_eq!(concat_srt(&[part]).unwrap(), srt);
}

#[test]
fn whole_seconds_move_a_time_exactly() {
    for millis in [0u64, 1, 999, 1_001, 59_999, 3_599_999, 86_399_999] {
        let written = format_srt_timestamp(num(millis as f64 / 1000.0));
        let read = stamp(&written).unwrap();
        assert_eq!(format_srt_timestamp(read), written);
        let moved = f64::from_bits(read.to_bits()) + 7200.0;
        let expected = format_srt_timestamp(num((millis + 7_200_000) as f64 / 1000.0));
        assert_eq!(format_srt_timestamp(num(moved)), expected);
    }
}

#[test]
fn a_point_for_the_comma_reads_the_same() {
    for millis in [0u64, 1, 500, 61_500, 3_661_250, 359_999_999] {
        let seconds = millis as f64 / 1000.0;
        let written = format_srt_timestamp(num(seconds));
        let read = stamp(&written).unwrap();
        assert!((f64::from_bits(read.to_bits()) - seconds).abs() < 0.0005);
        assert_eq!(stamp(&written.replace(',', ".")), Some(read));
        assert_eq!(format_srt_timestamp(read), written);
    }
    assert_eq!(stamp("nope"), None);
    assert_eq!(stamp("00:00,000"), None);
}

#[test]
fn long_times_are_written_again_as_they_were() {
    for seconds in [1_099_511_627_776.25f64, 3_298_534_883_328.123, 4_398_046_511_103.999] {
        let written = format_srt_timestamp(num(seconds));
        assert_eq!(format_srt_timestamp(stamp(&written).unwrap()), written);
    }
    // Whole seconds too, where milliseconds no longer fit.
    for seconds in [4_401_865_230_128.0f64, 9_007_199_254_740.0] {
        let written = format_srt_timestamp(num(seconds));
        assert_eq!(stamp(&written), Some(num(seconds)));
    }
    // Not so in between.
    let written = format_srt_timestamp(num(f64::from_bits(0x4290_038e_741c_c370)));
    assert_ne!(format_srt_timestamp(stamp(&written).unwrap()), written);
}
