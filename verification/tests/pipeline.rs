use dive_overlay::pipeline::{
    hw_probe_args, next_hw_candidate, probe_hw_encoder, resolve_encoder, Codec, EncoderInfo, HwEncoder,
    HwProbeCache, OutputMode, OutputResolution, Preset, ENABLED_HW_CANDIDATES, OUTPUT_RESOLUTIONS,
};

#[test]
fn codec_parse_recognizes_h265_aliases() {
    assert_eq!(Codec::parse("hevc"), Some(Codec::H265));
    assert_eq!(Codec::parse("h265"), Some(Codec::H265));
    assert_eq!(Codec::parse("x265"), Some(Codec::H265));
    assert_eq!(Codec::parse("HEVC"), Some(Codec::H265));
    assert_eq!(Codec::parse(""), Some(Codec::Auto));
    assert_eq!(Codec::parse("auto"), Some(Codec::Auto));
    assert_eq!(Codec::parse("h.264"), None);
}

#[test]
fn every_codec_has_names_and_an_encoder() {
    assert_eq!(Codec::parse(" AVC1 "), Some(Codec::H264));
    assert_eq!(Codec::parse("mp4v"), Some(Codec::Mpeg4));
    assert_eq!(Codec::parse("XVID"), Some(Codec::Xvid));
    assert_eq!(Codec::parse("mjpg"), Some(Codec::Mjpeg));
    assert_eq!(Codec::Auto.ffmpeg_codec_name(), "libx264");
    assert_eq!(Codec::H265.ffmpeg_codec_name(), "libx265");
    assert_eq!(Codec::Xvid.ffmpeg_codec_name(), "libxvid");
    assert_eq!(Codec::Mjpeg.ffmpeg_codec_name(), "mjpeg");
}

#[test]
fn output_modes_have_names() {
    assert_eq!(OutputMode::parse("Overlay"), Some(OutputMode::Overlay));
    assert_eq!(OutputMode::parse("subtitle"), Some(OutputMode::Subtitles));
    assert_eq!(OutputMode::parse(" subtitles "), Some(OutputMode::Subtitles));
    assert_eq!(OutputMode::parse("none"), None);
}

#[test]
fn output_resolution_parse_round_trips_and_rejects_typos() {
    for res in OUTPUT_RESOLUTIONS {
        assert_eq!(OutputResolution::parse(res.as_str()), Some(res));
    }
    assert_eq!(OutputResolution::parse(""), Some(OutputResolution::Original));
    assert_eq!(OutputResolution::parse("2160P"), Some(OutputResolution::Uhd4k));
    assert_eq!(OutputResolution::parse("4K"), Some(OutputResolution::Uhd4k));
    assert_eq!(OutputResolution::parse("1440p"), None);
    assert_eq!(OutputResolution::parse("huge"), None);
}

#[test]
fn output_resolution_scales_5k_gopro_footage_to_exactly_16_by_9() {
    assert_eq!(OutputResolution::Uhd4k.target_dimensions(5312, 2988), (3840, 2160));
    assert_eq!(OutputResolution::Fhd1080p.target_dimensions(5312, 2988), (1920, 1080));
    assert_eq!(OutputResolution::Hd720p.target_dimensions(5312, 2988), (1280, 720));
    assert_eq!(OutputResolution::Original.target_dimensions(5312, 2988), (5312, 2988));
}

#[test]
fn output_resolution_never_upscales() {
    assert_eq!(OutputResolution::Uhd4k.target_dimensions(1920, 1080), (1920, 1080));
    assert_eq!(OutputResolution::Fhd1080p.target_dimensions(1280, 720), (1280, 720));
    assert_eq!(
        OutputResolution::Fhd1080p.target_dimensions(1920, 1080),
        (1920, 1080),
        "a source exactly at the target is already the target"
    );
}

#[test]
fn output_resolution_orients_the_box_to_portrait_sources() {
    assert_eq!(OutputResolution::Fhd1080p.target_dimensions(2988, 5312), (1080, 1920));
    assert_eq!(OutputResolution::Uhd4k.target_dimensions(2988, 5312), (2160, 3840));
}

#[test]
fn output_resolution_preserves_aspect_ratio_with_even_dimensions() {
    // 4:3 fits on width; 1440x1080 keeps 4:3 exactly.
    assert_eq!(OutputResolution::Fhd1080p.target_dimensions(4000, 3000), (1440, 1080));
    // 21:9 fits on width, and the odd result is rounded down to even.
    let (w, h) = OutputResolution::Fhd1080p.target_dimensions(5120, 2145);
    assert_eq!(w, 1920);
    assert_eq!(h % 2, 0, "odd heights are rejected by yuv420p: got {h}");
    let source_ratio = 5120.0 / 2145.0;
    let scaled_ratio = w as f64 / h as f64;
    assert!(
        (source_ratio - scaled_ratio).abs() < 0.01,
        "aspect ratio drifted: {source_ratio} -> {scaled_ratio}"
    );
}

#[test]
fn output_resolution_passes_through_a_zero_frame_size() {
    assert_eq!(OutputResolution::Uhd4k.target_dimensions(0, 2988), (0, 2988));
    assert_eq!(OutputResolution::Uhd4k.target_dimensions(5312, 0), (5312, 0));
}

/// What the machine's own numbers make of a picture that has to fit a box.
fn machine_target(long: u32, short: u32, width: u32, height: u32) -> (u32, u32) {
    let (bw, bh) = if width >= height { (long, short) } else { (short, long) };
    if width <= bw && height <= bh {
        let lowered = |side: u32| if side < 2 { side } else { side - side % 2 };
        return (lowered(width), lowered(height));
    }
    let factor = (bw as f64 / width as f64).min(bh as f64 / height as f64);
    let even = |v: f64| {
        let r = v.round().max(2.0) as u32;
        (r - r % 2).max(2)
    };
    (even(width as f64 * factor), even(height as f64 * factor))
}

#[test]
fn output_sizes_are_those_of_the_machine() {
    // 5632x187 lies exactly between two heights.
    let mut sizes = vec![(5632, 187), (1, 5000), (5000, 1), (u32::MAX, 3), (u32::MAX, u32::MAX), (3, u32::MAX)];
    let mut x: u64 = 12345;
    for _ in 0..400 {
        x = x.wrapping_mul(6_364_136_223_846_793_005).wrapping_add(1_442_695_040_888_963_407);
        sizes.push((1 + (x >> 40) as u32 % 9000, 1 + (x >> 20) as u32 % 9000));
    }
    for (w, h) in sizes {
        assert_eq!(OutputResolution::Uhd4k.target_dimensions(w, h), machine_target(3840, 2160, w, h), "{w}x{h}");
        assert_eq!(OutputResolution::Hd720p.target_dimensions(w, h), machine_target(1280, 720, w, h), "{w}x{h}");
    }
}

#[test]
fn a_shrunk_picture_fits_its_box_and_is_not_larger_than_its_source() {
    for (w, h) in [(9000, 17), (1930, 1082), (4001, 3001), (2, 7000), (1921, 2)] {
        let (tw, th) = OutputResolution::Fhd1080p.target_dimensions(w, h);
        let (bw, bh) = if w >= h { (1920, 1080) } else { (1080, 1920) };
        assert!(tw <= bw && th <= bh && tw <= w && th <= h, "{w}x{h} -> {tw}x{th}");
        assert!(tw % 2 == 0 && th % 2 == 0);
    }
}

#[test]
fn sizes_have_titles() {
    assert_eq!(OutputResolution::Uhd4k.label(), "4K (3840x2160)");
    assert_eq!(OutputResolution::Original.label(), "Original");
}

#[test]
fn codec_supports_preset_matches_x26x_only() {
    assert!(Codec::Auto.supports_preset());
    assert!(Codec::H264.supports_preset());
    assert!(Codec::H265.supports_preset());
    assert!(!Codec::Mpeg4.supports_preset());
    assert!(!Codec::Xvid.supports_preset());
    assert!(!Codec::Mjpeg.supports_preset());
}

#[test]
fn preset_parse_round_trips_all_known_values() {
    let names = [
        "ultrafast",
        "superfast",
        "veryfast",
        "faster",
        "fast",
        "medium",
        "slow",
        "slower",
        "veryslow",
        "placebo",
    ];
    for name in names {
        assert_eq!(Preset::parse(name).unwrap().ffmpeg_name(), name);
    }
    assert_eq!(Preset::parse("bogus"), None);
    assert_eq!(Preset::default(), Preset::VeryFast);
}

#[test]
fn probe_hw_encoder_rejects_bogus_encoder_name() {
    let mut cache = HwProbeCache::new();
    // A trial of an encoder that does not exist fails.
    assert!(!probe_hw_encoder(&mut cache, "definitely_not_a_real_encoder", 320, 240, Some(false)));
    // So does one that cannot even be started.
    assert!(!probe_hw_encoder(&mut cache, "another_one", 320, 240, None));
}

#[test]
fn a_trial_is_made_once_for_each_encoder_and_size() {
    let mut cache = HwProbeCache::new();
    assert!(probe_hw_encoder(&mut cache, "h264_amf", 320, 240, Some(true)));
    assert!(probe_hw_encoder(&mut cache, "h264_amf", 320, 240, Some(false)));
    assert!(!probe_hw_encoder(&mut cache, "h264_amf", 4608, 2592, Some(false)));
    assert_eq!(cache.known("h264_amf", 320, 240), Some(true));
    assert_eq!(cache.known("h264_amf", 4608, 2592), Some(false));
    assert_eq!(cache.known("hevc_amf", 320, 240), None);
}

#[test]
fn resolve_encoder_falls_back_to_software_for_a_frame_size_no_hardware_supports() {
    let none_works = [false, false, false];
    let (name, pix_fmt, _args, info) = resolve_encoder(Codec::H264, Preset::Fast, true, 16384, 16384, &none_works);
    assert_eq!(name, "libx264");
    assert_eq!(pix_fmt, "yuv420p");
    assert!(
        matches!(info, EncoderInfo::Software { .. }),
        "hardware encoder accepted an impossible frame size: {info:?}"
    );
}

#[test]
fn probe_hw_encoder_rejects_a_zero_frame_size_without_spawning_ffmpeg() {
    let mut cache = HwProbeCache::new();
    assert_eq!(hw_probe_args("libx264", "yuv420p", 0, 240), None);
    assert_eq!(hw_probe_args("libx264", "yuv420p", 320, 0), None);
    assert!(!probe_hw_encoder(&mut cache, "libx264", 0, 240, Some(true)));
    assert!(!probe_hw_encoder(&mut cache, "libx264", 320, 0, Some(true)));
}

#[test]
fn a_trial_encodes_one_frame_of_the_jobs_size() {
    let args = hw_probe_args("h264_qsv", "nv12", 5312, 2988).unwrap();
    assert_eq!(
        args.join(" "),
        "-hide_banner -loglevel error -y -f lavfi -i nullsrc=size=5312x2988:rate=5:duration=0.2 \
         -frames:v 1 -c:v h264_qsv -pix_fmt nv12 -f null -"
    );
}

#[test]
fn resolve_encoder_uses_software_when_hw_accel_disabled() {
    let (name, pix_fmt, args, info) =
        resolve_encoder(Codec::H264, Preset::Fast, false, 1920, 1080, &[true, true, true]);
    assert_eq!(name, "libx264");
    assert_eq!(pix_fmt, "yuv420p");
    assert_eq!(args, vec!["-preset", "fast"]);
    assert!(matches!(
        info,
        EncoderInfo::Software {
            ffmpeg_name: "libx264",
            preset: Some("fast")
        }
    ));
}

#[test]
fn resolve_encoder_ignores_hw_accel_for_codecs_without_a_hardware_path() {
    let (name, pix_fmt, args, info) =
        resolve_encoder(Codec::Mpeg4, Preset::VeryFast, true, 1920, 1080, &[true, true, true]);
    assert_eq!(name, "mpeg4");
    assert_eq!(pix_fmt, "yuv420p");
    assert!(args.is_empty());
    assert!(matches!(
        info,
        EncoderInfo::Software {
            ffmpeg_name: "mpeg4",
            preset: None
        }
    ));
}

#[test]
fn the_first_hardware_encoder_that_works_is_used() {
    let (name, pix_fmt, args, info) =
        resolve_encoder(Codec::H265, Preset::Fast, true, 1920, 1080, &[false, true]);
    assert_eq!(name, "hevc_nvenc");
    assert_eq!(pix_fmt, "nv12");
    assert_eq!(args, vec!["-global_quality", "23"]);
    assert_eq!(info.describe(), "Hardware: NVIDIA NVENC (hevc_nvenc)");
    assert_eq!(next_hw_candidate(Codec::H265, true, &[]), Some(HwEncoder::Qsv));
    assert_eq!(next_hw_candidate(Codec::H265, true, &[false]), Some(HwEncoder::Nvenc));
    assert_eq!(next_hw_candidate(Codec::H265, true, &[false, true]), None);
    assert_eq!(next_hw_candidate(Codec::H265, true, &[false, false, false]), None);
    assert_eq!(next_hw_candidate(Codec::Mjpeg, true, &[]), None);
    assert_eq!(next_hw_candidate(Codec::H265, false, &[]), None);
}

#[test]
fn hw_encoder_maps_amf_names_and_quality_args() {
    assert_eq!(HwEncoder::Amf.ffmpeg_encoder_name(Codec::Auto), Some("h264_amf"));
    assert_eq!(HwEncoder::Amf.ffmpeg_encoder_name(Codec::H265), Some("hevc_amf"));
    // AMF ignores -global_quality; it needs its own CQP rate control.
    assert_eq!(
        HwEncoder::Amf.quality_args(),
        vec!["-rc", "cqp", "-qp_i", "23", "-qp_p", "23"]
    );
    assert_eq!(HwEncoder::Qsv.quality_args(), vec!["-global_quality", "23"]);
    assert!(ENABLED_HW_CANDIDATES.contains(&HwEncoder::Amf));
}

#[test]
fn encoder_info_describe_covers_all_variants() {
    assert_eq!(
        EncoderInfo::Hardware {
            backend: "Intel Quick Sync (QSV)",
            ffmpeg_name: "h264_qsv"
        }
        .describe(),
        "Hardware: Intel Quick Sync (QSV) (h264_qsv)"
    );
    assert_eq!(
        EncoderInfo::Software {
            ffmpeg_name: "libx264",
            preset: Some("veryfast")
        }
        .describe(),
        "Software: libx264 (Preset: veryfast)"
    );
    assert_eq!(
        EncoderInfo::Software {
            ffmpeg_name: "mpeg4",
            preset: None
        }
        .describe(),
        "Software: mpeg4"
    );
    assert_eq!(EncoderInfo::Remux.describe(), "No re-encode (subtitle mode)");
}

#[test]
fn the_ratio_of_the_sides_is_kept() {
    for (width, height) in [(5312u32, 2988u32), (2988, 5312), (4001, 17), (3, 90_000), (7680, 4321)] {
        for resolution in OUTPUT_RESOLUTIONS {
            let (w, h) = resolution.target_dimensions(width, height);
            let across = w as i64 * height as i64 - h as i64 * width as i64;
            assert!(across.abs() <= 2 * (width as i64 + height as i64), "{width}x{height}: {w}x{h}");
        }
    }
}

#[test]
fn every_fixed_size_has_even_sides() {
    assert_eq!(OutputResolution::Fhd1080p.target_dimensions(641, 481), (640, 480));
    assert_eq!(OutputResolution::Uhd4k.target_dimensions(1919, 1080), (1918, 1080));
    assert_eq!(OutputResolution::Original.target_dimensions(641, 481), (641, 481));
    assert_eq!(OutputResolution::Hd720p.target_dimensions(1, 3), (1, 2));
    for (width, height) in [(2u32, 3u32), (3, 2), (1279, 719), (1281, 721), (99_999, 7), (5, 99_999)] {
        for resolution in [OutputResolution::Uhd4k, OutputResolution::Fhd1080p, OutputResolution::Hd720p] {
            let (w, h) = resolution.target_dimensions(width, height);
            assert_eq!((w % 2, h % 2), (0, 0), "{width}x{height}");
            assert_eq!(resolution.target_dimensions(w, h), (w, h));
            assert_eq!(resolution.target_dimensions(height, width), (h, w));
        }
    }
}

#[test]
fn a_name_is_read_like_its_key() {
    for name in [" 4K ", "UHD", "2160P", "", "  ", "Original", "1440p", "huge", "4 k"] {
        let key = name.trim().to_lowercase();
        assert_eq!(OutputResolution::parse(name), OutputResolution::parse(&key), "{name}");
        assert_eq!(Codec::parse(name), Codec::parse(&key), "{name}");
    }
    assert_eq!(OutputResolution::parse("1440p"), None);
    assert_eq!(OutputResolution::parse("huge"), None);
}

#[test]
fn a_shrunken_picture_touches_its_box() {
    for (width, height) in [(5312u32, 2988u32), (4000, 3000), (5120, 2145), (2988, 5312), (9001, 77)] {
        for (resolution, long, short) in [
            (OutputResolution::Uhd4k, 3840u32, 2160u32),
            (OutputResolution::Fhd1080p, 1920, 1080),
            (OutputResolution::Hd720p, 1280, 720),
        ] {
            let (w, h) = resolution.target_dimensions(width, height);
            let (bw, bh) = if width >= height { (long, short) } else { (short, long) };
            assert!(w == bw || h == bh, "{width}x{height}: {w}x{h}");
            let share = (bw as f64 / width as f64).min(bh as f64 / height as f64);
            assert!((w as f64 - width as f64 * share).abs() <= 1.5 + 1e-9);
            assert!((h as f64 - height as f64 * share).abs() <= 1.5 + 1e-9);
        }
    }
}

#[test]
fn a_name_beyond_ascii_is_read_like_its_key() {
    // The sign for kelvin is small as the letter is.
    assert_eq!(OutputResolution::parse("4\u{212a}"), Some(OutputResolution::Uhd4k));
    for name in ["4\u{212a}", "\u{a0}UHD\u{2003}", "\u{130}", "\u{3a3}\u{3a3}", "\u{c9}"] {
        let key = name.trim().to_lowercase();
        assert_eq!(OutputResolution::parse(name), OutputResolution::parse(&key), "{name}");
    }
}
