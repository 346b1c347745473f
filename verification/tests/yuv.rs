use dive_overlay::planar::{grey_for_luma, grey_picture, put_drawing};
use dive_overlay::yuv::{full_range_of, ColorRange, Yuv420Frame};

#[test]
fn buffer_size_is_one_and_a_half_bytes_per_pixel() {
    assert_eq!(Yuv420Frame::buffer_size(1920, 1080), 1920 * 1080 * 3 / 2);
    // The sizes this project actually runs at, against the rgb24 cost
    // they replace.
    assert_eq!(Yuv420Frame::buffer_size(5312, 2988), 23_808_384);
    assert_eq!(Yuv420Frame::buffer_size(3840, 2160), 12_441_600);
}

#[test]
fn from_raw_rejects_odd_dimensions_and_wrong_lengths() {
    assert!(Yuv420Frame::from_raw(4, 4, vec![0; 24]).is_some());
    assert!(Yuv420Frame::from_raw(5, 4, vec![0; 30]).is_none(), "odd width");
    assert!(Yuv420Frame::from_raw(4, 5, vec![0; 30]).is_none(), "odd height");
    assert!(Yuv420Frame::from_raw(0, 4, vec![]).is_none(), "zero width");
    assert!(Yuv420Frame::from_raw(4, 4, vec![0; 23]).is_none(), "short buffer");
    assert!(Yuv420Frame::from_raw(4, 4, vec![0; 25]).is_none(), "long buffer");
}

#[test]
fn planes_partition_the_buffer_without_overlapping() {
    let mut frame = Yuv420Frame::from_raw(4, 4, vec![0; 24]).expect("valid frame");
    frame.y_plane_mut().fill(1);
    let (u, v) = frame.chroma_planes_mut();
    u.fill(2);
    v.fill(3);

    let raw = frame.as_raw();
    assert_eq!(&raw[..16], &[1; 16], "luma plane");
    assert_eq!(&raw[16..20], &[2; 4], "U plane");
    assert_eq!(&raw[20..24], &[3; 4], "V plane");
}

#[test]
fn a_frame_keeps_its_size_and_bytes() {
    let bytes: Vec<u8> = (0..36).collect();
    let frame = Yuv420Frame::from_raw(6, 4, bytes.clone()).unwrap();
    assert_eq!((frame.width(), frame.height()), (6, 4));
    assert_eq!(frame.chroma_dimensions(), (3, 2));
    assert_eq!(frame.into_raw(), bytes);
}

#[test]
fn grey_luma_respects_the_color_range() {
    assert_eq!(ColorRange::Full.luma_for_grey(255), 255);
    assert_eq!(ColorRange::Full.luma_for_grey(0), 0);
    assert_eq!(ColorRange::Limited.luma_for_grey(255), 235);
    assert_eq!(ColorRange::Limited.luma_for_grey(0), 16);
    // Mid-grey sits proportionally between the endpoints in both.
    assert_eq!(ColorRange::Full.luma_for_grey(128), 128);
    assert_eq!(ColorRange::Limited.luma_for_grey(128), 126);
}

#[test]
fn grey_luma_is_that_of_the_machine() {
    for level in 0..=255u8 {
        let limited = (16.0f32 + (level as f32 / 255.0) * (235.0 - 16.0)).round() as u8;
        let full = (0.0f32 + (level as f32 / 255.0) * 255.0).round() as u8;
        assert_eq!(ColorRange::Limited.luma_for_grey(level), limited);
        assert_eq!(ColorRange::Full.luma_for_grey(level), full);
    }
}

#[test]
fn raw_pixel_format_matches_the_range() {
    assert_eq!(ColorRange::Limited.raw_pixel_format(), "yuv420p");
    assert_eq!(ColorRange::Full.raw_pixel_format(), "yuvj420p");
    assert_eq!(ColorRange::from_full_range_flag(true), ColorRange::Full);
    assert_eq!(ColorRange::from_full_range_flag(false), ColorRange::Limited);
}

#[test]
fn grey_levels_of_luma_invert_the_range() {
    for level in 0..=255u8 {
        assert_eq!(grey_for_luma(ColorRange::Full, level), level);
        let back = grey_for_luma(ColorRange::Limited, ColorRange::Limited.luma_for_grey(level));
        assert!(back.abs_diff(level) <= 1);
    }
    assert_eq!(grey_for_luma(ColorRange::Limited, 3), 0);
    assert_eq!(grey_for_luma(ColorRange::Limited, 250), 255);
}

#[test]
fn a_drawing_is_put_back_without_colour() {
    let mut bytes: Vec<u8> = vec![100; 16];
    bytes.extend([60; 4]);
    bytes.extend([200; 4]);
    let mut frame = Yuv420Frame::from_raw(4, 4, bytes).unwrap();
    let mut picture = grey_picture(&frame, ColorRange::Full);
    assert_eq!(picture.data, vec![100; 48]);
    // The second pixel of the third row.
    picture.data[27..30].copy_from_slice(&[250, 253, 250]);
    put_drawing(&mut frame, ColorRange::Full, &picture);
    let mut luma = vec![100; 16];
    luma[9] = 251;
    assert_eq!(&frame.as_raw()[..16], luma);
    assert_eq!(&frame.as_raw()[16..20], [60, 60, 128, 60]);
    assert_eq!(&frame.as_raw()[20..], [200, 200, 128, 200]);
}

#[test]
fn a_frame_without_a_drawing_stays_as_it_is() {
    let bytes: Vec<u8> = (0..36).map(|i| i * 7).collect();
    let mut frame = Yuv420Frame::from_raw(6, 4, bytes.clone()).unwrap();
    let picture = grey_picture(&frame, ColorRange::Limited);
    put_drawing(&mut frame, ColorRange::Limited, &picture);
    assert_eq!(frame.into_raw(), bytes);
}

#[test]
fn the_full_range_has_a_name() {
    assert!(full_range_of(Some("pc")));
    assert!(!full_range_of(Some("tv")));
    assert!(!full_range_of(Some("PC")));
    assert!(!full_range_of(None));
}
