use dive_overlay::binary64::Real;
use dive_overlay::depth_graph::{depth_label, draw_graph_ground, frame_in_range, graph_frame, graph_window, label_rows, plan_depth_graph};
use dive_overlay::overlay::{
    blank_tile, can_make_box, draw_overlay, line_height_for, line_top, GraphMetrics, OverlayCache, OverlayMetrics, MIN_LINE_HEIGHT,
};
use dive_overlay::picture::{blend, blend_rect_alpha, composite_tile, draw_thick_hollow_rect, RgbFrame, RgbaTile};
use dive_overlay::DiveSample;

fn num(x: f64) -> Real {
    Real::from_bits(x.to_bits())
}

fn float(x: Real) -> f64 {
    f64::from_bits(x.to_bits())
}

fn picture(width: u32, height: u32, level: u8) -> RgbFrame {
    RgbFrame {
        width,
        height,
        data: vec![level; 3 * width as usize * height as usize],
    }
}

fn pixel(img: &RgbFrame, x: u32, y: u32) -> [u8; 3] {
    let at = 3 * (y as usize * img.width as usize + x as usize);
    [img.data[at], img.data[at + 1], img.data[at + 2]]
}

fn sample(elapsed_sec: f64, depth_m: f64) -> DiveSample {
    DiveSample {
        elapsed_sec: num(elapsed_sec),
        depth_m: Some(num(depth_m)),
        temp_c: None,
        pressure_bar: None,
        heart_rate: None,
    }
}

/// Draws a box for lines of a made-up width and keeps it.
fn fill(cache: &mut OverlayCache, width: u32, height: u32, lines: &Vec<String>) -> bool {
    match cache.request(width, height, lines) {
        None => false,
        Some(request) => {
            let widths: Vec<u32> = lines
                .iter()
                .map(|l| (l.len() as f64 * float(request.metrics.font) / 2.0) as u32)
                .collect();
            let tile = blank_tile(&widths, &request.metrics);
            cache.store(&request, lines.clone(), tile);
            true
        }
    }
}

#[test]
fn draw_overlay_does_not_panic_on_small_image() {
    let mut img = picture(320, 240, 0);
    let mut cache = OverlayCache::new();
    assert!(fill(&mut cache, 320, 240, &vec!["Dive time: 00:10".to_string()]));
    draw_overlay(&mut img, &cache);
    assert_eq!(pixel(&img, 11, 14), [0, 0, 0]);
    assert_eq!(pixel(&img, 12, 13), [0, 0, 0]);
    // 20 at an opacity of 115 over black.
    assert_eq!(pixel(&img, 12, 14), [9, 9, 9]);
}

#[test]
fn the_info_box_lets_the_picture_through() {
    let mut img = picture(320, 240, 200);
    let mut cache = OverlayCache::new();
    draw_overlay(&mut img, &cache);
    assert_eq!(pixel(&img, 12, 14), [200, 200, 200]);
    assert!(fill(&mut cache, 320, 240, &vec!["Dive time: 00:10".to_string()]));
    draw_overlay(&mut img, &cache);
    assert_eq!(pixel(&img, 11, 14), [200, 200, 200]);
    assert_eq!(pixel(&img, 12, 13), [200, 200, 200]);
    // 20 at an opacity of 115 over 200.
    assert_eq!(pixel(&img, 12, 14), [119, 119, 119]);
}

#[test]
fn draw_overlay_reuses_cached_tile_for_identical_lines_and_rerenders_on_change() {
    let mut cache = OverlayCache::new();
    let lines = vec!["Dive time: 00:10".to_string(), "Depth: 1.5 m".to_string()];
    assert!(fill(&mut cache, 320, 240, &lines));
    assert!(!fill(&mut cache, 320, 240, &lines), "unchanged lines must reuse the cached tile");

    let other_lines = vec!["Dive time: 00:20".to_string(), "Depth: 2.0 m".to_string()];
    assert!(fill(&mut cache, 320, 240, &other_lines));
    assert_eq!(cache.tile.as_ref().unwrap().lines, other_lines);
}

#[test]
fn cached_tile_is_rerendered_when_the_frame_size_changes() {
    let lines = vec!["Depth: 1.5 m".to_string()];
    let mut cache = OverlayCache::new();
    assert!(fill(&mut cache, 320, 240, &lines));
    let small = (
        cache.tile.as_ref().unwrap().image.width,
        cache.tile.as_ref().unwrap().image.height,
    );
    assert!(fill(&mut cache, 5312, 2988, &lines));
    let large = (
        cache.tile.as_ref().unwrap().image.width,
        cache.tile.as_ref().unwrap().image.height,
    );
    assert!(
        large.0 > small.0 && large.1 > small.1,
        "tile was not re-rendered for the larger frame: {small:?} -> {large:?}"
    );
}

#[test]
fn metrics_at_1080p_match_the_hand_tuned_originals() {
    let metrics = OverlayMetrics::for_frame(1080);
    assert_eq!(metrics.line_height, 48);
    assert_eq!(metrics.font, num(22.0));
    assert_eq!(metrics.padding, 14);

    let graph = GraphMetrics::for_frame(1080);
    assert_eq!(graph.font, num(14.0));
    assert_eq!(graph.inset, 4);
    assert_eq!(graph.stroke, 1);
}

#[test]
fn text_scales_with_the_frame_instead_of_staying_22px() {
    let reference = OverlayMetrics::for_frame(1080);
    let gopro_5k = OverlayMetrics::for_frame(2988);

    let box_growth = gopro_5k.line_height as f64 / reference.line_height as f64;
    let font_growth = float(gopro_5k.font) / float(reference.font);
    assert!(box_growth > 2.5, "fixture should be a much taller frame: {box_growth}");
    assert!(
        (font_growth - box_growth).abs() < 0.01,
        "font grew {font_growth}x while the box grew {box_growth}x -- they must stay in step"
    );
    assert!(gopro_5k.padding > reference.padding);

    // The graph's labels and strokes ride the same factor.
    let graph = GraphMetrics::for_frame(2988);
    let graph_growth = float(graph.font) / float(GraphMetrics::for_frame(1080).font);
    assert!((graph_growth - box_growth).abs() < 0.01);
    assert!(graph.stroke >= 3, "a 1px stroke is invisible at 5K: {}", graph.stroke);
}

#[test]
fn text_stops_shrinking_on_very_small_frames() {
    let tiny = OverlayMetrics::for_frame(120);
    assert_eq!(tiny.line_height, MIN_LINE_HEIGHT);
    assert_eq!(tiny.font, num(16.0));
    assert!(tiny.padding >= 6);
    assert!(float(GraphMetrics::for_frame(120).font) >= 11.0);
}

#[test]
fn metrics_are_those_of_the_machine() {
    for height in [0u32, 240, 480, 533, 534, 720, 799, 1080, 1440, 2160, 2988, 4320, 60_000] {
        let lh = ((height as f64 * 0.045) as i32).max(24);
        let scale = lh as f32 / 48.0;
        let m = OverlayMetrics::for_frame(height);
        assert_eq!(line_height_for(height), lh);
        assert_eq!(m.line_height, lh);
        assert_eq!(float(m.font), (22.0 * scale).max(16.0) as f64);
        assert_eq!(m.padding, (14.0 * scale).max(6.0).round() as i32);
        let g = GraphMetrics::for_frame(height);
        assert_eq!(float(g.font), (14.0 * scale).max(11.0) as f64);
        assert_eq!(g.inset, (4.0 * scale).max(2.0).round() as i32);
        assert_eq!(g.stroke, (scale.round() as i32).max(1));
    }
}

#[test]
fn lines_stand_below_each_other() {
    let m = OverlayMetrics::for_frame(1080);
    assert_eq!(line_top(&m, 0), 7);
    assert_eq!(line_top(&m, 2), 103);
    let tile = blank_tile(&vec![100, 250, 3], &m);
    assert_eq!((tile.width, tile.height), (278, 158));
    assert_eq!(&tile.data[..8], &[20, 20, 20, 115, 20, 20, 20, 115]);
    assert_eq!(tile.data.len(), 4 * 278 * 158);
    assert!(can_make_box(&vec![100, 250, 3], &m));
    assert!(!can_make_box(&vec![u32::MAX], &m));
}

#[test]
fn a_translucent_ground_is_that_of_the_machine() {
    let alpha = 0.35f32;
    for under in 0..=255u8 {
        let v = alpha * 10.0 + (1.0 - alpha) * under as f32;
        let want = v.round().clamp(0.0, 255.0) as u8;
        assert_eq!(blend(num(alpha as f64), 10, under), want, "{under}");
    }
}

#[test]
fn a_rectangle_is_cut_off_at_the_picture() {
    let mut img = picture(4, 3, 100);
    blend_rect_alpha(&mut img, -1, 1, 3, 9, (10, 20, 30), num(1.0));
    for y in 0..3 {
        for x in 0..4 {
            let want = if x < 2 && y >= 1 { [10, 20, 30] } else { [100, 100, 100] };
            assert_eq!(pixel(&img, x, y), want, "{x} {y}");
        }
    }
    let mut img = picture(4, 3, 100);
    blend_rect_alpha(&mut img, 5, 5, 3, 3, (1, 2, 3), num(1.0));
    assert!(img.data.iter().all(|b| *b == 100));
}

#[test]
fn a_tile_is_composed_as_the_machine_does() {
    let tile = RgbaTile {
        width: 2,
        height: 2,
        data: vec![230, 245, 255, 255, 20, 20, 20, 115, 9, 9, 9, 0, 0, 128, 255, 1],
    };
    let mut img = picture(3, 3, 77);
    composite_tile(&mut img, &tile, 1, 1);
    let mix = |a: u8, t: u8| {
        let alpha = a as f32 / 255.0;
        (alpha * t as f32 + (1.0 - alpha) * 77.0).round() as u8
    };
    assert_eq!(pixel(&img, 1, 1), [230, 245, 255]);
    assert_eq!(pixel(&img, 2, 1), [mix(115, 20), mix(115, 20), mix(115, 20)]);
    assert_eq!(pixel(&img, 1, 2), [77, 77, 77]);
    assert_eq!(pixel(&img, 2, 2), [mix(1, 0), mix(1, 128), mix(1, 255)]);
    assert_eq!(pixel(&img, 0, 0), [77, 77, 77]);
    // Partly outside of the picture.
    let mut img = picture(3, 3, 77);
    composite_tile(&mut img, &tile, -1, -1);
    assert_eq!(pixel(&img, 0, 0), [mix(1, 0), mix(1, 128), mix(1, 255)]);
    assert_eq!(pixel(&img, 1, 0), [77, 77, 77]);
}

#[test]
fn every_opacity_composes_as_the_machine_does() {
    for a in 1..=255u8 {
        let data: Vec<u8> = (0..=255u8).flat_map(|t| vec![t, t, t, a]).collect();
        let tile = RgbaTile { width: 256, height: 1, data };
        for under in [0u8, 1, 77, 128, 254, 255] {
            let mut img = picture(256, 1, under);
            composite_tile(&mut img, &tile, 0, 0);
            let alpha = a as f32 / 255.0;
            for t in 0..=255u32 {
                let v = alpha * t as f32 + (1.0 - alpha) * under as f32;
                assert_eq!(pixel(&img, t, 0)[0], v.round().clamp(0.0, 255.0) as u8);
            }
        }
    }
}

#[test]
fn a_thick_border_is_nested_rectangles() {
    let mut img = picture(8, 7, 5);
    draw_thick_hollow_rect(&mut img, 1, 1, 6, 5, (90, 91, 92), 2);
    for y in 0..7 {
        for x in 0..8 {
            let inside = (1..7).contains(&x) && (1..6).contains(&y);
            let core = (3..5).contains(&x) && y == 3;
            let want = if inside && !core { [90, 91, 92] } else { [5, 5, 5] };
            assert_eq!(pixel(&img, x, y), want, "{x} {y}");
        }
    }
    // More thickness than there is room for.
    let mut img = picture(4, 4, 5);
    draw_thick_hollow_rect(&mut img, 1, 1, 2, 2, (9, 9, 9), 50);
    assert_eq!(img.data.iter().filter(|b| **b == 9).count(), 12);
    // A rectangle that starts outside of the picture.
    let mut img = picture(4, 4, 5);
    draw_thick_hollow_rect(&mut img, -2, -1, 4, 3, (9, 9, 9), 1);
    for y in 0..4 {
        for x in 0..4 {
            let border = (x == 1 && y < 2) || (x < 2 && y == 1);
            assert_eq!(pixel(&img, x, y) == [9, 9, 9], border, "{x} {y}");
        }
    }
}

#[test]
fn draw_depth_graph_does_not_panic() {
    let mut img = picture(320, 240, 0);
    let samples = vec![sample(0.0, 1.0), sample(5.0, 3.0), sample(10.0, 2.0)];
    let times: Vec<Real> = samples.iter().map(|s| s.elapsed_sec).collect();
    let graph = plan_depth_graph(320, 240, &samples, &times, num(10.0), num(600.0)).unwrap();
    assert_eq!(graph.min_depth, num(1.0));
    assert_eq!(graph.max_depth, num(3.0));
    assert_eq!((graph.frame.x, graph.frame.y), (12, 172));
    assert_eq!((graph.frame.width, graph.frame.height), (102, 43));
    let point = |t: f64, d: f64| {
        let x = 12.0 + (t / 10.0) * 100.0 + 1.0;
        let y = 172.0 + ((d - 1.0) / 2.0) * 41.0 + 1.0;
        (num(x as f32 as f64), num(y as f32 as f64))
    };
    assert_eq!(graph.points, vec![point(0.0, 1.0), point(5.0, 3.0), point(10.0, 2.0)]);
    assert_eq!(depth_label(graph.max_depth), "3.0m");
    let metrics = GraphMetrics::for_frame(240);
    assert_eq!(label_rows(&graph.frame, &metrics, 11), (173, 203));
    draw_graph_ground(&mut img, &graph.frame);
    assert_eq!(pixel(&img, 12, 172), [90, 90, 90]);
    assert_eq!(pixel(&img, 13, 173), [4, 4, 4]);
    assert_eq!(pixel(&img, 11, 172), [0, 0, 0]);
}

#[test]
fn the_graph_shows_the_time_before_a_moment() {
    let samples = vec![sample(0.0, 1.0), sample(50.0, 3.0), sample(100.0, 3.0), sample(200.0, 9.0)];
    let times: Vec<Real> = samples.iter().map(|s| s.elapsed_sec).collect();
    let graph = plan_depth_graph(1000, 1000, &samples, &times, num(120.0), num(80.0)).unwrap();
    // Depths that are the same get a meter of room.
    assert_eq!(graph.min_depth, num(3.0));
    assert_eq!(graph.max_depth, num(4.0));
    assert_eq!(graph.points.len(), 2);
    assert!(plan_depth_graph(1000, 1000, &samples, &times, num(-5.0), num(1.0)).is_some());
    assert!(plan_depth_graph(1000, 1000, &samples, &times, num(30.0), num(10.0)).is_none());
    assert!(plan_depth_graph(1000, 1000, &[], &[], num(30.0), num(10.0)).is_none());
    let mut bare = samples[1];
    bare.depth_m = None;
    assert!(plan_depth_graph(9, 9, &[bare], &[bare.elapsed_sec], num(60.0), num(60.0)).is_none());
}

#[test]
fn the_graph_lies_inside_of_the_picture() {
    for (w, h) in [(0, 0), (1, 1), (99, 101), (1920, 1080), (5312, 2988), (16_777_216, 16_777_216)] {
        let f = graph_frame(w, h);
        assert!(frame_in_range(&f));
        assert!(f.x >= 0 && f.y >= 0);
        assert!(f.x as u32 + f.width <= w && f.y as u32 + f.height <= h);
    }
}

#[test]
fn the_line_stays_inside_of_its_frame() {
    let samples: Vec<DiveSample> = (0..60).map(|i| sample(i as f64 * 7.3, (i * 37 % 23) as f64 / 3.0)).collect();
    let times: Vec<Real> = samples.iter().map(|s| s.elapsed_sec).collect();
    let graph = plan_depth_graph(1279, 719, &samples, &times, num(430.7), num(600.0)).unwrap();
    let f = &graph.frame;
    let (left, right) = (f.x as f64 + 1.0, (f.x + f.width as i32) as f64 - 1.0);
    let (top, bottom) = (f.y as f64 + 1.0, (f.y + f.height as i32) as f64 - 1.0);
    assert_eq!(graph.points.len(), 60);
    for (point, sample) in graph.points.iter().zip(&samples) {
        let (x, y) = (float(point.0), float(point.1));
        assert!(left <= x && x <= right && top <= y && y <= bottom);
        assert_eq!(sample.depth_m == Some(graph.min_depth), y == top);
        assert_eq!(sample.depth_m == Some(graph.max_depth), y == bottom);
    }
    assert_eq!((float(graph.points[0].0), float(graph.points[59].0)), (left, right));
}

#[test]
fn the_graph_looks_back_ten_minutes() {
    assert_eq!(graph_window(), num(600.0));
}

#[test]
fn a_frame_must_not_reach_the_last_coordinates() {
    let mut frame = graph_frame(100, 100);
    (frame.x, frame.width) = (2_147_483_484, 100);
    assert!(frame_in_range(&frame));
    frame.width = 101;
    assert!(!frame_in_range(&frame));
    let mut img = picture(1, 1, 7);
    draw_thick_hollow_rect(&mut img, 2_147_483_484, 0, 100, 1, (9, 9, 9), 1);
    assert_eq!(pixel(&img, 0, 0), [7, 7, 7]);
}
