use quiklight::capture::{
    bytes_per_pixel, can_sample, eq_ignore_ascii_case, pick_monitor, sample_edges, FrameGeometry,
    MonitorError, MonitorInfo, MonitorSelect,
};
use quiklight::config::Settings;

fn mon(index: usize, name: &str, primary: bool) -> MonitorInfo {
    MonitorInfo {
        index,
        name: name.to_string(),
        x: (index * 1920) as i16,
        y: 0,
        width: 1920,
        height: 1080,
        primary,
    }
}

fn layout(top: usize, right: usize, left: usize, cap_w: usize, cap_h: usize, border: usize) -> Settings {
    Settings { top, right, left, cap_w, cap_h, border, fps: 60, brightness: 200, monitor: None }
}

/// A frame whose pixel (x, y) is red 10x + 50y, green y, blue x, stored B G R.
fn gradient(width: usize, height: usize, bpp: usize) -> Vec<u8> {
    let mut img = vec![0u8; width * height * bpp];
    for y in 0..height {
        for x in 0..width {
            let o = (y * width + x) * bpp;
            img[o] = x as u8;
            img[o + 1] = y as u8;
            img[o + 2] = (10 * x + 50 * y) as u8;
        }
    }
    img
}

#[test]
fn pick_primary_prefers_primary() {
    let mons = vec![mon(0, "HDMI-1", false), mon(1, "DP-4", true), mon(2, "DP-5", true)];
    let m = pick_monitor(&mons, &MonitorSelect::Primary).unwrap();
    assert_eq!(m.index, 1);
}

#[test]
fn pick_primary_falls_back_to_first() {
    let mons = vec![mon(0, "HDMI-1", false), mon(1, "DP-4", false)];
    let m = pick_monitor(&mons, &MonitorSelect::Primary).unwrap();
    assert_eq!(m.index, 0);
}

#[test]
fn pick_primary_with_no_monitors() {
    let mons: Vec<MonitorInfo> = Vec::new();
    assert!(matches!(pick_monitor(&mons, &MonitorSelect::Primary), Err(MonitorError::NoMonitors)));
}

#[test]
fn pick_by_index() {
    let mons = vec![mon(0, "HDMI-1", false), mon(1, "DP-4", true)];
    assert_eq!(pick_monitor(&mons, &MonitorSelect::Index(0)).unwrap().name, "HDMI-1");
    match pick_monitor(&mons, &MonitorSelect::Index(5)) {
        Err(MonitorError::NoSuchIndex { index, detected }) => {
            assert_eq!(index, 5);
            assert_eq!(detected, 2);
        }
        other => panic!("unexpected {:?}", other),
    }
}

#[test]
fn pick_by_name_ignores_ascii_case() {
    let mons = vec![mon(0, "HDMI-1", false), mon(1, "DP-4", true), mon(2, "dp-4", false)];
    assert_eq!(pick_monitor(&mons, &MonitorSelect::Name("dp-4".to_string())).unwrap().index, 1);
    assert_eq!(pick_monitor(&mons, &MonitorSelect::Name("hdmi-1".to_string())).unwrap().index, 0);
    match pick_monitor(&mons, &MonitorSelect::Name("VGA".to_string())) {
        Err(MonitorError::NoSuchName(n)) => assert_eq!(n, "VGA"),
        other => panic!("unexpected {:?}", other),
    }
}

#[test]
fn ascii_case_comparison() {
    assert!(eq_ignore_ascii_case("DP-4", "dp-4"));
    assert!(eq_ignore_ascii_case("", ""));
    assert!(!eq_ignore_ascii_case("DP-4", "DP-5"));
    assert!(!eq_ignore_ascii_case("DP", "DP-4"));
    assert!(!eq_ignore_ascii_case("É", "é"));
    assert!(eq_ignore_ascii_case("Écran", "éCRAN") == false);
    assert!(eq_ignore_ascii_case("ÉCRAN", "Écran"));
}

#[test]
fn bytes_per_pixel_from_formats() {
    assert_eq!(bytes_per_pixel(&[(1, 1), (24, 32), (32, 32)], 24), 4);
    assert_eq!(bytes_per_pixel(&[(24, 24), (24, 32)], 24), 3);
    assert_eq!(bytes_per_pixel(&[(1, 1), (8, 8)], 24), 4);
    assert_eq!(bytes_per_pixel(&[], 24), 4);
    assert_eq!(bytes_per_pixel(&[(16, 16)], 16), 2);
}

#[test]
fn sample_edges_exact_positions() {
    let g = FrameGeometry { width: 4, height: 4, bytes_per_pixel: 3 };
    let img = gradient(4, 4, 3);
    let s = layout(2, 2, 2, 4, 4, 1);
    assert!(can_sample(img.len(), &g, &s));
    let leds = sample_edges(&img, &g, &s);
    assert_eq!(
        leds,
        vec![(25, 0, 0), (125, 2, 0), (5, 0, 0), (25, 0, 2), (55, 0, 3), (155, 2, 3)]
    );
}

#[test]
fn sample_edges_strided_grid() {
    // 8x8 frame on a 4x4 grid: cell (x, y) reads pixel (2x, 2y).
    let g = FrameGeometry { width: 8, height: 8, bytes_per_pixel: 4 };
    let img = gradient(8, 8, 4);
    let s = layout(1, 1, 1, 4, 4, 1);
    let leds = sample_edges(&img, &g, &s);
    // left: cells x=0, y=0..4 -> pixels (0, 0, 2, 4, 6): red 0,100,200,300%256=44 -> avg (0+100+200+44)/4 = 86
    // green 0,2,4,6 -> 3; blue 0
    // top: cells y=0, x=0..4 -> pixels x 0,2,4,6: red 0,20,40,60 -> 30; green 0; blue 3
    // right: cells x=3 (pixel 6), y=0..4: red 60,160,260%256=4,360%256=104 -> (60+160+4+104)/4 = 82; green 3; blue 6
    assert_eq!(leds, vec![(86, 3, 0), (30, 0, 3), (82, 3, 6)]);
}

#[test]
fn sample_edges_uniform_frame() {
    let g = FrameGeometry { width: 16, height: 9, bytes_per_pixel: 4 };
    let mut img = vec![0u8; 16 * 9 * 4];
    for p in 0..16 * 9 {
        img[p * 4] = 10;
        img[p * 4 + 1] = 20;
        img[p * 4 + 2] = 30;
        img[p * 4 + 3] = 99;
    }
    let s = layout(5, 3, 3, 8, 6, 2);
    let leds = sample_edges(&img, &g, &s);
    assert_eq!(leds.len(), 11);
    assert!(leds.iter().all(|c| *c == (30, 20, 10)));
}

#[test]
fn sample_edges_bands_tile_the_edge() {
    // Rows of red 10 * row; three LEDs on a 9-row grid take three rows each.
    let g = FrameGeometry { width: 9, height: 9, bytes_per_pixel: 3 };
    let mut img = vec![0u8; 9 * 9 * 3];
    for y in 0..9 {
        for x in 0..9 {
            img[(y * 9 + x) * 3 + 2] = (10 * y) as u8;
        }
    }
    let s = layout(0, 0, 3, 9, 9, 1);
    let leds = sample_edges(&img, &g, &s);
    assert_eq!(leds, vec![(10, 0, 0), (40, 0, 0), (70, 0, 0)]);
}

#[test]
fn sample_edges_more_leds_than_rows() {
    let g = FrameGeometry { width: 2, height: 2, bytes_per_pixel: 3 };
    let img = gradient(2, 2, 3);
    let s = layout(0, 0, 3, 2, 2, 1);
    // bands: rows 0..1, 0..1, 1..2
    let leds = sample_edges(&img, &g, &s);
    assert_eq!(leds, vec![(0, 0, 0), (0, 0, 0), (50, 1, 0)]);
}

#[test]
fn sample_edges_zero_border_is_black() {
    let g = FrameGeometry { width: 4, height: 4, bytes_per_pixel: 3 };
    let img = gradient(4, 4, 3);
    let s = layout(2, 1, 1, 4, 4, 0);
    assert_eq!(sample_edges(&img, &g, &s), vec![(0, 0, 0); 4]);
}

#[test]
fn sample_edges_default_layout() {
    let g = FrameGeometry { width: 160, height: 90, bytes_per_pixel: 4 };
    let img = vec![128u8; 160 * 90 * 4];
    let s = Settings::default();
    assert!(can_sample(img.len(), &g, &s));
    let leds = sample_edges(&img, &g, &s);
    assert_eq!(leds.len(), 63);
    assert!(leds.iter().all(|c| *c == (128, 128, 128)));
}

#[test]
fn can_sample_rejects_bad_settings() {
    let g = FrameGeometry { width: 4, height: 4, bytes_per_pixel: 3 };
    assert!(can_sample(48, &g, &layout(1, 1, 1, 4, 4, 1)));
    assert!(!can_sample(47, &g, &layout(1, 1, 1, 4, 4, 1)));
    assert!(!can_sample(48, &g, &layout(1, 1, 1, 0, 4, 0)));
    assert!(!can_sample(48, &g, &layout(1, 1, 1, 4, 0, 0)));
    // The top band would read row 4 of a 4-row frame.
    assert!(!can_sample(48, &g, &layout(1, 1, 1, 4, 2, 3)));
    // The right band cannot start left of the grid.
    assert!(!can_sample(48, &g, &layout(1, 1, 1, 2, 4, 3)));
    assert!(!can_sample(usize::MAX, &FrameGeometry { width: usize::MAX, height: 2, bytes_per_pixel: 3 }, &layout(1, 1, 1, 4, 4, 1)));
    assert!(!can_sample(48, &g, &layout(usize::MAX, 1, 1, 4, 4, 1)));
    // A band of 10^18 cells would overflow the 64-bit channel sums.
    let flat = FrameGeometry { width: 0, height: 4, bytes_per_pixel: 3 };
    assert!(!can_sample(48, &flat, &layout(0, 0, 1, 4, 1_000_000_000, 1_000_000_000)));
    assert!(can_sample(48, &flat, &layout(0, 0, 1, 4, 1_000_000, 1_000)));
}

#[test]
fn can_sample_accepts_what_the_bands_need() {
    // A large grid is fine when each band is small.
    let g = FrameGeometry { width: 4, height: 4, bytes_per_pixel: 3 };
    assert!(can_sample(48, &g, &layout(1, 1, 1, 70000, 70000, 1)));
    // A 16-bit screen: two bytes per pixel, the last byte read stays in the buffer.
    let g2 = FrameGeometry { width: 4, height: 4, bytes_per_pixel: 2 };
    assert!(can_sample(32, &g2, &layout(1, 0, 1, 4, 4, 1)));
    assert!(!can_sample(32, &g2, &layout(1, 1, 1, 4, 4, 1)));
    // A border deeper than the grid is tall, with no LED on the top edge.
    let g3 = FrameGeometry { width: 160, height: 90, bytes_per_pixel: 4 };
    assert!(can_sample(160 * 90 * 4, &g3, &layout(0, 17, 17, 80, 45, 50)));
    assert!(!can_sample(160 * 90 * 4, &g3, &layout(1, 17, 17, 80, 45, 50)));
}

#[test]
fn sample_edges_deep_side_bands() {
    let g = FrameGeometry { width: 160, height: 90, bytes_per_pixel: 4 };
    let img = vec![77u8; 160 * 90 * 4];
    let s = layout(0, 17, 17, 80, 45, 50);
    let leds = sample_edges(&img, &g, &s);
    assert_eq!(leds.len(), 34);
    assert!(leds.iter().all(|c| *c == (77, 77, 77)));
}

#[test]
fn sample_edges_two_bytes_per_pixel() {
    // Pixel bytes are read as blue, green, red from the pixel's offset on.
    let g = FrameGeometry { width: 2, height: 1, bytes_per_pixel: 2 };
    let img = vec![1u8, 2, 3, 4, 5];
    let s = layout(0, 0, 1, 2, 1, 1);
    assert!(can_sample(img.len(), &g, &s));
    assert_eq!(sample_edges(&img, &g, &s), vec![(3, 2, 1)]);
}
