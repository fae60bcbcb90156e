use quiklight::capture::MonitorSelect;
use quiklight::cli::{gcd, monitor_select, parse_resolution, resolution_presets};

#[test]
fn monitor_select_none_is_primary() {
    assert!(matches!(monitor_select(&None), MonitorSelect::Primary));
}

#[test]
fn monitor_select_numbers_are_indices() {
    assert!(matches!(monitor_select(&Some("2".to_string())), MonitorSelect::Index(2)));
    assert!(matches!(monitor_select(&Some("0".to_string())), MonitorSelect::Index(0)));
    assert!(matches!(monitor_select(&Some("+3".to_string())), MonitorSelect::Index(3)));
    assert!(matches!(monitor_select(&Some("007".to_string())), MonitorSelect::Index(7)));
}

#[test]
fn monitor_select_other_text_is_a_name() {
    for s in ["DP-4", "", " 1", "1 ", "-1", "+", "99999999999999999999999", "1_0"] {
        match monitor_select(&Some(s.to_string())) {
            MonitorSelect::Name(n) => assert_eq!(n, s),
            other => panic!("{s:?} gave {other:?}"),
        }
    }
}

#[test]
fn parse_resolution_accepts_wxh() {
    assert_eq!(parse_resolution("80x45"), Ok((80, 45)));
    assert_eq!(parse_resolution("96X54"), Ok((96, 54)));
    assert_eq!(parse_resolution(" 80 x 45 "), Ok((80, 45)));
    assert_eq!(parse_resolution("\t160\nx\u{a0}90\u{3000}"), Ok((160, 90)));
    assert_eq!(parse_resolution("+80x+45"), Ok((80, 45)));
}

#[test]
fn parse_resolution_errors() {
    assert_eq!(parse_resolution("80*45"), Err("expected WxH, got '80*45'".to_string()));
    assert_eq!(parse_resolution(""), Err("expected WxH, got ''".to_string()));
    assert_eq!(parse_resolution("ax45"), Err("invalid width in 'ax45'".to_string()));
    assert_eq!(parse_resolution("x45"), Err("invalid width in 'x45'".to_string()));
    assert_eq!(parse_resolution("80xb"), Err("invalid height in '80xb'".to_string()));
    assert_eq!(parse_resolution("80x45x2"), Err("invalid height in '80x45x2'".to_string()));
    assert_eq!(parse_resolution("0x45"), Err("width and height must be > 0".to_string()));
    assert_eq!(parse_resolution("80x0"), Err("width and height must be > 0".to_string()));
}

#[test]
fn gcd_values() {
    assert_eq!(gcd(1920, 1080), 120);
    assert_eq!(gcd(1080, 1920), 120);
    assert_eq!(gcd(0, 5), 5);
    assert_eq!(gcd(7, 0), 7);
    assert_eq!(gcd(0, 0), 0);
    assert_eq!(gcd(17, 5), 1);
}

#[test]
fn presets_full_hd() {
    let p = resolution_presets(1920, 1080);
    let ks = [1usize, 2, 3, 4, 5, 6, 8, 10, 12, 15, 20, 24, 30, 40, 60, 120];
    let expected: Vec<(usize, usize)> = ks.iter().map(|k| (1920 / k, 1080 / k)).collect();
    assert_eq!(p, expected);
    assert_eq!(p[0], (1920, 1080));
    assert_eq!(p[15], (16, 9));
}

#[test]
fn presets_drop_narrow_widths() {
    assert_eq!(resolution_presets(100, 50), vec![(100, 50), (50, 25), (20, 10)]);
    assert_eq!(resolution_presets(10, 10), Vec::<(usize, usize)>::new());
    assert_eq!(resolution_presets(0, 0), Vec::<(usize, usize)>::new());
    assert_eq!(resolution_presets(64, 0), vec![(64, 0), (32, 0), (16, 0)]);
}

#[test]
fn presets_keep_aspect_and_shrink() {
    for (w, h) in [(2560usize, 1440usize), (3440, 1440), (1280, 1024), (1366, 768)] {
        let p = resolution_presets(w, h);
        for (i, (pw, ph)) in p.iter().enumerate() {
            assert!(*pw >= 16);
            assert_eq!(w % pw, 0);
            let k = w / pw;
            assert_eq!(ph * k, h);
            if i > 0 {
                assert!(p[i - 1].0 > *pw);
            }
        }
    }
}

#[test]
fn parse_resolution_reads_back_written_sizes() {
    for (w, h) in [(1usize, 1usize), (80, 45), (96, 54), (1920, 1080), (usize::MAX, 7)] {
        assert_eq!(parse_resolution(&format!("{w}x{h}")), Ok((w, h)));
        assert_eq!(parse_resolution(&format!("{w}X{h}")), Ok((w, h)));
        assert_eq!(parse_resolution(&format!(" {w} x {h} ")), Ok((w, h)));
        assert_eq!(parse_resolution(&format!("\t{w}\u{2003}x\n{h}\r")), Ok((w, h)));
    }
}

#[test]
fn parse_resolution_rejects_overflow() {
    let big = format!("{}0x1", usize::MAX);
    assert_eq!(parse_resolution(&big), Err(format!("invalid width in '{big}'")));
    assert_eq!(parse_resolution("-1x5"), Err("invalid width in '-1x5'".to_string()));
    assert_eq!(parse_resolution("+x5"), Err("invalid width in '+x5'".to_string()));
}
