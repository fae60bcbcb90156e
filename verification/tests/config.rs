use quiklight::config::{Overrides, Settings};

fn no_overrides() -> Overrides {
    Overrides {
        monitor: None,
        fps: None,
        resolution: None,
        brightness: None,
        border: None,
        top: None,
        right: None,
        left: None,
    }
}

#[test]
fn default_settings() {
    let s = Settings::default();
    assert_eq!((s.top, s.right, s.left), (29, 17, 17));
    assert_eq!((s.cap_w, s.cap_h, s.border), (80, 45, 3));
    assert_eq!(s.fps, 60);
    assert_eq!(s.brightness, 200);
    assert!(s.monitor.is_none());
    assert_eq!(s.leds(), 63);
}

#[test]
fn overrides_replace_only_given_values() {
    let mut s = Settings::default();
    let o = Overrides {
        monitor: Some("DP-4".to_string()),
        fps: Some(30),
        resolution: Some((96, 54)),
        brightness: None,
        border: Some(5),
        top: None,
        right: Some(10),
        left: None,
    };
    o.apply(&mut s);
    assert_eq!(s.monitor.as_deref(), Some("DP-4"));
    assert_eq!(s.fps, 30);
    assert_eq!((s.cap_w, s.cap_h), (96, 54));
    assert_eq!(s.brightness, 200);
    assert_eq!(s.border, 5);
    assert_eq!((s.top, s.right, s.left), (29, 10, 17));
    assert_eq!(s.leds(), 56);
}

#[test]
fn no_overrides_change_nothing() {
    let mut s = Settings::default();
    s.monitor = Some("HDMI-1".to_string());
    no_overrides().apply(&mut s);
    assert_eq!(s.monitor.as_deref(), Some("HDMI-1"));
    assert_eq!((s.top, s.right, s.left, s.cap_w, s.cap_h, s.border), (29, 17, 17, 80, 45, 3));
    assert_eq!((s.fps, s.brightness), (60, 200));
}

#[test]
fn all_overrides() {
    let mut s = Settings::default();
    let o = Overrides {
        monitor: Some("1".to_string()),
        fps: Some(240),
        resolution: Some((1, 1)),
        brightness: Some(0),
        border: Some(0),
        top: Some(0),
        right: Some(0),
        left: Some(1),
    };
    o.apply(&mut s);
    assert_eq!(s.monitor.as_deref(), Some("1"));
    assert_eq!((s.top, s.right, s.left, s.cap_w, s.cap_h, s.border), (0, 0, 1, 1, 1, 0));
    assert_eq!((s.fps, s.brightness), (240, 0));
    assert_eq!(s.leds(), 1);
}
