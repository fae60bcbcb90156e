use quiklight::device::{contains, device_tag, pick_hidraw, uevent_matches, PRODUCT_ID, VENDOR_ID};

#[test]
fn quiklight_tag() {
    assert_eq!(device_tag(VENDOR_ID, PRODUCT_ID), "0003:00001A86:0000FE07");
    assert_eq!(device_tag(0, 0xFFFF_FFFF), "0003:00000000:FFFFFFFF");
    assert_eq!(device_tag(0x12AB, 0x9), "0003:000012AB:00000009");
}

#[test]
fn uevent_matching_ignores_case() {
    let tag = device_tag(VENDOR_ID, PRODUCT_ID);
    let lower = "DRIVER=hid-generic\nHID_ID=0003:00001a86:0000fe07\nHID_NAME=ROBOBLOQ USBHID\n";
    let upper = "HID_ID=0003:00001A86:0000FE07\n";
    let other = "DRIVER=hid-generic\nHID_ID=0003:0000046D:0000C52B\n";
    let other_bus = "HID_ID=0005:00001A86:0000FE07\n";
    assert!(uevent_matches(lower, &tag));
    assert!(uevent_matches(upper, &tag));
    assert!(!uevent_matches(other, &tag));
    assert!(!uevent_matches(other_bus, &tag));
    assert!(!uevent_matches("", &tag));
}

#[test]
fn substring_search() {
    assert!(contains("abcdef", "cde"));
    assert!(contains("abcdef", "abcdef"));
    assert!(contains("abc", ""));
    assert!(contains("", ""));
    assert!(!contains("abc", "abcd"));
    assert!(!contains("abcdef", "ce"));
    assert!(contains("aaab", "aab"));
}

#[test]
fn hidraw_choice() {
    let names: Vec<String> = ["hidraw2", "hidraw10", "input5", "hidraw3"].iter().map(|s| s.to_string()).collect();
    assert_eq!(pick_hidraw(&names), Some("/dev/hidraw10".to_string()));
    let names: Vec<String> = ["hidraw3", "hidraw1"].iter().map(|s| s.to_string()).collect();
    assert_eq!(pick_hidraw(&names), Some("/dev/hidraw1".to_string()));
    let names: Vec<String> = ["input1", "hidra", "Hidraw0"].iter().map(|s| s.to_string()).collect();
    assert_eq!(pick_hidraw(&names), None);
    assert_eq!(pick_hidraw(&[]), None);
    let names: Vec<String> = vec!["hidraw".to_string()];
    assert_eq!(pick_hidraw(&names), Some("/dev/hidraw".to_string()));
}
