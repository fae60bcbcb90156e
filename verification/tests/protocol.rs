use quiklight::protocol::{checksum, frame, init, rb, send_frame, write_hid};

fn sum_mod(bytes: &[u8]) -> u8 {
    let mut s: u32 = 0;
    for b in bytes {
        s += *b as u32;
    }
    (s % 256) as u8
}

#[test]
fn checksum_is_wrapping_sum() {
    assert_eq!(checksum(&[]), 0);
    assert_eq!(checksum(&[1, 2, 3]), 6);
    assert_eq!(checksum(&[200, 100]), 44);
    assert_eq!(checksum(&[255, 255, 255, 255]), 252);
}

#[test]
fn rb_reset_packet() {
    let p = rb(0, 147, &[0]);
    assert_eq!(p, vec![0x52, 0x42, 7, 0, 147, 0, 46]);
}

#[test]
fn rb_brightness_packet() {
    let p = rb(1, 135, &[200]);
    let cs = sum_mod(&[0x52, 0x42, 7, 1, 135, 200]);
    assert_eq!(p, vec![0x52, 0x42, 7, 1, 135, 200, cs]);
}

#[test]
fn rb_length_byte_truncates() {
    let payload = vec![1u8; 250];
    let p = rb(9, 7, &payload);
    assert_eq!(p.len(), 256);
    assert_eq!(p[2], 0);
    assert_eq!(&p[5..255], &payload[..]);
    assert_eq!(p[255], checksum(&p[..255]));
}

#[test]
fn frame_single_led() {
    let f = frame(3, &[(1, 2, 3)]);
    assert_eq!(f, vec![0x53, 0x43, 0, 12, 3, 128, 1, 1, 2, 3, 1, 45]);
}

#[test]
fn frame_empty() {
    let f = frame(7, &[]);
    assert_eq!(f, vec![0x53, 0x43, 0, 7, 7, 128, sum_mod(&[0x53, 0x43, 0, 7, 7, 128])]);
}

#[test]
fn frame_layout_can_be_read_back() {
    let leds: Vec<(u8, u8, u8)> = (0..300u32).map(|i| ((i % 256) as u8, (i / 2) as u8, 255 - (i % 200) as u8)).collect();
    let f = frame(42, &leds);
    assert_eq!(f.len(), 7 + 5 * 300);
    assert_eq!((f[2] as usize) * 256 + f[3] as usize, f.len());
    assert_eq!(f[4], 42);
    assert_eq!(f[5], 128);
    for (i, led) in leds.iter().enumerate() {
        let o = 6 + 5 * i;
        let n = ((i + 1) % 256) as u8;
        assert_eq!(f[o], n);
        assert_eq!((f[o + 1], f[o + 2], f[o + 3]), *led);
        assert_eq!(f[o + 4], n);
    }
    // LED number 256 wraps to 0.
    assert_eq!(f[6 + 5 * 255], 0);
    assert_eq!(*f.last().unwrap(), checksum(&f[..f.len() - 1]));
}

#[test]
fn write_hid_splits_into_reports() {
    let packet: Vec<u8> = (0..100u32).map(|i| (i + 1) as u8).collect();
    let mut out: Vec<Vec<u8>> = Vec::new();
    write_hid(&mut out, &packet);
    assert_eq!(out.len(), 2);
    for r in &out {
        assert_eq!(r.len(), 65);
        assert_eq!(r[0], 0);
    }
    assert_eq!(&out[0][1..65], &packet[0..64]);
    assert_eq!(&out[1][1..37], &packet[64..100]);
    assert!(out[1][37..].iter().all(|b| *b == 0));
}

#[test]
fn write_hid_reassembles_packet_with_padding() {
    for len in [0usize, 1, 63, 64, 65, 128, 129] {
        let packet: Vec<u8> = (0..len).map(|i| (i % 251 + 1) as u8).collect();
        let mut out: Vec<Vec<u8>> = Vec::new();
        write_hid(&mut out, &packet);
        assert_eq!(out.len(), (len + 63) / 64);
        let mut stream: Vec<u8> = Vec::new();
        for r in &out {
            stream.extend_from_slice(&r[1..]);
        }
        let pad = (64 - len % 64) % 64;
        let mut expected = packet.clone();
        expected.extend(std::iter::repeat(0u8).take(pad));
        assert_eq!(stream, expected);
    }
}

#[test]
fn write_hid_appends_after_existing_reports() {
    let mut out: Vec<Vec<u8>> = vec![vec![9, 9]];
    write_hid(&mut out, &[5]);
    assert_eq!(out.len(), 2);
    assert_eq!(out[0], vec![9, 9]);
    assert_eq!(out[1][..2], [0, 5]);
}

#[test]
fn init_sequence() {
    let mut out: Vec<Vec<u8>> = Vec::new();
    let next = init(&mut out, 200, 63);
    assert_eq!(next, 4);
    // reset, brightness, mode: one report each; black frame of 63 LEDs: 322 bytes, 6 reports.
    assert_eq!(out.len(), 3 + 6);
    let mut expected0 = vec![0u8, 0x52, 0x42, 7, 0, 147, 0, 46];
    expected0.resize(65, 0);
    assert_eq!(out[0], expected0);
    assert_eq!(&out[1][1..8], &rb(1, 135, &[200])[..]);
    assert_eq!(&out[2][1..17], &rb(2, 134, &[1, 85, 85, 85, 63, 64, 0, 0, 0, 254])[..]);
    let black = frame(3, &vec![(0, 0, 0); 63]);
    let mut stream: Vec<u8> = Vec::new();
    for r in &out[3..] {
        stream.extend_from_slice(&r[1..]);
    }
    assert_eq!(&stream[..black.len()], &black[..]);
}

#[test]
fn init_with_no_leds() {
    let mut out: Vec<Vec<u8>> = Vec::new();
    assert_eq!(init(&mut out, 0, 0), 4);
    assert_eq!(out.len(), 4);
    assert_eq!(&out[3][1..8], &frame(3, &[])[..]);
}

#[test]
fn send_frame_reports() {
    let leds = vec![(10u8, 20u8, 30u8); 13];
    let mut out: Vec<Vec<u8>> = Vec::new();
    send_frame(&mut out, 77, &leds);
    let f = frame(77, &leds);
    assert_eq!(f.len(), 72);
    assert_eq!(out.len(), 2);
    assert_eq!(&out[0][1..], &f[..64]);
    assert_eq!(&out[1][1..9], &f[64..]);
}
