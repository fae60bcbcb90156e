//! The Quiklight HID protocol: `RB` command packets, `SC` colour frames, and
//! their split into 65-byte HID output reports.

use vstd::prelude::*;

verus! {

/// Length of one HID output report: a report ID byte followed by 64 data bytes.
pub const REPORT_LEN: usize = 65;

/// Number of packet bytes carried by one report.
pub const CHUNK_LEN: usize = 64;

/// Sum of all bytes of `s`, as a mathematical integer.
pub open spec fn byte_sum(s: Seq<u8>) -> nat
    decreases s.len(),
{
    if s.len() == 0 {
        0
    } else {
        byte_sum(s.drop_last()) + s.last() as nat
    }
}

/// The protocol checksum: the sum of the bytes modulo 256.
pub open spec fn checksum_of(s: Seq<u8>) -> u8 {
    (byte_sum(s) % 256) as u8
}

/// A command packet: `'R' 'B' len id action payload.. checksum`, where `len` is
/// the total packet length truncated to a byte.
pub open spec fn rb_packet(msg_id: u8, action: u8, payload: Seq<u8>) -> Seq<u8> {
    let head = seq![0x52u8, 0x42u8, ((6 + payload.len()) % 256) as u8, msg_id, action] + payload;
    head.push(checksum_of(head))
}

/// The five bytes describing LED `i` (counted from zero): its one-based number
/// truncated to a byte, red, green, blue, and the number again.
pub open spec fn led_entry(i: int, rgb: (u8, u8, u8)) -> Seq<u8> {
    let n = ((i + 1) % 256) as u8;
    seq![n, rgb.0, rgb.1, rgb.2, n]
}

/// The entries of all LEDs of `leds`, in order.
pub open spec fn led_entries(leds: Seq<(u8, u8, u8)>) -> Seq<u8>
    decreases leds.len(),
{
    if leds.len() == 0 {
        Seq::empty()
    } else {
        led_entries(leds.drop_last()) + led_entry(leds.len() - 1, leds.last())
    }
}

/// Total length of a colour frame for `n` LEDs.
pub open spec fn frame_len(n: nat) -> nat {
    7 + 5 * n
}

/// A colour frame: `'S' 'C' len_hi len_lo id 128 entries.. checksum`, with the
/// total length as a big-endian 16-bit field (truncated).
pub open spec fn frame_packet(msg_id: u8, leds: Seq<(u8, u8, u8)>) -> Seq<u8> {
    let total = frame_len(leds.len());
    let head = seq![0x53u8, 0x43u8, ((total / 256) % 256) as u8, (total % 256) as u8, msg_id, 128u8]
        + led_entries(leds);
    head.push(checksum_of(head))
}

/// `n` zero bytes.
pub open spec fn zeros(n: nat) -> Seq<u8> {
    Seq::new(n, |i: int| 0u8)
}

/// One HID report carrying `chunk` (at most 64 bytes): report ID 0, the chunk,
/// and zero padding up to 65 bytes.
pub open spec fn hid_report(chunk: Seq<u8>) -> Seq<u8> {
    seq![0u8] + chunk + zeros((64 - chunk.len()) as nat)
}

/// Length of the first chunk of `packet`.
pub open spec fn first_chunk_len(packet: Seq<u8>) -> int {
    if packet.len() < 64 { packet.len() as int } else { 64 }
}

/// The reports that carry `packet`: consecutive 64-byte chunks, the last one
/// possibly shorter.
pub open spec fn hid_reports(packet: Seq<u8>) -> Seq<Seq<u8>>
    decreases packet.len(),
{
    if packet.len() == 0 {
        Seq::empty()
    } else {
        let n = first_chunk_len(packet);
        seq![hid_report(packet.take(n))] + hid_reports(packet.skip(n))
    }
}

/// The byte stream a report sequence carries: each report without its ID byte.
pub open spec fn report_payloads(reports: Seq<Seq<u8>>) -> Seq<u8>
    decreases reports.len(),
{
    if reports.len() == 0 {
        Seq::empty()
    } else {
        reports[0].drop_first() + report_payloads(reports.drop_first())
    }
}

/// Payload of the mode-setting command sent during initialisation.
pub open spec fn mode_payload() -> Seq<u8> {
    seq![1u8, 85u8, 85u8, 85u8, 63u8, 64u8, 0u8, 0u8, 0u8, 254u8]
}

/// `n` black LEDs.
pub open spec fn black_leds(n: nat) -> Seq<(u8, u8, u8)> {
    Seq::new(n, |i: int| (0u8, 0u8, 0u8))
}

/// Reports of the initialisation sequence: reset (id 0), brightness (id 1),
/// mode (id 2), and an all-black frame (id 3).
pub open spec fn init_reports(brightness: u8, n_leds: nat) -> Seq<Seq<u8>> {
    hid_reports(rb_packet(0, 147, seq![0u8]))
        + hid_reports(rb_packet(1, 135, seq![brightness]))
        + hid_reports(rb_packet(2, 134, mode_payload()))
        + hid_reports(frame_packet(3, black_leds(n_leds)))
}

proof fn lemma_byte_sum_take_step(s: Seq<u8>, i: int)
    requires
        0 <= i < s.len(),
    ensures
        byte_sum(s.take(i + 1)) == byte_sum(s.take(i)) + s[i] as nat,
{
    assert(s.take(i + 1).drop_last() =~= s.take(i));
}

/// Checksum of `data`: the wrapping sum of its bytes.
pub fn checksum(data: &[u8]) -> (cs: u8)
    ensures
        cs == checksum_of(data@),
{
    let mut acc: u8 = 0;
    let mut i: usize = 0;
    while i < data.len()
        invariant
            i <= data.len(),
            acc as nat == byte_sum(data@.take(i as int)) % 256,
        decreases data.len() - i,
    {
        proof {
            lemma_byte_sum_take_step(data@, i as int);
        }
        acc = acc.wrapping_add(data[i]);
        i = i + 1;
    }
    assert(data@.take(i as int) =~= data@);
    acc
}


/// Builds a command packet (`RB`): header, payload and checksum.
pub fn rb(msg_id: u8, action: u8, payload: &[u8]) -> (out: Vec<u8>)
    requires
        payload@.len() + 6 <= usize::MAX,
    ensures
        out@ == rb_packet(msg_id, action, payload@),
{
    let total: usize = 5 + payload.len() + 1;
    let mut out: Vec<u8> = Vec::with_capacity(total);
    out.push(0x52);
    out.push(0x42);
    out.push((total % 256) as u8);
    out.push(msg_id);
    out.push(action);
    let ghost head = seq![0x52u8, 0x42u8, ((6 + payload@.len()) % 256) as u8, msg_id, action];
    assert(out@ =~= head);
    let mut i: usize = 0;
    while i < payload.len()
        invariant
            i <= payload.len(),
            out@ =~= head + payload@.take(i as int),
        decreases payload.len() - i,
    {
        out.push(payload[i]);
        i = i + 1;
        assert(out@ =~= head + payload@.take(i as int));
    }
    assert(payload@.take(i as int) =~= payload@);
    let cs = checksum(out.as_slice());
    out.push(cs);
    out
}

proof fn lemma_led_entries_take_step(leds: Seq<(u8, u8, u8)>, i: int)
    requires
        0 <= i < leds.len(),
    ensures
        led_entries(leds.take(i + 1)) == led_entries(leds.take(i)) + led_entry(i, leds[i]),
{
    assert(leds.take(i + 1).drop_last() =~= leds.take(i));
}

/// Builds a colour frame (`SC`) for the given LED colours.
pub fn frame(msg_id: u8, leds: &[(u8, u8, u8)]) -> (out: Vec<u8>)
    requires
        leds@.len() <= (usize::MAX - 7) / 5,
    ensures
        out@ == frame_packet(msg_id, leds@),
{
    let payload_len: usize = leds.len() * 5;
    let total: usize = 6 + payload_len + 1;
    let mut out: Vec<u8> = Vec::with_capacity(total);
    out.push(0x53);
    out.push(0x43);
    out.push(((total / 256) % 256) as u8);
    out.push((total % 256) as u8);
    out.push(msg_id);
    out.push(128);
    let ghost head = seq![0x53u8, 0x43u8, ((total / 256) % 256) as u8, (total % 256) as u8, msg_id, 128u8];
    assert(out@ =~= head + led_entries(leds@.take(0)));
    let mut i: usize = 0;
    while i < leds.len()
        invariant
            i <= leds.len(),
            leds@.len() <= (usize::MAX - 7) / 5,
            out@ =~= head + led_entries(leds@.take(i as int)),
        decreases leds.len() - i,
    {
        let (r, g, b) = leds[i];
        let n: u8 = ((i + 1) % 256) as u8;
        out.push(n);
        out.push(r);
        out.push(g);
        out.push(b);
        out.push(n);
        proof {
            lemma_led_entries_take_step(leds@, i as int);
        }
        i = i + 1;
        assert(out@ =~= head + led_entries(leds@.take(i as int)));
    }
    assert(leds@.take(i as int) =~= leds@);
    let cs = checksum(out.as_slice());
    out.push(cs);
    out
}

/// Appends to `out` the reports that carry `packet` to the device.
pub fn write_hid(out: &mut Vec<Vec<u8>>, packet: &[u8])
    ensures
        final(out).deep_view() == old(out).deep_view() + hid_reports(packet@),
{
    let mut offset: usize = 0;
    assert(packet@.skip(0) =~= packet@);
    assert(out.deep_view() + hid_reports(packet@.skip(0)) =~= old(out).deep_view() + hid_reports(packet@));
    while offset < packet.len()
        invariant
            offset <= packet.len(),
            out.deep_view() + hid_reports(packet@.skip(offset as int)) =~= old(out).deep_view()
                + hid_reports(packet@),
        decreases packet.len() - offset,
    {
        let end: usize = if packet.len() - offset < 64 { packet.len() } else { offset + 64 };
        let ghost rest = packet@.skip(offset as int);
        let ghost n = first_chunk_len(rest);
        assert(end - offset == n);
        let mut buf: Vec<u8> = Vec::with_capacity(65);
        buf.push(0);
        let mut j: usize = offset;
        while j < end
            invariant
                offset <= j <= end,
                end <= packet.len(),
                buf@ =~= seq![0u8] + packet@.subrange(offset as int, j as int),
            decreases end - j,
        {
            buf.push(packet[j]);
            j = j + 1;
            assert(buf@ =~= seq![0u8] + packet@.subrange(offset as int, j as int));
        }
        let mut k: usize = end - offset;
        while k < 64
            invariant
                offset <= end <= packet.len(),
                end - offset <= k <= 64,
                buf@ =~= seq![0u8] + packet@.subrange(offset as int, end as int)
                    + zeros((k - (end - offset)) as nat),
            decreases 64 - k,
        {
            buf.push(0);
            k = k + 1;
            assert(buf@ =~= seq![0u8] + packet@.subrange(offset as int, end as int)
                + zeros((k - (end - offset)) as nat));
        }
        assert(rest.take(n) =~= packet@.subrange(offset as int, end as int));
        assert(buf@ =~= hid_report(rest.take(n)));
        assert(rest.skip(n) =~= packet@.skip(end as int));
        let ghost before = out.deep_view();
        let ghost report = buf.deep_view();
        assert(report =~= buf@);
        out.push(buf);
        assert(out.deep_view() =~= before.push(report));
        offset = end;
        assert(hid_reports(rest) == seq![hid_report(rest.take(n))] + hid_reports(rest.skip(n)));
    }
    assert(packet@.skip(offset as int) =~= Seq::<u8>::empty());
    assert(hid_reports(packet@.skip(offset as int)) =~= Seq::<Seq<u8>>::empty());
}

/// Appends the initialisation sequence to `out`: a reset, the global
/// brightness, the strip mode, and an all-black frame for `n_leds` LEDs.
/// Returns the message id to use for the next frame.
pub fn init(out: &mut Vec<Vec<u8>>, brightness: u8, n_leds: usize) -> (next_id: u8)
    requires
        n_leds <= (usize::MAX - 7) / 5,
    ensures
        final(out).deep_view() == old(out).deep_view() + init_reports(brightness, n_leds as nat),
        final(out).deep_view()[old(out).deep_view().len() + 1int] == seq![
            0u8,
            0x52u8,
            0x42u8,
            7u8,
            1u8,
            135u8,
            brightness,
            ((291 + brightness as int) % 256) as u8,
        ] + zeros(57),
        next_id == 4,
{
    let ghost start = out.deep_view();
    let mut mid: u8 = 0;
    let reset: [u8; 1] = [0u8];
    assert(reset@ =~= seq![0u8]);
    let p0 = rb(mid, 147, &reset);
    write_hid(out, p0.as_slice());
    mid = mid.wrapping_add(1);
    let level: [u8; 1] = [brightness];
    assert(level@ =~= seq![brightness]);
    let p1 = rb(mid, 135, &level);
    write_hid(out, p1.as_slice());
    mid = mid.wrapping_add(1);
    let mode: [u8; 10] = [1u8, 85u8, 85u8, 85u8, 63u8, 64u8, 0u8, 0u8, 0u8, 254u8];
    assert(mode@ =~= mode_payload());
    let p2 = rb(mid, 134, &mode);
    write_hid(out, p2.as_slice());
    mid = mid.wrapping_add(1);
    let black: Vec<(u8, u8, u8)> = black_vec(n_leds);
    let p3 = frame(mid, black.as_slice());
    write_hid(out, p3.as_slice());
    mid = mid.wrapping_add(1);
    assert(out.deep_view() =~= start + init_reports(brightness, n_leds as nat));
    proof {
        lemma_init_reports(brightness, n_leds as nat);
        assert(out.deep_view()[start.len() + 1int] == init_reports(brightness, n_leds as nat)[1]);
    }
    mid
}

fn black_vec(n: usize) -> (v: Vec<(u8, u8, u8)>)
    ensures
        v@ == black_leds(n as nat),
{
    let mut v: Vec<(u8, u8, u8)> = Vec::with_capacity(n);
    let mut i: usize = 0;
    while i < n
        invariant
            i <= n,
            v@ =~= black_leds(i as nat),
        decreases n - i,
    {
        v.push((0, 0, 0));
        i = i + 1;
        assert(v@ =~= black_leds(i as nat));
    }
    v
}

/// Appends to `out` the reports of one colour frame with message id `msg_id`.
pub fn send_frame(out: &mut Vec<Vec<u8>>, msg_id: u8, leds: &[(u8, u8, u8)])
    requires
        leds@.len() <= (usize::MAX - 7) / 5,
    ensures
        final(out).deep_view() == old(out).deep_view() + hid_reports(frame_packet(msg_id, leds@)),
{
    let f = frame(msg_id, leds);
    write_hid(out, f.as_slice());
}


/// Every report is 65 bytes long and starts with report ID 0, and a packet of
/// `n` bytes takes `ceil(n / 64)` reports.
pub proof fn lemma_reports_shape(packet: Seq<u8>)
    ensures
        hid_reports(packet).len() == (packet.len() + 63) / 64,
        forall|k: int|
            0 <= k < hid_reports(packet).len() ==> (#[trigger] hid_reports(packet)[k]).len() == 65
                && hid_reports(packet)[k][0] == 0,
    decreases packet.len(),
{
    if packet.len() > 0 {
        let n = first_chunk_len(packet);
        lemma_reports_shape(packet.skip(n));
        let head = hid_report(packet.take(n));
        assert(head.len() == 65);
        assert(head[0] == 0);
        let all = hid_reports(packet);
        assert(all == seq![head] + hid_reports(packet.skip(n)));
        assert forall|k: int| 0 <= k < all.len() implies (#[trigger] all[k]).len() == 65
            && all[k][0] == 0 by {
            if k > 0 {
                assert(all[k] == hid_reports(packet.skip(n))[k - 1]);
            }
        }
    }
}

/// Number of zero bytes that pad a packet of `len` bytes up to whole reports.
pub open spec fn padding_len(len: nat) -> nat {
    ((64 - len % 64) % 64) as nat
}

/// Reading back the data bytes of the reports yields the packet itself,
/// followed by the zero padding of the last report.
pub proof fn lemma_reports_reassemble(packet: Seq<u8>)
    ensures
        report_payloads(hid_reports(packet)) == packet + zeros(padding_len(packet.len())),
    decreases packet.len(),
{
    if packet.len() == 0 {
        assert(report_payloads(hid_reports(packet)) =~= packet + zeros(padding_len(packet.len())));
    } else {
        let n = first_chunk_len(packet);
        let rest = packet.skip(n);
        lemma_reports_reassemble(rest);
        let head = hid_report(packet.take(n));
        let all = hid_reports(packet);
        assert(all == seq![head] + hid_reports(rest));
        assert(all[0] == head);
        assert(all.drop_first() =~= hid_reports(rest));
        assert(head.drop_first() =~= packet.take(n) + zeros((64 - n) as nat));
        if n < 64 {
            assert(rest.len() == 0);
            assert(hid_reports(rest) =~= Seq::<Seq<u8>>::empty());
            assert(padding_len(packet.len()) == 64 - n);
            assert(report_payloads(hid_reports(rest)) =~= Seq::<u8>::empty());
            assert(packet.take(n) =~= packet);
        } else {
            assert(padding_len(rest.len()) == padding_len(packet.len()));
            assert(packet =~= packet.take(n) + rest);
            assert(zeros(0) =~= Seq::<u8>::empty());
        }
        assert(report_payloads(all) =~= packet + zeros(padding_len(packet.len())));
    }
}

proof fn lemma_led_entries(leds: Seq<(u8, u8, u8)>)
    ensures
        led_entries(leds).len() == 5 * leds.len(),
        forall|i: int, k: int|
            0 <= i < leds.len() && 0 <= k < 5 ==> #[trigger] led_entries(leds)[5 * i + k]
                == led_entry(i, leds[i])[k],
    decreases leds.len(),
{
    if leds.len() > 0 {
        let init = leds.drop_last();
        lemma_led_entries(init);
        let m = leds.len() - 1;
        assert forall|i: int, k: int| 0 <= i < leds.len() && 0 <= k < 5 implies #[trigger] led_entries(
            leds,
        )[5 * i + k] == led_entry(i, leds[i])[k] by {
            if i < m {
                assert(led_entries(leds)[5 * i + k] == led_entries(init)[5 * i + k]);
                assert(init[i] == leds[i]);
            } else {
                assert(led_entries(leds)[5 * i + k] == led_entry(m, leds.last())[k]);
            }
        }
    }
}

/// Whether bytes `6 + 5 i .. 11 + 5 i` of `f` are the entry of LED `i` with colour `rgb`.
pub open spec fn frame_carries_led(f: Seq<u8>, i: int, rgb: (u8, u8, u8)) -> bool {
    f.subrange(6 + 5 * i, 11 + 5 * i) == led_entry(i, rgb)
}

/// A colour frame can be read back: it has the `SC` header, its length field
/// gives its length (for frames shorter than 64 KiB), it carries the message id,
/// each LED's number and colour sit at fixed offsets, and the last byte is the
/// checksum of all the others.
pub proof fn lemma_frame_layout(msg_id: u8, leds: Seq<(u8, u8, u8)>)
    ensures
        frame_packet(msg_id, leds).len() == frame_len(leds.len()),
        frame_packet(msg_id, leds)[0] == 0x53,
        frame_packet(msg_id, leds)[1] == 0x43,
        frame_packet(msg_id, leds).len() < 65536 ==> frame_packet(msg_id, leds)[2] * 256
            + frame_packet(msg_id, leds)[3] == frame_packet(msg_id, leds).len(),
        frame_packet(msg_id, leds)[4] == msg_id,
        frame_packet(msg_id, leds)[5] == 128,
        forall|i: int|
            0 <= i < leds.len() ==> #[trigger] frame_carries_led(frame_packet(msg_id, leds), i, leds[i]),
        frame_packet(msg_id, leds).last() == checksum_of(frame_packet(msg_id, leds).drop_last()),
{
    lemma_led_entries(leds);
    let f = frame_packet(msg_id, leds);
    let total = frame_len(leds.len());
    let head = seq![0x53u8, 0x43u8, ((total / 256) % 256) as u8, (total % 256) as u8, msg_id, 128u8]
        + led_entries(leds);
    assert(f.drop_last() =~= head);
    assert(f.len() == total);
    assert(total < 65536 ==> ((total / 256) % 256) * 256 + total % 256 == total) by (nonlinear_arith);
    assert(f[2] == ((total / 256) % 256) as u8 && f[3] == (total % 256) as u8);
    assert forall|i: int| 0 <= i < leds.len() implies #[trigger] frame_carries_led(f, i, leds[i]) by {
        assert forall|k: int| 0 <= k < 5 implies f.subrange(6 + 5 * i, 11 + 5 * i)[k] == led_entry(
            i,
            leds[i],
        )[k] by {
            assert(f[6 + 5 * i + k] == led_entries(leds)[5 * i + k]);
        }
        assert(f.subrange(6 + 5 * i, 11 + 5 * i) =~= led_entry(i, leds[i]));
    }
}

/// A command packet can be read back: it has the `RB` header, its length byte
/// is its length modulo 256, it carries the id, the action and the payload, and
/// its last byte is the checksum of all the others.
pub proof fn lemma_rb_layout(msg_id: u8, action: u8, payload: Seq<u8>)
    ensures
        ({
            let p = rb_packet(msg_id, action, payload);
            &&& p.len() == payload.len() + 6
            &&& p[0] == 0x52 && p[1] == 0x42
            &&& p[2] == (p.len() % 256) as u8
            &&& p[3] == msg_id
            &&& p[4] == action
            &&& p.subrange(5, 5 + payload.len() as int) == payload
            &&& p.last() == checksum_of(p.drop_last())
        }),
{
    let p = rb_packet(msg_id, action, payload);
    assert(p.subrange(5, 5 + payload.len() as int) =~= payload);
    let head = seq![0x52u8, 0x42u8, ((6 + payload.len()) % 256) as u8, msg_id, action] + payload;
    assert(p.drop_last() =~= head);
}


proof fn lemma_short_packet_reports(p: Seq<u8>)
    requires
        0 < p.len() <= 64,
    ensures
        hid_reports(p) == seq![seq![0u8] + p + zeros((64 - p.len()) as nat)],
{
    assert(p.take(p.len() as int) =~= p);
    assert(p.skip(p.len() as int) =~= Seq::<u8>::empty());
    assert(hid_reports(Seq::<u8>::empty()) =~= Seq::<Seq<u8>>::empty());
    assert(hid_reports(p) =~= seq![hid_report(p)]);
}

/// The initialisation sequence, byte by byte: the reset command (id 0) in the
/// first report, the brightness command (id 1) carrying the `brightness`
/// argument in the second, the mode command (id 2) in the third, and then the
/// reports of a frame (id 3) that turns all `n_leds` LEDs black. Only the
/// second report depends on the brightness.
pub proof fn lemma_init_reports(brightness: u8, n_leds: nat)
    ensures
        init_reports(brightness, n_leds).len() == 3 + (frame_len(n_leds) + 63) / 64,
        init_reports(brightness, n_leds)[0] == seq![0u8, 0x52u8, 0x42u8, 7u8, 0u8, 147u8, 0u8, 46u8] + zeros(57),
        init_reports(brightness, n_leds)[1] == seq![
            0u8,
            0x52u8,
            0x42u8,
            7u8,
            1u8,
            135u8,
            brightness,
            ((291 + brightness as int) % 256) as u8,
        ] + zeros(57),
        init_reports(brightness, n_leds)[2] == seq![
            0u8,
            0x52u8,
            0x42u8,
            16u8,
            2u8,
            134u8,
            1u8,
            85u8,
            85u8,
            85u8,
            63u8,
            64u8,
            0u8,
            0u8,
            0u8,
            254u8,
            169u8,
        ] + zeros(48),
        ({
            let f = report_payloads(init_reports(brightness, n_leds).skip(3));
            &&& f.len() >= frame_len(n_leds)
            &&& f[0] == 0x53 && f[1] == 0x43 && f[4] == 3 && f[5] == 128
            &&& forall|i: int| 0 <= i < n_leds ==> #[trigger] frame_carries_led(f, i, (0u8, 0u8, 0u8))
        }),
{
    reveal_with_fuel(byte_sum, 18);
    let p0 = rb_packet(0, 147, seq![0u8]);
    let p1 = rb_packet(1, 135, seq![brightness]);
    let p2 = rb_packet(2, 134, mode_payload());
    let head1 = seq![0x52u8, 0x42u8, 7u8, 1u8, 135u8, brightness];
    assert(seq![0x52u8, 0x42u8, ((6 + 1nat) % 256) as u8, 1u8, 135u8] + seq![brightness] =~= head1);
    assert(head1.drop_last().drop_last().drop_last().drop_last().drop_last().drop_last() =~= Seq::<u8>::empty());
    assert(byte_sum(head1) == 291 + brightness as int);
    assert(p0 =~= seq![0x52u8, 0x42u8, 7u8, 0u8, 147u8, 0u8, 46u8]);
    assert(p1 =~= seq![0x52u8, 0x42u8, 7u8, 1u8, 135u8, brightness, ((291 + brightness as int) % 256) as u8]);
    assert(p2 =~= seq![0x52u8, 0x42u8, 16u8, 2u8, 134u8, 1u8, 85u8, 85u8, 85u8, 63u8, 64u8, 0u8, 0u8, 0u8, 254u8, 169u8]);
    lemma_short_packet_reports(p0);
    lemma_short_packet_reports(p1);
    lemma_short_packet_reports(p2);
    let fr = frame_packet(3, black_leds(n_leds));
    lemma_frame_layout(3, black_leds(n_leds));
    lemma_reports_shape(fr);
    lemma_reports_reassemble(fr);
    let all = init_reports(brightness, n_leds);
    assert(all =~= seq![hid_report(p0), hid_report(p1), hid_report(p2)] + hid_reports(fr));
    assert(all.skip(3) =~= hid_reports(fr));
    let f = report_payloads(all.skip(3));
    assert(f == fr + zeros(padding_len(fr.len())));
    assert forall|i: int| 0 <= i < n_leds implies #[trigger] frame_carries_led(f, i, (0u8, 0u8, 0u8)) by {
        assert(frame_carries_led(fr, i, black_leds(n_leds)[i]));
        assert(f.subrange(6 + 5 * i, 11 + 5 * i) =~= fr.subrange(6 + 5 * i, 11 + 5 * i));
    }
}

} // verus!
