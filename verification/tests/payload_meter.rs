use verz_link::payload_meter::{
    udp_payload_len, Direction, PayloadMeter, Stream, IDLE_MS, LAST_FOLLOWED, MAX_RANGES,
};

fn packet(d: Direction, seq: u32, ack: u32, flags: u8, len: usize) -> Vec<u8> {
    let mut p = vec![0; 40 + len];
    p[0] = 0x45;
    p[9] = 6;
    p[2..4].copy_from_slice(&((40 + len) as u16).to_be_bytes());
    if matches!(d, Direction::Upload) {
        p[12..20].copy_from_slice(&[10, 0, 0, 2, 1, 1, 1, 1]);
        p[20..24].copy_from_slice(&[4, 0, 1, 187]);
    } else {
        p[12..20].copy_from_slice(&[1, 1, 1, 1, 10, 0, 0, 2]);
        p[20..24].copy_from_slice(&[1, 187, 4, 0]);
    }
    p[24..28].copy_from_slice(&seq.to_be_bytes());
    p[28..32].copy_from_slice(&ack.to_be_bytes());
    p[32] = 0x50;
    p[33] = flags;
    p
}
fn observe(m: &mut PayloadMeter, d: Direction, seq: u32, ack: u32, flags: u8, len: usize) {
    m.observe(&packet(d, seq, ack, flags, len), d, 0);
}
fn opened(seq: u32) -> PayloadMeter {
    let mut m = PayloadMeter::default();
    observe(&mut m, Direction::Upload, seq, 0, 2, 0);
    observe(&mut m, Direction::Download, 500, seq.wrapping_add(1), 18, 0);
    m
}
#[test]
fn payload_requires_tcp_ack_and_excludes_retries_headers_and_fin() {
    let mut m = opened(100);
    observe(&mut m, Direction::Upload, 101, 501, 16, 1000);
    observe(&mut m, Direction::Upload, 101, 501, 16, 1000);
    assert_eq!(m.upload_bytes, 0);
    observe(&mut m, Direction::Download, 501, 601, 16, 0);
    assert_eq!(m.upload_bytes, 500);
    observe(&mut m, Direction::Upload, 501, 501, 16, 600);
    observe(&mut m, Direction::Download, 501, 1101, 16, 0);
    observe(&mut m, Direction::Download, 501, 1101, 16, 0);
    observe(&mut m, Direction::Upload, 1101, 501, 17, 0);
    observe(&mut m, Direction::Download, 501, 1102, 16, 0);
    assert_eq!(m.upload_bytes, 1000);
    assert_eq!(m.download_bytes, 0);
}
#[test]
fn downloads_wait_for_mac_ack_and_do_not_count_missing_bytes() {
    let mut m = opened(100);
    observe(&mut m, Direction::Download, 1501, 101, 16, 500);
    observe(&mut m, Direction::Download, 501, 101, 16, 500);
    assert_eq!(m.download_bytes, 0);
    observe(&mut m, Direction::Upload, 101, 2001, 16, 0);
    assert_eq!(m.download_bytes, 1000);
}
#[test]
fn sequence_wrap_and_late_duplicates() {
    let mut m = opened(u32::MAX - 10);
    observe(&mut m, Direction::Upload, u32::MAX - 9, 501, 16, 30);
    observe(&mut m, Direction::Download, 501, 20, 16, 0);
    observe(&mut m, Direction::Upload, u32::MAX - 9, 501, 16, 30);
    observe(&mut m, Direction::Download, 501, 20, 16, 0);
    assert_eq!(m.upload_bytes, 30);
}
#[test]
fn invalid_future_ack_does_not_credit_pending_data() {
    let mut m = opened(100);
    observe(&mut m, Direction::Upload, 101, 501, 16, 20);
    observe(&mut m, Direction::Download, 501, 10_000, 16, 0);
    assert_eq!(m.upload_bytes, 0);
}
#[test]
fn unobserved_and_expired_connections_are_marked_partial() {
    let mut m = PayloadMeter::default();
    observe(&mut m, Direction::Upload, 101, 501, 16, 20);
    assert_eq!(m.unmeasured_packets, 1);
    m = opened(100);
    m.expire(IDLE_MS);
    observe(&mut m, Direction::Upload, 101, 501, 16, 20);
    assert_eq!(m.upload_bytes, 0);
    assert_eq!(m.unmeasured_packets, 1);
}
#[test]
fn tuple_reuse_starts_a_new_sequence_epoch() {
    let mut m = opened(100);
    observe(&mut m, Direction::Upload, 101, 501, 16, 20);
    observe(&mut m, Direction::Download, 501, 121, 16, 0);
    observe(&mut m, Direction::Upload, 900, 0, 2, 0);
    observe(&mut m, Direction::Upload, 901, 0, 16, 30);
    observe(&mut m, Direction::Download, 501, 931, 16, 0);
    assert_eq!(m.upload_bytes, 50);
}
#[test]
fn bounded_ranges_report_coverage_loss_instead_of_guessing() {
    let mut m = opened(100);
    for i in 0..MAX_RANGES + 2 {
        observe(&mut m, Direction::Upload, 101 + (i * 4) as u32, 501, 16, 1);
    }
    assert_eq!(m.unmeasured_packets, 2);
    assert_eq!(
        m.flows.entries.values().next().unwrap().upload.ranges.len(),
        MAX_RANGES
    );
}
#[test]
fn malformed_tcp_and_fragmented_udp_do_not_invent_payload() {
    let mut m = opened(100);
    let mut p = packet(Direction::Upload, 101, 501, 16, 20);
    p[32] = 0xf0;
    m.observe(&p, Direction::Upload, 0);
    assert_eq!(m.unmeasured_packets, 1);
    p[9] = 17;
    p[24..26].copy_from_slice(&40u16.to_be_bytes());
    assert_eq!(udp_payload_len(&p), Some(32));
    p[6] = 0x20;
    assert_eq!(udp_payload_len(&p), None);
}

#[test]
fn every_byte_counts_once_over_repeats_and_a_new_connection() {
    let mut m = opened(100);
    for _ in 0..3 {
        observe(&mut m, Direction::Upload, 101, 501, 16, 20);
        observe(&mut m, Direction::Download, 501, 121, 16, 0);
    }
    // Overlapping segments, acknowledged in parts.
    observe(&mut m, Direction::Upload, 111, 501, 16, 20);
    observe(&mut m, Direction::Download, 501, 126, 16, 0);
    observe(&mut m, Direction::Download, 501, 131, 16, 0);
    assert_eq!(m.upload_bytes, 30);
    // The same numbers in a later connection are other bytes.
    observe(&mut m, Direction::Upload, 900, 0, 2, 0);
    observe(&mut m, Direction::Upload, 901, 0, 16, 30);
    observe(&mut m, Direction::Download, 501, 931, 16, 0);
    assert_eq!((m.upload_bytes, m.download_bytes), (60, 0));
}
#[test]
fn counters_never_fall_and_idle_segments_add_nothing() {
    let mut m = opened(100);
    let mut before = (0, 0, 0);
    let steps = [
        (Direction::Upload, 101, 501, 16, 1000),
        (Direction::Download, 501, 5000, 16, 0),
        (Direction::Download, 501, 1101, 16, 0),
        (Direction::Download, 501, 601, 16, 0),
        (Direction::Upload, 1101, 501, 17, 0),
        (Direction::Download, 501, 1102, 17, 200),
        (Direction::Upload, 1102, 701, 16, 0),
    ];
    for (d, seq, ack, flags, len) in steps {
        observe(&mut m, d, seq, ack, flags, len);
        let now = (m.upload_bytes, m.download_bytes, m.unmeasured_packets);
        assert!(before.0 <= now.0 && before.1 <= now.1 && before.2 <= now.2);
        before = now;
    }
    assert_eq!(before, (1000, 200, 0));
}
#[test]
fn payload_beyond_the_last_position_is_not_followed() {
    let mut s = Stream::new();
    s.reference = Some(LAST_FOLLOWED + 1);
    let seq = (LAST_FOLLOWED + 1) as u32;
    assert!(!s.observe(seq, 10, false, false));
    assert!(s.observe(seq, 0, false, true));
    assert_eq!(s.reference, Some(LAST_FOLLOWED + 1));
    let mut s = Stream::new();
    s.reference = Some(LAST_FOLLOWED);
    assert!(s.observe(LAST_FOLLOWED as u32, 10, false, false));
    assert_eq!(s.acknowledge((LAST_FOLLOWED + 10) as u32), 10);
}
