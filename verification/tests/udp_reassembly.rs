use verz_link::envelope::{Packet, FEC};
use verz_link::udp_reassembly::Stream;

fn p(sequence: u32) -> Packet {
    Packet {
        sequence,
        class: 4,
        timestamp_us: 100 + sequence as i64,
        ..Default::default()
    }
}
fn stream() -> Stream {
    Stream::new(50_000, 25_000, 512)
}
#[test]
fn restores_packet_order_and_acks() {
    let mut s = stream();
    assert_eq!(s.insert(p(0), 0).unwrap().ack, Some(0));
    assert!(s.insert(p(2), 1).unwrap().ready.is_empty());
    let out = s.insert(p(1), 2).unwrap();
    assert_eq!(
        out.ready.iter().map(|p| p.sequence).collect::<Vec<_>>(),
        vec![1, 2]
    );
    assert_eq!(out.ack, Some(2));
}
#[test]
fn backup_copy_recovers_missing_primary_once() {
    let mut s = stream();
    let mut copy = p(0);
    copy.flags = FEC;
    copy.link = 2;
    assert_eq!(s.insert(copy, 0).unwrap().ready.len(), 1);
    assert!(s.insert(p(0), 1).unwrap().ready.is_empty());
}
#[test]
fn tick_requests_gap_without_new_packets() {
    let mut s = stream();
    s.insert(p(1), 0).unwrap();
    assert!(s.tick(49_999).nack.is_empty());
    assert_eq!(s.tick(50_000).nack, vec![0]);
    // A packet that waited too long may pass over the gap.
    assert_eq!(s.tick(50_001).ready[0].sequence, 1);
}
#[test]
fn delayed_packet_does_not_restart_stream() {
    let mut s = stream();
    for seq in 0..300 {
        s.insert(p(seq), seq as u64).unwrap();
    }
    assert!(s.insert(p(0), 301).unwrap().ready.is_empty());
    let mut restart = p(0);
    restart.timestamp_us = 1000;
    assert_eq!(s.insert(restart, 302).unwrap().ack, Some(0));
}
#[test]
fn bounded_pending_memory() {
    let mut s = Stream::new(50_000, 25_000, 2);
    s.insert(p(1), 0).unwrap();
    s.insert(p(2), 0).unwrap();
    assert!(s.insert(p(3), 0).is_err());
}

#[test]
fn full_future_copy_buffer_accepts_gap_fill_and_drains_all_ready_copies() {
    let mut s = Stream::new(50_000, 25_000, 4);
    for seq in 1..=4 {
        let mut copy = p(seq);
        copy.flags = FEC;
        assert!(s.insert(copy, 1000).unwrap().ready.is_empty());
    }
    let mut gap = p(0);
    gap.flags = FEC;
    let out = s.insert(gap, 2000).unwrap();
    assert_eq!(
        out.ready.iter().map(|p| p.sequence).collect::<Vec<_>>(),
        vec![0, 1, 2, 3, 4]
    );
    assert_eq!(out.ack, Some(4));
    assert!(s.copies.is_empty());
}

#[test]
fn acknowledgement_names_the_last_packet_released() {
    let mut s = stream();
    s.insert(p(0), 0).unwrap();
    assert!(s.insert(p(2), 1).unwrap().ready.is_empty());
    assert!(s.insert(p(4), 2).unwrap().ack.is_none());
    let out = s.tick(50_003);
    assert_eq!(out.ready.last().map(|packet| packet.sequence), out.ack);
    assert_eq!(out.ack, Some(4));
}
#[test]
fn number_asked_for_is_neither_released_nor_held() {
    let mut s = stream();
    let mut released = Vec::new();
    let mut asked = Vec::new();
    for (now, seq) in [(0, 0), (10, 2), (20, 3), (30, 6), (40, 1), (60_000, 5)] {
        let out = s.insert(p(seq), now).unwrap();
        released.extend(out.ready.iter().map(|p| p.sequence));
        asked.extend(out.nack);
    }
    assert_eq!(released, vec![0, 1, 2, 3, 6]);
    assert!(asked.is_empty());
    let mut s = stream();
    for seq in [0, 1, 2, 5] {
        released = s.insert(p(seq), 100).unwrap().ready.iter().map(|p| p.sequence).collect();
    }
    assert!(released.is_empty());
    assert_eq!(s.tick(50_100).nack, vec![3]);
}
