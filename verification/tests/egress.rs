use verz_link::egress::{
    group_len, Datagram, Egress, Endpoint, Outcome, SendFailure, SendProblem, MAX_BATCH_BYTES,
    MAX_BATCH_PACKETS,
};

fn address(port: u16) -> Endpoint {
    Endpoint { v6: false, host: 0x7f00_0001, port, scope: 0 }
}

fn packet(id: u8, size: usize) -> Datagram {
    Datagram { address: address(18_000), path: 0, bytes: vec![id; size], tcp_data: true }
}

fn enabled() -> Egress {
    Egress::new(true)
}

fn size(batch: &[Datagram]) -> usize {
    batch.iter().map(|p| p.bytes.len()).sum()
}

fn send_with<F: FnMut(&[Datagram], bool) -> Outcome>(
    sender: &mut Egress,
    packets: &[Datagram],
    mut call: F,
) -> Vec<SendFailure> {
    let mut at = 0;
    let mut failures = Vec::new();
    while let Some(next) = sender.next_call(packets, at) {
        let outcome = call(&packets[next.start..next.start + next.count], next.joined);
        let (then_at, failure) = sender.settle(packets, next, outcome);
        at = then_at;
        failures.extend(failure);
    }
    failures
}

#[test]
fn preserves_every_byte_and_order_with_bounded_groups() {
    let packets: Vec<_> = (0..100).map(|n| packet(n, 1343)).collect();
    let mut sender = enabled();
    let mut ids = Vec::new();
    let errors = send_with(&mut sender, &packets, |batch, gso| {
        assert!(gso);
        assert!(batch.len() <= MAX_BATCH_PACKETS);
        assert!(size(batch) <= MAX_BATCH_BYTES);
        for p in batch {
            assert!(p.bytes.iter().all(|b| *b == p.bytes[0]));
            ids.push(p.bytes[0]);
        }
        Outcome::Sent(size(batch))
    });
    assert!(errors.is_empty());
    assert_eq!(ids, (0..100).collect::<Vec<u8>>());
    assert_eq!(sender.counters.sent_bytes, 134300);
    assert_eq!(sender.counters.gso_batches, 4);
    assert_eq!(sender.counters.gso_datagrams, 100);
}

#[test]
fn boundaries_do_not_cross_paths_destinations_sizes_or_media() {
    let mut packets: Vec<_> = (0..8).map(|n| packet(n, 1200)).collect();
    packets[2].path = 1;
    packets[3].address = address(18_001);
    packets[4].bytes.push(4);
    packets[5].tcp_data = false;
    let mut groups = Vec::new();
    send_with(&mut enabled(), &packets, |batch, gso| {
        groups.push((batch.iter().map(|p| p.bytes[0]).collect::<Vec<_>>(), gso));
        Outcome::Sent(size(batch))
    });
    assert_eq!(
        groups,
        vec![
            (vec![0, 1], true),
            (vec![2], false),
            (vec![3], false),
            (vec![4], false),
            (vec![5], false),
            (vec![6, 7], true)
        ]
    );
}

#[test]
fn unsupported_offload_falls_back_once_without_duplicates_or_nonce_changes() {
    let packets: Vec<_> = (0..70).map(|n| packet(n, 1300)).collect();
    let mut sender = enabled();
    let mut seen = Vec::new();
    let errors = send_with(&mut sender, &packets, |batch, gso| {
        if gso {
            return Outcome::Unsupported;
        }
        seen.push(batch[0].bytes.clone());
        Outcome::Sent(batch[0].bytes.len())
    });
    assert!(errors.is_empty());
    assert_eq!(seen, packets.iter().map(|p| p.bytes.clone()).collect::<Vec<_>>());
    assert!(!sender.gso_enabled);
    assert_eq!(sender.counters.gso_calls, 1);
    assert_eq!(sender.counters.gso_fallbacks, 1);
    assert_eq!(sender.counters.single_calls, 70);
}

#[test]
fn blocked_and_short_sends_are_not_reported_as_delivery_or_retried() {
    for (outcome, problem) in [
        (Outcome::WouldBlock, SendProblem::WouldBlock),
        (Outcome::System(101), SendProblem::System(101)),
    ] {
        let packets: Vec<_> = (0..4).map(|n| packet(n, 1300)).collect();
        let mut sender = enabled();
        let errors = send_with(&mut sender, &packets, |_, _| outcome);
        assert_eq!(errors.len(), 1);
        assert_eq!(errors[0].packets, 4);
        assert_eq!(errors[0].error, problem);
        assert_eq!(sender.counters.sent_datagrams, 0);
        assert!(sender.gso_enabled);
        assert_eq!(sender.counters.single_calls, 0);
    }
    let mut sender = enabled();
    assert_eq!(
        send_with(&mut sender, &[packet(0, 1200), packet(1, 1200)], |_, _| Outcome::Sent(1200))[0]
            .error,
        SendProblem::Short
    );
    assert_eq!(sender.counters.sent_datagrams, 0);
    assert_eq!(sender.counters.gso_calls, 1);
}

#[test]
fn group_length_is_exact_at_both_limits() {
    let small: Vec<_> = (0..40).map(|n| packet(n, 100)).collect();
    assert_eq!(group_len(&small, 0), 32);
    assert_eq!(group_len(&small, 32), 8);
    assert_eq!(group_len(&small, 39), 1);
    let large: Vec<_> = (0..40).map(|n| packet(n, 1_600)).collect();
    assert_eq!(group_len(&large, 0), 30);
    let mut single = enabled();
    single.gso_enabled = false;
    assert_eq!(single.next_call(&small, 0).unwrap().count, 1);
    assert!(single.next_call(&small, 40).is_none());
}

#[test]
fn counters_begin_at_nothing() {
    let counters = Egress::new(false).counters;
    assert_eq!((counters.sent_datagrams, counters.sent_bytes, counters.single_calls), (0, 0, 0));
    assert_eq!((counters.gso_calls, counters.gso_batches, counters.gso_datagrams), (0, 0, 0));
    assert_eq!(
        (counters.gso_fallbacks, counters.would_block_datagrams, counters.failed_datagrams),
        (0, 0, 0)
    );
}

#[test]
fn each_datagram_is_handed_over_once_whatever_comes_of_it() {
    let packets: Vec<_> = (0..40).map(|n| packet(n, 1343)).collect();
    let mut sender = enabled();
    let mut handed = Vec::new();
    let mut calls = 0;
    let failures = send_with(&mut sender, &packets, |batch, joined| {
        calls += 1;
        if joined && calls == 2 {
            return Outcome::Unsupported;
        }
        handed.extend(batch.iter().map(|p| p.bytes[0]));
        match batch[0].bytes[0] {
            34 => Outcome::WouldBlock,
            35 => Outcome::System(101),
            36 => Outcome::Sent(1),
            _ => Outcome::Sent(size(batch)),
        }
    });
    assert_eq!(handed, (0..40).collect::<Vec<u8>>());
    assert_eq!(failures.len(), 3);
    let c = sender.counters;
    assert_eq!((c.sent_datagrams, c.would_block_datagrams, c.failed_datagrams), (37, 1, 2));
    assert_eq!(c.gso_fallbacks, 1);
    assert!(!sender.gso_enabled);
}
