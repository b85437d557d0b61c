use verz_link::binary64::Binary64;
use verz_link::egress::Endpoint;
use verz_link::lab::{
    answer_delay, check_probe, check_run, distribution, is_awaited, Both, LabClient, LabDecision,
    LabFault, LabKind, LabMessage, LabRelay, LabReply, Side,
};

fn at(port: u16) -> Endpoint {
    Endpoint { v6: false, host: 0x7f00_0001, port, scope: 0 }
}

fn message(kind: LabKind, flow: u8, sequence: u64) -> LabMessage {
    LabMessage { kind, flow, sequence, echo_micros: 77, payload: vec![1, 2, 3] }
}

#[test]
fn lab_relay_tells_copies_apart_across_paths() {
    let mut relay = LabRelay::new();
    assert!(relay.lets_in(9, 0));
    let probe = relay.accept(9, 0, at(1), &message(LabKind::Probe, 5, 4), &[], 1000);
    assert_eq!(
        probe,
        Some(LabReply { kind: LabKind::Pong, flow: 0, sequence: 4, echo_micros: 77 })
    );
    let ack = Some(LabReply { kind: LabKind::Ack, flow: 2, sequence: 8, echo_micros: 77 });
    let data = message(LabKind::Data, 2, 8);
    assert_eq!(relay.accept(9, 0, at(1), &data, &[1, 2, 3], 1001), ack);
    assert_eq!(relay.accept(9, 1, at(2), &data, &[1, 2, 3], 1002), ack);
    assert_eq!(relay.stats.unique_data_packets, 1);
    assert_eq!(relay.stats.repaired_or_duplicate_data, 1);
    // The same number of another session is another packet.
    assert_eq!(relay.accept(10, 0, at(3), &data, &[1, 2, 3], 1003), ack);
    assert_eq!(relay.stats.unique_data_packets, 2);
    assert_eq!(relay.accept(9, 0, at(1), &data, &[1, 2, 4], 1004), None);
    assert_eq!(relay.stats.invalid_datagrams, 1);
    assert_eq!(relay.accept(9, 0, at(1), &message(LabKind::Ack, 0, 1), &[], 1005), None);
    assert_eq!(relay.stats.authenticated_datagrams, 6);
    assert_eq!(relay.peers.len(), 3);
    assert_eq!(relay.sessions(), 2);
}

#[test]
fn lab_relay_forgets_silent_paths_and_their_numbers() {
    let mut relay = LabRelay::new();
    let data = message(LabKind::Data, 0, 1);
    relay.accept(1, 0, at(1), &data, &[1, 2, 3], 0);
    relay.accept(2, 0, at(2), &data, &[1, 2, 3], 1);
    relay.expire(120_000);
    assert_eq!((relay.peers.len(), relay.stats.sessions), (2, 2));
    relay.expire(120_001);
    assert_eq!((relay.peers.len(), relay.delivered.len(), relay.stats.sessions), (1, 1, 1));
    relay.accept(1, 0, at(1), &data, &[1, 2, 3], 120_001);
    assert_eq!(relay.stats.unique_data_packets, 3);
}

#[test]
fn lab_relay_serves_a_bounded_number_of_paths() {
    let mut relay = LabRelay::new();
    for path in 0..=255_u8 {
        assert!(relay.lets_in(1, path));
        relay.accept(1, path, at(1), &message(LabKind::Probe, 0, 0), &[], 0);
    }
    assert!(!relay.lets_in(2, 0));
    assert!(relay.lets_in(1, 255));
    relay.reject();
    assert_eq!(relay.stats.invalid_datagrams, 2);
}

#[test]
fn lab_client_repairs_once_and_accounts_for_every_packet() {
    let mut client = LabClient::new();
    let limits = Both { first: 20_000, second: 45_000 };
    let well = Both { first: true, second: true };
    let plain = LabDecision {
        primary: Side::First,
        alternate: Some(Side::Second),
        protect_in_advance: false,
    };
    assert_eq!(client.decide(plain, false), vec![Side::First]);
    assert_eq!(client.decide(plain, true), vec![Side::First, Side::Second]);
    let guarded = LabDecision { protect_in_advance: true, ..plain };
    assert_eq!(client.decide(guarded, false), vec![Side::First, Side::Second]);
    let alone = LabDecision { alternate: None, ..guarded };
    assert_eq!(client.decide(alone, true), vec![Side::First]);
    assert_eq!(client.counters.reactive_repair_decisions, 2);
    assert_eq!(client.counters.protect_in_advance_decisions, 2);

    for now in [0, 10_000] {
        client.copy_tried(true, true);
        client.note(Side::First, Both { first: true, second: false }, now, now);
    }
    client.copy_tried(true, false);
    client.note(Side::First, Both { first: false, second: false }, 20_000, 20_000);
    assert_eq!((client.sequence, client.pending.len()), (3, 2));
    assert_eq!(client.exposed(1000), 2 * 1096);

    assert_eq!(client.repairs(limits, well, 19_999), vec![]);
    assert_eq!(client.repairs(limits, well, 20_000), vec![(0, Side::Second)]);
    let ill = Both { first: true, second: false };
    assert_eq!(client.repairs(limits, ill, 20_000), vec![]);
    assert_eq!(client.origin(0), Some(0));
    client.repair_tried(0, Side::Second, false);
    assert_eq!(client.repairs(limits, well, 20_000), vec![(0, Side::Second)]);
    client.repair_tried(0, Side::Second, true);
    assert_eq!(client.repairs(limits, well, 20_000), vec![]);

    client.acknowledge(0, 30_000);
    client.acknowledge(0, 31_000);
    assert_eq!(client.counters.acknowledged, 1);
    assert_eq!((client.maximum_recovery, client.maximum_ack_gap), (30_000, 0));
    client.expire(110_000);
    assert!(client.passed());
    client.expire(110_001);
    assert_eq!((client.counters.expired, client.pending.len()), (1, 0));
    assert!(!client.passed());
    assert_eq!(client.counters.sent_original, 2);
    assert_eq!(client.counters.sent_repair, 1);
    assert_eq!(client.counters.socket_errors, 2);
}

#[test]
fn lab_client_fails_on_a_long_gap() {
    let mut client = LabClient::new();
    for now in [0, 1] {
        client.note(Side::Second, Both { first: false, second: true }, now, now);
    }
    client.acknowledge(0, 10);
    client.acknowledge(1, 100_010);
    assert_eq!(client.maximum_ack_gap, 100_000);
    assert!(client.passed());
    client.note(Side::Second, Both { first: false, second: true }, 100_011, 100_011);
    client.acknowledge(2, 200_011);
    assert!(!client.passed());
}

#[test]
fn lab_arguments_are_checked() {
    let (a, b) = ("en0".to_string(), "en1".to_string());
    assert_eq!(check_run(&a, &a, 100), Err(LabFault::SameInterface));
    assert_eq!(check_run(&a, &b, 0), Err(LabFault::Rate));
    assert_eq!(check_run(&a, &b, 1001), Err(LabFault::Rate));
    assert_eq!(check_run(&a, &b, 1000), Ok(()));
    assert_eq!(check_probe(0, 1), Err(LabFault::Count));
    assert_eq!(check_probe(100, 10_001), Err(LabFault::DataPackets));
    assert_eq!(check_probe(100, 10_000), Ok(()));
    assert_eq!(LabFault::Count.message(), "count must be between 1 and 100");
    assert!(is_awaited(&message(LabKind::Ack, 0, 3), LabKind::Ack, 3));
    assert!(!is_awaited(&message(LabKind::Ack, 0, 3), LabKind::Pong, 3));
    assert_eq!(answer_delay(5, 12), Some(7));
    assert_eq!(answer_delay(12, 5), None);
}

#[test]
fn samples_have_a_distribution() {
    let list: Vec<Binary64> = [3.5_f64, 1.25, 2.0]
        .iter()
        .map(|x| Binary64::from_bits(x.to_bits()))
        .collect();
    let (least, mean, greatest) = distribution(&list).unwrap();
    assert_eq!(f64::from_bits(least.bits), 1.25);
    assert_eq!(f64::from_bits(mean.bits), 6.75 / 3.0);
    assert_eq!(f64::from_bits(greatest.bits), 3.5);
    assert!(distribution(&[]).is_none());
}
