use verz_link::admission::{
    destination_allowed, join_number, joins_batching, joins_metered, number_policy,
    policy_number, receive_to_writer, Room, RELAY_IP,
};
use verz_link::bond::{Policy, Scheduler};
use verz_link::frame::{Frame, Kind};
use verz_link::reorder::TcpReorder;

/// A queue of a length before the system.
struct Writer {
    waiting: Vec<Vec<u8>>,
    places: usize,
    closed: bool,
}

impl Writer {
    fn room(&self) -> Room {
        if self.closed {
            Room::Closed
        } else if self.waiting.len() < self.places {
            Room::Free
        } else {
            Room::Full
        }
    }

    fn receive(&mut self, scheduler: &mut Scheduler, frame: &Frame, now: u64) -> Vec<Frame> {
        let (packet, answers) = receive_to_writer(scheduler, frame, self.room(), now).unwrap();
        self.waiting.extend(packet);
        assert!(self.waiting.len() <= self.places);
        answers
    }
}

fn one(name: &str) -> Scheduler {
    Scheduler::new(vec![(name.into(), false)], Policy::Smart).unwrap()
}

fn data(id: u64) -> Frame {
    let mut ip = vec![0; 140];
    ip[0] = 0x45;
    ip[2..4].copy_from_slice(&140_u16.to_be_bytes());
    ip[9] = 6;
    ip[32] = 0x50;
    ip[24..28].copy_from_slice(&(id as u32 * 100).to_be_bytes());
    Frame { kind: Kind::Data, path: 0, id, stamp: 0, body: ip }
}

#[test]
fn blocked_tun_writer_refuses_before_ack_and_accepts_retry() {
    let mut writer = Writer { waiting: Vec::new(), places: 1, closed: false };
    let mut scheduler = one("one-source");
    let first = data(0);
    let next = data(1);
    assert_eq!(writer.receive(&mut scheduler, &first, 0).len(), 1);
    assert!(writer.receive(&mut scheduler, &next, 1).is_empty());
    assert!(!scheduler.has_received(1));
    assert_eq!(scheduler.counters.receive_backpressure, 1);
    assert_eq!(scheduler.counters.delivered_packets, 1);
    // Existing ACKs and health probes do not require a free data slot.
    assert_eq!(writer.receive(&mut scheduler, &first, 2).len(), 1);
    let probe = Frame::control(Kind::Probe, 0, 7, 2);
    assert_eq!(writer.receive(&mut scheduler, &probe, 2)[0].kind, Kind::Pong);
    assert_eq!(writer.waiting.remove(0), first.body);
    assert_eq!(writer.receive(&mut scheduler, &next, 70).len(), 1);
    assert_eq!(writer.waiting.remove(0), next.body);
    assert_eq!(scheduler.counters.delivered_packets, 2);
    assert_eq!(scheduler.counters.queue_drops, 0);
}

#[test]
fn reordered_burst_larger_than_admission_queue_is_written_without_loss() {
    let mut reorder = TcpReorder::default();
    assert_eq!(reorder.push(data(0).body, 0).len(), 1);
    for id in 2..1500 {
        assert!(reorder.push(data(id).body, 1).is_empty());
    }
    let burst = reorder.push(data(1).body, 41);
    assert_eq!(burst.len(), 1499);
    assert_eq!(burst, (1..1500).map(|id| data(id).body).collect::<Vec<_>>());
}

#[test]
fn admission_budget_is_shared_between_clients_without_false_acks() {
    let mut writer = Writer { waiting: Vec::new(), places: 1, closed: false };
    let mut a = one("a");
    let mut b = one("b");
    assert_eq!(writer.receive(&mut a, &data(0), 0).len(), 1);
    assert!(writer.receive(&mut b, &data(0), 1).is_empty());
    assert!(!b.has_received(0));
    writer.waiting.clear();
    assert_eq!(writer.receive(&mut b, &data(0), 2).len(), 1);
}

#[test]
fn closed_writer_does_not_acknowledge_or_mark_new_data() {
    let mut scheduler = one("one-source");
    let refused = receive_to_writer(&mut scheduler, &data(0), Room::Closed, 0);
    assert_eq!(refused.err().unwrap().message(), "tunnel admission queue closed");
    assert!(!scheduler.has_received(0));
}

#[test]
fn join_carries_policy_meter_and_features() {
    for policy in [Policy::Smart, Policy::Performance, Policy::Continuity, Policy::DataSaver] {
        for metered in [false, true] {
            let id = join_number(policy, metered);
            assert_eq!(number_policy(id), policy);
            assert_eq!(joins_metered(id), metered);
            assert!(joins_batching(id));
            assert!(policy_number(policy) < 4);
        }
    }
    assert!(!joins_batching(0));
}

#[test]
fn relay_lets_only_public_destinations_pass() {
    let mut packet = vec![0; 20];
    for (address, allowed) in [
        ([1, 1, 1, 1], true),
        (RELAY_IP, true),
        ([10, 78, 0, 9], false),
        ([169, 254, 169, 254], false),
        ([192, 168, 1, 1], false),
    ] {
        packet[16..20].copy_from_slice(&address);
        assert_eq!(destination_allowed(&packet), allowed, "{address:?}");
    }
}
