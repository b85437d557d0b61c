//! The parts on which the UDP lane stands.
use verz_link::binary64::Binary64;
use verz_link::envelope::{
    decode_nack, encode_nack, Packet, PacketError, HEARTBEAT, MAX_NACK, MAX_PAYLOAD, NACK, TUN,
};
use verz_link::frame::{Frame, FrameError, Kind};
use verz_link::link::{Config, Link, Scheduler};
use verz_link::names::{must_relay, parse_ipv4};
use verz_link::recovery::{Deduper, DeliveryKey, PacketCache};
use verz_link::replay::ReplayWindow;
use verz_link::sender::{outcome_of, History, Reply, SendError, Sender, WanWriter};

fn num(x: f64) -> Binary64 {
    Binary64::from_bits(x.to_bits())
}

fn packet(sequence: u32) -> Packet {
    Packet {
        flags: TUN,
        class: 4,
        session: 9,
        sequence,
        timestamp_us: -5,
        link: 2,
        protocol: 17,
        destination: [1, 2, 3, 4],
        destination_port: 5_000,
        local_port: 77,
        payload: vec![7; 100],
    }
}

#[test]
fn packet_is_read_back_and_refused_under_another_key() {
    let p = packet(3);
    let wire = p.encode(b"key of the lane").unwrap();
    let read = Packet::decode(&wire, b"key of the lane").unwrap();
    assert_eq!(read.payload, p.payload);
    assert_eq!(
        (read.flags, read.class, read.session, read.sequence, read.timestamp_us, read.link),
        (p.flags, p.class, p.session, p.sequence, p.timestamp_us, p.link)
    );
    assert_eq!(
        (read.protocol, read.destination, read.destination_port, read.local_port),
        (p.protocol, p.destination, p.destination_port, p.local_port)
    );
    assert!(Packet::decode(&wire, b"another key").is_err());
    for i in 0..wire.len() {
        let mut bad = wire.clone();
        bad[i] ^= 1;
        assert!(Packet::decode(&bad, b"key of the lane").is_err(), "{i}");
    }
    let mut long = packet(4);
    long.payload = vec![0; MAX_PAYLOAD + 1];
    assert!(long.encode(b"key of the lane").is_err());
    assert!(!PacketError::message(long.encode(b"k").err().unwrap()).is_empty());
}

#[test]
fn requests_for_repeats_are_read_back_and_bounded() {
    let list: Vec<u32> = (0..MAX_NACK as u32).collect();
    assert_eq!(decode_nack(&encode_nack(&list).unwrap()).unwrap(), list);
    assert!(encode_nack(&vec![0; MAX_NACK + 1]).is_err());
    assert!(decode_nack(&[1, 2, 3]).is_err());
}

#[test]
fn stored_packets_are_found_until_acknowledged() {
    let mut cache = PacketCache::new(3);
    for n in 0..5 {
        cache.store(packet(n));
    }
    assert_eq!(cache.len(), 3);
    assert!(cache.get(77, 1).is_none());
    assert_eq!(cache.get(77, 4).unwrap().sequence, 4);
    cache.trim_through(77, 3);
    assert_eq!(cache.len(), 1);
    assert!(cache.get(77, 3).is_none());
    cache.reset_flow(77);
    assert!(cache.is_empty());
}

#[test]
fn second_sight_of_a_key_is_noticed_for_a_time() {
    let mut seen = Deduper::new(2, 100);
    let a = DeliveryKey::of(&packet(1));
    let b = DeliveryKey::of(&packet(2));
    assert!(!seen.seen_or_add(a, 0));
    assert!(seen.seen_or_add(a, 50));
    assert!(!seen.seen_or_add(b, 60));
    assert_eq!(seen.len(), 2);
    assert!(!seen.seen_or_add(a, 1_000));
}

#[test]
fn window_refuses_repeated_and_old_numbers() {
    let mut window = ReplayWindow::new(64);
    assert!(window.mark(100));
    assert!(!window.mark(100));
    assert!(window.mark(60));
    assert!(window.contains(60));
    assert!(!window.mark(36), "too old to tell");
    assert!(window.mark(1_000));
    assert!(!window.mark(100));
}

fn link(id: u8, rtt: f64) -> Link {
    Link {
        id,
        status: 1,
        disabled: false,
        probed: true,
        rtt: num(rtt),
        jitter: num(1.0),
        variance: num(0.0),
        loss: num(0.0),
        capacity: num(1e8),
        uptime: num(100.0),
    }
}

#[test]
fn scheduler_prefers_the_better_link_and_needs_one() {
    let mut scheduler = Scheduler::new(Config::default());
    assert!(scheduler.schedule(4, &[]).is_err());
    let only = scheduler.schedule(4, &[link(3, 20.0)]).unwrap();
    assert_eq!(only.primary, 3);
    let mut off = link(5, 5.0);
    off.disabled = true;
    assert_eq!(scheduler.schedule(4, &[off, link(3, 20.0)]).unwrap().primary, 3);
}

struct Wire {
    sent: Vec<(u8, Vec<u8>)>,
}

impl WanWriter for Wire {
    fn history(&self) -> History {
        unreachable!()
    }

    fn carrier(&mut self, _id: u8) -> bool {
        true
    }

    fn send(&mut self, id: u8, bytes: &[u8]) -> Result<(), i32> {
        self.sent.push((id, bytes.to_vec()));
        Ok(())
    }
}

#[test]
fn sender_numbers_and_repeats_what_it_sent() {
    let key = vec![9; 32];
    let mut sender = Sender::new(9, key.clone(), Config::default()).unwrap();
    let mut wire = Wire { sent: Vec::new() };
    let links = [link(1, 20.0), link(2, 30.0)];
    for n in 0..3 {
        let sent = sender.forward(packet(0), &links, &mut wire).unwrap();
        assert_eq!(sent.sequence, n);
    }
    let first = Packet::decode(&wire.sent[0].1, &key).unwrap();
    assert_eq!((first.session, first.sequence, first.link), (9, 0, wire.sent[0].0));
    wire.sent.clear();
    let wanted = Packet {
        flags: NACK,
        session: 9,
        local_port: 77,
        payload: encode_nack(&[1]).unwrap(),
        ..Packet::default()
    };
    assert_eq!(sender.control(&wanted.encode(&key).unwrap(), &links, &mut wire).unwrap(), 1);
    assert_eq!(Packet::decode(&wire.sent[0].1, &key).unwrap().sequence, 1);
    // Another session's request has no effect, nor has one under another key.
    wire.sent.clear();
    let foreign = Packet { session: 8, ..wanted.clone() };
    let _ = sender.control(&foreign.encode(&key).unwrap(), &links, &mut wire);
    let _ = sender.control(&wanted.encode(b"other").unwrap(), &links, &mut wire);
    assert!(wire.sent.is_empty());
    assert!(!packet(1).is_data() || packet(1).flags & HEARTBEAT == 0);
}

#[test]
fn frames_are_read_back_and_their_faults_named() {
    for kind in [Kind::Probe, Kind::Pong, Kind::Ack, Kind::Join, Kind::PathDown] {
        let frame = Frame::control(kind, 3, 0x0102_0304_0506_0708, 9);
        let read = Frame::decode(&frame.encode()).unwrap();
        assert_eq!((read.kind, read.path, read.id, read.stamp), (kind, 3, frame.id, 9));
        assert_eq!(Kind::from_code(kind.code()), Some(kind));
    }
    for error in [
        Frame::decode(&[0; 3]).err().unwrap(),
        Frame::decode(&[0xff; 18]).err().unwrap(),
        Frame::decode(&[1; 2_000]).err().unwrap(),
    ] {
        assert!(!FrameError::message(error).is_empty());
    }
}

#[test]
fn listed_domains_cover_their_subdomains() {
    let domains = vec!["example.com".to_string()];
    assert!(must_relay("EXAMPLE.com", &domains));
    assert!(must_relay("www.Example.Com.", &domains));
    assert!(!must_relay("notexample.com", &domains));
    assert!(!must_relay("example.org", &domains));
}

#[test]
fn addresses_are_read_strictly() {
    assert_eq!(parse_ipv4("192.168.1.2"), Some([192, 168, 1, 2]));
    for bad in ["192.168.1", "192.168.1.256", "192.168.01.2", "a.b.c.d", "1.2.3.4.", ""] {
        assert_eq!(parse_ipv4(bad), None, "{bad}");
    }
}

/// Links of which some are down and some refuse.
struct Faulty {
    down: Vec<u8>,
    refusing: Vec<u8>,
    asked: Vec<u8>,
    taken: Vec<u8>,
}

impl WanWriter for Faulty {
    fn history(&self) -> History {
        unreachable!()
    }

    fn carrier(&mut self, id: u8) -> bool {
        self.asked.push(id);
        !self.down.contains(&id)
    }

    fn send(&mut self, id: u8, _bytes: &[u8]) -> Result<(), i32> {
        if self.refusing.contains(&id) {
            return Err(11);
        }
        self.taken.push(id);
        Ok(())
    }
}

fn faulty(down: &[u8], refusing: &[u8]) -> Faulty {
    Faulty { down: down.to_vec(), refusing: refusing.to_vec(), asked: vec![], taken: vec![] }
}

#[test]
fn refused_packet_falls_to_the_next_link() {
    // Links that are alike take turns, and the second one begins.
    let links = [link(1, 20.0), link(2, 30.0)];
    let sender = || Sender::new(9, vec![9; 32], Config::default()).unwrap();
    for wire in [&mut faulty(&[2], &[]), &mut faulty(&[], &[2])] {
        let sent = sender().forward(packet(0), &links, wire).unwrap();
        assert_eq!((sent.sequence, sent.primary), (0, 1));
        assert_eq!((&wire.asked[..], &wire.taken[..]), (&[2, 1][..], &[1][..]));
    }
    // Where no link takes it, the last reason is told.
    let refused = sender().forward(packet(0), &links, &mut faulty(&[2], &[1]));
    assert_eq!(refused, Err(SendError::Socket(11)));
    let dark = sender().forward(packet(0), &links, &mut faulty(&[1, 2], &[]));
    assert_eq!(dark, Err(SendError::NoCarrier));
}

#[test]
fn sending_can_be_done_attempt_by_attempt() {
    let key = vec![9; 32];
    let links = [link(1, 20.0), link(2, 30.0)];
    let mut sender = Sender::new(9, key.clone(), Config::default()).unwrap();
    let mut sending = sender.begin(packet(0), &links).unwrap();
    let mut tried = Vec::new();
    while let Some(attempt) = sender.next_attempt(&sending) {
        let message = Packet::decode(&attempt.message.unwrap(), &key).unwrap();
        assert_eq!((message.link, message.sequence), (attempt.link, 0));
        tried.push(attempt.link);
        sending.reply(match tried.len() {
            1 => Reply::Refused(5),
            _ => Reply::Taken,
        });
    }
    assert_eq!(tried, [2, 1]);
    assert_eq!(sender.conclude(sending).unwrap().primary, 1);
    // It was kept, and is repeated on request.
    let wanted = Packet {
        flags: NACK,
        session: 9,
        local_port: 77,
        payload: encode_nack(&[0]).unwrap(),
        ..Packet::default()
    };
    let repeats = sender.begin_control(&wanted.encode(&key).unwrap(), &links).unwrap();
    assert_eq!(repeats.len(), 1);
    let repeat = sender.next_repeat(&repeats[0]).unwrap();
    let message = Packet::decode(&repeat.message.unwrap(), &key).unwrap();
    assert_eq!((message.sequence, message.link), (0, repeat.link));
}

#[test]
fn replies_name_their_faults() {
    let long = Packet { payload: vec![0; MAX_PAYLOAD + 1], ..packet(0) };
    assert_eq!(outcome_of(&packet(0), Reply::Taken), Ok(()));
    assert_eq!(outcome_of(&packet(0), Reply::NoCarrier), Err(SendError::NoCarrier));
    assert_eq!(outcome_of(&packet(0), Reply::Refused(7)), Err(SendError::Socket(7)));
    let fault = SendError::Codec(PacketError::PayloadTooLarge);
    assert_eq!(outcome_of(&long, Reply::Taken), Err(fault));
    assert_eq!(outcome_of(&long, Reply::Refused(7)), Err(fault));
}

#[test]
fn only_healthy_links_are_offered_a_packet() {
    let mut down = link(1, 5.0);
    down.disabled = true;
    let mut scheduler = Scheduler::new(Config::default());
    for class in [1, 2, 3, 4] {
        for _ in 0..4 {
            let decision = scheduler.schedule(class, &[down, link(2, 20.0), link(3, 90.0)]).unwrap();
            assert!(decision.primary != 1 && decision.fec != 1);
        }
    }
}
