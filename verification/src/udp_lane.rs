//! The lane of UDP packets. They never enter the queues and windows of the
//! bond: every packet goes out at once, on the links that are healthy, and its
//! copies are told apart at the far end.
use crate::bond::{Policy, Scheduler};
use crate::binary64::Binary64;
use crate::crypto;
use crate::envelope;
use crate::envelope::{Packet, PacketError, PacketView, ACK, FEC, NACK, TUN};
use crate::frame::BOND_MTU;
use crate::link;
use crate::link::{Config, Link, LinkSchedulerView};
use crate::packet;
use crate::path::Path;
use crate::payload_meter;
use crate::recovery;
use crate::recovery::{CacheView, Deduper, DeduperView, DeliveryKey};
use crate::reorder;
use crate::sender;
use crate::sender::{Attempt, AttemptView, Cascade, CascadeView, Entry, Forwarding, ForwardingView, History, Reply, SendError, Sender, SenderView, Sent, WanWriter};
use crate::table;
use crate::table::Table;
use crate::udp_reassembly;
use crate::udp_reassembly::{Output, OutputView, ReassemblyView, Stream};
use crate::wire;
use std::collections::VecDeque;
use vstd::prelude::*;

verus! {

pub const MAX_FLOWS: usize = 4096;

pub const MAX_STREAMS: usize = 256;

/// A usual datagram travels in two fragments, so this is room for half as
/// many datagrams.
pub const STREAM_CAPACITY: usize = 128;

pub const DELIVERY_CAPACITY: usize = 1024;

pub const FLOW_TTL: u64 = 120_000;

pub const FRAGMENT_TTL: u64 = 2_000;

pub const SESSION: u32 = 1;

pub const UDP: u8 = 17;

/// Traffic class of voice.
pub const VOICE: u16 = 4;

#[derive(Clone, Copy, Debug, PartialEq, Eq, Structural)]
pub struct Counters {
    pub payload_sent_bytes: u64,
    pub payload_unmeasured_packets: u64,
    pub submitted_packets: u64,
    pub sent_packets: u64,
    pub send_failures: u64,
    pub delivered_packets: u64,
    pub delivered_bytes: u64,
    pub duplicate_packets: u64,
    pub protection_copies: u64,
    pub repairs: u64,
    pub receive_backpressure: u64,
    pub flow_limit_drops: u64,
    pub reassembly_rejections: u64,
}

pub open spec fn no_counts() -> Counters {
    Counters {
        payload_sent_bytes: 0,
        payload_unmeasured_packets: 0,
        submitted_packets: 0,
        sent_packets: 0,
        send_failures: 0,
        delivered_packets: 0,
        delivered_bytes: 0,
        duplicate_packets: 0,
        protection_copies: 0,
        repairs: 0,
        receive_backpressure: 0,
        flow_limit_drops: 0,
        reassembly_rejections: 0,
    }
}

impl Default for Counters {
    fn default() -> (r: Self)
        ensures
            r == no_counts(),
    {
        Counters {
            payload_sent_bytes: 0,
            payload_unmeasured_packets: 0,
            submitted_packets: 0,
            sent_packets: 0,
            send_failures: 0,
            delivered_packets: 0,
            delivered_bytes: 0,
            duplicate_packets: 0,
            protection_copies: 0,
            repairs: 0,
            receive_backpressure: 0,
            flow_limit_drops: 0,
            reassembly_rejections: 0,
        }
    }
}

#[derive(Clone, Copy, Debug)]
pub enum LaneError {
    NotUdp,
    FlowLimit,
    InvalidPacket,
    Send(SendError),
    Codec(PacketError),
    /// A shelf of the receiver is full.
    Refused(&'static str),
}

impl LaneError {
    pub open spec fn text(self) -> Seq<char> {
        match self {
            LaneError::NotUdp => "not an MTU-bounded IPv4 UDP packet"@,
            LaneError::FlowLimit => "UDP flow identity limit reached"@,
            LaneError::InvalidPacket => "invalid UDP lane packet"@,
            LaneError::Send(error) => error.text(),
            LaneError::Codec(error) => error.text(),
            LaneError::Refused(text) => text@,
        }
    }

    pub fn message(self) -> (r: &'static str)
        ensures
            r@ == self.text(),
    {
        match self {
            LaneError::NotUdp => "not an MTU-bounded IPv4 UDP packet",
            LaneError::FlowLimit => "UDP flow identity limit reached",
            LaneError::InvalidPacket => "invalid UDP lane packet",
            LaneError::Send(error) => error.message(),
            LaneError::Codec(error) => error.message(),
            LaneError::Refused(text) => text,
        }
    }
}

pub open spec fn spec_is_udp(ip: Seq<u8>) -> bool {
    ip.len() >= 20 && ip[0] / 16 == 4 && ip[9] == UDP
}

pub fn is_udp(ip: &[u8]) -> (r: bool)
    ensures
        r == spec_is_udp(ip@),
{
    ip.len() >= 20 && ip[0] / 16 == 4 && ip[9] == UDP
}

/// What the lane knows of a path: its health, and neither window nor pacing.
/// Loss and capacity are not measured, and so are unknown.
pub open spec fn link_of(path: Path, now: u64) -> Link {
    Link {
        id: path.id,
        status: if path.ready(now) {
            1
        } else {
            0
        },
        disabled: !path.enabled,
        probed: path.rtt_ms is Some,
        rtt: match path.rtt_ms {
            Some(rtt) => rtt,
            None => Binary64::whole(1000),
        },
        jitter: path.jitter_ms,
        variance: Binary64::whole(0),
        loss: Binary64::whole(0),
        capacity: Binary64::whole(0),
        uptime: Binary64::whole(1),
    }
}

/// A full window, pacing and queued data of a path are nothing to the lane.
pub proof fn lane_ignores_windows(p: Path, busy: Path, now: u64)
    requires
        busy == (Path {
            in_flight: busy.in_flight,
            congestion_window: busy.congestion_window,
            slow_start_threshold: busy.slow_start_threshold,
            next_send: busy.next_send,
            delivery_bps: busy.delivery_bps,
            ..p
        }),
    ensures
        link_of(busy, now) == link_of(p, now),
{
}

/// A slow path that is healthy still sends.
pub fn links(scheduler: &Scheduler, now: u64) -> (r: Vec<Link>)
    ensures
        r@ == scheduler.paths@.map_values(|p: Path| link_of(p, now)),
{
    let mut list: Vec<Link> = Vec::new();
    let mut i: usize = 0;
    while i < scheduler.paths.len()
        invariant
            i <= scheduler.paths@.len(),
            list@.len() == i,
            forall|j: int| 0 <= j < i ==> list@[j] == link_of(#[trigger] scheduler.paths@[j], now),
        decreases scheduler.paths@.len() - i,
    {
        let path: Path = scheduler.paths[i];
        list.push(
            Link {
                id: path.id,
                status: if path.ready(now) {
                    1
                } else {
                    0
                },
                disabled: !path.enabled,
                probed: path.rtt_ms.is_some(),
                rtt: match path.rtt_ms {
                    Some(rtt) => rtt,
                    None => Binary64::whole(1000),
                },
                jitter: path.jitter_ms,
                variance: Binary64::whole(0),
                loss: Binary64::whole(0),
                capacity: Binary64::whole(0),
                uptime: Binary64::whole(1),
            },
        );
        i = i + 1;
    }
    assert(list@ =~= scheduler.paths@.map_values(|p: Path| link_of(p, now)));
    list
}

/// Microseconds of a number of milliseconds, as far as there are so many.
#[verifier::allow_in_spec]
pub fn micros(now: u64) -> u64
    returns
        (if now > u64::MAX / 1000 {
            u64::MAX
        } else {
            (now * 1000) as u64
        }),
{
    if now > u64::MAX / 1000 {
        u64::MAX
    } else {
        now * 1000
    }
}

#[verifier::allow_in_spec]
pub fn stamp(now: u64) -> i64
    returns
        (if micros(now) > i64::MAX {
            i64::MAX
        } else {
            micros(now) as i64
        }),
{
    let us: u64 = micros(now);
    if us > i64::MAX as u64 {
        i64::MAX
    } else {
        us as i64
    }
}

/// The links' policy for a policy of the bond.
pub open spec fn config_for(policy: Policy) -> Config {
    Config {
        bond_all: policy == Policy::Performance,
        fec: policy != Policy::DataSaver,
        ..link::usual()
    }
}

/// The label of the lane's key.
pub open spec fn key_label() -> Seq<u8> {
    vstd::utf8::encode_utf8("VERZ repo UDP lane v1"@)
}

pub open spec fn lane_key(secret: Seq<u8>, session: Seq<u8>) -> Seq<u8> {
    crypto::hkdf_sha256(session, secret, key_label(), 32)
}

/// Addresses of a packet, with room for what tells its flow.
pub open spec fn addresses(ip: Seq<u8>) -> nat {
    packet::be32(ip, 12) * 0x1_0000_0000 + packet::be32(ip, 16)
}

pub open spec fn fragment_key(ip: Seq<u8>) -> u128 {
    (addresses(ip) * 0x1_0000 + packet::be16(ip, 4)) as u128
}

/// Whether the packet shows its ports.
pub open spec fn shows_ports(ip: Seq<u8>) -> bool {
    packet::be16(ip, 6) % 0x2000 == 0 && ip.len() >= packet::spec_header(ip) + 8
}

/// Whether it is the first of several fragments.
pub open spec fn more_follow(ip: Seq<u8>) -> bool {
    (packet::be16(ip, 6) / 0x2000) % 2 == 1
}

pub struct ReceiveStream {
    pub port: u16,
    pub stream: Stream,
    pub last: u64,
}

#[verifier::ext_equal]
pub struct ReceiveView {
    pub port: u16,
    pub stream: ReassemblyView,
    pub last: u64,
}

impl View for ReceiveStream {
    type V = ReceiveView;

    open spec fn view(&self) -> ReceiveView {
        ReceiveView { port: self.port, stream: self.stream@, last: self.last }
    }
}

pub open spec fn stream_views(streams: Seq<ReceiveStream>) -> Seq<ReceiveView> {
    streams.map_values(|s: ReceiveStream| s@)
}

/// First position from `i` on that receives a flow.
pub open spec fn stream_slot(streams: Seq<ReceiveView>, port: u16, i: int) -> int
    decreases streams.len() - i,
{
    if i < streams.len() && streams[i].port != port {
        stream_slot(streams, port, i + 1)
    } else {
        i
    }
}

/// The streams among the first `n` that received lately.
pub open spec fn lively(streams: Seq<ReceiveView>, now: u64, n: nat) -> Seq<ReceiveView>
    decreases n,
{
    if n == 0 {
        Seq::empty()
    } else {
        let rest: Seq<ReceiveView> = lively(streams, now, (n - 1) as nat);
        if now.saturating_sub(streams[n - 1].last) < FLOW_TTL {
            rest.push(streams[n - 1])
        } else {
            rest
        }
    }
}

pub open spec fn fresh_stream(port: u16, now: u64) -> ReceiveView {
    ReceiveView {
        port,
        stream: ReassemblyView {
            next: 0,
            pending: Seq::empty(),
            copies: Seq::empty(),
            gap: None,
            nack_at: None,
            retries: 0,
            budget: 50_000,
            grace: 25_000,
            latest_sent: 0,
            capacity: STREAM_CAPACITY as nat,
        },
        last: now,
    }
}

#[verifier::ext_equal]
pub struct LaneView {
    pub sender: SenderView,
    pub key: Seq<u8>,
    pub policy: Policy,
    pub flows: Map<u128, (u16, u64)>,
    pub fragments: Map<u128, (u128, u64)>,
    pub next_flow: u32,
    pub streams: Seq<ReceiveView>,
    pub dedup: DeduperView,
    pub delivered: Seq<Seq<u8>>,
    pub counters: Counters,
}

pub open spec fn payloads(ready: Seq<PacketView>) -> Seq<Seq<u8>> {
    ready.map_values(|p: PacketView| p.payload)
}

/// The counters after the first `n` deliveries.
pub open spec fn counted(counters: Counters, ready: Seq<PacketView>, n: nat) -> Counters
    decreases n,
{
    if n == 0 {
        counters
    } else {
        let before: Counters = counted(counters, ready, (n - 1) as nat);
        Counters {
            delivered_packets: before.delivered_packets.wrapping_add(1),
            delivered_bytes: before.delivered_bytes.wrapping_add(
                ready[n - 1].payload.len() as u64,
            ),
            ..before
        }
    }
}

/// The answers to a delivery.
pub open spec fn controls(port: u16, output: OutputView) -> Seq<PacketView> {
    let acks: Seq<PacketView> = match output.ack {
        Some(sequence) => seq![
            PacketView {
                flags: ACK,
                session: SESSION,
                local_port: port,
                sequence,
                ..envelope::blank()
            },
        ],
        None => Seq::empty(),
    };
    let nacks: Seq<PacketView> = if output.nack.len() == 0 {
        Seq::empty()
    } else {
        seq![
            PacketView {
                flags: NACK,
                session: SESSION,
                local_port: port,
                payload: envelope::spec_encode_nack(output.nack),
                ..envelope::blank()
            },
        ]
    };
    acks + nacks
}

/// The links among the first `n` that get a copy of a packet besides those that
/// have it.
pub open spec fn fan_links(paths: Seq<Link>, sent: Sent, n: nat) -> Seq<u8>
    decreases n,
{
    if n == 0 {
        Seq::empty()
    } else {
        let before: Seq<u8> = fan_links(paths, sent, (n - 1) as nat);
        let path: Link = paths[n - 1];
        if path.healthy() && path.id != sent.primary && sent.duplicate != Some(path.id) {
            before.push(path.id)
        } else {
            before
        }
    }
}

/// A packet that each of some links gets a copy of, with the replies so far.
pub struct Fan {
    pub packet: Packet,
    pub links: Vec<u8>,
    pub replies: Vec<Reply>,
}

#[verifier::ext_equal]
pub struct FanView {
    pub packet: PacketView,
    pub links: Seq<u8>,
    pub replies: Seq<Reply>,
}

impl View for Fan {
    type V = FanView;

    open spec fn view(&self) -> FanView {
        FanView { packet: self.packet@, links: self.links@, replies: self.replies@ }
    }
}

impl FanView {
    pub open spec fn wf(self) -> bool {
        self.replies.len() <= self.links.len()
    }

    pub open spec fn settled(self) -> bool {
        self.replies.len() >= self.links.len()
    }

    pub open spec fn next(self, key: Seq<u8>) -> Option<AttemptView> {
        if self.settled() {
            None
        } else {
            Some(sender::attempt_on(self.packet, key, self.links[self.replies.len() as int]))
        }
    }

    pub open spec fn answered(self, reply: Reply) -> FanView {
        FanView { replies: self.replies.push(reply), ..self }
    }

    pub open spec fn with(self, replies: Seq<Reply>) -> FanView {
        FanView { replies, ..self }
    }

    /// What the links were asked, up to the first `n` replies.
    pub open spec fn entries(self, key: Seq<u8>, n: nat) -> Seq<Entry>
        decreases n,
    {
        if n == 0 {
            Seq::empty()
        } else {
            self.entries(key, (n - 1) as nat) + sender::entries_of(
                sender::attempt_on(self.packet, key, self.links[n - 1]),
                self.replies[n - 1],
            )
        }
    }

    pub open spec fn log(self, key: Seq<u8>) -> Seq<Entry> {
        self.entries(key, self.replies.len())
    }

    /// How many of the first `n` replies are that the copy was taken.
    pub open spec fn taken(self, n: nat) -> nat
        decreases n,
    {
        if n == 0 {
            0
        } else if sender::outcome(self.packet, self.replies[n - 1]) is Ok {
            self.taken((n - 1) as nat) + 1
        } else {
            self.taken((n - 1) as nat)
        }
    }

    proof fn lemma_log(self, key: Seq<u8>, reply: Reply, n: nat)
        requires
            n <= self.replies.len(),
        ensures
            self.answered(reply).entries(key, n) == self.entries(key, n),
            n == self.replies.len() ==> self.answered(reply).log(key) == self.log(key)
                + sender::entries_of(
                sender::attempt_on(self.packet, key, self.links[n as int]),
                reply,
            ),
        decreases n,
    {
        if n > 0 {
            self.lemma_log(key, reply, (n - 1) as nat);
        }
    }
}

impl Fan {
    pub open spec fn wf(&self) -> bool {
        self@.wf()
    }

    /// The next attempt, unless all have replied.
    pub fn next(&self, key: &[u8]) -> (r: Option<Attempt>)
        requires
            self.wf(),
        ensures
            sender::attempt_view(r) == self@.next(key@),
    {
        if self.replies.len() >= self.links.len() {
            None
        } else {
            Some(sender::put_on(&self.packet, key, self.links[self.replies.len()]))
        }
    }

    /// The reply to the next attempt.
    pub fn reply(&mut self, reply: Reply)
        requires
            old(self).wf(),
            !old(self)@.settled(),
        ensures
            final(self).wf(),
            final(self)@ == old(self)@.answered(reply),
    {
        self.replies.push(reply);
        assert(self@ =~= old(self)@.answered(reply));
    }

    /// How many links took their copy.
    pub fn taken(&self) -> (r: u64)
        requires
            self.wf(),
        ensures
            r == self@.taken(self@.replies.len()),
    {
        let mut count: u64 = 0;
        let mut i: usize = 0;
        while i < self.replies.len()
            invariant
                i <= self.replies@.len(),
                count == self@.taken(i as nat),
                count <= i,
            decreases self.replies@.len() - i,
        {
            if sender::outcome_of(&self.packet, self.replies[i]).is_ok() {
                count = count + 1;
            }
            i = i + 1;
        }
        count
    }

    /// Makes all attempts, at once and without waiting for an acknowledgement
    /// or a failure.
    pub fn run<W: WanWriter>(&mut self, key: &[u8], writer: &mut W)
        requires
            old(self).wf(),
            old(self)@.replies.len() == 0,
        ensures
            final(self).wf(),
            final(self)@.settled(),
            final(self)@ == old(self)@.with(final(self)@.replies),
            final(writer).history() == old(writer).history() + final(self)@.log(key@),
    {
        let ghost log: History = writer.history();
        assert(log + self@.log(key@) =~= log);
        loop
            invariant
                self.wf(),
                self@ == old(self)@.with(self@.replies),
                writer.history() == log + self@.log(key@),
                log == old(writer).history(),
            ensures
                self@.settled(),
            decreases self@.links.len() - self@.replies.len(),
        {
            match self.next(key) {
                Some(attempt) => {
                    let ghost before: FanView = self@;
                    let ghost had: History = writer.history();
                    let reply: Reply = sender::ask(&attempt, writer);
                    self.reply(reply);
                    proof {
                        before.lemma_log(key@, reply, before.replies.len());
                        assert(had + sender::entries_of(attempt@, reply) =~= log + self@.log(key@));
                    }
                },
                None => {
                    break;
                },
            }
        }
    }
}

/// The replies of the links to one packet.
pub struct Replies {
    pub first: Seq<Reply>,
    pub copy: Option<Reply>,
    pub fan: Seq<Reply>,
}

impl LaneView {
    /// The fragments that are remembered after a packet.
    pub open spec fn fragments_after(self, ip: Seq<u8>, now: u64) -> Map<u128, (u128, u64)> {
        if shows_ports(ip) && more_follow(ip) {
            let kept: Map<u128, (u128, u64)> = table::retained(
                self.fragments,
                |k: u128, v: (u128, u64)| now.saturating_sub(v.1) < FRAGMENT_TTL,
            );
            if kept.dom().len() < MAX_FLOWS {
                kept.insert(fragment_key(ip), (self.tuple(ip, now), now))
            } else {
                kept
            }
        } else {
            self.fragments
        }
    }

    /// The flow of a packet: its addresses and ports. A later fragment belongs
    /// to the flow of the first.
    pub open spec fn tuple(self, ip: Seq<u8>, now: u64) -> u128 {
        if shows_ports(ip) {
            (addresses(ip) * 0x1_0000_0000 + packet::be32(ip, packet::spec_header(ip))) as u128
        } else if self.fragments.contains_key(fragment_key(ip)) && now.saturating_sub(
            self.fragments[fragment_key(ip)].1,
        ) < FRAGMENT_TTL {
            self.fragments[fragment_key(ip)].0
        } else {
            (addresses(ip) * 0x1_0000_0000) as u128
        }
    }

    /// The number of a packet's flow. A new flow takes the next one; numbers
    /// are not used twice.
    pub open spec fn flow_found(self, ip: Seq<u8>, now: u64) -> (LaneView, Option<u16>) {
        let tuple: u128 = self.tuple(ip, now);
        let known: LaneView = LaneView { fragments: self.fragments_after(ip, now), ..self };
        if self.flows.contains_key(tuple) {
            let id: u16 = self.flows[tuple].0;
            (LaneView { flows: self.flows.insert(tuple, (id, now)), ..known }, Some(id))
        } else {
            let kept: Map<u128, (u16, u64)> = table::retained(
                self.flows,
                |k: u128, v: (u16, u64)| now.saturating_sub(v.1) < FLOW_TTL,
            );
            if kept.dom().len() >= MAX_FLOWS || self.next_flow > u16::MAX {
                (
                    LaneView {
                        flows: kept,
                        counters: Counters {
                            flow_limit_drops: self.counters.flow_limit_drops.wrapping_add(1),
                            ..self.counters
                        },
                        ..known
                    },
                    None,
                )
            } else {
                let id: u16 = self.next_flow as u16;
                (
                    LaneView {
                        flows: kept.insert(tuple, (id, now)),
                        next_flow: (self.next_flow + 1) as u32,
                        ..known
                    },
                    Some(id),
                )
            }
        }
    }

    /// The lane under a policy.
    pub open spec fn under(self, policy: Policy) -> LaneView {
        if self.policy == policy {
            self
        } else {
            LaneView {
                policy,
                sender: SenderView {
                    scheduler: LinkSchedulerView {
                        config: link::completed(config_for(policy)),
                        counter: 0,
                    },
                    ..self.sender
                },
                ..self
            }
        }
    }

    pub open spec fn submitted(self) -> LaneView {
        LaneView {
            counters: Counters {
                submitted_packets: self.counters.submitted_packets.wrapping_add(1),
                ..self.counters
            },
            ..self
        }
    }

    /// The counters after a packet went out.
    pub open spec fn sent_counters(self, ip: Seq<u8>, sent: Sent) -> Counters {
        let payload: Option<u64> = payload_meter::spec_udp_payload_len(ip);
        let counters: Counters = self.counters;
        Counters {
            sent_packets: counters.sent_packets.wrapping_add(1),
            payload_sent_bytes: match payload {
                Some(bytes) => counters.payload_sent_bytes.wrapping_add(bytes),
                None => counters.payload_sent_bytes,
            },
            payload_unmeasured_packets: match payload {
                Some(bytes) => counters.payload_unmeasured_packets,
                None => counters.payload_unmeasured_packets.wrapping_add(1),
            },
            protection_copies: if sent.duplicate is Some {
                counters.protection_copies.wrapping_add(1)
            } else {
                counters.protection_copies
            },
            ..counters
        }
    }

    pub open spec fn failing(self) -> LaneView {
        LaneView {
            counters: Counters {
                send_failures: self.counters.send_failures.wrapping_add(1),
                ..self.counters
            },
            ..self
        }
    }

    /// The decision on a packet: the lane, and the packet on its way.
    #[verifier::opaque]
    pub open spec fn send_begun(
        self,
        ip: Seq<u8>,
        paths: Seq<Link>,
        policy: Policy,
        now: u64,
    ) -> (LaneView, Result<ForwardingView, LaneError>) {
        if !spec_is_udp(ip) || ip.len() > BOND_MTU {
            (self, Err(LaneError::NotUdp))
        } else {
            let (known, port) = self.under(policy).submitted().flow_found(ip, now);
            match port {
                None => (known, Err(LaneError::FlowLimit)),
                Some(port) => {
                    let (sender, begun) = known.sender.begun(lane_packet(ip, port, now), paths);
                    let next: LaneView = LaneView { sender, ..known };
                    match begun {
                        Err(error) => (next.failing(), Err(LaneError::Send(error))),
                        Ok(f) => (next, Ok(f)),
                    }
                },
            }
        }
    }

    /// What comes of a packet whose replies are in: the lane, and the copies
    /// that it then gets. Under the policies that protect, every other healthy
    /// link gets one.
    #[verifier::opaque]
    pub open spec fn send_concluded(
        self,
        ip: Seq<u8>,
        paths: Seq<Link>,
        policy: Policy,
        f: ForwardingView,
    ) -> (LaneView, Result<FanView, LaneError>) {
        let (sender, outcome) = self.sender.concluded(f);
        let next: LaneView = LaneView { sender, ..self };
        match outcome {
            Err(error) => (next.failing(), Err(LaneError::Send(error))),
            Ok(sent) => (
                LaneView { counters: self.sent_counters(ip, sent), ..next },
                Ok(
                    FanView {
                        packet: fan_packet(f.cascade.packet),
                        links: if policy == Policy::Smart || policy == Policy::Continuity {
                            fan_links(paths, sent, paths.len())
                        } else {
                            Seq::empty()
                        },
                        replies: Seq::empty(),
                    },
                ),
            ),
        }
    }

    /// After the copies' replies.
    pub open spec fn copies_concluded(self, fan: FanView) -> LaneView {
        LaneView {
            counters: Counters {
                protection_copies: self.counters.protection_copies.wrapping_add(
                    fan.taken(fan.replies.len()) as u64,
                ),
                ..self.counters
            },
            ..self
        }
    }

    /// Sending, given the replies of the links: the lane, what they were asked,
    /// and the result.
    pub open spec fn sent(
        self,
        ip: Seq<u8>,
        paths: Seq<Link>,
        policy: Policy,
        now: u64,
        replies: Replies,
    ) -> (LaneView, Seq<Entry>, Result<(), LaneError>) {
        let (begun, started) = self.send_begun(ip, paths, policy, now);
        match started {
            Err(error) => (begun, Seq::empty(), Err(error)),
            Ok(start) => {
                let f: ForwardingView = start.with(replies.first, replies.copy);
                let (next, fanned) = begun.send_concluded(ip, paths, policy, f);
                match fanned {
                    Err(error) => (next, f.log(self.key), Err(error)),
                    Ok(fan) => (
                        next.copies_concluded(fan.with(replies.fan)),
                        f.log(self.key) + fan.with(replies.fan).log(self.key),
                        Ok(()),
                    ),
                }
            },
        }
    }

    /// Whether the replies are those of the attempts that sending makes.
    pub open spec fn send_asks(
        self,
        ip: Seq<u8>,
        paths: Seq<Link>,
        policy: Policy,
        now: u64,
        replies: Replies,
    ) -> bool {
        let (begun, started) = self.send_begun(ip, paths, policy, now);
        match started {
            Err(error) => true,
            Ok(start) => {
                let f: ForwardingView = start.with(replies.first, replies.copy);
                &&& f.wf() && f.settled()
                &&& match begun.send_concluded(ip, paths, policy, f).1 {
                    Err(error) => true,
                    Ok(fan) => fan.with(replies.fan).wf() && fan.with(replies.fan).settled(),
                }
            },
        }
    }

    /// A control message was taken whose packets to repeat are settled.
    pub open spec fn control_concluded(self, count: nat) -> LaneView {
        LaneView {
            counters: Counters {
                repairs: self.counters.repairs.wrapping_add(count as u64),
                ..self.counters
            },
            ..self
        }
    }

    /// Whether the delivery queue has room for whatever a stream may release.
    pub open spec fn has_room(self) -> bool {
        self.delivered.len() + 2 * STREAM_CAPACITY + 1 <= DELIVERY_CAPACITY
    }

    /// After a delivery.
    pub open spec fn after_output(self, output: OutputView) -> LaneView {
        LaneView {
            delivered: self.delivered + payloads(output.ready),
            counters: counted(self.counters, output.ready, output.ready.len()),
            ..self
        }
    }

    /// The streams with one for a flow, if there is room for it.
    pub open spec fn streams_for(self, port: u16, now: u64) -> Seq<ReceiveView> {
        if stream_slot(self.streams, port, 0) < self.streams.len() {
            self.streams
        } else {
            let kept: Seq<ReceiveView> = lively(self.streams, now, self.streams.len());
            if kept.len() >= MAX_STREAMS {
                kept
            } else {
                kept.push(fresh_stream(port, now))
            }
        }
    }

    /// Receiving a packet: the lane, and the answers or the refusal.
    pub open spec fn received(self, p: PacketView, now: u64) -> (
        LaneView,
        Result<Seq<PacketView>, Seq<char>>,
    ) {
        if !self.has_room() {
            (
                LaneView {
                    counters: Counters {
                        receive_backpressure: self.counters.receive_backpressure.wrapping_add(1),
                        ..self.counters
                    },
                    ..self
                },
                Ok(Seq::empty()),
            )
        } else {
            let streams: Seq<ReceiveView> = self.streams_for(p.local_port, now);
            let at: int = stream_slot(streams, p.local_port, 0);
            if at >= streams.len() {
                (
                    LaneView {
                        streams,
                        counters: Counters {
                            flow_limit_drops: self.counters.flow_limit_drops.wrapping_add(1),
                            ..self.counters
                        },
                        ..self
                    },
                    Ok(Seq::empty()),
                )
            } else {
                let step: (ReassemblyView, Result<OutputView, Seq<char>>) =
                    streams[at].stream.inserted(p, micros(now));
                let taken: LaneView = LaneView {
                    streams: streams.update(
                        at,
                        ReceiveView { port: streams[at].port, stream: step.0, last: now },
                    ),
                    ..self
                };
                match step.1 {
                    Err(error) => (
                        LaneView {
                            counters: Counters {
                                reassembly_rejections:
                                    self.counters.reassembly_rejections.wrapping_add(1),
                                ..self.counters
                            },
                            ..taken
                        },
                        Err(error),
                    ),
                    Ok(output) => {
                        let seen: (DeduperView, bool) = self.dedup.noted(
                            recovery::delivery_key(p),
                            micros(now),
                        );
                        let noted: LaneView = LaneView {
                            dedup: seen.0,
                            counters: if seen.1 {
                                Counters {
                                    duplicate_packets:
                                        self.counters.duplicate_packets.wrapping_add(1),
                                    ..self.counters
                                }
                            } else {
                                self.counters
                            },
                            ..taken
                        };
                        (noted.after_output(output), Ok(controls(p.local_port, output)))
                    },
                }
            }
        }
    }

    /// Time in the first `n` streams, as long as there is room.
    pub open spec fn ticked(self, now: u64, n: nat) -> (LaneView, Seq<PacketView>)
        decreases n,
    {
        if n == 0 {
            (self, Seq::empty())
        } else {
            let (before, answers) = self.ticked(now, (n - 1) as nat);
            if before.has_room() {
                let stream: ReceiveView = before.streams[n - 1];
                let step: (ReassemblyView, OutputView) = stream.stream.ticked(micros(now));
                (
                    (LaneView {
                        streams: before.streams.update(
                            n - 1,
                            ReceiveView { stream: step.0, ..stream },
                        ),
                        ..before
                    }).after_output(step.1),
                    answers + controls(stream.port, step.1),
                )
            } else {
                (before, answers)
            }
        }
    }
}

/// A packet of the lane before it has a number.
pub open spec fn lane_packet(ip: Seq<u8>, port: u16, now: u64) -> PacketView {
    PacketView {
        flags: TUN,
        class: VOICE,
        local_port: port,
        protocol: UDP,
        timestamp_us: stamp(now),
        payload: ip,
        ..envelope::blank()
    }
}

/// The copy for the other links.
pub open spec fn fan_packet(first: PacketView) -> PacketView {
    PacketView { flags: (TUN + FEC) as u8, ..first }
}

/// What a message of the lane may be.
pub open spec fn admissible(p: PacketView) -> bool {
    p.session == SESSION && (p.flags == ACK || p.flags == NACK || (p.data() && envelope::is_set(
        p.flags,
        TUN,
    ) && p.protocol == UDP && spec_is_udp(p.payload) && p.payload.len() <= BOND_MTU))
}

pub struct UdpLane {
    sender: Sender,
    key: Vec<u8>,
    policy: Policy,
    flows: Table<(u16, u64)>,
    fragments: Table<(u128, u64)>,
    next_flow: u32,
    streams: Vec<ReceiveStream>,
    dedup: Deduper,
    delivered: VecDeque<Vec<u8>>,
    pub counters: Counters,
}

impl View for UdpLane {
    type V = LaneView;

    closed spec fn view(&self) -> LaneView {
        LaneView {
            sender: self.sender@,
            key: self.key@,
            policy: self.policy,
            flows: self.flows@,
            fragments: self.fragments@,
            next_flow: self.next_flow,
            streams: stream_views(self.streams@),
            dedup: self.dedup@,
            delivered: reorder::byte_views(self.delivered@),
            counters: self.counters,
        }
    }
}

impl LaneView {
    /// Each stream is valid and of the lane's capacity; neither the streams
    /// nor the delivery queue exceed their bounds; one key serves both ways.
    pub open spec fn wf(self) -> bool {
        &&& self.sender.key == self.key
        &&& self.sender.session == SESSION
        &&& self.next_flow <= 0x1_0000
        &&& self.streams.len() <= MAX_STREAMS
        &&& forall|i: int|
            0 <= i < self.streams.len() ==> (#[trigger] self.streams[i]).stream.wf()
                && self.streams[i].stream.capacity == STREAM_CAPACITY
        &&& self.delivered.len() <= DELIVERY_CAPACITY
    }
}

fn lane_config(policy: Policy) -> (r: Config)
    ensures
        r == config_for(policy),
{
    let mut config: Config = Config::default();
    config.bond_all = policy == Policy::Performance;
    config.fec = policy != Policy::DataSaver;
    config
}

impl UdpLane {
    pub closed spec fn wf(&self) -> bool {
        &&& self@.wf()
        &&& self.sender.wf()
        &&& self.flows.wf()
        &&& self.fragments.wf()
        &&& self.dedup.wf()
        &&& forall|i: int| 0 <= i < self.streams@.len() ==> (#[trigger] self.streams@[i]).stream.wf()
    }

    /// A lane whose key is derived from the session and its secret.
    pub fn new(secret: &[u8; 32], session: &[u8; 16], policy: Policy) -> (r: Result<Self, LaneError>)
        ensures
            r is Ok,
            r->Ok_0.wf(),
            r->Ok_0@ == (LaneView {
                sender: SenderView {
                    session: SESSION,
                    key: lane_key(secret@, session@),
                    scheduler: LinkSchedulerView {
                        config: link::completed(config_for(policy)),
                        counter: 0,
                    },
                    sequences: Map::empty(),
                    cache: CacheView {
                        max: sender::CACHE_PACKETS as nat,
                        packets: Seq::empty(),
                        high_ack: Map::empty(),
                    },
                },
                key: lane_key(secret@, session@),
                policy,
                flows: Map::empty(),
                fragments: Map::empty(),
                next_flow: 1,
                streams: Seq::empty(),
                dedup: DeduperView { max: 16384, ttl_us: 10_000_000, order: Seq::empty() },
                delivered: Seq::empty(),
                counters: no_counts(),
            }),
    {
        let label: &[u8] = "VERZ repo UDP lane v1".as_bytes();
        let key: Vec<u8> = crypto::derive(session, secret, label, 32);
        let copy: Vec<u8> = wire::copy_bytes(key.as_slice());
        let sender: Sender = match Sender::new(SESSION, copy, lane_config(policy)) {
            Ok(sender) => sender,
            Err(error) => {
                return Err(LaneError::Send(error));
            },
        };
        let r: UdpLane = UdpLane {
            sender,
            key,
            policy,
            flows: Table::new(),
            fragments: Table::new(),
            next_flow: 1,
            streams: Vec::new(),
            dedup: Deduper::new(16384, 10_000_000),
            delivered: VecDeque::new(),
            counters: Counters::default(),
        };
        assert(r@.streams =~= Seq::empty());
        assert(r@.delivered =~= Seq::empty());
        Ok(r)
    }

    fn flow_tuple(&self, ip: &[u8], now: u64) -> (r: u128)
        requires
            self.wf(),
            spec_is_udp(ip@),
        ensures
            r == self@.tuple(ip@, now),
    {
        let header: usize = (ip[0] % 16) as usize * 4;
        let place: u64 = packet::read32(ip, 12) as u64 * 0x1_0000_0000 + packet::read32(
            ip,
            16,
        ) as u64;
        let offset: u16 = packet::read16(ip, 6);
        let plain: u128 = place as u128 * 0x1_0000_0000;
        if offset % 0x2000 == 0 && ip.len() >= header + 8 {
            plain + packet::read32(ip, header) as u128
        } else {
            let key: u128 = place as u128 * 0x1_0000 + packet::read16(ip, 4) as u128;
            match self.fragments.get(key) {
                Some((known, at)) => if now.saturating_sub(at) < FRAGMENT_TTL {
                    known
                } else {
                    plain
                },
                None => plain,
            }
        }
    }

    /// Remembers the flow of a first fragment.
    fn note_fragment(&mut self, ip: &[u8], tuple: u128, now: u64)
        requires
            old(self).wf(),
            spec_is_udp(ip@),
            tuple == old(self)@.tuple(ip@, now),
        ensures
            final(self).wf(),
            final(self)@ == (LaneView {
                fragments: old(self)@.fragments_after(ip@, now),
                ..old(self)@
            }),
    {
        let header: usize = (ip[0] % 16) as usize * 4;
        let offset: u16 = packet::read16(ip, 6);
        if offset % 0x2000 == 0 && ip.len() >= header + 8 && (offset / 0x2000) % 2 == 1 {
            let place: u64 = packet::read32(ip, 12) as u64 * 0x1_0000_0000 + packet::read32(
                ip,
                16,
            ) as u64;
            let key: u128 = place as u128 * 0x1_0000 + packet::read16(ip, 4) as u128;
            let keep = |k: u128, v: &(u128, u64)| -> (keep: bool)
                ensures
                    keep == (now.saturating_sub(v.1) < FRAGMENT_TTL),
                { now.saturating_sub(v.1) < FRAGMENT_TTL };
            self.fragments.retain(
                keep,
                Ghost(|k: u128, v: (u128, u64)| now.saturating_sub(v.1) < FRAGMENT_TTL),
            );
            if self.fragments.len() < MAX_FLOWS {
                self.fragments.insert(key, (tuple, now));
            }
        }
    }

    fn flow(&mut self, ip: &[u8], now: u64) -> (r: Option<u16>)
        requires
            old(self).wf(),
            spec_is_udp(ip@),
        ensures
            final(self).wf(),
            (final(self)@, r) == old(self)@.flow_found(ip@, now),
    {
        let ghost before: LaneView = self@;
        let tuple: u128 = self.flow_tuple(ip, now);
        self.note_fragment(ip, tuple, now);
        match self.flows.get(tuple) {
            Some((id, _at)) => {
                self.flows.insert(tuple, (id, now));
                assert(self@ =~= before.flow_found(ip@, now).0);
                return Some(id);
            },
            None => {},
        }
        let keep = |k: u128, v: &(u16, u64)| -> (keep: bool)
            ensures
                keep == (now.saturating_sub(v.1) < FLOW_TTL),
            { now.saturating_sub(v.1) < FLOW_TTL };
        self.flows.retain(
            keep,
            Ghost(|k: u128, v: (u16, u64)| now.saturating_sub(v.1) < FLOW_TTL),
        );
        if self.flows.len() >= MAX_FLOWS || self.next_flow > u16::MAX as u32 {
            self.counters.flow_limit_drops = self.counters.flow_limit_drops.wrapping_add(1);
            assert(self@ =~= before.flow_found(ip@, now).0);
            return None;
        }
        let id: u16 = self.next_flow as u16;
        self.next_flow = self.next_flow + 1;
        self.flows.insert(tuple, (id, now));
        assert(self@ =~= before.flow_found(ip@, now).0);
        Some(id)
    }

    pub fn decode(&self, bytes: &[u8]) -> (r: Result<Packet, LaneError>)
        requires
            self.wf(),
        ensures
            match envelope::spec_decode(bytes@, self@.key) {
                Err(error) => r == Err::<Packet, LaneError>(LaneError::Codec(error)),
                Ok(p) => if admissible(p) {
                    r is Ok && r->Ok_0@ == p
                } else {
                    r == Err::<Packet, LaneError>(LaneError::InvalidPacket)
                },
            },
    {
        let p: Packet = match Packet::decode(bytes, self.key.as_slice()) {
            Ok(p) => p,
            Err(error) => {
                return Err(LaneError::Codec(error));
            },
        };
        if p.session != SESSION || (p.flags != ACK && p.flags != NACK && (!p.is_data() || (p.flags
            / TUN) % 2 != 1 || p.protocol != UDP || !is_udp(p.payload.as_slice())
            || p.payload.len() > BOND_MTU)) {
            return Err(LaneError::InvalidPacket);
        }
        Ok(p)
    }

    pub fn encode(&self, p: &Packet) -> (r: Result<Vec<u8>, LaneError>)
        requires
            self.wf(),
        ensures
            match r {
                Ok(bytes) => p@.payload.len() <= envelope::MAX_PAYLOAD && bytes@ == p@.encoded(
                    self@.key,
                ),
                Err(error) => p@.payload.len() > envelope::MAX_PAYLOAD && error
                    == LaneError::Codec(PacketError::PayloadTooLarge),
            },
    {
        match p.encode(self.key.as_slice()) {
            Ok(bytes) => Ok(bytes),
            Err(error) => Err(LaneError::Codec(error)),
        }
    }

    pub fn front(&self) -> (r: Option<&Vec<u8>>)
        ensures
            match r {
                Some(ip) => self@.delivered.len() > 0 && ip@ == self@.delivered[0],
                None => self@.delivered.len() == 0,
            },
    {
        if self.delivered.len() > 0 {
            Some(&self.delivered[0])
        } else {
            None
        }
    }

    pub fn pop(&mut self) -> (r: Option<Vec<u8>>)
        requires
            old(self).wf(),
        ensures
            final(self).wf(),
            match r {
                Some(ip) => old(self)@.delivered.len() > 0 && ip@ == old(self)@.delivered[0]
                    && final(self)@ == (LaneView {
                    delivered: old(self)@.delivered.drop_first(),
                    ..old(self)@
                }),
                None => old(self)@.delivered.len() == 0 && final(self)@ == old(self)@,
            },
    {
        let ghost before: LaneView = self@;
        let r: Option<Vec<u8>> = self.delivered.pop_front();
        proof {
            if r is Some {
                assert(self@.delivered =~= before.delivered.drop_first());
            }
        }
        r
    }
}

fn find_links(paths: &[Link], sent: Sent) -> (r: Vec<u8>)
    ensures
        r@ == fan_links(paths@, sent, paths@.len()),
{
    let mut links: Vec<u8> = Vec::new();
    let mut i: usize = 0;
    while i < paths.len()
        invariant
            i <= paths@.len(),
            links@ == fan_links(paths@, sent, i as nat),
        decreases paths@.len() - i,
    {
        let path: Link = paths[i];
        let repeated: bool = match sent.duplicate {
            Some(id) => id == path.id,
            None => false,
        };
        if path.healthy() && path.id != sent.primary && !repeated {
            links.push(path.id);
        }
        i = i + 1;
    }
    links
}

impl UdpLane {
    /// Decides on a packet. The attempts that it takes are then for the caller
    /// to make.
    pub fn begin_send(&mut self, ip: &[u8], paths: &[Link], policy: Policy, now: u64) -> (r: Result<
        Forwarding,
        LaneError,
    >)
        requires
            old(self).wf(),
        ensures
            final(self).wf(),
            final(self)@ == old(self)@.send_begun(ip@, paths@, policy, now).0,
            final(self)@.key == old(self)@.key,
            match r {
                Ok(f) => f.wf() && f@.cascade.replies.len() == 0 && f@.copy is None && old(self)@.send_begun(ip@, paths@, policy, now).1 == Ok::<
                    ForwardingView,
                    LaneError,
                >(f@),
                Err(error) => old(self)@.send_begun(ip@, paths@, policy, now).1 == Err::<
                    ForwardingView,
                    LaneError,
                >(error),
            },
    {
        let ghost before: LaneView = self@;
        proof {
            reveal(LaneView::send_begun);
        }
        if !is_udp(ip) || ip.len() > BOND_MTU {
            return Err(LaneError::NotUdp);
        }
        if self.policy != policy {
            self.policy = policy;
            self.sender.set_config(lane_config(policy));
        }
        self.counters.submitted_packets = self.counters.submitted_packets.wrapping_add(1);
        let ghost begun: LaneView = before.under(policy).submitted();
        assert(self@ =~= begun);
        let port: u16 = match self.flow(ip, now) {
            Some(port) => port,
            None => {
                return Err(LaneError::FlowLimit);
            },
        };
        let ghost known: LaneView = begun.flow_found(ip@, now).0;
        let mut first: Packet = Packet::default();
        first.flags = TUN;
        first.class = VOICE;
        first.local_port = port;
        first.protocol = UDP;
        first.timestamp_us = stamp(now);
        first.payload = wire::copy_bytes(ip);
        assert(first@ =~= lane_packet(ip@, port, now));
        match self.sender.begin(first, paths) {
            Ok(f) => {
                assert(self@ =~= before.send_begun(ip@, paths@, policy, now).0);
                Ok(f)
            },
            Err(error) => {
                self.counters.send_failures = self.counters.send_failures.wrapping_add(1);
                assert(self@ =~= before.send_begun(ip@, paths@, policy, now).0);
                Err(LaneError::Send(error))
            },
        }
    }

    /// The next link to try for a packet, and the message for it.
    pub fn next_attempt(&self, f: &Forwarding) -> (r: Option<Attempt>)
        requires
            self.wf(),
            f.wf(),
        ensures
            sender::attempt_view(r) == f@.next(self@.key),
    {
        f.next(self.key.as_slice())
    }

    /// Concludes a packet whose replies are in. Returns the copies that it then
    /// gets, for the caller to send.
    pub fn conclude_send(&mut self, ip: &[u8], paths: &[Link], policy: Policy, f: Forwarding) -> (r:
        Result<Fan, LaneError>)
        requires
            old(self).wf(),
            f.wf(),
        ensures
            final(self).wf(),
            final(self)@ == old(self)@.send_concluded(ip@, paths@, policy, f@).0,
            final(self)@.key == old(self)@.key,
            match r {
                Ok(fan) => fan.wf() && fan@.replies.len() == 0 && old(self)@.send_concluded(ip@, paths@, policy, f@).1 == Ok::<
                    FanView,
                    LaneError,
                >(fan@),
                Err(error) => old(self)@.send_concluded(ip@, paths@, policy, f@).1 == Err::<
                    FanView,
                    LaneError,
                >(error),
            },
    {
        let ghost before: LaneView = self@;
        let ghost view: ForwardingView = f@;
        proof {
            reveal(LaneView::send_concluded);
        }
        let mut copy: Packet = f.cascade.packet.clone();
        copy.flags = TUN + FEC;
        assert(copy@ =~= fan_packet(view.cascade.packet));
        let sent: Sent = match self.sender.conclude(f) {
            Ok(sent) => sent,
            Err(error) => {
                self.counters.send_failures = self.counters.send_failures.wrapping_add(1);
                assert(self@ =~= before.send_concluded(ip@, paths@, policy, view).0);
                return Err(LaneError::Send(error));
            },
        };
        self.counters.sent_packets = self.counters.sent_packets.wrapping_add(1);
        match payload_meter::udp_payload_len(ip) {
            Some(bytes) => {
                self.counters.payload_sent_bytes = self.counters.payload_sent_bytes.wrapping_add(
                    bytes,
                );
            },
            None => {
                self.counters.payload_unmeasured_packets =
                self.counters.payload_unmeasured_packets.wrapping_add(1);
            },
        }
        if sent.duplicate.is_some() {
            self.counters.protection_copies = self.counters.protection_copies.wrapping_add(1);
        }
        let links: Vec<u8> = if policy == Policy::Smart || policy == Policy::Continuity {
            find_links(paths, sent)
        } else {
            Vec::new()
        };
        let fan: Fan = Fan { packet: copy, links, replies: Vec::new() };
        proof {
            let want: (LaneView, Result<FanView, LaneError>) = before.send_concluded(
                ip@,
                paths@,
                policy,
                view,
            );
            assert(self@ =~= want.0);
            assert(fan@ =~= want.1->Ok_0);
        }
        Ok(fan)
    }

    /// The next link that gets a copy, and the message for it.
    pub fn next_copy(&self, fan: &Fan) -> (r: Option<Attempt>)
        requires
            self.wf(),
            fan.wf(),
        ensures
            sender::attempt_view(r) == fan@.next(self@.key),
    {
        fan.next(self.key.as_slice())
    }

    /// Counts the copies that were taken.
    pub fn conclude_copies(&mut self, fan: &Fan)
        requires
            old(self).wf(),
            fan.wf(),
        ensures
            final(self).wf(),
            final(self)@ == old(self)@.copies_concluded(fan@),
    {
        self.counters.protection_copies = self.counters.protection_copies.wrapping_add(fan.taken());
        assert(self@ =~= old(self)@.copies_concluded(fan@));
    }

    /// Sends a packet. Under the policies that protect, every reachable link
    /// carries it.
    pub fn send<W: WanWriter>(
        &mut self,
        ip: &[u8],
        paths: &[Link],
        policy: Policy,
        now: u64,
        writer: &mut W,
    ) -> (r: Result<(), LaneError>)
        requires
            old(self).wf(),
        ensures
            final(self).wf(),
            exists|replies: Replies|
                {
                    let run: (LaneView, Seq<Entry>, Result<(), LaneError>) =
                        #[trigger] old(self)@.sent(ip@, paths@, policy, now, replies);
                    &&& old(self)@.send_asks(ip@, paths@, policy, now, replies)
                    &&& final(self)@ == run.0
                    &&& final(writer).history() == old(writer).history() + run.1
                    &&& r == run.2
                },
    {
        let ghost before: LaneView = self@;
        let ghost log: History = writer.history();
        let mut f: Forwarding = match self.begin_send(ip, paths, policy, now) {
            Ok(f) => f,
            Err(error) => {
                proof {
                    let none: Replies = Replies { first: Seq::empty(), copy: None, fan: Seq::empty() };
                    assert(log + before.sent(ip@, paths@, policy, now, none).1 =~= log);
                }
                return Err(error);
            },
        };
        let ghost start: ForwardingView = f@;
        let ghost begun: LaneView = self@;
        f.run(self.key.as_slice(), writer);
        let ghost ran: ForwardingView = f@;
        let ghost first: Seq<Reply> = ran.cascade.replies;
        let mut fan: Fan = match self.conclude_send(ip, paths, policy, f) {
            Ok(fan) => fan,
            Err(error) => {
                proof {
                    let replies: Replies = Replies { first, copy: ran.copy, fan: Seq::empty() };
                    assert(ran == start.with(first, ran.copy));
                    let run: (LaneView, Seq<Entry>, Result<(), LaneError>) = before.sent(
                        ip@,
                        paths@,
                        policy,
                        now,
                        replies,
                    );
                    assert(writer.history() == log + run.1);
                }
                return Err(error);
            },
        };
        let ghost spread: FanView = fan@;
        fan.run(self.key.as_slice(), writer);
        self.conclude_copies(&fan);
        proof {
            let replies: Replies = Replies { first, copy: ran.copy, fan: fan@.replies };
            assert(ran == start.with(first, ran.copy));
            assert(fan@ == spread.with(fan@.replies));
            let run: (LaneView, Seq<Entry>, Result<(), LaneError>) = before.sent(
                ip@,
                paths@,
                policy,
                now,
                replies,
            );
            assert(before.send_asks(ip@, paths@, policy, now, replies));
            assert(writer.history() =~= log + run.1);
        }
        Ok(())
    }

    /// Takes a control message of the peer. Returns the packets that it wants
    /// again, for the caller to send.
    pub fn begin_control(&mut self, bytes: &[u8], paths: &[Link]) -> (r: Result<
        Vec<Cascade>,
        LaneError,
    >)
        requires
            old(self).wf(),
        ensures
            final(self).wf(),
            final(self)@ == (LaneView {
                sender: old(self)@.sender.control_begun(bytes@, paths@).0,
                ..old(self)@
            }),
            match r {
                Ok(list) => {
                    &&& forall|i: int| 0 <= i < list@.len() ==> (#[trigger] list@[i]).wf()
                    &&& old(self)@.sender.control_begun(bytes@, paths@).1 == Ok::<
                        Seq<CascadeView>,
                        SendError,
                    >(sender::cascade_views(list@))
                },
                Err(LaneError::Send(error)) => old(self)@.sender.control_begun(bytes@, paths@).1
                    == Err::<Seq<CascadeView>, SendError>(error),
                Err(_) => false,
            },
    {
        let outcome: Result<Vec<Cascade>, SendError> = self.sender.begin_control(bytes, paths);
        assert(self@ =~= (LaneView {
            sender: old(self)@.sender.control_begun(bytes@, paths@).0,
            ..old(self)@
        }));
        match outcome {
            Ok(list) => Ok(list),
            Err(error) => Err(LaneError::Send(error)),
        }
    }

    /// The next link to try for a packet that is repeated, and the message for
    /// it.
    pub fn next_repeat(&self, c: &Cascade) -> (r: Option<Attempt>)
        requires
            self.wf(),
            c.wf(),
        ensures
            sender::attempt_view(r) == c@.next(self@.key),
    {
        c.next(self.key.as_slice())
    }

    /// Counts the packets that were taken again.
    pub fn conclude_control(&mut self, list: &Vec<Cascade>)
        requires
            old(self).wf(),
            forall|i: int| 0 <= i < list@.len() ==> (#[trigger] list@[i]).wf(),
        ensures
            final(self).wf(),
            final(self)@ == old(self)@.control_concluded(
                sender::taken(sender::cascade_views(list@), list@.len()),
            ),
    {
        let count: usize = sender::count_taken(list);
        self.counters.repairs = self.counters.repairs.wrapping_add(count as u64);
        assert(self@ =~= old(self)@.control_concluded(
            sender::taken(sender::cascade_views(list@), list@.len()),
        ));
    }

    /// Takes a control message of the peer.
    pub fn control<W: WanWriter>(
        &mut self,
        bytes: &[u8],
        paths: &[Link],
        writer: &mut W,
    ) -> (r: Result<(), LaneError>)
        requires
            old(self).wf(),
        ensures
            final(self).wf(),
            exists|replies: Seq<Seq<Reply>>|
                {
                    let run: (SenderView, Seq<Entry>, Result<nat, SendError>) =
                        #[trigger] old(self)@.sender.controlled(bytes@, paths@, replies);
                    let next: LaneView = LaneView { sender: run.0, ..old(self)@ };
                    &&& old(self)@.sender.control_asks(bytes@, paths@, replies)
                    &&& final(writer).history() == old(writer).history() + run.1
                    &&& match run.2 {
                        Ok(count) => r is Ok && final(self)@ == next.control_concluded(count),
                        Err(error) => r == Err::<(), LaneError>(LaneError::Send(error))
                            && final(self)@ == next,
                    }
                },
    {
        let ghost before: LaneView = self@;
        let outcome: Result<usize, SendError> = self.sender.control(bytes, paths, writer);
        assert(self.sender@.key == before.sender.key && self.sender@.session
            == before.sender.session);
        match outcome {
            Ok(count) => {
                self.counters.repairs = self.counters.repairs.wrapping_add(count as u64);
                Ok(())
            },
            Err(error) => Err(LaneError::Send(error)),
        }
    }

    fn output(&mut self, port: u16, output: Output) -> (r: Vec<Packet>)
        requires
            old(self).wf(),
            old(self)@.delivered.len() + output@.ready.len() <= DELIVERY_CAPACITY,
            output@.nack.len() <= 1,
        ensures
            final(self).wf(),
            final(self)@ == old(self)@.after_output(output@),
            recovery::packet_views(r@) == controls(port, output@),
    {
        let ghost before: LaneView = self@;
        let ghost whole: OutputView = output@;
        let mut ready: Vec<Packet> = output.ready;
        let ghost all: Seq<PacketView> = recovery::packet_views(ready@);
        let mut i: usize = 0;
        assert(before.delivered + payloads(all.take(0)) =~= before.delivered);
        while i < ready.len()
            invariant
                i <= ready@.len(),
                ready@.len() == all.len(),
                before.delivered.len() + all.len() <= DELIVERY_CAPACITY,
                recovery::packet_views(ready@).skip(i as int) == all.skip(i as int),
                self.wf(),
                self@ == (LaneView {
                    delivered: before.delivered + payloads(all.take(i as int)),
                    counters: counted(before.counters, all, i as nat),
                    ..before
                }),
            decreases ready@.len() - i,
        {
            let ghost left: Seq<PacketView> = recovery::packet_views(ready@);
            let ghost now: LaneView = self@;
            assert(left.skip(i as int)[0] == all.skip(i as int)[0]);
            let mut payload: Vec<u8> = Vec::new();
            std::mem::swap(&mut payload, &mut ready[i].payload);
            let ghost bytes: Seq<u8> = payload@;
            assert(bytes == all[i as int].payload);
            self.counters.delivered_packets = self.counters.delivered_packets.wrapping_add(1);
            self.counters.delivered_bytes = self.counters.delivered_bytes.wrapping_add(
                payload.len() as u64,
            );
            self.delivered.push_back(payload);
            assert(self@.delivered =~= now.delivered.push(bytes));
            assert(payloads(all.take(i + 1)) =~= payloads(all.take(i as int)).push(bytes));
            assert(self@.delivered =~= before.delivered + payloads(all.take(i + 1)));
            i = i + 1;
            assert(recovery::packet_views(ready@).skip(i as int) =~= all.skip(i as int)) by {
                assert forall|j: int| i <= j < all.len() implies recovery::packet_views(ready@)[j]
                    == all[j] by {
                    assert(left.skip(i - 1)[j - (i - 1)] == all.skip(i - 1)[j - (i - 1)]);
                }
            }
        }
        assert(all.take(i as int) =~= all);
        let mut answers: Vec<Packet> = Vec::new();
        match output.ack {
            Some(sequence) => {
                let mut ack: Packet = Packet::default();
                ack.flags = ACK;
                ack.session = SESSION;
                ack.local_port = port;
                ack.sequence = sequence;
                answers.push(ack);
            },
            None => {},
        }
        if output.nack.len() > 0 {
            match envelope::encode_nack(output.nack.as_slice()) {
                Ok(payload) => {
                    let mut nack: Packet = Packet::default();
                    nack.flags = NACK;
                    nack.session = SESSION;
                    nack.local_port = port;
                    nack.payload = payload;
                    answers.push(nack);
                },
                Err(_error) => {},
            }
        }
        assert(recovery::packet_views(answers@) =~= controls(port, whole));
        answers
    }

    fn find_stream(&self, port: u16) -> (r: usize)
        ensures
            r == stream_slot(self@.streams, port, 0),
            r <= self.streams@.len(),
    {
        let mut i: usize = 0;
        while i < self.streams.len() && self.streams[i].port != port
            invariant
                i <= self.streams@.len(),
                stream_slot(self@.streams, port, i as int) == stream_slot(self@.streams, port, 0),
            decreases self.streams@.len() - i,
        {
            i = i + 1;
        }
        i
    }

    /// Forgets the streams that received nothing for long.
    fn drop_idle(&mut self, now: u64)
        requires
            old(self).wf(),
        ensures
            final(self).wf(),
            final(self)@ == (LaneView {
                streams: lively(old(self)@.streams, now, old(self)@.streams.len()),
                ..old(self)@
            }),
    {
        let ghost before: LaneView = self@;
        let ghost mut done: int = 0;
        let mut i: usize = 0;
        assert(before.streams.skip(0) =~= before.streams);
        assert(lively(before.streams, now, 0) + before.streams =~= before.streams);
        while i < self.streams.len()
            invariant
                self.wf(),
                0 <= done <= before.streams.len(),
                i == lively(before.streams, now, done as nat).len(),
                self@ == (LaneView {
                    streams: lively(before.streams, now, done as nat) + before.streams.skip(done),
                    ..before
                }),
            decreases before.streams.len() - done,
        {
            let ghost kept: Seq<ReceiveView> = lively(before.streams, now, done as nat);
            let ghost prior: Seq<ReceiveView> = self@.streams;
            let ghost shelf: Seq<ReceiveStream> = self.streams@;
            assert(prior[i as int] == before.streams[done]);
            if now.saturating_sub(self.streams[i].last) < FLOW_TTL {
                assert(kept.push(before.streams[done]) + before.streams.skip(done + 1) =~= prior);
                i = i + 1;
            } else {
                let _ = self.streams.remove(i);
                assert(self@.streams =~= prior.remove(i as int));
                assert(prior.remove(i as int) =~= kept + before.streams.skip(done + 1));
                assert forall|j: int| 0 <= j < self.streams@.len() implies (
                #[trigger] self.streams@[j]).stream.wf() && self@.streams[j].stream.wf()
                    && self@.streams[j].stream.capacity == STREAM_CAPACITY by {
                    let from: int = if j < i {
                        j
                    } else {
                        j + 1
                    };
                    assert(self.streams@[j] == shelf[from]);
                    assert(self@.streams[j] == prior[from]);
                }
            }
            proof {
                done = done + 1;
            }
        }
        proof {
            assert(before.streams.skip(done) =~= Seq::empty());
            assert(done == before.streams.len());
            assert(self@.streams =~= lively(before.streams, now, before.streams.len()));
        }
    }

    fn open_stream(&mut self, port: u16, now: u64)
        requires
            old(self).wf(),
        ensures
            final(self).wf(),
            final(self)@ == (LaneView { streams: old(self)@.streams_for(port, now), ..old(self)@ }),
    {
        let at: usize = self.find_stream(port);
        assert(self.streams@.len() == self@.streams.len());
        if at < self.streams.len() {
            return;
        }
        self.drop_idle(now);
        assert(self.streams@.len() == self@.streams.len());
        if self.streams.len() >= MAX_STREAMS {
            return;
        }
        let ghost before: LaneView = self@;
        let ghost shelf: Seq<ReceiveStream> = self.streams@;
        self.streams.push(
            ReceiveStream { port, stream: Stream::new(50_000, 25_000, STREAM_CAPACITY), last: now },
        );
        assert(self@.streams =~= before.streams.push(fresh_stream(port, now)));
        assert forall|j: int| 0 <= j < self.streams@.len() implies (
        #[trigger] self.streams@[j]).stream.wf() && self@.streams[j].stream.wf()
            && self@.streams[j].stream.capacity == STREAM_CAPACITY by {
            if j < shelf.len() {
                assert(self.streams@[j] == shelf[j]);
                assert(self@.streams[j] == before.streams[j]);
            } else {
                self.streams@[j].stream.shelves_are_bounded();
            }
        }
    }

    /// Takes a packet of the peer. Nothing changes and nothing is answered
    /// while the delivery queue could not own what may be released.
    pub fn receive(&mut self, p: Packet, now: u64) -> (r: Result<Vec<Packet>, LaneError>)
        requires
            old(self).wf(),
        ensures
            final(self).wf(),
            final(self)@ == old(self)@.received(p@, now).0,
            match (r, old(self)@.received(p@, now).1) {
                (Ok(list), Ok(answers)) => recovery::packet_views(list@) == answers,
                (Err(LaneError::Refused(text)), Err(error)) => text@ == error,
                _ => false,
            },
    {
        let ghost before: LaneView = self@;
        let ghost text: PacketView = p@;
        assert(self.delivered@.len() == self@.delivered.len());
        if self.delivered.len() + 2 * STREAM_CAPACITY + 1 > DELIVERY_CAPACITY {
            self.counters.receive_backpressure = self.counters.receive_backpressure.wrapping_add(1);
            let none: Vec<Packet> = Vec::new();
            assert(recovery::packet_views(none@) =~= Seq::empty());
            return Ok(none);
        }
        let port: u16 = p.local_port;
        self.open_stream(port, now);
        let ghost opened: Seq<ReceiveView> = self@.streams;
        let at: usize = self.find_stream(port);
        assert(self.streams@.len() == self@.streams.len());
        if at >= self.streams.len() {
            self.counters.flow_limit_drops = self.counters.flow_limit_drops.wrapping_add(1);
            let none: Vec<Packet> = Vec::new();
            assert(recovery::packet_views(none@) =~= Seq::empty());
            return Ok(none);
        }
        let key: DeliveryKey = DeliveryKey::of(&p);
        let ghost shelf: Seq<ReceiveStream> = self.streams@;
        let ghost step: (ReassemblyView, Result<OutputView, Seq<char>>) =
            opened[at as int].stream.inserted(text, micros(now));
        proof {
            udp_reassembly::insert_delivers_what_waits(
                opened[at as int].stream,
                text,
                micros(now),
            );
            udp_reassembly::insert_asks_once(opened[at as int].stream, text, micros(now));
        }
        let state: &mut ReceiveStream = &mut self.streams[at];
        state.last = now;
        let outcome: Result<Output, &'static str> = state.stream.insert(p, micros(now));
        proof {
            let changed: ReceiveView = ReceiveView {
                port: opened[at as int].port,
                stream: step.0,
                last: now,
            };
            assert(self@.streams =~= opened.update(at as int, changed));
            assert forall|j: int| 0 <= j < self.streams@.len() implies (
            #[trigger] self.streams@[j]).stream.wf() && self@.streams[j].stream.wf()
                && self@.streams[j].stream.capacity == STREAM_CAPACITY by {
                if j != at {
                    assert(self.streams@[j] == shelf[j]);
                    assert(self@.streams[j] == opened[j]);
                }
            }
        }
        match outcome {
            Ok(out) => {
                if self.dedup.seen_or_add(key, micros(now)) {
                    self.counters.duplicate_packets = self.counters.duplicate_packets.wrapping_add(
                        1,
                    );
                }
                Ok(self.output(port, out))
            },
            Err(error) => {
                self.counters.reassembly_rejections =
                self.counters.reassembly_rejections.wrapping_add(1);
                assert(self@ =~= before.received(text, now).0);
                Err(LaneError::Refused(error))
            },
        }
    }

    /// Lets time pass in every stream, as long as there is room for what it
    /// releases.
    pub fn tick(&mut self, now: u64) -> (r: Vec<Packet>)
        requires
            old(self).wf(),
        ensures
            final(self).wf(),
            final(self)@ == old(self)@.ticked(now, old(self)@.streams.len()).0,
            recovery::packet_views(r@) == old(self)@.ticked(now, old(self)@.streams.len()).1,
    {
        let ghost before: LaneView = self@;
        let mut answers: Vec<Packet> = Vec::new();
        let mut i: usize = 0;
        assert(recovery::packet_views(answers@) =~= Seq::empty());
        assert(self.streams@.len() == before.streams.len());
        while i < self.streams.len()
            invariant
                self.wf(),
                i <= self.streams@.len(),
                self.streams@.len() == before.streams.len(),
                self@ == before.ticked(now, i as nat).0,
                recovery::packet_views(answers@) == before.ticked(now, i as nat).1,
            decreases self.streams@.len() - i,
        {
            assert(self.delivered@.len() == self@.delivered.len());
            let ghost prior: LaneView = self@;
            let ghost shelf: Seq<ReceiveStream> = self.streams@;
            let ghost told: Seq<PacketView> = recovery::packet_views(answers@);
            if self.delivered.len() + 2 * STREAM_CAPACITY + 1 <= DELIVERY_CAPACITY {
                let ghost step: (ReassemblyView, OutputView) =
                    prior.streams[i as int].stream.ticked(micros(now));
                proof {
                    udp_reassembly::tick_delivers_what_waits(
                        prior.streams[i as int].stream,
                        micros(now),
                    );
                    udp_reassembly::tick_asks_once(prior.streams[i as int].stream, micros(now));
                }
                let port: u16 = self.streams[i].port;
                let state: &mut ReceiveStream = &mut self.streams[i];
                let out: Output = state.stream.tick(micros(now));
                proof {
                    let changed: ReceiveView = ReceiveView {
                        stream: step.0,
                        ..prior.streams[i as int]
                    };
                    assert(self@.streams =~= prior.streams.update(i as int, changed));
                    assert forall|j: int| 0 <= j < self.streams@.len() implies (
                    #[trigger] self.streams@[j]).stream.wf() && self@.streams[j].stream.wf()
                        && self@.streams[j].stream.capacity == STREAM_CAPACITY by {
                        if j != i {
                            assert(self.streams@[j] == shelf[j]);
                            assert(self@.streams[j] == prior.streams[j]);
                        }
                    }
                }
                let mut more: Vec<Packet> = self.output(port, out);
                let ghost reply: Seq<Packet> = more@;
                let ghost had: Seq<Packet> = answers@;
                answers.append(&mut more);
                assert(recovery::packet_views(had + reply) =~= recovery::packet_views(had)
                    + recovery::packet_views(reply));
                assert(self.streams@.len() == self@.streams.len());
            }
            i = i + 1;
        }
        answers
    }

    /// The delivery queue and the streams never exceed their bounds.
    pub proof fn lane_is_bounded(&self)
        requires
            self.wf(),
        ensures
            self@.wf(),
    {
    }
}

/// Whether a link was handed a message and took it.
pub open spec fn carried_by(log: Seq<Entry>, id: u8) -> bool {
    exists|i: int|
        0 <= i < log.len() && match #[trigger] log[i] {
            Entry::Handed { link, wire, refusal } => link == id && refusal is None,
            _ => false,
        }
}

proof fn lemma_fan_carries(fan: FanView, key: Seq<u8>, k: int, n: nat)
    requires
        0 <= k < n <= fan.replies.len(),
        fan.replies[k] == Reply::Taken,
        fan.packet.payload.len() <= envelope::MAX_PAYLOAD,
    ensures
        carried_by(fan.entries(key, n), fan.links[k]),
    decreases n,
{
    let before: Seq<Entry> = fan.entries(key, (n - 1) as nat);
    let attempt: AttemptView = sender::attempt_on(fan.packet, key, fan.links[n - 1]);
    let step: Seq<Entry> = sender::entries_of(attempt, fan.replies[n - 1]);
    let all: Seq<Entry> = fan.entries(key, n);
    assert(all == before + step);
    if k == n - 1 {
        assert(all[before.len() as int + 1] == step[1]);
    } else {
        lemma_fan_carries(fan, key, k, (n - 1) as nat);
        let i: int = choose|i: int|
            0 <= i < before.len() && match #[trigger] before[i] {
                Entry::Handed { link, wire, refusal } => link == fan.links[k] && refusal is None,
                _ => false,
            };
        assert(all[i] == before[i]);
    }
}

proof fn lemma_fan_has(paths: Seq<Link>, sent: Sent, k: int, n: nat)
    requires
        0 <= k < n <= paths.len(),
        paths[k].healthy(),
        paths[k].id != sent.primary,
        sent.duplicate != Some(paths[k].id),
    ensures
        fan_links(paths, sent, n).contains(paths[k].id),
    decreases n,
{
    let all: Seq<u8> = fan_links(paths, sent, n);
    let before: Seq<u8> = fan_links(paths, sent, (n - 1) as nat);
    if k == n - 1 {
        assert(all[before.len() as int] == paths[k].id);
    } else {
        lemma_fan_has(paths, sent, k, (n - 1) as nat);
        let i: int = choose|i: int| 0 <= i < before.len() && before[i] == paths[k].id;
        assert(all[i] == before[i]);
    }
}

/// How many of the first `n` links are healthy.
pub open spec fn healthy_count(paths: Seq<Link>, n: nat) -> nat
    decreases n,
{
    if n == 0 {
        0
    } else {
        healthy_count(paths, (n - 1) as nat) + if paths[n - 1].healthy() {
            1nat
        } else {
            0nat
        }
    }
}

/// How many of the healthy ones among the first `n` links have a number.
spec fn named_count(paths: Seq<Link>, id: u8, n: nat) -> nat
    decreases n,
{
    if n == 0 {
        0
    } else {
        named_count(paths, id, (n - 1) as nat) + if paths[n - 1].healthy() && paths[n - 1].id
            == id {
            1nat
        } else {
            0nat
        }
    }
}

/// Whether no two healthy links have one number.
pub open spec fn named_apart(paths: Seq<Link>) -> bool {
    forall|i: int, j: int|
        0 <= i < j < paths.len() && (#[trigger] paths[i]).healthy() && (
        #[trigger] paths[j]).healthy() ==> paths[i].id != paths[j].id
}

proof fn lemma_named_once(paths: Seq<Link>, id: u8, n: nat)
    requires
        n <= paths.len(),
        named_apart(paths),
    ensures
        named_count(paths, id, n) <= 1,
        named_count(paths, id, n) == 1 <==> exists|i: int|
            0 <= i < n && (#[trigger] paths[i]).id == id && paths[i].healthy(),
    decreases n,
{
    if n > 0 {
        lemma_named_once(paths, id, (n - 1) as nat);
        if named_count(paths, id, n) == 1 && named_count(paths, id, (n - 1) as nat) == 0 {
            assert(paths[n - 1].id == id && paths[n - 1].healthy());
        }
    }
}

proof fn lemma_fan_count(paths: Seq<Link>, sent: Sent, n: nat)
    requires
        n <= paths.len(),
        sent.duplicate != Some(sent.primary),
    ensures
        fan_links(paths, sent, n).len() + named_count(paths, sent.primary, n) + (
        match sent.duplicate {
            Some(id) => named_count(paths, id, n),
            None => 0,
        }) == healthy_count(paths, n),
    decreases n,
{
    if n > 0 {
        lemma_fan_count(paths, sent, (n - 1) as nat);
    }
}

proof fn lemma_all_taken(fan: FanView, n: nat)
    requires
        n <= fan.replies.len(),
        forall|i: int| 0 <= i < fan.replies.len() ==> #[trigger] fan.replies[i] == Reply::Taken,
        fan.packet.payload.len() <= envelope::MAX_PAYLOAD,
    ensures
        fan.taken(n) == n,
    decreases n,
{
    if n > 0 {
        lemma_all_taken(fan, (n - 1) as nat);
        assert(fan.replies[n - 1] == Reply::Taken);
    }
}

/// Under the policies that protect, where a link can be chosen and the links
/// take what they are handed, sending succeeds and every healthy link carries
/// the packet.
pub proof fn protected_packet_is_on_every_link(
    s: LaneView,
    ip: Seq<u8>,
    paths: Seq<Link>,
    policy: Policy,
    now: u64,
    replies: Replies,
    k: int,
)
    requires
        policy == Policy::Smart || policy == Policy::Continuity,
        s.send_begun(ip, paths, policy, now).1 is Ok,
        s.send_asks(ip, paths, policy, now, replies),
        forall|i: int| 0 <= i < replies.first.len() ==> #[trigger] replies.first[i] == Reply::Taken,
        replies.copy is Some ==> replies.copy->0 == Reply::Taken,
        forall|i: int| 0 <= i < replies.fan.len() ==> #[trigger] replies.fan[i] == Reply::Taken,
        0 <= k < paths.len(),
        paths[k].healthy(),
    ensures
        s.sent(ip, paths, policy, now, replies).2 is Ok,
        carried_by(s.sent(ip, paths, policy, now, replies).1, paths[k].id),
{
    reveal(LaneView::send_begun);
    reveal(LaneView::send_concluded);
    let (begun, started) = s.send_begun(ip, paths, policy, now);
    let start: ForwardingView = started->Ok_0;
    let f: ForwardingView = start.with(replies.first, replies.copy);
    let key: Seq<u8> = s.key;
    let port: u16 = s.under(policy).submitted().flow_found(ip, now).1->0;
    let known: LaneView = s.under(policy).submitted().flow_found(ip, now).0;
    let decision: link::Decision = known.sender.scheduler.scheduled(
        lane_packet(ip, port, now).class,
        paths,
    ).1->Ok_0;
    sender::lemma_order_first(decision.primary, paths, paths.len());
    assert(f.cascade.order.len() > 0);
    assert(f.cascade.packet.payload == ip);
    assert(replies.first.len() > 0);
    assert(f.cascade.replies.last() == Reply::Taken);
    if replies.first.len() > 1 {
        assert(sender::outcome(f.cascade.packet, f.cascade.replies[0]) is Err);
    }
    let primary: u8 = f.cascade.order[0];
    assert(f.cascade.result() == Ok::<u8, SendError>(primary));
    let (next, fanned) = begun.send_concluded(ip, paths, policy, f);
    let sent: Sent = begun.sender.concluded(f).1->Ok_0;
    let fan: FanView = fanned->Ok_0;
    let spread: FanView = fan.with(replies.fan);
    let log: Seq<Entry> = s.sent(ip, paths, policy, now, replies).1;
    assert(log == f.log(key) + spread.log(key));
    let id: u8 = paths[k].id;
    let lead: Seq<Entry> = f.cascade.log(key);
    if id == primary {
        assert(f.cascade.entries(key, 1) == f.cascade.entries(key, 0) + sender::entries_of(
            sender::attempt_on(f.cascade.packet, key, primary),
            Reply::Taken,
        ));
        assert(lead[1] == sender::entries_of(
            sender::attempt_on(f.cascade.packet, key, primary),
            Reply::Taken,
        )[1]);
        assert(log[1] == lead[1]);
    } else if sent.duplicate == Some(id) {
        let copy: Seq<Entry> = sender::entries_of(
            sender::attempt_on(f.second(), key, f.fec),
            Reply::Taken,
        );
        assert(f.log(key) == lead + copy);
        assert(log[lead.len() as int + 1] == copy[1]);
    } else {
        lemma_fan_has(paths, sent, k, paths.len());
        let m: int = choose|m: int| 0 <= m < fan.links.len() && fan.links[m] == id;
        lemma_fan_carries(spread, key, m, spread.replies.len());
        let tail: Seq<Entry> = spread.log(key);
        let i: int = choose|i: int|
            0 <= i < tail.len() && match #[trigger] tail[i] {
                Entry::Handed { link, wire, refusal } => link == id && refusal is None,
                _ => false,
            };
        assert(log[f.log(key).len() + i] == tail[i]);
    }
}

/// The first link that is tried takes the packet, where all links take what
/// they are handed.
proof fn lemma_first_takes(
    s: LaneView,
    ip: Seq<u8>,
    paths: Seq<Link>,
    policy: Policy,
    now: u64,
    replies: Replies,
    f: ForwardingView,
)
    requires
        s.send_begun(ip, paths, policy, now).1 is Ok,
        f == s.send_begun(ip, paths, policy, now).1->Ok_0.with(replies.first, replies.copy),
        s.send_asks(ip, paths, policy, now, replies),
        forall|i: int| 0 <= i < replies.first.len() ==> #[trigger] replies.first[i] == Reply::Taken,
    ensures
        f.cascade.result() is Ok,
        link::offers(paths, f.cascade.result()->Ok_0),
        f.fec != 0 ==> link::offers(paths, f.fec),
        f.cascade.packet.payload == ip,
        ip.len() <= envelope::MAX_PAYLOAD,
{
    reveal(LaneView::send_begun);
    reveal(LaneView::send_concluded);
    let port: u16 = s.under(policy).submitted().flow_found(ip, now).1->0;
    let known: LaneView = s.under(policy).submitted().flow_found(ip, now).0;
    let class: u16 = lane_packet(ip, port, now).class;
    let decision: link::Decision = known.sender.scheduler.scheduled(class, paths).1->Ok_0;
    link::only_healthy_links_are_chosen(known.sender.scheduler, class, paths);
    sender::lemma_order_first(decision.primary, paths, paths.len());
    assert(f.cascade.order.len() > 0);
    assert(replies.first.len() > 0);
    assert(f.cascade.replies.last() == Reply::Taken);
    if replies.first.len() > 1 {
        assert(sender::outcome(f.cascade.packet, f.cascade.replies[0]) is Err);
    }
    assert(f.cascade.result() == Ok::<u8, SendError>(decision.primary));
}

/// Such a packet counts as one that was sent, and on each healthy link besides
/// its first as a copy.
pub proof fn protected_packet_counts_once(
    s: LaneView,
    ip: Seq<u8>,
    paths: Seq<Link>,
    policy: Policy,
    now: u64,
    replies: Replies,
)
    requires
        policy == Policy::Smart || policy == Policy::Continuity,
        s.send_begun(ip, paths, policy, now).1 is Ok,
        s.send_asks(ip, paths, policy, now, replies),
        forall|i: int| 0 <= i < replies.first.len() ==> #[trigger] replies.first[i] == Reply::Taken,
        replies.copy is Some ==> replies.copy->0 == Reply::Taken,
        forall|i: int| 0 <= i < replies.fan.len() ==> #[trigger] replies.fan[i] == Reply::Taken,
        named_apart(paths),
        s.counters.protection_copies + paths.len() <= u64::MAX,
    ensures
        ({
            let before: Counters = s.counters;
            let after: Counters = s.sent(ip, paths, policy, now, replies).0.counters;
            &&& after.submitted_packets == before.submitted_packets.wrapping_add(1)
            &&& after.sent_packets == before.sent_packets.wrapping_add(1)
            &&& after.send_failures == before.send_failures
            &&& after.protection_copies == before.protection_copies + healthy_count(
                paths,
                paths.len(),
            ) - 1
        }),
{
    reveal(LaneView::send_begun);
    reveal(LaneView::send_concluded);
    let (begun, started) = s.send_begun(ip, paths, policy, now);
    let f: ForwardingView = started->Ok_0.with(replies.first, replies.copy);
    lemma_first_takes(s, ip, paths, policy, now, replies, f);
    let primary: u8 = f.cascade.result()->Ok_0;
    let (next, fanned) = begun.send_concluded(ip, paths, policy, f);
    let sent: Sent = begun.sender.concluded(f).1->Ok_0;
    let fan: FanView = fanned->Ok_0;
    let spread: FanView = fan.with(replies.fan);
    assert(sent.primary == primary);
    assert(begun.counters.protection_copies == s.counters.protection_copies);
    lemma_all_taken(spread, spread.replies.len());
    lemma_fan_count(paths, sent, paths.len());
    lemma_named_once(paths, primary, paths.len());
    match sent.duplicate {
        Some(other) => {
            assert(other == f.fec);
            lemma_named_once(paths, other, paths.len());
        },
        None => {},
    }
    assert(spread.replies.len() == fan.links.len());
    lemma_count_within(paths, paths.len());
}

proof fn lemma_count_within(paths: Seq<Link>, n: nat)
    ensures
        healthy_count(paths, n) <= n,
    decreases n,
{
    if n > 0 {
        lemma_count_within(paths, (n - 1) as nat);
    }
}

impl LaneView {
    /// No two flows have one number, and none has the next.
    pub open spec fn numbers_distinct(self) -> bool {
        &&& forall|a: u128|
            self.flows.contains_key(a) ==> (#[trigger] self.flows[a]).0 < self.next_flow
        &&& forall|a: u128, b: u128|
            self.flows.contains_key(a) && self.flows.contains_key(b) && a != b ==> (
            #[trigger] self.flows[a]).0 != (#[trigger] self.flows[b]).0
    }
}

/// Packets of different flows never share a number, as the lane goes on.
pub proof fn flow_numbers_stay_distinct(s: LaneView, ip: Seq<u8>, now: u64)
    requires
        s.wf(),
        s.numbers_distinct(),
    ensures
        s.flow_found(ip, now).0.numbers_distinct(),
{
}

/// A change of policy keeps the numbers of flows and those of their packets.
pub proof fn policy_keeps_numbers(s: LaneView, policy: Policy, ip: Seq<u8>, now: u64)
    ensures
        s.under(policy).flow_found(ip, now).1 == s.flow_found(ip, now).1,
        s.under(policy).flow_found(ip, now).0.flows == s.flow_found(ip, now).0.flows,
        s.under(policy).next_flow == s.next_flow,
        s.under(policy).sender.sequences == s.sender.sequences,
        s.under(policy).sender.cache == s.sender.cache,
{
}

/// A later fragment belongs to the flow of the first one, for as long as the
/// first is remembered. There must be room to remember it.
pub proof fn fragments_share_flow(s: LaneView, first: Seq<u8>, later: Seq<u8>, now: u64, next: u64)
    requires
        shows_ports(first),
        more_follow(first),
        !shows_ports(later),
        fragment_key(later) == fragment_key(first),
        s.flow_found(first, now).1 is Some,
        table::retained(
            s.fragments,
            |k: u128, v: (u128, u64)| now.saturating_sub(v.1) < FRAGMENT_TTL,
        ).dom().len() < MAX_FLOWS,
        next.saturating_sub(now) < FRAGMENT_TTL,
    ensures
        s.flow_found(first, now).0.flow_found(later, next).1 == s.flow_found(first, now).1,
{
    let after: LaneView = s.flow_found(first, now).0;
    let key: u128 = fragment_key(first);
    assert(after.fragments[key] == (s.tuple(first, now), now));
    assert(after.tuple(later, next) == s.tuple(first, now));
}

/// While the delivery queue lacks room, a packet changes nothing but a count,
/// and is not answered: the peer sends it again.
pub proof fn full_queue_refuses(s: LaneView, p: PacketView, now: u64)
    requires
        !s.has_room(),
    ensures
        s.received(p, now).1 == Ok::<Seq<PacketView>, Seq<char>>(Seq::empty()),
        s.received(p, now).0.streams == s.streams,
        s.received(p, now).0.delivered == s.delivered,
        s.received(p, now).0.dedup == s.dedup,
{
}

/// A message that the lane encodes it accepts, and reads back.
pub proof fn lane_reads_its_messages(p: PacketView, key: Seq<u8>)
    requires
        admissible(p),
        p.payload.len() <= envelope::MAX_PAYLOAD,
        p.destination.len() == 4,
    ensures
        envelope::spec_decode(p.encoded(key), key) == Ok::<PacketView, PacketError>(p),
{
    envelope::decode_reads_encoding(p, key);
}

} // verus!
