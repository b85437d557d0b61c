//! What the payload meter counts over time: every byte at most once, after it
//! was seen and acknowledged.
use crate::packet;
use crate::payload_meter;
use crate::payload_meter::{Direction, FlowView, MeterView, StreamView};
use vstd::prelude::*;
use vstd::set_lib::*;

verus! {

/// A byte of a connection: its flow, how many connections the flow had before
/// it, and its position in the stream.
pub type Mark = (u128, nat, int);

/// The bytes of one direction that were seen, and those that were counted.
#[verifier::ext_equal]
pub struct Side {
    pub seen: Set<Mark>,
    pub paid: Set<Mark>,
}

/// What a run of the meter comes to. `rounds` holds the connections that each
/// flow had.
#[verifier::ext_equal]
pub struct Ledger {
    pub rounds: Map<u128, nat>,
    pub upload: Side,
    pub download: Side,
}

pub open spec fn empty_ledger() -> Ledger {
    Ledger {
        rounds: Map::empty(),
        upload: Side { seen: Set::empty(), paid: Set::empty() },
        download: Side { seen: Set::empty(), paid: Set::empty() },
    }
}

pub open spec fn marks(key: u128, round: nat, places: Set<int>) -> Set<Mark> {
    Set::new(|m: Mark| m.0 == key && m.1 == round && places.contains(m.2))
}

/// The positions below one that the first `n` ranges cover.
pub open spec fn below(ranges: Seq<(i64, i64)>, position: int, n: nat) -> Set<int> {
    Set::new(
        |x: int|
            x < position && exists|i: int|
                0 <= i < n && (#[trigger] ranges[i]).0 <= x && x < ranges[i].1,
    )
}

impl Side {
    pub open spec fn with_seen(self, key: u128, round: nat, places: Set<int>) -> Side {
        Side { seen: self.seen.union(marks(key, round, places)), ..self }
    }

    /// What an acknowledgement that counts adds.
    pub open spec fn with_paid(self, key: u128, round: nat, stream: StreamView, seq: u32) -> Side {
        if stream.ack_counts(seq) {
            Side {
                paid: self.paid.union(
                    marks(
                        key,
                        round,
                        below(
                            stream.ranges,
                            payload_meter::unwrapped(stream.reference, seq),
                            stream.ranges.len(),
                        ),
                    ),
                ),
                ..self
            }
        } else {
            self
        }
    }
}

/// The positions of a segment's payload.
pub open spec fn payload(stream: StreamView, seq: u32, bytes: nat, syn: bool) -> Set<int> {
    let first: int = stream.payload_start(seq, syn);
    set_int_range(first, first + bytes)
}

impl Ledger {
    pub open spec fn round(self, key: u128) -> nat {
        if self.rounds.contains_key(key) {
            self.rounds[key]
        } else {
            0
        }
    }

    /// A segment of a flow that is followed.
    pub open spec fn booked(
        self,
        key: u128,
        flow: FlowView,
        tcp: Seq<u8>,
        header: int,
        direction: Direction,
    ) -> Ledger {
        let round: nat = self.round(key);
        let seq: u32 = packet::be32(tcp, 4) as u32;
        let ack: u32 = packet::be32(tcp, 8) as u32;
        let bytes: nat = (tcp.len() - header) as nat;
        let syn: bool = payload_meter::flag(tcp, 2);
        let acks: bool = payload_meter::flag(tcp, 16);
        match direction {
            Direction::Upload => Ledger {
                upload: self.upload.with_seen(key, round, payload(flow.upload, seq, bytes, syn)),
                download: if acks {
                    self.download.with_paid(key, round, flow.download, ack)
                } else {
                    self.download
                },
                ..self
            },
            Direction::Download => Ledger {
                download: self.download.with_seen(
                    key,
                    round,
                    payload(flow.download, seq, bytes, syn),
                ),
                upload: if acks {
                    self.upload.with_paid(key, round, flow.upload, ack)
                } else {
                    self.upload
                },
                ..self
            },
        }
    }

    /// A segment that the meter looks at.
    pub open spec fn segment(
        self,
        meter: MeterView,
        key: u128,
        tcp: Seq<u8>,
        header: int,
        direction: Direction,
        now: u64,
    ) -> Ledger {
        if meter.opens(key, tcp) {
            if meter.flows.dom().len() >= payload_meter::MAX_FLOWS && !meter.flows.contains_key(
                key,
            ) {
                self
            } else {
                (Ledger { rounds: self.rounds.insert(key, self.round(key) + 1), ..self }).booked(
                    key,
                    payload_meter::fresh_flow(packet::be32(tcp, 4) as u32, now),
                    tcp,
                    header,
                    direction,
                )
            }
        } else if meter.flows.contains_key(key) {
            self.booked(key, meter.flows[key], tcp, header, direction)
        } else {
            self
        }
    }

    pub open spec fn packet(
        self,
        meter: MeterView,
        ip: Seq<u8>,
        direction: Direction,
        now: u64,
    ) -> Ledger {
        match payload_meter::spec_transport(ip, 6) {
            None => self,
            Some(tcp) => {
                let header: int = (tcp[12] / 16) * 4;
                if !packet::spec_protocol(ip, 6) || tcp.len() < 20 || header < 20 || header
                    > tcp.len() {
                    self
                } else {
                    self.segment(
                        meter,
                        payload_meter::flow_key(ip, tcp, direction),
                        tcp,
                        header,
                        direction,
                        now,
                    )
                }
            },
        }
    }
}

/// Something that is done with a meter.
pub enum MeterStep {
    Packet { ip: Seq<u8>, direction: Direction, now: u64 },
    Expire { now: u64 },
}

/// The meter and its ledger after the first `n` steps.
pub open spec fn metered(steps: Seq<MeterStep>, n: nat) -> (MeterView, Ledger)
    decreases n,
{
    if n == 0 {
        (payload_meter::empty_meter(), empty_ledger())
    } else {
        let (meter, ledger) = metered(steps, (n - 1) as nat);
        match steps[n - 1] {
            MeterStep::Packet { ip, direction, now } => (
                meter.observed(ip, direction, now),
                ledger.packet(meter, ip, direction, now),
            ),
            MeterStep::Expire { now } => (meter.expired(now), ledger),
        }
    }
}

// ---- Counting --------------------------------------------------------------------------

proof fn lemma_range_marks(key: u128, round: nat, low: int, high: int)
    requires
        low <= high,
    ensures
        marks(key, round, set_int_range(low, high)).finite(),
        marks(key, round, set_int_range(low, high)).len() == high - low,
    decreases high - low,
{
    let all: Set<Mark> = marks(key, round, set_int_range(low, high));
    if low == high {
        assert(all =~= Set::empty());
    } else {
        lemma_range_marks(key, round, low, high - 1);
        let less: Set<Mark> = marks(key, round, set_int_range(low, high - 1));
        assert(all =~= less.insert((key, round, high - 1)));
    }
}

/// As many bytes are credited as positions are covered below the
/// acknowledgement.
proof fn lemma_below_marks(
    key: u128,
    round: nat,
    ranges: Seq<(i64, i64)>,
    position: int,
    n: nat,
)
    requires
        payload_meter::canonical(ranges),
        n <= ranges.len(),
    ensures
        marks(key, round, below(ranges, position, n)).finite(),
        marks(key, round, below(ranges, position, n)).len() == payload_meter::bytes_below(
            ranges,
            position,
            n,
        ),
    decreases n,
{
    let all: Set<Mark> = marks(key, round, below(ranges, position, n));
    if n == 0 {
        assert(all =~= Set::empty());
    } else {
        lemma_below_marks(key, round, ranges, position, (n - 1) as nat);
        let less: Set<Mark> = marks(key, round, below(ranges, position, (n - 1) as nat));
        let r: (i64, i64) = ranges[n - 1];
        let end: int = if r.1 <= position {
            r.1 as int
        } else {
            position
        };
        if r.0 < end {
            let more: Set<Mark> = marks(key, round, set_int_range(r.0 as int, end));
            lemma_range_marks(key, round, r.0 as int, end);
            assert(all =~= less + more) by {
                assert forall|m: Mark| all.contains(m) == (#[trigger] (less + more).contains(m)) by {
                    if all.contains(m) {
                        let i: int = choose|i: int|
                            0 <= i < n && (#[trigger] ranges[i]).0 <= m.2 && m.2 < ranges[i].1;
                        if i < n - 1 {
                            assert(less.contains(m));
                        }
                    }
                    if more.contains(m) {
                        assert(ranges[n - 1].0 <= m.2);
                    }
                }
            }
            assert(less.disjoint(more)) by {
                assert forall|m: Mark| !(less.contains(m) && more.contains(m)) by {
                    if less.contains(m) && more.contains(m) {
                        let i: int = choose|i: int|
                            0 <= i < n - 1 && (#[trigger] ranges[i]).0 <= m.2 && m.2 < ranges[i].1;
                        assert(ranges[i].1 < ranges[n - 1].0);
                    }
                }
            }
            lemma_set_disjoint_lens(less, more);
        } else {
            assert(all =~= less) by {
                assert forall|m: Mark| #[trigger] all.contains(m) implies less.contains(m) by {
                    let i: int = choose|i: int|
                        0 <= i < n && (#[trigger] ranges[i]).0 <= m.2 && m.2 < ranges[i].1;
                    assert(i < n - 1);
                }
            }
        }
    }
}

// ---- What a ledger keeps ---------------------------------------------------------------

/// Whether only bytes that were seen are counted, and all of known connections.
pub open spec fn sound(side: Side, rounds: Map<u128, nat>) -> bool {
    &&& side.paid.finite()
    &&& side.paid.subset_of(side.seen)
    &&& forall|m: Mark|
        #[trigger] side.seen.contains(m) ==> rounds.contains_key(m.0) && m.1 <= rounds[m.0]
}

/// Whether the bytes of a stream that were counted were acknowledged, and those
/// that may still be were seen.
pub open spec fn good(side: Side, key: u128, round: nat, stream: StreamView) -> bool {
    &&& forall|x: int|
        #[trigger] side.paid.contains((key, round, x)) ==> stream.ack is Some && x
            < stream.ack->Some_0
    &&& forall|x: int|
        #[trigger] payload_meter::covered(stream.ranges).contains(x) ==> side.seen.contains(
            (key, round, x),
        )
}

/// Whether a ledger is that of a meter.
pub open spec fn kept(meter: MeterView, ledger: Ledger) -> bool {
    &&& sound(ledger.upload, ledger.rounds)
    &&& sound(ledger.download, ledger.rounds)
    &&& forall|k: u128|
        #[trigger] meter.flows.contains_key(k) ==> {
            &&& ledger.rounds.contains_key(k)
            &&& good(ledger.upload, k, ledger.round(k), meter.flows[k].upload)
            &&& good(ledger.download, k, ledger.round(k), meter.flows[k].download)
        }
}

proof fn lemma_sees(
    side: Side,
    rounds: Map<u128, nat>,
    key: u128,
    stream: StreamView,
    seq: u32,
    bytes: nat,
    syn: bool,
    fin: bool,
)
    requires
        sound(side, rounds),
        rounds.contains_key(key),
        good(side, key, rounds[key], stream),
        stream.wf(),
        bytes <= 0xffff,
    ensures
        sound(side.with_seen(key, rounds[key], payload(stream, seq, bytes, syn)), rounds),
        good(
            side.with_seen(key, rounds[key], payload(stream, seq, bytes, syn)),
            key,
            rounds[key],
            stream.observed(seq, bytes, syn, fin).0,
        ),
{
    let after: StreamView = stream.observed(seq, bytes, syn, fin).0;
    let next: Side = side.with_seen(key, rounds[key], payload(stream, seq, bytes, syn));
    let first: int = stream.payload_start(seq, syn);
    let end: int = first + bytes;
    let start: int = match stream.ack {
        Some(position) => if position >= first {
            position as int
        } else {
            first
        },
        None => first,
    };
    if start < end {
        payload_meter::merging_adds_range(stream.ranges, start as i64, end as i64);
    }
    assert forall|x: int| #[trigger]
        payload_meter::covered(after.ranges).contains(x) implies next.seen.contains(
        (key, rounds[key], x),
    ) by {
        if payload_meter::covered(stream.ranges).contains(x) {
            assert(side.seen.contains((key, rounds[key], x)));
        } else {
            assert(first <= x < end);
            assert(marks(key, rounds[key], payload(stream, seq, bytes, syn)).contains(
                (key, rounds[key], x),
            ));
        }
    }
}

proof fn lemma_pays(
    side: Side,
    rounds: Map<u128, nat>,
    key: u128,
    stream: StreamView,
    seq: u32,
)
    requires
        sound(side, rounds),
        rounds.contains_key(key),
        good(side, key, rounds[key], stream),
        stream.wf(),
    ensures
        ({
            let next: Side = side.with_paid(key, rounds[key], stream, seq);
            &&& sound(next, rounds)
            &&& good(next, key, rounds[key], stream.acknowledged(seq).0)
            &&& side.paid.subset_of(next.paid)
            &&& next.paid.len() == side.paid.len() + stream.acknowledged(seq).1
        }),
{
    if stream.ack_counts(seq) {
        let round: nat = rounds[key];
        let next: Side = side.with_paid(key, round, stream, seq);
        let position: int = payload_meter::unwrapped(stream.reference, seq);
        let n: nat = stream.ranges.len();
        let more: Set<Mark> = marks(key, round, below(stream.ranges, position, n));
        lemma_below_marks(key, round, stream.ranges, position, n);
        payload_meter::above_keeps_rest(stream.ranges, position as i64, n);
        assert(stream.ranges.take(n as int) =~= stream.ranges);
        assert forall|m: Mark| #[trigger] more.contains(m) implies side.seen.contains(m)
            && !side.paid.contains(m) by {
            let i: int = choose|i: int|
                0 <= i < n && (#[trigger] stream.ranges[i]).0 <= m.2 && m.2 < stream.ranges[i].1;
            assert(payload_meter::covered(stream.ranges).contains(m.2));
            assert(m == (key, round, m.2));
            if side.paid.contains(m) {
                assert(stream.ranges[i].0 >= stream.ack->Some_0);
            }
        }
        assert(next.paid =~= side.paid + more);
        lemma_set_disjoint_lens(side.paid, more);
        let after: StreamView = stream.acknowledged(seq).0;
        assert forall|x: int| #[trigger]
            payload_meter::covered(after.ranges).contains(x) implies next.seen.contains(
            (key, round, x),
        ) by {
            assert(payload_meter::covered(stream.ranges).contains(x));
        }
        assert forall|x: int| #[trigger] next.paid.contains((key, round, x)) implies x < position by {
            if side.paid.contains((key, round, x)) {
            } else {
                assert(more.contains((key, round, x)));
            }
        }
    }
}

/// Another flow is not touched.
proof fn lemma_others(
    side: Side,
    key: u128,
    round: nat,
    places: Set<int>,
    stream: StreamView,
    seq: u32,
    other: u128,
    there: nat,
    far: StreamView,
)
    requires
        other != key,
        good(side, other, there, far),
    ensures
        good(side.with_seen(key, round, places), other, there, far),
        good(side.with_paid(key, round, stream, seq), other, there, far),
{
}

/// A segment that is followed, in the direction that it travels.
proof fn lemma_booked(
    meter: MeterView,
    ledger: Ledger,
    key: u128,
    tcp: Seq<u8>,
    header: int,
    direction: Direction,
    now: u64,
)
    requires
        kept(meter, ledger),
        meter.wf(),
        meter.flows.contains_key(key),
        20 <= header <= tcp.len() <= 0xffff,
    ensures
        ({
            let next: Ledger = ledger.booked(key, meter.flows[key], tcp, header, direction);
            let after: MeterView = meter.followed(key, tcp, header, direction, now);
            let credit: int = meter.flows[key].after(tcp, header, direction, now).1;
            &&& kept(after, next)
            &&& ledger.upload.paid.subset_of(next.upload.paid)
            &&& ledger.download.paid.subset_of(next.download.paid)
            &&& direction == Direction::Upload ==> next.upload.paid == ledger.upload.paid
                && next.download.paid.len() == ledger.download.paid.len() + credit
            &&& direction == Direction::Download ==> next.download.paid == ledger.download.paid
                && next.upload.paid.len() == ledger.upload.paid.len() + credit
        }),
{
    reveal(FlowView::after);
    reveal(FlowView::wf);
    let flow: FlowView = meter.flows[key];
    assert(flow.wf());
    let round: nat = ledger.round(key);
    let seq: u32 = packet::be32(tcp, 4) as u32;
    let ack: u32 = packet::be32(tcp, 8) as u32;
    let bytes: nat = (tcp.len() - header) as nat;
    let syn: bool = payload_meter::flag(tcp, 2);
    let fin: bool = payload_meter::flag(tcp, 1);
    let next: Ledger = ledger.booked(key, flow, tcp, header, direction);
    let after: MeterView = meter.followed(key, tcp, header, direction, now);
    let (own, peer): (StreamView, StreamView) = match direction {
        Direction::Upload => (flow.upload, flow.download),
        Direction::Download => (flow.download, flow.upload),
    };
    let (sent, answered): (Side, Side) = match direction {
        Direction::Upload => (ledger.upload, ledger.download),
        Direction::Download => (ledger.download, ledger.upload),
    };
    lemma_sees(sent, ledger.rounds, key, own, seq, bytes, syn, fin);
    lemma_pays(answered, ledger.rounds, key, peer, ack);
    let places: Set<int> = payload(own, seq, bytes, syn);
    assert forall|k: u128| #[trigger] after.flows.contains_key(k) implies next.rounds.contains_key(k)
        && good(next.upload, k, next.round(k), after.flows[k].upload) && good(
        next.download,
        k,
        next.round(k),
        after.flows[k].download,
    ) by {
        if k != key {
            assert(meter.flows.contains_key(k));
            let far: FlowView = meter.flows[k];
            let there: nat = ledger.round(k);
            lemma_others(ledger.upload, key, round, places, peer, ack, k, there, far.upload);
            lemma_others(ledger.download, key, round, places, peer, ack, k, there, far.download);
        }
    }
}

proof fn lemma_opened(meter: MeterView, ledger: Ledger, key: u128, seq: u32, now: u64)
    requires
        kept(meter, ledger),
        meter.wf(),
    ensures
        ({
            let fresh: FlowView = payload_meter::fresh_flow(seq, now);
            let opened: MeterView = MeterView {
                flows: meter.flows.insert(key, fresh),
                ..meter
            };
            let next: Ledger = Ledger {
                rounds: ledger.rounds.insert(key, ledger.round(key) + 1),
                ..ledger
            };
            kept(opened, next) && opened.wf()
        }),
{
    reveal(FlowView::wf);
    let fresh: FlowView = payload_meter::fresh_flow(seq, now);
    let opened: MeterView = MeterView { flows: meter.flows.insert(key, fresh), ..meter };
    let next: Ledger = Ledger {
        rounds: ledger.rounds.insert(key, ledger.round(key) + 1),
        ..ledger
    };
    assert forall|k: u128| #[trigger] opened.flows.contains_key(k) implies next.rounds.contains_key(k)
        && good(next.upload, k, next.round(k), opened.flows[k].upload) && good(
        next.download,
        k,
        next.round(k),
        opened.flows[k].download,
    ) by {
        if k == key {
            let round: nat = next.round(key);
            assert forall|x: int| !ledger.upload.paid.contains((key, round, x))
                && !ledger.download.paid.contains((key, round, x)) by {
                if ledger.upload.paid.contains((key, round, x)) {
                    assert(ledger.upload.seen.contains((key, round, x)));
                }
                if ledger.download.paid.contains((key, round, x)) {
                    assert(ledger.download.seen.contains((key, round, x)));
                }
            }
        } else {
            assert(meter.flows.contains_key(k));
        }
    }
    assert forall|k: u128|
        #![trigger opened.flows[k]]
        opened.flows.contains_key(k) implies opened.flows[k].wf() by {
        if k != key {
            assert(meter.flows[k].wf());
        }
    }
}

/// Whether the counters of a meter say how much was paid for.
pub open spec fn counted(meter: MeterView, ledger: Ledger) -> bool {
    meter.upload_bytes == ledger.upload.paid.len() && meter.download_bytes
        == ledger.download.paid.len()
}

/// Whether the counters have room for what was paid for.
pub open spec fn countable(ledger: Ledger) -> bool {
    ledger.upload.paid.len() <= u64::MAX && ledger.download.paid.len() <= u64::MAX
}

proof fn lemma_followed(
    meter: MeterView,
    ledger: Ledger,
    key: u128,
    tcp: Seq<u8>,
    header: int,
    direction: Direction,
    now: u64,
)
    requires
        kept(meter, ledger),
        meter.wf(),
        meter.flows.contains_key(key),
        20 <= header <= tcp.len() <= 0xffff,
    ensures
        ({
            let next: Ledger = ledger.booked(key, meter.flows[key], tcp, header, direction);
            let after: MeterView = meter.followed(key, tcp, header, direction, now);
            &&& kept(after, next)
            &&& after.wf()
            &&& after.unmeasured_packets == meter.unmeasured_packets || after.unmeasured_packets
                == meter.unmeasured_packets.wrapping_add(1)
            &&& counted(meter, ledger) && countable(next) ==> counted(after, next)
            &&& ledger.upload.paid.len() <= next.upload.paid.len()
            &&& ledger.download.paid.len() <= next.download.paid.len()
        }),
{
    lemma_booked(meter, ledger, key, tcp, header, direction, now);
    let next: Ledger = ledger.booked(key, meter.flows[key], tcp, header, direction);
    lemma_len_subset(ledger.upload.paid, next.upload.paid);
    lemma_len_subset(ledger.download.paid, next.download.paid);
    payload_meter::followed_flow_is_wf(meter.flows[key], tcp, header, direction, now);
    let after: MeterView = meter.followed(key, tcp, header, direction, now);
    assert forall|k: u128|
        #![trigger after.flows[k]]
        after.flows.contains_key(k) implies after.flows[k].wf() by {
        if k != key {
            assert(meter.flows[k].wf());
        }
    }
}

/// What a packet adds to the counters is what it adds to the ledger.
proof fn lemma_packet(
    meter: MeterView,
    ledger: Ledger,
    ip: Seq<u8>,
    direction: Direction,
    now: u64,
)
    requires
        kept(meter, ledger),
        meter.wf(),
    ensures
        ({
            let next: Ledger = ledger.packet(meter, ip, direction, now);
            let after: MeterView = meter.observed(ip, direction, now);
            &&& kept(after, next)
            &&& after.wf()
            &&& after.unmeasured_packets == meter.unmeasured_packets || after.unmeasured_packets
                == meter.unmeasured_packets.wrapping_add(1)
            &&& counted(meter, ledger) && countable(next) ==> counted(after, next)
            &&& countable(next) ==> countable(ledger)
            &&& ledger.upload.paid.len() <= next.upload.paid.len()
            &&& ledger.download.paid.len() <= next.download.paid.len()
        }),
{
    match payload_meter::spec_transport(ip, 6) {
        None => {},
        Some(tcp) => {
            let header: int = (tcp[12] / 16) * 4;
            if packet::spec_protocol(ip, 6) && tcp.len() >= 20 && 20 <= header <= tcp.len() {
                let key: u128 = payload_meter::flow_key(ip, tcp, direction);
                assert(tcp.len() <= 0xffff);
                if meter.opens(key, tcp) {
                    let seq: u32 = packet::be32(tcp, 4) as u32;
                    lemma_opened(meter, ledger, key, seq, now);
                    let fresh: FlowView = payload_meter::fresh_flow(seq, now);
                    let opened: MeterView = MeterView {
                        flows: meter.flows.insert(key, fresh),
                        ..meter
                    };
                    let next: Ledger = Ledger {
                        rounds: ledger.rounds.insert(key, ledger.round(key) + 1),
                        ..ledger
                    };
                    assert(opened.flows[key] == fresh);
                    lemma_followed(opened, next, key, tcp, header, direction, now);
                } else if meter.flows.contains_key(key) {
                    lemma_followed(meter, ledger, key, tcp, header, direction, now);
                }
            }
        },
    }
}

/// Over any run of the meter every byte of a connection counts at most once,
/// and only after it was seen and acknowledged: the counters are the numbers
/// of bytes that were paid for, all of them seen, and in a connection that is
/// known all of them below what was acknowledged.
pub proof fn every_byte_counts_once(steps: Seq<MeterStep>, n: nat)
    requires
        n <= steps.len(),
    ensures
        metered(steps, n).0.wf(),
        kept(metered(steps, n).0, metered(steps, n).1),
        countable(metered(steps, n).1) ==> counted(metered(steps, n).0, metered(steps, n).1),
    decreases n,
{
    if n > 0 {
        every_byte_counts_once(steps, (n - 1) as nat);
        let before: (MeterView, Ledger) = metered(steps, (n - 1) as nat);
        match steps[n - 1] {
            MeterStep::Packet { ip, direction, now } => {
                lemma_packet(before.0, before.1, ip, direction, now);
            },
            MeterStep::Expire { now } => {
                assert(kept(before.0.expired(now), before.1));
                assert(before.0.expired(now).wf()) by {
                    assert forall|k: u128|
                        #![trigger before.0.expired(now).flows[k]]
                        before.0.expired(now).flows.contains_key(
                            k,
                        ) implies before.0.expired(now).flows[k].wf() by {
                        assert(before.0.flows[k].wf());
                    }
                }
            },
        }
    }
}

/// The three counters never fall over a run, as long as they have room: what
/// was counted stays counted, and each step leaves at most one packet
/// unmeasured.
pub proof fn counters_never_fall(steps: Seq<MeterStep>, n: nat, m: nat)
    requires
        n <= m <= steps.len(),
        m <= u64::MAX,
        countable(metered(steps, m).1),
    ensures
        ({
            let before: MeterView = metered(steps, n).0;
            let after: MeterView = metered(steps, m).0;
            &&& before.upload_bytes <= after.upload_bytes
            &&& before.download_bytes <= after.download_bytes
            &&& before.unmeasured_packets <= after.unmeasured_packets
            &&& after.unmeasured_packets - before.unmeasured_packets <= m - n
        }),
        countable(metered(steps, n).1),
        metered(steps, n).0.unmeasured_packets <= n,
        metered(steps, m).0.unmeasured_packets <= m,
    decreases m,
{
    if m == 0 {
    } else {
        let prior: (MeterView, Ledger) = metered(steps, (m - 1) as nat);
        every_byte_counts_once(steps, (m - 1) as nat);
        every_byte_counts_once(steps, m);
        match steps[m - 1] {
            MeterStep::Packet { ip, direction, now } => {
                lemma_packet(prior.0, prior.1, ip, direction, now);
            },
            MeterStep::Expire { now } => {},
        }
        if n < m {
            counters_never_fall(steps, n, (m - 1) as nat);
        } else {
            counters_never_fall(steps, (m - 1) as nat, (m - 1) as nat);
        }
    }
}

} // verus!
