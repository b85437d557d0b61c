//! Bounded resequencing of TCP flows over links of unequal delay. Segments
//! that only acknowledge, UDP and unrelated flows never wait.
use crate::packet;
use vstd::multiset::Multiset;
use vstd::prelude::*;

verus! {

pub const MAX_FLOWS: usize = 1024;

pub const MAX_PER_FLOW: usize = 4096;

pub const MAX_BUFFERED: usize = 8192;

/// Longest wait for a missing segment. It covers the shortest repair time of
/// the scheduler and a short detour.
pub const HOLD_MS: u64 = 80;

pub const FLOW_IDLE_MS: u64 = 60_000;

/// Flow, sequence number and occupied sequence space of a segment.
pub open spec fn spec_segment(ip: Seq<u8>) -> Option<(u128, u32, u32)> {
    let header: int = packet::spec_header(ip);
    let tcp: int = packet::spec_tcp_header(ip);
    if ip.len() < 40 || ip[9] != 6 || ip[6] % 64 != 0 || ip[7] != 0 || header < 20 || ip.len()
        < header + 20 || tcp < 20 || ip.len() < header + tcp {
        None
    } else {
        let flags: u8 = ip[header + 13];
        let length: u32 = ((ip.len() - header - tcp) as u32).wrapping_add(
            (if (flags / 2) % 2 == 1 {
                1u32
            } else {
                0u32
            }),
        ).wrapping_add(
            (if flags % 2 == 1 {
                1u32
            } else {
                0u32
            }),
        );
        if length == 0 {
            None
        } else {
            Some((packet::spec_tcp_tuple(ip), packet::be32(ip, header + 4) as u32, length))
        }
    }
}

/// Whether a sequence number lies after another, in the half of the space
/// ahead of it.
pub open spec fn ahead(a: u32, b: u32) -> bool {
    0 < a.wrapping_sub(b) < 0x8000_0000
}

/// A segment that waits for earlier ones.
pub struct Segment {
    pub seq: u32,
    pub length: u32,
    pub arrived: u64,
    pub ip: Vec<u8>,
}

#[verifier::ext_equal]
pub struct SegmentView {
    pub seq: u32,
    pub length: u32,
    pub arrived: u64,
    pub ip: Seq<u8>,
}

impl View for Segment {
    type V = SegmentView;

    open spec fn view(&self) -> SegmentView {
        SegmentView { seq: self.seq, length: self.length, arrived: self.arrived, ip: self.ip@ }
    }
}

pub struct Flow {
    pub key: u128,
    pub next: u32,
    pub touched: u64,
    pub pending: Vec<Segment>,
}

#[verifier::ext_equal]
pub struct FlowView {
    pub key: u128,
    pub next: u32,
    pub touched: u64,
    pub pending: Seq<SegmentView>,
}

pub open spec fn segment_views(pending: Seq<Segment>) -> Seq<SegmentView> {
    pending.map_values(|s: Segment| s@)
}

impl View for Flow {
    type V = FlowView;

    open spec fn view(&self) -> FlowView {
        FlowView {
            key: self.key,
            next: self.next,
            touched: self.touched,
            pending: segment_views(self.pending@),
        }
    }
}

pub open spec fn flow_views(flows: Seq<Flow>) -> Seq<FlowView> {
    flows.map_values(|f: Flow| f@)
}

pub open spec fn byte_views(list: Seq<Vec<u8>>) -> Seq<Seq<u8>> {
    list.map_values(|v: Vec<u8>| v@)
}

/// The next expected number after a segment.
pub open spec fn advanced(next: u32, seq: u32, length: u32) -> u32 {
    let end: u32 = seq.wrapping_add(length);
    if ahead(end, next) {
        end
    } else {
        next
    }
}

/// First position from `i` on that need not wait.
pub open spec fn first_ready(pending: Seq<SegmentView>, next: u32, i: int) -> int
    decreases pending.len() - i,
{
    if i < pending.len() && ahead(pending[i].seq, next) {
        first_ready(pending, next, i + 1)
    } else {
        i
    }
}

/// First position of the least distance ahead, among the first `n`.
pub open spec fn nearest(pending: Seq<SegmentView>, next: u32, n: nat) -> int
    decreases n,
{
    if n <= 1 {
        0
    } else {
        let best: int = nearest(pending, next, (n - 1) as nat);
        if pending[n - 1].seq.wrapping_sub(next) < pending[best].seq.wrapping_sub(next) {
            n - 1
        } else {
            best
        }
    }
}

/// What was held back so far, and for how long.
#[derive(Clone, Copy, Debug, PartialEq, Eq, Structural)]
pub struct HoldStats {
    pub held_packets: u64,
    pub released_held_packets: u64,
    pub deadline_gap_releases: u64,
    pub total_hold_ms: u64,
    pub max_hold_ms: u64,
}

impl HoldStats {
    /// One more segment is held.
    pub open spec fn holding(self) -> HoldStats {
        HoldStats { held_packets: self.held_packets.saturating_add(1), ..self }
    }

    /// A held segment was let go after `waited` milliseconds.
    pub open spec fn letting_go(self, waited: u64) -> HoldStats {
        HoldStats {
            released_held_packets: self.released_held_packets.saturating_add(1),
            total_hold_ms: self.total_hold_ms.saturating_add(waited),
            max_hold_ms: if waited > self.max_hold_ms {
                waited
            } else {
                self.max_hold_ms
            },
            ..self
        }
    }

    /// A gap was given up.
    pub open spec fn giving_up(self) -> HoldStats {
        HoldStats { deadline_gap_releases: self.deadline_gap_releases.saturating_add(1), ..self }
    }

    fn hold(&mut self)
        ensures
            *final(self) == old(self).holding(),
    {
        self.held_packets = self.held_packets.saturating_add(1);
    }

    fn let_go(&mut self, waited: u64)
        ensures
            *final(self) == old(self).letting_go(waited),
    {
        self.released_held_packets = self.released_held_packets.saturating_add(1);
        self.total_hold_ms = self.total_hold_ms.saturating_add(waited);
        if waited > self.max_hold_ms {
            self.max_hold_ms = waited;
        }
    }

    fn give_up(&mut self)
        ensures
            *final(self) == old(self).giving_up(),
    {
        self.deadline_gap_releases = self.deadline_gap_releases.saturating_add(1);
    }
}

/// The list with one entry taken out and the last one in its place.
pub open spec fn taken(pending: Seq<SegmentView>, i: int) -> Seq<SegmentView> {
    pending.update(i, pending.last()).drop_last()
}

impl FlowView {
    pub open spec fn advance(self, seq: u32, length: u32) -> FlowView {
        FlowView { next: advanced(self.next, seq, length), ..self }
    }

    /// The flow without the segment at `i`, which is passed on.
    pub open spec fn passed(self, i: int) -> FlowView {
        (FlowView { pending: taken(self.pending, i), ..self }).advance(
            self.pending[i].seq,
            self.pending[i].length,
        )
    }

    /// The flow after everything that need not wait was passed on.
    pub open spec fn flushed(self) -> (FlowView, Seq<Seq<u8>>)
        decreases self.pending.len(),
    {
        let i: int = first_ready(self.pending, self.next, 0);
        if 0 <= i < self.pending.len() {
            let rest: (FlowView, Seq<Seq<u8>>) = self.passed(i).flushed();
            (rest.0, seq![self.pending[i].ip] + rest.1)
        } else {
            (self, Seq::empty())
        }
    }

    /// The counters after a flush at a time.
    pub open spec fn flush_stats(self, stats: HoldStats, now: u64) -> HoldStats
        decreases self.pending.len(),
    {
        let i: int = first_ready(self.pending, self.next, 0);
        if 0 <= i < self.pending.len() {
            self.passed(i).flush_stats(
                stats.letting_go(now.saturating_sub(self.pending[i].arrived)),
                now,
            )
        } else {
            stats
        }
    }

    /// A segment passed on at once, with those it releases.
    pub open spec fn released(self, seq: u32, length: u32, ip: Seq<u8>) -> (
        FlowView,
        Seq<Seq<u8>>,
    ) {
        let rest: (FlowView, Seq<Seq<u8>>) = self.advance(seq, length).flushed();
        (rest.0, seq![ip] + rest.1)
    }

    pub open spec fn overdue(self, now: u64) -> bool {
        exists|i: int|
            0 <= i < self.pending.len() && now.saturating_sub((#[trigger] self.pending[i]).arrived)
                >= HOLD_MS
    }

    /// The flow after its gap was given up, where something waited too long.
    pub open spec fn drained(self, now: u64) -> (FlowView, Seq<Seq<u8>>) {
        if self.overdue(now) {
            let i: int = nearest(self.pending, self.next, self.pending.len());
            let rest: (FlowView, Seq<Seq<u8>>) = self.passed(i).flushed();
            (rest.0, seq![self.pending[i].ip] + rest.1)
        } else {
            (self, Seq::empty())
        }
    }

    /// The counters after the flow was drained.
    pub open spec fn drain_stats(self, stats: HoldStats, now: u64) -> HoldStats {
        if self.overdue(now) {
            let i: int = nearest(self.pending, self.next, self.pending.len());
            self.passed(i).flush_stats(
                stats.giving_up().letting_go(now.saturating_sub(self.pending[i].arrived)),
                now,
            )
        } else {
            stats
        }
    }

    pub open spec fn stale(self, now: u64) -> bool {
        self.pending.len() == 0 && now.saturating_sub(self.touched) >= FLOW_IDLE_MS
    }
}

/// First position from `i` on that has the key.
pub open spec fn flow_slot(flows: Seq<FlowView>, key: u128, i: int) -> int
    decreases flows.len() - i,
{
    if i < flows.len() && flows[i].key != key {
        flow_slot(flows, key, i + 1)
    } else {
        i
    }
}

/// The flows among the first `n` that are in use.
pub open spec fn in_use(flows: Seq<FlowView>, now: u64, n: nat) -> Seq<FlowView>
    decreases n,
{
    if n == 0 {
        Seq::empty()
    } else {
        let before: Seq<FlowView> = in_use(flows, now, (n - 1) as nat);
        if flows[n - 1].stale(now) {
            before
        } else {
            before.push(flows[n - 1])
        }
    }
}

/// Segments that wait in the first `n` flows.
pub open spec fn waiting(flows: Seq<FlowView>, n: nat) -> nat
    decreases n,
{
    if n == 0 {
        0
    } else {
        waiting(flows, (n - 1) as nat) + flows[n - 1].pending.len()
    }
}

#[verifier::ext_equal]
pub struct ReorderView {
    pub flows: Seq<FlowView>,
    pub buffered: nat,
    pub stats: HoldStats,
}

impl ReorderView {
    pub open spec fn wf(self) -> bool {
        &&& self.buffered == waiting(self.flows, self.flows.len())
        &&& self.buffered <= MAX_BUFFERED
    }

    pub open spec fn with_flow(self, at: int, flow: FlowView) -> ReorderView {
        ReorderView {
            flows: self.flows.update(at, flow),
            buffered: (self.buffered + flow.pending.len() - self.flows[at].pending.len()) as nat,
            ..self
        }
    }

    /// The state and what is passed on after a packet came in. A packet ahead
    /// of its flow waits while there is room.
    pub open spec fn pushed(self, ip: Seq<u8>, now: u64) -> (ReorderView, Seq<Seq<u8>>) {
        match spec_segment(ip) {
            None => (self, seq![ip]),
            Some((key, seq, length)) => {
                let at: int = flow_slot(self.flows, key, 0);
                if at < self.flows.len() {
                    let flow: FlowView = FlowView { touched: now, ..self.flows[at] };
                    if ahead(seq, flow.next) && flow.pending.len() < MAX_PER_FLOW && self.buffered
                        < MAX_BUFFERED {
                        let held: SegmentView = SegmentView { seq, length, arrived: now, ip };
                        (
                            ReorderView {
                                stats: self.stats.holding(),
                                ..self.with_flow(
                                    at,
                                    FlowView { pending: flow.pending.push(held), ..flow },
                                )
                            },
                            Seq::empty(),
                        )
                    } else {
                        let r: (FlowView, Seq<Seq<u8>>) = flow.released(seq, length, ip);
                        (
                            ReorderView {
                                stats: flow.advance(seq, length).flush_stats(self.stats, now),
                                ..self.with_flow(at, r.0)
                            },
                            r.1,
                        )
                    }
                } else {
                    let kept: Seq<FlowView> = if self.flows.len() >= MAX_FLOWS {
                        in_use(self.flows, now, self.flows.len())
                    } else {
                        self.flows
                    };
                    let started: FlowView = FlowView {
                        key,
                        next: seq.wrapping_add(length),
                        touched: now,
                        pending: Seq::empty(),
                    };
                    (
                        ReorderView {
                            flows: if kept.len() >= MAX_FLOWS {
                                kept
                            } else {
                                kept.push(started)
                            },
                            ..self
                        },
                        seq![ip],
                    )
                }
            },
        }
    }

    /// The first `n` flows drained.
    pub open spec fn drained(self, now: u64, n: nat) -> (ReorderView, Seq<Seq<u8>>)
        decreases n,
    {
        if n == 0 {
            (self, Seq::empty())
        } else {
            let before: (ReorderView, Seq<Seq<u8>>) = self.drained(now, (n - 1) as nat);
            let r: (FlowView, Seq<Seq<u8>>) = before.0.flows[n - 1].drained(now);
            (
                ReorderView {
                    stats: before.0.flows[n - 1].drain_stats(before.0.stats, now),
                    ..before.0.with_flow(n - 1, r.0)
                },
                before.1 + r.1,
            )
        }
    }
}

pub struct TcpReorder {
    pub flows: Vec<Flow>,
    pub buffered: usize,
    pub stats: HoldStats,
}

/// What waits now, and what was held back so far.
#[derive(Clone, Copy, Debug, PartialEq, Eq, Structural)]
pub struct ReorderSnapshot {
    pub buffered_packets: usize,
    pub held_packets: u64,
    pub released_held_packets: u64,
    pub deadline_gap_releases: u64,
    pub total_hold_ms: u64,
    pub max_hold_ms: u64,
}

impl View for TcpReorder {
    type V = ReorderView;

    open spec fn view(&self) -> ReorderView {
        ReorderView {
            flows: flow_views(self.flows@),
            buffered: self.buffered as nat,
            stats: self.stats,
        }
    }
}

proof fn lemma_first_ready(pending: Seq<SegmentView>, next: u32, i: int)
    requires
        0 <= i <= pending.len(),
    ensures
        i <= first_ready(pending, next, i) <= pending.len(),
        forall|j: int|
            i <= j < first_ready(pending, next, i) ==> ahead((#[trigger] pending[j]).seq, next),
    decreases pending.len() - i,
{
    if i < pending.len() && ahead(pending[i].seq, next) {
        lemma_first_ready(pending, next, i + 1);
    }
}

proof fn lemma_nearest(pending: Seq<SegmentView>, next: u32, n: nat)
    requires
        0 < n <= pending.len(),
    ensures
        0 <= nearest(pending, next, n) < n,
    decreases n,
{
    if n > 1 {
        lemma_nearest(pending, next, (n - 1) as nat);
    }
}

/// After a flush everything that still waits lies ahead of the flow.
pub proof fn flush_leaves_only_later(flow: FlowView)
    ensures
        flow.flushed().0.pending.len() <= flow.pending.len(),
        forall|i: int|
            0 <= i < flow.flushed().0.pending.len() ==> ahead(
                (#[trigger] flow.flushed().0.pending[i]).seq,
                flow.flushed().0.next,
            ),
        flow.flushed().0.key == flow.key,
        flow.flushed().0.touched == flow.touched,
    decreases flow.pending.len(),
{
    let i: int = first_ready(flow.pending, flow.next, 0);
    lemma_first_ready(flow.pending, flow.next, 0);
    if 0 <= i < flow.pending.len() {
        flush_leaves_only_later(flow.passed(i));
    }
}

/// Whatever takes no place in the sequence of a TCP flow passes at once.
pub proof fn other_traffic_passes_at_once(r: ReorderView, ip: Seq<u8>, now: u64)
    requires
        spec_segment(ip) is None,
    ensures
        r.pushed(ip, now) == (r, seq![ip]),
{
}

/// A packet that does not lie ahead of its flow passes at once, before all that
/// it releases.
pub proof fn next_packet_passes_at_once(r: ReorderView, ip: Seq<u8>, now: u64)
    requires
        match spec_segment(ip) {
            Some((key, seq, length)) => {
                let at: int = flow_slot(r.flows, key, 0);
                at < r.flows.len() ==> !ahead(seq, r.flows[at].next)
            },
            None => true,
        },
    ensures
        r.pushed(ip, now).1.len() > 0,
        r.pushed(ip, now).1[0] == ip,
{
}

/// A packet changes no flow but its own.
pub proof fn flows_do_not_wait_for_each_other(r: ReorderView, ip: Seq<u8>, now: u64, other: int)
    requires
        0 <= other < r.flows.len(),
        match spec_segment(ip) {
            Some((key, seq, length)) => flow_slot(r.flows, key, 0) < r.flows.len()
                && r.flows[other].key != key,
            None => true,
        },
    ensures
        r.pushed(ip, now).0.flows[other] == r.flows[other],
{
    match spec_segment(ip) {
        Some((key, seq, length)) => {
            lemma_flow_slot(r.flows, key, 0);
        },
        None => {},
    }
}

/// Whether a flow holds only its own segments, and no more than its share.
pub open spec fn holds_own(flow: FlowView) -> bool {
    &&& flow.pending.len() <= MAX_PER_FLOW
    &&& forall|i: int|
        0 <= i < flow.pending.len() ==> spec_segment((#[trigger] flow.pending[i]).ip) == Some(
            (flow.key, flow.pending[i].seq, flow.pending[i].length),
        )
}

/// Whether every flow does, and there are not too many.
pub open spec fn orderly(r: ReorderView) -> bool {
    &&& r.flows.len() <= MAX_FLOWS
    &&& forall|i: int| 0 <= i < r.flows.len() ==> holds_own(#[trigger] r.flows[i])
}

/// Whether a packet is a segment of a flow.
pub open spec fn of_flow(ip: Seq<u8>, key: u128) -> bool {
    match spec_segment(ip) {
        Some((own, seq, length)) => own == key,
        None => false,
    }
}

proof fn lemma_flushed_own(flow: FlowView)
    requires
        holds_own(flow),
    ensures
        holds_own(flow.flushed().0),
        flow.flushed().0.key == flow.key,
        forall|i: int|
            0 <= i < flow.flushed().1.len() ==> of_flow(#[trigger] flow.flushed().1[i], flow.key),
    decreases flow.pending.len(),
{
    let i: int = first_ready(flow.pending, flow.next, 0);
    if 0 <= i < flow.pending.len() {
        let next: FlowView = flow.passed(i);
        lemma_passed_own(flow, i);
        lemma_flushed_own(next);
        let out: Seq<Seq<u8>> = flow.flushed().1;
        assert forall|k: int| 0 <= k < out.len() implies of_flow(#[trigger] out[k], flow.key) by {
            if k > 0 {
                assert(out[k] == next.flushed().1[k - 1]);
            }
        }
    }
}

proof fn lemma_passed_own(flow: FlowView, i: int)
    requires
        holds_own(flow),
        0 <= i < flow.pending.len(),
    ensures
        holds_own(flow.passed(i)),
        flow.passed(i).key == flow.key,
        of_flow(flow.pending[i].ip, flow.key),
{
    let next: FlowView = flow.passed(i);
    assert forall|k: int| 0 <= k < next.pending.len() implies spec_segment(
        (#[trigger] next.pending[k]).ip,
    ) == Some((next.key, next.pending[k].seq, next.pending[k].length)) by {
        if k == i {
            assert(next.pending[k] == flow.pending[flow.pending.len() - 1]);
        } else {
            assert(next.pending[k] == flow.pending[k]);
        }
    }
}

proof fn lemma_in_use_own(flows: Seq<FlowView>, now: u64, n: nat)
    requires
        n <= flows.len(),
        forall|i: int| 0 <= i < flows.len() ==> holds_own(#[trigger] flows[i]),
    ensures
        in_use(flows, now, n).len() <= n,
        forall|i: int|
            0 <= i < in_use(flows, now, n).len() ==> holds_own(
                #[trigger] in_use(flows, now, n)[i],
            ),
    decreases n,
{
    if n > 0 {
        lemma_in_use_own(flows, now, (n - 1) as nat);
        assert(holds_own(flows[n - 1]));
    }
}

/// A packet that comes in lets only packets of its own flow pass. What waits
/// stays bounded, for each flow and in the number of flows.
pub proof fn release_is_of_one_flow(r: ReorderView, ip: Seq<u8>, now: u64)
    requires
        orderly(r),
    ensures
        orderly(r.pushed(ip, now).0),
        match spec_segment(ip) {
            Some((key, seq, length)) => forall|i: int|
                0 <= i < r.pushed(ip, now).1.len() ==> of_flow(
                    #[trigger] r.pushed(ip, now).1[i],
                    key,
                ),
            None => r.pushed(ip, now).1 == seq![ip],
        },
{
    let after: (ReorderView, Seq<Seq<u8>>) = r.pushed(ip, now);
    match spec_segment(ip) {
        Some((key, seq, length)) => {
            let at: int = flow_slot(r.flows, key, 0);
            lemma_flow_slot(r.flows, key, 0);
            if at < r.flows.len() {
                assert(holds_own(r.flows[at]));
                let flow: FlowView = FlowView { touched: now, ..r.flows[at] };
                let moved: FlowView = flow.advance(seq, length);
                assert(holds_own(moved));
                lemma_flushed_own(moved);
                let next: FlowView = after.0.flows[at];
                assert(holds_own(next));
                assert forall|i: int| 0 <= i < after.0.flows.len() implies holds_own(
                    #[trigger] after.0.flows[i],
                ) by {
                    if i != at {
                        assert(after.0.flows[i] == r.flows[i]);
                    }
                }
                assert forall|i: int| 0 <= i < after.1.len() implies of_flow(
                    #[trigger] after.1[i],
                    key,
                ) by {
                    if i > 0 {
                        assert(after.1[i] == moved.flushed().1[i - 1]);
                    }
                }
            } else {
                lemma_in_use_own(r.flows, now, r.flows.len());
            }
        },
        None => {},
    }
}

/// Draining keeps these bounds.
pub proof fn drain_keeps_bounds(r: ReorderView, now: u64, n: nat)
    requires
        orderly(r),
        n <= r.flows.len(),
    ensures
        orderly(r.drained(now, n).0),
        r.drained(now, n).0.flows.len() == r.flows.len(),
    decreases n,
{
    if n > 0 {
        drain_keeps_bounds(r, now, (n - 1) as nat);
        let before: ReorderView = r.drained(now, (n - 1) as nat).0;
        let flow: FlowView = before.flows[n - 1];
        assert(holds_own(flow));
        if flow.overdue(now) {
            let i: int = nearest(flow.pending, flow.next, flow.pending.len());
            lemma_nearest(flow.pending, flow.next, flow.pending.len());
            lemma_passed_own(flow, i);
            lemma_flushed_own(flow.passed(i));
        }
        let after: ReorderView = r.drained(now, n).0;
        assert forall|k: int| 0 <= k < after.flows.len() implies holds_own(
            #[trigger] after.flows[k],
        ) by {
            if k != n - 1 {
                assert(after.flows[k] == before.flows[k]);
            }
        }
    }
}

/// Where something has waited for the whole hold time, the next look gives up
/// the gap: at least one packet passes, and fewer wait.
pub proof fn overdue_gap_is_given_up(flow: FlowView, now: u64)
    requires
        flow.overdue(now),
    ensures
        flow.drained(now).1.len() > 0,
        flow.drained(now).0.pending.len() < flow.pending.len(),
{
    lemma_nearest(flow.pending, flow.next, flow.pending.len());
    let i: int = nearest(flow.pending, flow.next, flow.pending.len());
    flush_leaves_only_later(flow.passed(i));
}

pub open spec fn no_holds() -> HoldStats {
    HoldStats {
        held_packets: 0,
        released_held_packets: 0,
        deadline_gap_releases: 0,
        total_hold_ms: 0,
        max_hold_ms: 0,
    }
}

// ---- Nothing is lost ------------------------------------------------------------

pub open spec fn packets(pending: Seq<SegmentView>) -> Multiset<Seq<u8>> {
    pending.map_values(|s: SegmentView| s.ip).to_multiset()
}

/// Everything that waits in the first `n` flows.
pub open spec fn held(flows: Seq<FlowView>, n: nat) -> Multiset<Seq<u8>>
    decreases n,
{
    if n == 0 {
        Multiset::empty()
    } else {
        held(flows, (n - 1) as nat).add(packets(flows[n - 1].pending))
    }
}

proof fn lemma_taken(pending: Seq<SegmentView>, i: int)
    requires
        0 <= i < pending.len(),
    ensures
        packets(taken(pending, i)).insert(pending[i].ip) == packets(pending),
{
    broadcast use vstd::seq_lib::group_to_multiset_ensures;

    let all: Seq<Seq<u8>> = pending.map_values(|s: SegmentView| s.ip);
    let rest: Seq<Seq<u8>> = taken(pending, i).map_values(|s: SegmentView| s.ip);
    let last: Seq<u8> = all.last();
    let head: Seq<Seq<u8>> = all.drop_last();
    assert(head.push(last) =~= all);
    assert(all.to_multiset() =~= head.to_multiset().insert(last));
    if i == pending.len() - 1 {
        assert(rest =~= head);
    } else {
        assert(rest.len() == head.len());
        assert(rest.remove(i) =~= head.remove(i));
        assert(rest[i] == last);
        assert(head[i] == pending[i].ip);
        vstd::seq_lib::to_multiset_remove(rest, i);
        vstd::seq_lib::to_multiset_remove(head, i);
        rest.to_multiset_ensures();
        head.to_multiset_ensures();
        assert(rest.contains(last));
        assert(head.contains(pending[i].ip));
        assert(rest.to_multiset() =~= head.to_multiset().remove(pending[i].ip).insert(last));
        assert(rest.to_multiset().insert(pending[i].ip) =~= all.to_multiset());
    }
}

proof fn lemma_add_multisets(a: Seq<Seq<u8>>, b: Seq<Seq<u8>>)
    ensures
        (a + b).to_multiset() == a.to_multiset().add(b.to_multiset()),
{
    vstd::seq_lib::lemma_multiset_commutative(a, b);
}

/// A flush passes on exactly what it takes out.
pub proof fn flush_conserves(flow: FlowView)
    ensures
        packets(flow.flushed().0.pending).add(flow.flushed().1.to_multiset()) == packets(
            flow.pending,
        ),
    decreases flow.pending.len(),
{
    broadcast use vstd::seq_lib::group_to_multiset_ensures;

    let i: int = first_ready(flow.pending, flow.next, 0);
    lemma_first_ready(flow.pending, flow.next, 0);
    if 0 <= i < flow.pending.len() {
        flush_conserves(flow.passed(i));
        lemma_taken(flow.pending, i);
        let one: Seq<Seq<u8>> = seq![flow.pending[i].ip];
        let rest: (FlowView, Seq<Seq<u8>>) = flow.passed(i).flushed();
        lemma_add_multisets(one, rest.1);
        assert(one =~= Seq::<Seq<u8>>::empty().push(flow.pending[i].ip));
        assert(one.to_multiset() =~= Multiset::empty().insert(flow.pending[i].ip));
        assert(packets(rest.0.pending).add((one + rest.1).to_multiset()) =~= packets(
            flow.pending,
        ));
    } else {
        assert(packets(flow.pending).add(Seq::<Seq<u8>>::empty().to_multiset()) =~= packets(
            flow.pending,
        ));
    }
}

proof fn lemma_held_update(flows: Seq<FlowView>, at: int, flow: FlowView, n: nat)
    requires
        0 <= at < flows.len(),
        n <= flows.len(),
    ensures
        held(flows.update(at, flow), n).add(
            if at < n {
                packets(flows[at].pending)
            } else {
                Multiset::empty()
            },
        ) == held(flows, n).add(
            if at < n {
                packets(flow.pending)
            } else {
                Multiset::empty()
            },
        ),
    decreases n,
{
    if n > 0 {
        lemma_held_update(flows, at, flow, (n - 1) as nat);
        let a: Multiset<Seq<u8>> = held(flows.update(at, flow), n);
        let b: Multiset<Seq<u8>> = held(flows, n);
        let x: Multiset<Seq<u8>> = if at < n {
            packets(flows[at].pending)
        } else {
            Multiset::empty()
        };
        let y: Multiset<Seq<u8>> = if at < n {
            packets(flow.pending)
        } else {
            Multiset::empty()
        };
        assert forall|v: Seq<u8>| a.add(x).count(v) == #[trigger] b.add(y).count(v) by {
            let a0: Multiset<Seq<u8>> = held(flows.update(at, flow), (n - 1) as nat);
            let b0: Multiset<Seq<u8>> = held(flows, (n - 1) as nat);
            let x0: Multiset<Seq<u8>> = if at < n - 1 {
                packets(flows[at].pending)
            } else {
                Multiset::empty()
            };
            let y0: Multiset<Seq<u8>> = if at < n - 1 {
                packets(flow.pending)
            } else {
                Multiset::empty()
            };
            assert(a0.add(x0).count(v) == b0.add(y0).count(v));
        }
        assert(a.add(x) =~= b.add(y));
    }
}

proof fn lemma_held_in_use(flows: Seq<FlowView>, now: u64, n: nat)
    requires
        n <= flows.len(),
    ensures
        held(in_use(flows, now, n), in_use(flows, now, n).len()) == held(flows, n),
        in_use(flows, now, n).len() <= n,
        waiting(in_use(flows, now, n), in_use(flows, now, n).len()) == waiting(flows, n),
    decreases n,
{
    if n > 0 {
        lemma_held_in_use(flows, now, (n - 1) as nat);
        let before: Seq<FlowView> = in_use(flows, now, (n - 1) as nat);
        let all: Seq<FlowView> = in_use(flows, now, n);
        if flows[n - 1].stale(now) {
            assert(flows[n - 1].pending.map_values(|s: SegmentView| s.ip) =~= Seq::empty());
            broadcast use vstd::seq_lib::group_to_multiset_ensures;

            assert(packets(flows[n - 1].pending) =~= Multiset::empty());
            assert(held(flows, n) =~= held(flows, (n - 1) as nat));
        } else {
            lemma_held_prefix(before, all, before.len());
        }
    }
}

proof fn lemma_held_prefix(a: Seq<FlowView>, b: Seq<FlowView>, n: nat)
    requires
        n <= a.len() <= b.len(),
        forall|i: int| 0 <= i < n ==> #[trigger] a[i] == b[i],
    ensures
        held(a, n) == held(b, n),
        waiting(a, n) == waiting(b, n),
    decreases n,
{
    if n > 0 {
        lemma_held_prefix(a, b, (n - 1) as nat);
    }
}

proof fn lemma_waiting_update(flows: Seq<FlowView>, at: int, flow: FlowView, n: nat)
    requires
        0 <= at < flows.len(),
        n <= flows.len(),
    ensures
        waiting(flows.update(at, flow), n) == waiting(flows, n) + if at < n {
            flow.pending.len() - flows[at].pending.len()
        } else {
            0
        },
        at < n ==> flows[at].pending.len() <= waiting(flows, n),
    decreases n,
{
    if n > 0 {
        lemma_waiting_update(flows, at, flow, (n - 1) as nat);
    }
}

proof fn lemma_flow_slot(flows: Seq<FlowView>, key: u128, i: int)
    requires
        0 <= i <= flows.len(),
    ensures
        i <= flow_slot(flows, key, i) <= flows.len(),
        flow_slot(flows, key, i) < flows.len() ==> flows[flow_slot(flows, key, i)].key == key,
    decreases flows.len() - i,
{
    if i < flows.len() && flows[i].key != key {
        lemma_flow_slot(flows, key, i + 1);
    }
}

proof fn lemma_one(ip: Seq<u8>)
    ensures
        seq![ip].to_multiset() == Multiset::<Seq<u8>>::empty().insert(ip),
{
    broadcast use vstd::seq_lib::group_to_multiset_ensures;

    assert(seq![ip] =~= Seq::<Seq<u8>>::empty().push(ip));
}

/// A packet that comes in is passed on or held; nothing else appears, and
/// nothing is lost.
pub proof fn push_conserves_packets(state: ReorderView, ip: Seq<u8>, now: u64)
    ensures
        ({
            let r: (ReorderView, Seq<Seq<u8>>) = state.pushed(ip, now);
            held(r.0.flows, r.0.flows.len()).add(r.1.to_multiset()) == held(
                state.flows,
                state.flows.len(),
            ).insert(ip)
        }),
{
    broadcast use vstd::seq_lib::group_to_multiset_ensures;

    let r: (ReorderView, Seq<Seq<u8>>) = state.pushed(ip, now);
    let before: Multiset<Seq<u8>> = held(state.flows, state.flows.len());
    lemma_one(ip);
    match spec_segment(ip) {
        None => {
            assert(before.add(seq![ip].to_multiset()) =~= before.insert(ip));
        },
        Some((key, seq, length)) => {
            let at: int = flow_slot(state.flows, key, 0);
            lemma_flow_slot(state.flows, key, 0);
            if at < state.flows.len() {
                let flow: FlowView = FlowView { touched: now, ..state.flows[at] };
                let next: FlowView = r.0.flows[at];
                lemma_held_update(state.flows, at, next, state.flows.len());
                if ahead(seq, flow.next) && flow.pending.len() < MAX_PER_FLOW && state.buffered
                    < MAX_BUFFERED {
                    let kept: Seq<Seq<u8>> = flow.pending.map_values(|s: SegmentView| s.ip);
                    assert(next.pending.map_values(|s: SegmentView| s.ip) =~= kept.push(ip));
                    assert(packets(next.pending) =~= packets(flow.pending).insert(ip));
                } else {
                    let moved: FlowView = flow.advance(seq, length);
                    flush_conserves(moved);
                    lemma_add_multisets(seq![ip], moved.flushed().1);
                }
                let after: Multiset<Seq<u8>> = held(r.0.flows, r.0.flows.len());
                assert forall|v: Seq<u8>|
                    after.add(r.1.to_multiset()).count(v) == #[trigger] before.insert(ip).count(
                        v,
                    ) by {
                    assert(after.add(packets(state.flows[at].pending)).count(v) == before.add(
                        packets(next.pending),
                    ).count(v));
                }
                assert(after.add(r.1.to_multiset()) =~= before.insert(ip));
            } else {
                let kept: Seq<FlowView> = if state.flows.len() >= MAX_FLOWS {
                    in_use(state.flows, now, state.flows.len())
                } else {
                    state.flows
                };
                lemma_held_in_use(state.flows, now, state.flows.len());
                if kept.len() < MAX_FLOWS {
                    lemma_held_prefix(kept, r.0.flows, kept.len());
                    assert(r.0.flows[kept.len() as int].pending.map_values(
                        |s: SegmentView| s.ip,
                    ) =~= Seq::empty());
                    assert(packets(r.0.flows[kept.len() as int].pending) =~= Multiset::empty());
                    assert(held(r.0.flows, r.0.flows.len()) =~= held(kept, kept.len()));
                }
                assert(before.add(seq![ip].to_multiset()) =~= before.insert(ip));
            }
        },
    }
}

/// Draining passes on exactly what no longer waits.
pub proof fn drain_conserves_packets(state: ReorderView, now: u64, n: nat)
    requires
        n <= state.flows.len(),
    ensures
        ({
            let r: (ReorderView, Seq<Seq<u8>>) = state.drained(now, n);
            &&& r.0.flows.len() == state.flows.len()
            &&& held(r.0.flows, r.0.flows.len()).add(r.1.to_multiset()) == held(
                state.flows,
                state.flows.len(),
            )
        }),
    decreases n,
{
    broadcast use vstd::seq_lib::group_to_multiset_ensures;

    let r: (ReorderView, Seq<Seq<u8>>) = state.drained(now, n);
    let total: Multiset<Seq<u8>> = held(state.flows, state.flows.len());
    if n == 0 {
        assert(total.add(Seq::<Seq<u8>>::empty().to_multiset()) =~= total);
    } else {
        drain_conserves_packets(state, now, (n - 1) as nat);
        let before: (ReorderView, Seq<Seq<u8>>) = state.drained(now, (n - 1) as nat);
        let flow: FlowView = before.0.flows[n - 1];
        let step: (FlowView, Seq<Seq<u8>>) = flow.drained(now);
        lemma_held_update(before.0.flows, n - 1, step.0, before.0.flows.len());
        lemma_add_multisets(before.1, step.1);
        assert(packets(step.0.pending).add(step.1.to_multiset()) =~= packets(flow.pending)) by {
            if flow.overdue(now) {
                let i: int = nearest(flow.pending, flow.next, flow.pending.len());
                lemma_nearest(flow.pending, flow.next, flow.pending.len());
                lemma_taken(flow.pending, i);
                lemma_one(flow.pending[i].ip);
                flush_conserves(flow.passed(i));
                lemma_add_multisets(seq![flow.pending[i].ip], flow.passed(i).flushed().1);
            }
        }
        let middle: Multiset<Seq<u8>> = held(before.0.flows, before.0.flows.len());
        let after: Multiset<Seq<u8>> = held(r.0.flows, r.0.flows.len());
        assert forall|v: Seq<u8>|
            after.add(r.1.to_multiset()).count(v) == #[trigger] total.count(v) by {
            assert(after.add(packets(flow.pending)).count(v) == middle.add(
                packets(step.0.pending),
            ).count(v));
            assert(packets(step.0.pending).add(step.1.to_multiset()).count(v) == packets(
                flow.pending,
            ).count(v));
            assert(middle.add(before.1.to_multiset()).count(v) == total.count(v));
        }
        assert(after.add(r.1.to_multiset()) =~= total);
    }
}

// ---- The counters add up ------------------------------------------------------

impl ReorderView {
    /// Everything that was ever held was let go or waits still.
    pub open spec fn balanced(self) -> bool {
        self.stats.held_packets == self.stats.released_held_packets + self.buffered
    }
}

proof fn lemma_flush_stats(flow: FlowView, stats: HoldStats, now: u64)
    requires
        stats.released_held_packets + flow.pending.len() <= u64::MAX,
    ensures
        flow.flush_stats(stats, now).held_packets == stats.held_packets,
        flow.flush_stats(stats, now).released_held_packets == stats.released_held_packets
            + flow.pending.len() - flow.flushed().0.pending.len(),
    decreases flow.pending.len(),
{
    let i: int = first_ready(flow.pending, flow.next, 0);
    lemma_first_ready(flow.pending, flow.next, 0);
    if 0 <= i < flow.pending.len() {
        lemma_flush_stats(
            flow.passed(i),
            stats.letting_go(now.saturating_sub(flow.pending[i].arrived)),
            now,
        );
    }
}

/// As long as the count of held packets has not reached its limit, a packet
/// that comes in leaves the counters in balance with what waits.
pub proof fn push_keeps_balance(state: ReorderView, ip: Seq<u8>, now: u64)
    requires
        state.wf(),
        state.balanced(),
        state.stats.held_packets < u64::MAX,
    ensures
        state.pushed(ip, now).0.balanced(),
{
    if let Some((key, seq, length)) = spec_segment(ip) {
        let at: int = flow_slot(state.flows, key, 0);
        lemma_flow_slot(state.flows, key, 0);
        if at < state.flows.len() {
            let flow: FlowView = FlowView { touched: now, ..state.flows[at] };
            lemma_waiting_update(state.flows, at, flow, state.flows.len());
            let moved: FlowView = flow.advance(seq, length);
            lemma_flush_stats(moved, state.stats, now);
            flush_leaves_only_later(moved);
        }
    }
}

/// Draining leaves the counters in balance with what waits.
pub proof fn drain_keeps_balance(state: ReorderView, now: u64, n: nat)
    requires
        state.wf(),
        state.balanced(),
        n <= state.flows.len(),
    ensures
        state.drained(now, n).0.balanced(),
        state.drained(now, n).0.flows.len() == state.flows.len(),
        state.drained(now, n).0.buffered == waiting(
            state.drained(now, n).0.flows,
            state.flows.len(),
        ),
    decreases n,
{
    if n > 0 {
        drain_keeps_balance(state, now, (n - 1) as nat);
        let before: ReorderView = state.drained(now, (n - 1) as nat).0;
        let flow: FlowView = before.flows[n - 1];
        let drained: FlowView = flow.drained(now).0;
        lemma_waiting_update(before.flows, n - 1, drained, before.flows.len());
        if flow.overdue(now) {
            let i: int = nearest(flow.pending, flow.next, flow.pending.len());
            lemma_nearest(flow.pending, flow.next, flow.pending.len());
            let waited: u64 = now.saturating_sub(flow.pending[i].arrived);
            lemma_flush_stats(
                flow.passed(i),
                before.stats.giving_up().letting_go(waited),
                now,
            );
            flush_leaves_only_later(flow.passed(i));
        }
    }
}

// ---- Execution ------------------------------------------------------------------

fn segment(ip: &[u8]) -> (r: Option<(u128, u32, u32)>)
    ensures
        r == spec_segment(ip@),
{
    if ip.len() < 40 || ip[9] != 6 || ip[6] % 64 != 0 || ip[7] != 0 {
        return None;
    }
    let header: usize = (ip[0] % 16) as usize * 4;
    if header < 20 || ip.len() < header + 20 {
        return None;
    }
    let tcp: usize = (ip[header + 12] / 16) as usize * 4;
    if tcp < 20 || ip.len() < header + tcp {
        return None;
    }
    let flags: u8 = ip[header + 13];
    #[verifier::truncate]
    let body: u32 = (ip.len() - header - tcp) as u32;
    let syn: u32 = if (flags / 2) % 2 == 1 {
        1
    } else {
        0
    };
    let fin: u32 = if flags % 2 == 1 {
        1
    } else {
        0
    };
    let length: u32 = body.wrapping_add(syn).wrapping_add(fin);
    if length == 0 {
        return None;
    }
    let key: u128 = packet::read32(ip, 12) as u128 * 0x1_0000_0000_0000_0000 + packet::read32(
        ip,
        16,
    ) as u128 * 0x1_0000_0000 + packet::read32(ip, header) as u128;
    Some((key, packet::read32(ip, header + 4), length))
}

fn is_ahead(a: u32, b: u32) -> (r: bool)
    ensures
        r == ahead(a, b),
{
    let distance: u32 = a.wrapping_sub(b);
    0 < distance && distance < 0x8000_0000
}

fn advance(flow: &mut Flow, seq: u32, length: u32)
    ensures
        final(flow)@ == old(flow)@.advance(seq, length),
        final(flow).pending == old(flow).pending,
{
    let end: u32 = seq.wrapping_add(length);
    if is_ahead(end, flow.next) {
        flow.next = end;
    }
}

/// Takes the segment at a position out of its flow.
fn pass(flow: &mut Flow, i: usize, stats: &mut HoldStats, now: u64) -> (r: Vec<u8>)
    requires
        i < old(flow)@.pending.len(),
    ensures
        final(flow)@ == old(flow)@.passed(i as int),
        r@ == old(flow)@.pending[i as int].ip,
        *final(stats) == old(stats).letting_go(
            now.saturating_sub(old(flow)@.pending[i as int].arrived),
        ),
{
    let ghost before: FlowView = flow@;
    let taken: Segment = flow.pending.swap_remove(i);
    assert(segment_views(flow.pending@) =~= self::taken(before.pending, i as int));
    stats.let_go(now.saturating_sub(taken.arrived));
    advance(flow, taken.seq, taken.length);
    taken.ip
}

fn flush_contiguous(
    flow: &mut Flow,
    stats: &mut HoldStats,
    now: u64,
    output: &mut Vec<Vec<u8>>,
)
    ensures
        final(flow)@ == old(flow)@.flushed().0,
        *final(stats) == old(flow)@.flush_stats(*old(stats), now),
        byte_views(final(output)@) == byte_views(old(output)@) + old(flow)@.flushed().1,
    decreases old(flow)@.pending.len(),
{
    let ghost before: FlowView = flow@;
    let ghost sent: Seq<Seq<u8>> = byte_views(output@);
    let mut i: usize = 0;
    while i < flow.pending.len() && is_ahead(flow.pending[i].seq, flow.next)
        invariant
            i <= flow.pending@.len(),
            flow@ == before,
            *stats == *old(stats),
            first_ready(before.pending, before.next, i as int) == first_ready(
                before.pending,
                before.next,
                0,
            ),
        decreases flow.pending@.len() - i,
    {
        i = i + 1;
    }
    if i < flow.pending.len() {
        let ip: Vec<u8> = pass(flow, i, stats, now);
        let ghost one: Seq<Seq<u8>> = seq![ip@];
        let ghost rest: Seq<Seq<u8>> = flow@.flushed().1;
        output.push(ip);
        assert(byte_views(output@) =~= sent + one);
        flush_contiguous(flow, stats, now, output);
        assert(sent + one + rest =~= sent + (one + rest));
    } else {
        assert(sent + Seq::empty() =~= sent);
    }
}

impl Default for TcpReorder {
    fn default() -> (r: Self)
        ensures
            r.wf(),
            r@ == (ReorderView { flows: Seq::empty(), buffered: 0, stats: no_holds() }),
    {
        TcpReorder::new()
    }
}

impl TcpReorder {
    pub open spec fn wf(&self) -> bool {
        self@.wf()
    }

    pub fn new() -> (r: Self)
        ensures
            r.wf(),
            r@ == (ReorderView { flows: Seq::empty(), buffered: 0, stats: no_holds() }),
    {
        let stats: HoldStats = HoldStats {
            held_packets: 0,
            released_held_packets: 0,
            deadline_gap_releases: 0,
            total_hold_ms: 0,
            max_hold_ms: 0,
        };
        let r: TcpReorder = TcpReorder { flows: Vec::new(), buffered: 0, stats };
        assert(r@.flows =~= Seq::empty());
        r
    }

    fn drop_stale(&mut self, now: u64)
        requires
            old(self).wf(),
        ensures
            final(self).wf(),
            final(self)@.flows == in_use(old(self)@.flows, now, old(self)@.flows.len()),
            final(self)@.buffered == old(self)@.buffered,
            final(self).stats == old(self).stats,
    {
        let ghost before: Seq<FlowView> = self@.flows;
        let ghost mut done: int = 0;
        let mut i: usize = 0;
        assert(before.skip(0) =~= before);
        assert(in_use(before, now, 0) + before =~= before);
        while i < self.flows.len()
            invariant
                0 <= done <= before.len(),
                i == in_use(before, now, done as nat).len(),
                self@.flows == in_use(before, now, done as nat) + before.skip(done),
                self@.buffered == old(self)@.buffered,
                self.stats == old(self).stats,
                before == old(self)@.flows,
            decreases before.len() - done,
        {
            let ghost kept: Seq<FlowView> = in_use(before, now, done as nat);
            assert(self@.flows[i as int] == before[done]);
            let stale: bool = self.flows[i].pending.len() == 0 && now.saturating_sub(
                self.flows[i].touched,
            ) >= FLOW_IDLE_MS;
            if stale {
                let ghost prior: Seq<FlowView> = self@.flows;
                let _ = self.flows.remove(i);
                assert(flow_views(self.flows@) =~= prior.remove(i as int));
                assert((kept + before.skip(done)).remove(i as int) =~= kept + before.skip(
                    done + 1,
                ));
            } else {
                assert(kept.push(before[done]) + before.skip(done + 1) =~= kept + before.skip(
                    done,
                ));
                i = i + 1;
            }
            proof {
                done = done + 1;
            }
        }
        proof {
            assert(before.skip(done) =~= Seq::empty());
            assert(done == before.len());
            assert(self@.flows =~= in_use(before, now, before.len()));
            lemma_held_in_use(before, now, before.len());
        }
    }

    /// Takes a packet, and returns what is to be passed on, in order.
    pub fn push(&mut self, ip: Vec<u8>, now: u64) -> (r: Vec<Vec<u8>>)
        requires
            old(self).wf(),
        ensures
            final(self).wf(),
            final(self)@ == old(self)@.pushed(ip@, now).0,
            byte_views(r@) == old(self)@.pushed(ip@, now).1,
    {
        let ghost before: ReorderView = self@;
        let ghost text: Seq<u8> = ip@;
        let mut output: Vec<Vec<u8>> = Vec::new();
        assert(byte_views(output@) =~= Seq::empty());
        let (key, seq, length) = match segment(ip.as_slice()) {
            Some(found) => found,
            None => {
                output.push(ip);
                assert(byte_views(output@) =~= seq![text]);
                return output;
            },
        };
        let mut at: usize = 0;
        while at < self.flows.len() && self.flows[at].key != key
            invariant
                at <= self.flows@.len(),
                self@ == before,
                flow_slot(before.flows, key, at as int) == flow_slot(before.flows, key, 0),
            decreases self.flows@.len() - at,
        {
            at = at + 1;
        }
        if at >= self.flows.len() {
            output.push(ip);
            assert(byte_views(output@) =~= seq![text]);
            if self.flows.len() >= MAX_FLOWS {
                self.drop_stale(now);
            }
            if self.flows.len() < MAX_FLOWS {
                let ghost kept: Seq<FlowView> = self@.flows;
                let flow: Flow = Flow {
                    key,
                    next: seq.wrapping_add(length),
                    touched: now,
                    pending: Vec::new(),
                };
                assert(segment_views(flow.pending@) =~= Seq::empty());
                self.flows.push(flow);
                assert(self@.flows =~= kept.push(flow@));
                proof {
                    lemma_held_prefix(kept, self@.flows, kept.len());
                }
            }
            assert(self@ =~= before.pushed(text, now).0);
            return output;
        }
        self.flows[at].touched = now;
        let ghost flow: FlowView = FlowView { touched: now, ..before.flows[at as int] };
        assert(self.flows@[at as int]@ =~= flow);
        let waiting_before: usize = self.flows[at].pending.len();
        if is_ahead(seq, self.flows[at].next) && waiting_before < MAX_PER_FLOW && self.buffered
            < MAX_BUFFERED {
            self.flows[at].pending.push(Segment { seq, length, arrived: now, ip });
            self.stats.hold();
            assert(self.flows@[at as int]@ =~= (FlowView {
                pending: flow.pending.push(
                    SegmentView { seq, length, arrived: now, ip: text },
                ),
                ..flow
            }));
        } else {
            advance(&mut self.flows[at], seq, length);
            output.push(ip);
            assert(byte_views(output@) =~= seq![text]);
            flush_contiguous(&mut self.flows[at], &mut self.stats, now, &mut output);
            proof {
                flush_leaves_only_later(flow.advance(seq, length));
            }
        }
        let ghost next: FlowView = self.flows@[at as int]@;
        proof {
            assert(flow_views(self.flows@) =~= before.flows.update(at as int, next));
            lemma_waiting_update(before.flows, at as int, next, before.flows.len());
        }
        self.buffered = self.buffered + self.flows[at].pending.len() - waiting_before;
        assert(self@ =~= before.pushed(text, now).0);
        output
    }

    fn drain_flow(&mut self, i: usize, now: u64, output: &mut Vec<Vec<u8>>)
        requires
            old(self).wf(),
            i < old(self)@.flows.len(),
        ensures
            final(self).wf(),
            final(self)@.flows.len() == old(self)@.flows.len(),
            final(self)@ == (ReorderView {
                stats: old(self)@.flows[i as int].drain_stats(old(self).stats, now),
                ..old(self)@.with_flow(i as int, old(self)@.flows[i as int].drained(now).0)
            }),
            byte_views(final(output)@) == byte_views(old(output)@) + old(
                self,
            )@.flows[i as int].drained(now).1,
    {
        let ghost before: ReorderView = self@;
        let ghost flow: FlowView = before.flows[i as int];
        let ghost sent: Seq<Seq<u8>> = byte_views(output@);
        let mut overdue: bool = false;
        let mut k: usize = 0;
        while k < self.flows[i].pending.len() && !overdue
            invariant
                self@ == before,
                i < self.flows@.len(),
                flow == before.flows[i as int],
                k <= flow.pending.len(),
                overdue ==> flow.overdue(now),
                !overdue ==> forall|j: int|
                    0 <= j < k ==> now.saturating_sub((#[trigger] flow.pending[j]).arrived)
                        < HOLD_MS,
            decreases flow.pending.len() - k,
        {
            assert(self.flows@[i as int]@ == flow);
            assert(flow.pending[k as int] == self.flows@[i as int].pending@[k as int]@);
            if now.saturating_sub(self.flows[i].pending[k].arrived) >= HOLD_MS {
                overdue = true;
            }
            k = k + 1;
        }
        assert(self.flows@[i as int]@ == flow);
        assert(overdue == flow.overdue(now));
        if !overdue {
            assert(sent + Seq::empty() =~= sent);
            assert(before.flows.update(i as int, flow) =~= before.flows);
            return;
        }
        let n: usize = self.flows[i].pending.len();
        let mut best: usize = 0;
        let mut j: usize = 1;
        while j < n
            invariant
                self@ == before,
                i < self.flows@.len(),
                flow == before.flows[i as int],
                1 <= j <= n == flow.pending.len(),
                best < j,
                best == nearest(flow.pending, flow.next, j as nat),
            decreases n - j,
        {
            assert(self.flows@[i as int]@ == flow);
            assert(flow.pending[j as int] == self.flows@[i as int].pending@[j as int]@);
            assert(flow.pending[best as int] == self.flows@[i as int].pending@[best as int]@);
            let next: u32 = self.flows[i].next;
            if self.flows[i].pending[j].seq.wrapping_sub(next)
                < self.flows[i].pending[best].seq.wrapping_sub(next) {
                best = j;
            }
            j = j + 1;
        }
        assert(self.flows@[i as int]@ == flow);
        self.stats.give_up();
        let ip: Vec<u8> = pass(&mut self.flows[i], best, &mut self.stats, now);
        let ghost one: Seq<Seq<u8>> = seq![ip@];
        let ghost moved: FlowView = flow.passed(best as int);
        output.push(ip);
        assert(byte_views(output@) =~= sent + one);
        flush_contiguous(&mut self.flows[i], &mut self.stats, now, output);
        proof {
            flush_leaves_only_later(moved);
            let next: FlowView = self.flows@[i as int]@;
            assert(sent + one + moved.flushed().1 =~= sent + (one + moved.flushed().1));
            assert(flow_views(self.flows@) =~= before.flows.update(i as int, next));
            lemma_waiting_update(before.flows, i as int, next, before.flows.len());
        }
        self.buffered = self.buffered - (n - self.flows[i].pending.len());
        assert(self@ =~= (ReorderView {
            stats: flow.drain_stats(before.stats, now),
            ..before.with_flow(i as int, flow.drained(now).0)
        }));
    }

    /// Gives up gaps that lasted too long, and returns what they held up.
    pub fn drain_due(&mut self, now: u64) -> (r: Vec<Vec<u8>>)
        requires
            old(self).wf(),
        ensures
            final(self).wf(),
            final(self)@ == old(self)@.drained(now, old(self)@.flows.len()).0,
            byte_views(r@) == old(self)@.drained(now, old(self)@.flows.len()).1,
    {
        let ghost before: ReorderView = self@;
        let mut output: Vec<Vec<u8>> = Vec::new();
        assert(byte_views(output@) =~= Seq::empty());
        let n: usize = self.flows.len();
        let mut i: usize = 0;
        while i < n
            invariant
                self.wf(),
                i <= n == before.flows.len(),
                self@.flows.len() == n,
                self@ == before.drained(now, i as nat).0,
                byte_views(output@) == before.drained(now, i as nat).1,
            decreases n - i,
        {
            self.drain_flow(i, now, &mut output);
            i = i + 1;
        }
        output
    }

    pub fn snapshot(&self) -> (r: ReorderSnapshot)
        ensures
            r.buffered_packets == self@.buffered,
            r.held_packets == self@.stats.held_packets,
            r.released_held_packets == self@.stats.released_held_packets,
            r.deadline_gap_releases == self@.stats.deadline_gap_releases,
            r.total_hold_ms == self@.stats.total_hold_ms,
            r.max_hold_ms == self@.stats.max_hold_ms,
    {
        ReorderSnapshot {
            buffered_packets: self.buffered,
            held_packets: self.stats.held_packets,
            released_held_packets: self.stats.released_held_packets,
            deadline_gap_releases: self.stats.deadline_gap_releases,
            total_hold_ms: self.stats.total_hold_ms,
            max_hold_ms: self.stats.max_hold_ms,
        }
    }
}

} // verus!
