//! Multipath scheduling of IP packets. Time is monotonic milliseconds given by
//! the caller, so that failure and recovery can be followed without sleeping.
//! Path acknowledgements measure delivered tunnel bytes, not what an
//! application receives.
use crate::ack_laws;
use crate::binary64::Binary64;
use crate::flight;
use crate::flight::{Attempt, Pending, PendingView, RecentAttempt};
use crate::frame;
use crate::frame::{Frame, FrameView, Kind, BOND_MTU, MAX_PATHS};
use crate::noise;
use crate::packet;
use crate::path;
use crate::path::{Path, PathState, RecentPeak, TcpRate};
use crate::placement;
use crate::replay;
use crate::replay::ReplayWindow;
use crate::table;
use crate::table::Table;
use crate::tunnel;
use crate::tunnel::{Transport, TunnelError};
use crate::wire;
use snow::HandshakeState;
use std::collections::VecDeque;
use vstd::prelude::*;

verus! {

pub const MAX_PENDING: usize = 4096;

pub const MAX_FLOW_PINS: usize = 4096;

pub const PACKET_TTL_MS: u64 = 1000;

pub const UDP_FLOW_TTL_MS: u64 = 30_000;

pub const SRT_FLOW_TTL_MS: u64 = 120_000;

pub const FRAGMENT_FLOW_TTL_MS: u64 = 2_000;

pub const TCP_FLOW_TTL_MS: u64 = 60_000;

/// A late acknowledgement of a second copy still trains its path.
pub const RECENT_ACK_TTL_MS: u64 = 1_000;

pub const MAX_RECENT_ACKS: usize = 32_768;

pub const FAST_ACK_THRESHOLD: u8 = 2;

/// A packet sent this much later and delivered on the same path is enough
/// evidence of a loss.
pub const FAST_ACK_SEND_DELTA_MS: u64 = 10;

pub const FAST_ACK_SCAN: usize = 8;

/// Rate and burst of the copies that protect TCP.
pub const TCP_CONTINUITY_BYTES_PER_MS: u64 = 256;

pub const TCP_CONTINUITY_BURST_BYTES: u64 = 81_920;

pub const RECEIVE_WIDTH: usize = 16_384;

/// Packets sent, repaired or protected in one turn.
pub const TURN_REPAIRS: usize = 64;

pub const TURN_PACKETS: usize = 128;

/// What a handshake of a bond binds besides the secret.
pub open spec fn prologue(session: Seq<u8>) -> Seq<u8> {
    vstd::utf8::encode_utf8(
        "VERZ Link multipath v2 / authenticated IPv4 lease / MTU1280 / "@,
    ) + session
}

/// Begins a handshake for a bond under a shared secret.
pub fn handshake(secret: &[u8; 32], session: &[u8; 16], initiator: bool) -> (r: Result<
    HandshakeState,
    TunnelError,
>)
    ensures
        r is Ok,
        noise::handshake_inputs(r->Ok_0) == (
            noise::pattern(),
            initiator,
            secret@,
            prologue(session@),
        ),
        noise::handshake_turn(r->Ok_0) == (Seq::<Seq<u8>>::empty(), initiator),
        !noise::handshake_finished(r->Ok_0),
{
    let mut text: Vec<u8> = Vec::new();
    wire::put_all(
        &mut text,
        "VERZ Link multipath v2 / authenticated IPv4 lease / MTU1280 / ".as_bytes(),
    );
    wire::put_all(&mut text, session);
    assert(text@ =~= prologue(session@));
    match noise::begin(
        "Noise_NNpsk0_25519_ChaChaPoly_BLAKE2s",
        secret,
        text.as_slice(),
        initiator,
    ) {
        Ok(state) => Ok(state),
        Err(_error) => Err(TunnelError::Noise),
    }
}

/// Longest frame: its header, and a packet in an envelope.
pub const MAX_FRAME: usize = frame::FRAME_HEADER + BOND_MTU + frame::UDP_ENVELOPE;

/// The transport of a bond, which takes frames up to the longest.
pub fn transport(session: [u8; 16], noise: HandshakeState) -> (r: Result<Transport, TunnelError>)
    ensures
        r is Ok == noise::handshake_finished(noise),
        match r {
            Ok(transport) => {
                &&& transport.wf()
                &&& tunnel::is_over(transport@, session@, noise, MAX_FRAME as nat)
            },
            Err(error) => error == TunnelError::Noise,
        },
{
    Transport::with_payload_limit(session, noise, MAX_FRAME)
}

#[derive(Clone, Copy, Debug, PartialEq, Eq, Structural)]
pub enum Policy {
    Smart,
    Performance,
    Continuity,
    DataSaver,
}

#[derive(Clone, Copy, Debug, PartialEq, Eq, Structural)]
pub enum BondError {
    PathCount,
    PathsExhausted,
}

impl BondError {
    pub fn message(self) -> (r: &'static str)
        ensures
            r@ == match self {
                BondError::PathCount => "one to 256 paths required"@,
                BondError::PathsExhausted => "device session has exhausted its path IDs"@,
            },
    {
        match self {
            BondError::PathCount => "one to 256 paths required",
            BondError::PathsExhausted => "device session has exhausted its path IDs",
        }
    }
}

#[derive(Clone, Copy, Debug)]
pub struct Counters {
    pub delivered_packets: u64,
    pub delivered_bytes: u64,
    pub duplicates: u64,
    pub repairs: u64,
    pub protection_copies: u64,
    pub protection_deferred: u64,
    pub protection_deferred_sent: u64,
    pub queue_drops: u64,
    pub queue_scans: u64,
    pub budget_blocked_turns: u64,
    pub tcp_path_waits: u64,
    pub tcp_bounded_wait_fallbacks: u64,
    pub tcp_same_path_repairs: u64,
    pub tcp_fast_ack_repairs: u64,
    /// TCP packets whose path was merely excluded and whose repair waited.
    pub tcp_early_repairs_deferred: u64,
    /// Such packets that were acknowledged before any repair.
    pub tcp_early_deferrals_acked: u64,
    pub tcp_deadline_repairs: u64,
    pub tcp_unavailable_path_repairs: u64,
    /// New packets refused before they were acknowledged.
    pub receive_backpressure: u64,
    pub socket_backpressure: u64,
    pub expired_packets: u64,
    pub path_failures: u64,
    pub path_down_notices_sent: u64,
    pub path_down_notices_received: u64,
}

pub open spec fn no_counters() -> Counters {
    Counters {
        delivered_packets: 0,
        delivered_bytes: 0,
        duplicates: 0,
        repairs: 0,
        protection_copies: 0,
        protection_deferred: 0,
        protection_deferred_sent: 0,
        queue_drops: 0,
        queue_scans: 0,
        budget_blocked_turns: 0,
        tcp_path_waits: 0,
        tcp_bounded_wait_fallbacks: 0,
        tcp_same_path_repairs: 0,
        tcp_fast_ack_repairs: 0,
        tcp_early_repairs_deferred: 0,
        tcp_early_deferrals_acked: 0,
        tcp_deadline_repairs: 0,
        tcp_unavailable_path_repairs: 0,
        receive_backpressure: 0,
        socket_backpressure: 0,
        expired_packets: 0,
        path_failures: 0,
        path_down_notices_sent: 0,
        path_down_notices_received: 0,
    }
}

impl Default for Counters {
    fn default() -> (r: Self)
        ensures
            r == no_counters(),
    {
        Counters {
            delivered_packets: 0,
            delivered_bytes: 0,
            duplicates: 0,
            repairs: 0,
            protection_copies: 0,
            protection_deferred: 0,
            protection_deferred_sent: 0,
            queue_drops: 0,
            queue_scans: 0,
            budget_blocked_turns: 0,
            tcp_path_waits: 0,
            tcp_bounded_wait_fallbacks: 0,
            tcp_same_path_repairs: 0,
            tcp_fast_ack_repairs: 0,
            tcp_early_repairs_deferred: 0,
            tcp_early_deferrals_acked: 0,
            tcp_deadline_repairs: 0,
            tcp_unavailable_path_repairs: 0,
            receive_backpressure: 0,
            socket_backpressure: 0,
            expired_packets: 0,
            path_failures: 0,
            path_down_notices_sent: 0,
            path_down_notices_received: 0,
        }
    }
}

/// Placement of one TCP flow: since when it waits for a better path, and when
/// its last packet is expected at the far end.
#[derive(Clone, Copy, Debug)]
pub struct TcpFlow {
    pub waiting_since: Option<u64>,
    pub last_arrival: Binary64,
    pub touched: u64,
}

#[derive(Clone, Copy, Debug)]
pub struct FlowPin {
    pub path: usize,
    pub seen: u64,
}

#[derive(Clone, Copy, Debug)]
pub struct FragmentFlow {
    pub flow: u128,
    pub seen: u64,
}

pub struct Scheduler {
    pub paths: Vec<Path>,
    pub names: Vec<String>,
    pub policy: Policy,
    pub counters: Counters,
    pub pending: Vec<Pending>,
    pub recent_attempts: Table<RecentAttempt>,
    pub queued: VecDeque<Vec<u8>>,
    pub urgent: VecDeque<Vec<u8>>,
    pub streaming: VecDeque<Vec<u8>>,
    pub received: ReplayWindow,
    pub next_id: u64,
    pub last_probe: Option<u64>,
    pub realtime_advice: Vec<(String, u32)>,
    pub advice_until: u64,
    /// Large UDP flows stay on one path and move only when it fails.
    pub flow_paths: Table<FlowPin>,
    /// Flows in which an SRT control packet was seen, and when last.
    pub srt_flows: Table<u64>,
    /// The flow of each fragmented datagram.
    pub fragment_flows: Table<FragmentFlow>,
    pub tcp_flows: Table<TcpFlow>,
    /// Paths whose failure is still to be announced.
    pub notices: Vec<bool>,
    pub tcp_continuity_tokens: u64,
    pub tcp_continuity_refill_at: u64,
    pub last_flow_prune: u64,
}

#[verifier::ext_equal]
pub struct SchedulerView {
    pub paths: Seq<Path>,
    pub names: Seq<Seq<char>>,
    pub policy: Policy,
    pub counters: Counters,
    pub pending: Seq<PendingView>,
    pub recent: Map<u128, RecentAttempt>,
    pub queued: Seq<Seq<u8>>,
    pub urgent: Seq<Seq<u8>>,
    pub streaming: Seq<Seq<u8>>,
    pub refused: Set<u64>,
    pub next_id: u64,
    pub last_probe: Option<u64>,
    pub advice: Seq<(Seq<char>, u32)>,
    pub advice_until: u64,
    pub flow_paths: Map<u128, FlowPin>,
    pub srt_flows: Map<u128, u64>,
    pub fragment_flows: Map<u128, FragmentFlow>,
    pub tcp_flows: Map<u128, TcpFlow>,
    pub notices: Seq<bool>,
    pub tokens: u64,
    pub refill_at: u64,
    pub last_prune: u64,
}

pub open spec fn bodies(queue: Seq<Vec<u8>>) -> Seq<Seq<u8>> {
    queue.map_values(|v: Vec<u8>| v@)
}

pub open spec fn texts(names: Seq<String>) -> Seq<Seq<char>> {
    names.map_values(|s: String| s@)
}

pub open spec fn advice_view(advice: Seq<(String, u32)>) -> Seq<(Seq<char>, u32)> {
    advice.map_values(|a: (String, u32)| (a.0@, a.1))
}

impl View for Scheduler {
    type V = SchedulerView;

    open spec fn view(&self) -> SchedulerView {
        SchedulerView {
            paths: self.paths@,
            names: texts(self.names@),
            policy: self.policy,
            counters: self.counters,
            pending: flight::pending_views(self.pending@),
            recent: self.recent_attempts@,
            queued: bodies(self.queued@),
            urgent: bodies(self.urgent@),
            streaming: bodies(self.streaming@),
            refused: self.received.refused(),
            next_id: self.next_id,
            last_probe: self.last_probe,
            advice: advice_view(self.realtime_advice@),
            advice_until: self.advice_until,
            flow_paths: self.flow_paths@,
            srt_flows: self.srt_flows@,
            fragment_flows: self.fragment_flows@,
            tcp_flows: self.tcp_flows@,
            notices: self.notices@,
            tokens: self.tcp_continuity_tokens,
            refill_at: self.tcp_continuity_refill_at,
            last_prune: self.last_flow_prune,
        }
    }
}

pub open spec fn pending_ordered(pending: Seq<PendingView>) -> bool {
    forall|i: int, j: int|
        0 <= i < j < pending.len() ==> (#[trigger] pending[i]).id < (#[trigger] pending[j]).id
}

pub open spec fn pending_below(pending: Seq<PendingView>, id: u64) -> bool {
    forall|i: int| 0 <= i < pending.len() ==> (#[trigger] pending[i]).id < id
}

pub open spec fn pending_within(pending: Seq<PendingView>, n: nat) -> bool {
    forall|i: int| 0 <= i < pending.len() ==> (#[trigger] pending[i]).wf(n)
}

/// First position from `i` on whose packet number is not below `id`.
pub open spec fn pending_slot(pending: Seq<PendingView>, id: u64, i: int) -> int
    decreases pending.len() - i,
{
    if i < pending.len() && pending[i].id < id {
        pending_slot(pending, id, i + 1)
    } else {
        i
    }
}

/// Whether a packet is still pending.
pub open spec fn is_pending(pending: Seq<PendingView>, id: u64) -> bool {
    let i: int = pending_slot(pending, id, 0);
    i < pending.len() && pending[i].id == id
}

/// The key of an acknowledgement that may still come; ordered by packet.
pub open spec fn recent_key(id: u64, path: usize) -> u128 {
    (id * 0x1_0000_0000_0000_0000 + path) as u128
}

/// Whether no packet in flight is also among those that were acknowledged and
/// may be acknowledged on another path: those were numbered before, and have
/// left.
#[verifier::opaque]
pub open spec fn settled_apart(
    recent: Map<u128, RecentAttempt>,
    pending: Seq<PendingView>,
    next_id: u64,
) -> bool {
    forall|id: u64, path: usize|
        #[trigger] recent.contains_key(recent_key(id, path)) ==> id < next_id && !is_pending(
            pending,
            id,
        )
}

// ---- Lists of paths ----------------------------------------------------------

pub open spec fn ready_flags(paths: Seq<Path>, now: u64) -> Seq<bool> {
    Seq::new(paths.len(), |i: int| paths[i].ready(now))
}

pub open spec fn fresh_flags(paths: Seq<Path>, now: u64) -> Seq<bool> {
    Seq::new(paths.len(), |i: int| paths[i].recently_responding(now))
}

pub open spec fn unmetered_flags(paths: Seq<Path>) -> Seq<bool> {
    Seq::new(paths.len(), |i: int| !paths[i].metered)
}

pub open spec fn low_delay_flags(paths: Seq<Path>) -> Seq<bool> {
    Seq::new(paths.len(), |i: int| !paths[i].latency_excluded)
}

pub open spec fn budget_flags(
    paths: Seq<Path>,
    bytes: usize,
    interactive: bool,
    now: u64,
) -> Seq<bool> {
    Seq::new(paths.len(), |i: int| paths[i].send_budget_allows(bytes, interactive, now))
}

pub open spec fn protection_flags(paths: Seq<Path>, bytes: usize, now: u64) -> Seq<bool> {
    Seq::new(
        paths.len(),
        |i: int|
            paths[i].in_flight.wrapping_add(bytes) <= paths[i].congestion_window && paths[i].paced(
                now,
            ),
    )
}

pub open spec fn delay_costs(paths: Seq<Path>) -> Seq<Binary64> {
    Seq::new(paths.len(), |i: int| paths[i].rtt_ms.unwrap_or(path::unknown_delay()))
}

/// Bulk cost: half the delay, and the time to drain what is in flight.
pub open spec fn bulk_cost(p: Path, bytes: usize) -> Binary64 {
    p.rtt_or(30).over(Binary64::whole(2)).plus(
        Binary64::whole(p.in_flight.wrapping_add(bytes) as u64).over(p.estimated_bytes_per_ms()),
    )
}

pub open spec fn bulk_costs(paths: Seq<Path>, bytes: usize) -> Seq<Binary64> {
    Seq::new(paths.len(), |i: int| bulk_cost(paths[i], bytes))
}

/// Weight that remote advice gives a path, within bounds.
pub open spec fn advised_weight(advice: Seq<(Seq<char>, u32)>, name: Seq<char>, i: int) -> u32
    decreases advice.len() - i,
{
    if i >= advice.len() {
        16
    } else if advice[i].0 == name {
        if advice[i].1 < 1 {
            1
        } else if advice[i].1 > 64 {
            64
        } else {
            advice[i].1
        }
    } else {
        advised_weight(advice, name, i + 1)
    }
}

/// Cost of a path for urgent traffic under advice.
pub open spec fn advised_cost(p: Path, weight: u32) -> Binary64 {
    p.rtt_or(30).plus(Binary64::whole(4).times(p.jitter_ms)).over(
        Binary64::whole(weight as u64).over(Binary64::whole(16)).sqrt().clamp(
            Binary64::ratio(1, 2),
            Binary64::whole(2),
        ),
    )
}

pub open spec fn advised_costs(
    paths: Seq<Path>,
    names: Seq<Seq<char>>,
    advice: Seq<(Seq<char>, u32)>,
) -> Seq<Binary64> {
    Seq::new(
        paths.len(),
        |i: int| advised_cost(paths[i], advised_weight(advice, names[i], 0)),
    )
}

pub open spec fn tcp_cost(p: Path, bytes: usize, now: u64) -> Binary64 {
    p.tcp_forward_ms(now, bytes).plus(
        Binary64::whole(p.in_flight as u64).over(p.tcp_bytes_per_ms(now)),
    )
}

pub open spec fn tcp_costs(paths: Seq<Path>, bytes: usize, now: u64) -> Seq<Binary64> {
    Seq::new(paths.len(), |i: int| tcp_cost(paths[i], bytes, now))
}

/// The list that a condition leaves, unless it leaves nothing.
pub open spec fn preferred(list: Seq<usize>, flags: Seq<bool>) -> Seq<usize> {
    let some: Seq<usize> = placement::kept(list, flags);
    if some.len() > 0 {
        some
    } else {
        list
    }
}

impl SchedulerView {
    pub open spec fn n(self) -> nat {
        self.paths.len()
    }

    pub open spec fn waiting(self) -> nat {
        self.urgent.len() + self.streaming.len() + self.queued.len()
    }

    /// Parallel lists agree, every packet refers to known paths, packets are in
    /// order, memory is bounded, and what is settled is no longer in flight.
    pub open spec fn wf(self) -> bool {
        self.sound() && settled_apart(self.recent, self.pending, self.next_id)
    }

    /// The same within a step, but for what is settled.
    pub open spec fn sound(self) -> bool {
        &&& 1 <= self.paths.len() <= MAX_PATHS
        &&& self.names.len() == self.paths.len()
        &&& self.notices.len() == self.paths.len()
        &&& pending_within(self.pending, self.n())
        &&& pending_ordered(self.pending)
        &&& pending_below(self.pending, self.next_id)
        &&& self.waiting() + self.pending.len() <= MAX_PENDING
    }

    /// Paths that may carry data, nearest first: those that are ready; of
    /// these, those that answered just now, if any did; and for a data saver
    /// only unmetered ones, if there are any.
    #[verifier::opaque]
    pub open spec fn data_paths(self, now: u64) -> Seq<usize> {
        let ready: Seq<usize> = placement::kept(
            placement::up_to(self.n()),
            ready_flags(self.paths, now),
        );
        let fresh: Seq<usize> = preferred(ready, fresh_flags(self.paths, now));
        let near: Seq<usize> = placement::ordered(fresh, delay_costs(self.paths));
        if self.policy == Policy::DataSaver {
            preferred(near, unmetered_flags(self.paths))
        } else {
            near
        }
    }

    /// Paths for a packet of a class. Delay-sensitive traffic avoids paths
    /// above the cutoff, and has the nearest one if all are.
    #[verifier::opaque]
    pub open spec fn placement_paths(self, interactive: bool, now: u64) -> Seq<usize> {
        let ready: Seq<usize> = self.data_paths(now);
        if !interactive {
            ready
        } else {
            let low: Seq<usize> = placement::kept(ready, low_delay_flags(self.paths));
            if low.len() > 0 {
                low
            } else if ready.len() > 1 {
                ready.take(1)
            } else {
                ready
            }
        }
    }

    /// Paths that can take the packet now, best first.
    #[verifier::opaque]
    pub open spec fn targets(self, bytes: usize, interactive: bool, now: u64) -> Seq<usize> {
        let open: Seq<usize> = placement::kept(
            self.placement_paths(interactive, now),
            budget_flags(self.paths, bytes, interactive, now),
        );
        if !interactive {
            placement::ordered(open, bulk_costs(self.paths, bytes))
        } else if now < self.advice_until {
            placement::ordered(open, advised_costs(self.paths, self.names, self.advice))
        } else {
            open
        }
    }

    #[verifier::opaque]
    pub open spec fn udp_protection_targets(self, bytes: usize, now: u64) -> Seq<usize> {
        placement::kept(self.data_paths(now), protection_flags(self.paths, bytes, now))
    }

    #[verifier::opaque]
    pub open spec fn tcp_protection_targets(self, bytes: usize, now: u64) -> Seq<usize> {
        placement::kept(self.data_paths(now), budget_flags(self.paths, bytes, false, now))
    }

    // -- Queues and paths ------------------------------------------------------

    pub open spec fn dropped(self) -> SchedulerView {
        SchedulerView {
            counters: Counters {
                queue_drops: self.counters.queue_drops.wrapping_add(1),
                ..self.counters
            },
            ..self
        }
    }

    /// Queues a packet by its class. Sizes out of range and packets beyond the
    /// bound are dropped; a part of the bound is kept for urgent ones.
    pub open spec fn enqueued(self, ip: Seq<u8>) -> SchedulerView {
        let limit: int = if packet::spec_interactive(ip) {
            MAX_PENDING as int
        } else {
            MAX_PENDING - 64
        };
        if ip.len() > BOND_MTU || ip.len() < 20 || self.waiting() + self.pending.len() >= limit {
            self.dropped()
        } else if packet::spec_interactive(ip) {
            SchedulerView { urgent: self.urgent.push(ip), ..self }
        } else if packet::spec_streaming(ip) {
            SchedulerView { streaming: self.streaming.push(ip), ..self }
        } else {
            SchedulerView { queued: self.queued.push(ip), ..self }
        }
    }

    pub open spec fn set_path(self, index: int, p: Path) -> SchedulerView {
        SchedulerView { paths: self.paths.update(index, p), ..self }
    }

    /// A path marked as failed. Flows pinned to it are released. The first
    /// mark counts, and is announced where asked.
    pub open spec fn path_failed(self, index: int, announce: bool) -> SchedulerView {
        if index >= self.n() {
            self
        } else {
            let p: Path = self.paths[index];
            let changed: bool = p.state != PathState::Failed;
            SchedulerView {
                paths: self.paths.update(
                    index,
                    Path {
                        state: PathState::Failed,
                        good_samples: 0,
                        last_response: None,
                        next_send: path::zero(),
                        ..p
                    },
                ),
                counters: Counters {
                    path_failures: if changed {
                        self.counters.path_failures.wrapping_add(1)
                    } else {
                        self.counters.path_failures
                    },
                    ..self.counters
                },
                notices: if changed && announce {
                    self.notices.update(index, true)
                } else {
                    self.notices
                },
                flow_paths: table::retained(
                    self.flow_paths,
                    |k: u128, pin: FlowPin| pin.path != index,
                ),
                ..self
            }
        }
    }

    pub open spec fn newly_failed(self, index: int) -> bool {
        index < self.n() && self.paths[index].state != PathState::Failed
    }

    pub open spec fn path_removed(self, index: int) -> SchedulerView {
        let failed: SchedulerView = self.path_failed(index, true);
        if index >= self.n() {
            failed
        } else {
            failed.set_path(
                index,
                Path { enabled: false, state: PathState::Removed, ..failed.paths[index] },
            )
        }
    }
}

/// A path that came back rediscovers its capacity. One that has carried data
/// before is only probed at first.
pub open spec fn readmitted(p: Path, metered: bool) -> Path {
    if !p.enabled || p.state == PathState::Failed || p.state == PathState::Removed {
        let used: bool = p.sent_bytes > 0 || p.received_bytes > 0 || p.acknowledged_bytes > 0;
        Path {
            enabled: true,
            metered,
            state: PathState::Discovering,
            rtt_ms: None,
            jitter_ms: path::zero(),
            minimum_rtt_ms: path::unknown_delay(),
            delivery_bps: path::zero(),
            tcp_delivery_bps: path::zero(),
            tcp_rate: path::no_rate(),
            in_flight: 0,
            congestion_window: path::INITIAL_WINDOW,
            slow_start_threshold: path::INITIAL_SLOW_START,
            last_response: None,
            good_samples: 0,
            next_send: path::zero(),
            rate_started: 0,
            rate_bytes: 0,
            last_congestion: None,
            growth_credit: 0,
            last_delay_adjust: None,
            capacity_used_until: None,
            queue_persistent: false,
            elevated_since: None,
            response_pause_ms: 0,
            pauses: path::no_peak(),
            probation_until: if used {
                Some(u64::MAX)
            } else {
                None
            },
            probation_stable_since: None,
            generation: p.generation.wrapping_add(1),
            ..p
        }
    } else {
        Path { enabled: true, metered, ..p }
    }
}

/// First position from `i` on that holds the name.
pub open spec fn name_slot(names: Seq<Seq<char>>, name: Seq<char>, i: int) -> int
    decreases names.len() - i,
{
    if i < names.len() && names[i] != name {
        name_slot(names, name, i + 1)
    } else {
        i
    }
}

pub open spec fn fresh_paths(metered: Seq<bool>) -> Seq<Path> {
    Seq::new(metered.len(), |i: int| path::fresh_path(i as u8, metered[i]))
}

pub open spec fn initial(names: Seq<(Seq<char>, bool)>, policy: Policy) -> SchedulerView {
    SchedulerView {
        paths: fresh_paths(names.map_values(|n: (Seq<char>, bool)| n.1)),
        names: names.map_values(|n: (Seq<char>, bool)| n.0),
        policy,
        counters: no_counters(),
        pending: Seq::empty(),
        recent: Map::empty(),
        queued: Seq::empty(),
        urgent: Seq::empty(),
        streaming: Seq::empty(),
        refused: Set::empty(),
        next_id: 0,
        last_probe: None,
        advice: Seq::empty(),
        advice_until: 0,
        flow_paths: Map::empty(),
        srt_flows: Map::empty(),
        fragment_flows: Map::empty(),
        tcp_flows: Map::empty(),
        notices: Seq::new(names.len(), |i: int| false),
        tokens: TCP_CONTINUITY_BURST_BYTES,
        refill_at: 0,
        last_prune: 0,
    }
}

impl Scheduler {
    pub open spec fn wf(&self) -> bool {
        self.sound() && self@.wf()
    }

    /// What also holds in the middle of a step.
    pub open spec fn sound(&self) -> bool {
        &&& self@.sound()
        &&& self.recent_attempts.wf()
        &&& self.received.wf()
        &&& self.received.spec_width() == RECEIVE_WIDTH
        &&& self.flow_paths.wf()
        &&& self.srt_flows.wf()
        &&& self.fragment_flows.wf()
        &&& self.tcp_flows.wf()
    }

    pub fn new(names: Vec<(String, bool)>, policy: Policy) -> (r: Result<Self, BondError>)
        ensures
            match r {
                Ok(scheduler) => {
                    &&& 1 <= names@.len() <= MAX_PATHS
                    &&& scheduler.wf()
                    &&& scheduler@ == initial(
                        names@.map_values(|n: (String, bool)| (n.0@, n.1)),
                        policy,
                    )
                },
                Err(error) => !(1 <= names@.len() <= MAX_PATHS) && error == BondError::PathCount,
            },
    {
        if names.len() == 0 || names.len() > MAX_PATHS {
            return Err(BondError::PathCount);
        }
        let mut paths: Vec<Path> = Vec::new();
        let mut labels: Vec<String> = Vec::new();
        let mut notices: Vec<bool> = Vec::new();
        let ghost given: Seq<(Seq<char>, bool)> = names@.map_values(
            |n: (String, bool)| (n.0@, n.1),
        );
        let mut i: usize = 0;
        while i < names.len()
            invariant
                i <= names@.len() <= MAX_PATHS,
                given == names@.map_values(|n: (String, bool)| (n.0@, n.1)),
                paths@.len() == i,
                labels@.len() == i,
                notices@.len() == i,
                forall|j: int|
                    0 <= j < i ==> #[trigger] paths@[j] == path::fresh_path(j as u8, given[j].1),
                forall|j: int| 0 <= j < i ==> (#[trigger] labels@[j])@ == given[j].0,
                forall|j: int| 0 <= j < i ==> !#[trigger] notices@[j],
            decreases names@.len() - i,
        {
            paths.push(Path::new(i as u8, names[i].1));
            labels.push(names[i].0.clone());
            notices.push(false);
            i = i + 1;
        }
        let r: Scheduler = Scheduler {
            paths,
            names: labels,
            policy,
            counters: Counters::default(),
            pending: Vec::new(),
            recent_attempts: Table::new(),
            queued: VecDeque::new(),
            urgent: VecDeque::new(),
            streaming: VecDeque::new(),
            received: ReplayWindow::new(RECEIVE_WIDTH),
            next_id: 0,
            last_probe: None,
            realtime_advice: Vec::new(),
            advice_until: 0,
            flow_paths: Table::new(),
            srt_flows: Table::new(),
            fragment_flows: Table::new(),
            tcp_flows: Table::new(),
            notices,
            tcp_continuity_tokens: TCP_CONTINUITY_BURST_BYTES,
            tcp_continuity_refill_at: 0,
            last_flow_prune: 0,
        };
        assert(r@.paths =~= initial(given, policy).paths);
        assert(r@.names =~= initial(given, policy).names);
        assert(r@ =~= initial(given, policy));
        proof {
            reveal(settled_apart);
        }
        Ok(r)
    }

    pub fn set_realtime_advice(&mut self, weights: Vec<(String, u32)>, until: u64)
        requires
            old(self).wf(),
        ensures
            final(self).wf(),
            final(self)@ == (SchedulerView {
                advice: advice_view(weights@),
                advice_until: until,
                ..old(self)@
            }),
    {
        self.realtime_advice = weights;
        self.advice_until = until;
    }

    pub fn enqueue(&mut self, ip: Vec<u8>)
        requires
            old(self).wf(),
        ensures
            final(self).wf(),
            final(self)@ == old(self)@.enqueued(ip@),
    {
        let urgent: bool = packet::interactive(ip.as_slice());
        let limit: usize = if urgent {
            MAX_PENDING
        } else {
            MAX_PENDING - 64
        };
        let ghost target: SchedulerView = self@.enqueued(ip@);
        if ip.len() > BOND_MTU || ip.len() < 20 || self.queued.len() + self.urgent.len()
            + self.streaming.len() + self.pending.len() >= limit {
            self.counters.queue_drops = self.counters.queue_drops.wrapping_add(1);
        } else if urgent {
            self.urgent.push_back(ip);
            assert(bodies(self.urgent@) =~= target.urgent);
        } else if packet::streaming(ip.as_slice()) {
            self.streaming.push_back(ip);
            assert(bodies(self.streaming@) =~= target.streaming);
        } else {
            self.queued.push_back(ip);
            assert(bodies(self.queued@) =~= target.queued);
        }
        assert(self@ =~= target);
    }

    pub fn pending_packets(&self) -> (r: usize)
        ensures
            r == self@.pending.len(),
    {
        self.pending.len()
    }

    pub fn queued_packets(&self) -> (r: usize)
        requires
            self.sound(),
        ensures
            r == self@.waiting(),
    {
        self.urgent.len() + self.streaming.len() + self.queued.len()
    }

    pub fn has_received(&self, id: u64) -> (r: bool)
        requires
            self.sound(),
        ensures
            r == self@.refused.contains(id),
    {
        self.received.contains(id)
    }

    pub(crate) fn mark_path_failed(&mut self, index: usize, announce: bool) -> (r: bool)
        requires
            old(self).sound(),
        ensures
            final(self).sound(),
            final(self)@ == old(self)@.path_failed(index as int, announce),
            r == old(self)@.newly_failed(index as int),
    {
        if index >= self.paths.len() {
            return false;
        }
        let ghost target: SchedulerView = self@.path_failed(index as int, announce);
        let mut p: Path = self.paths[index];
        let changed: bool = p.state != PathState::Failed;
        if changed {
            self.counters.path_failures = self.counters.path_failures.wrapping_add(1);
            if announce {
                self.notices[index] = true;
            }
        }
        p.state = PathState::Failed;
        p.good_samples = 0;
        p.last_response = None;
        p.next_send = path::zero();
        self.paths[index] = p;
        let elsewhere = |k: u128, pin: &FlowPin| -> (keep: bool)
            ensures
                keep == (pin.path != index),
        {
            pin.path != index
        };
        self.flow_paths.retain(elsewhere, Ghost(|k: u128, pin: FlowPin| pin.path != index));
        assert(self@ =~= target);
        changed
    }

    /// Marks a path as failed, to be announced to the peer.
    pub fn fail_path(&mut self, index: usize)
        requires
            old(self).wf(),
        ensures
            final(self).wf(),
            final(self)@ == old(self)@.path_failed(index as int, true),
    {
        self.mark_path_failed(index, true);
    }

    /// Applies a failure learned from the peer. It is not announced again.
    pub fn fail_path_remote(&mut self, index: usize) -> (r: bool)
        requires
            old(self).wf(),
        ensures
            final(self).wf(),
            r == old(self)@.newly_failed(index as int),
            final(self)@ == ({
                let failed: SchedulerView = old(self)@.path_failed(index as int, false);
                if r {
                    SchedulerView {
                        counters: Counters {
                            path_down_notices_received:
                                failed.counters.path_down_notices_received.wrapping_add(1),
                            ..failed.counters
                        },
                        ..failed
                    }
                } else {
                    failed
                }
            }),
    {
        let changed: bool = self.mark_path_failed(index, false);
        if changed {
            self.counters.path_down_notices_received =
            self.counters.path_down_notices_received.wrapping_add(1);
        }
        changed
    }

    pub fn remove_path(&mut self, index: usize)
        requires
            old(self).wf(),
        ensures
            final(self).wf(),
            final(self)@ == old(self)@.path_removed(index as int),
    {
        let ghost target: SchedulerView = self@.path_removed(index as int);
        self.fail_path(index);
        if index < self.paths.len() {
            let mut p: Path = self.paths[index];
            p.enabled = false;
            p.state = PathState::Removed;
            self.paths[index] = p;
        }
        assert(self@ =~= target);
    }

    /// Offers a path. A known name gives back its number.
    pub fn add_path(&mut self, name: String, metered: bool) -> (r: Result<usize, BondError>)
        requires
            old(self).wf(),
        ensures
            final(self).wf(),
            ({
                let before: SchedulerView = old(self)@;
                let at: int = name_slot(before.names, name@, 0);
                if at < before.n() {
                    &&& r == Ok::<usize, BondError>(at as usize)
                    &&& final(self)@ == (SchedulerView {
                        paths: before.paths.update(at, readmitted(before.paths[at], metered)),
                        notices: before.notices.update(at, false),
                        ..before
                    })
                } else if before.n() < MAX_PATHS {
                    &&& r == Ok::<usize, BondError>(before.n() as usize)
                    &&& final(self)@ == (SchedulerView {
                        paths: before.paths.push(path::fresh_path(before.n() as u8, metered)),
                        names: before.names.push(name@),
                        notices: before.notices.push(false),
                        ..before
                    })
                } else {
                    &&& r == Err::<usize, BondError>(BondError::PathsExhausted)
                    &&& final(self)@ == before
                }
            }),
    {
        let ghost before: SchedulerView = self@;
        let mut at: usize = 0;
        while at < self.names.len() && self.names[at] != name
            invariant
                at <= self.names@.len(),
                before.names == texts(self.names@),
                name_slot(before.names, name@, at as int) == name_slot(before.names, name@, 0),
            decreases self.names@.len() - at,
        {
            at = at + 1;
        }
        if at < self.names.len() {
            let mut p: Path = self.paths[at];
            if !p.enabled || p.state == PathState::Failed || p.state == PathState::Removed {
                let used: bool = p.sent_bytes > 0 || p.received_bytes > 0 || p.acknowledged_bytes
                    > 0;
                p.state = PathState::Discovering;
                p.rtt_ms = None;
                p.jitter_ms = path::zero();
                p.minimum_rtt_ms = path::unknown_delay();
                p.delivery_bps = path::zero();
                p.tcp_delivery_bps = path::zero();
                p.tcp_rate = TcpRate { started: None, bytes: 0, loaded: false, sampled_at: None };
                p.in_flight = 0;
                p.congestion_window = path::INITIAL_WINDOW;
                p.slow_start_threshold = path::INITIAL_SLOW_START;
                p.last_response = None;
                p.good_samples = 0;
                p.next_send = path::zero();
                p.rate_started = 0;
                p.rate_bytes = 0;
                p.last_congestion = None;
                p.growth_credit = 0;
                p.last_delay_adjust = None;
                p.capacity_used_until = None;
                p.queue_persistent = false;
                p.elevated_since = None;
                p.response_pause_ms = 0;
                p.pauses = RecentPeak { start: 0, values: (0, 0, 0, 0) };
                p.probation_until = if used {
                    Some(u64::MAX)
                } else {
                    None
                };
                p.probation_stable_since = None;
                p.generation = p.generation.wrapping_add(1);
            }
            p.enabled = true;
            p.metered = metered;
            self.paths[at] = p;
            self.notices[at] = false;
            assert(self@.paths =~= before.paths.update(
                at as int,
                readmitted(before.paths[at as int], metered),
            ));
            return Ok(at);
        }
        if self.paths.len() >= MAX_PATHS {
            return Err(BondError::PathsExhausted);
        }
        let index: usize = self.paths.len();
        self.paths.push(Path::new(index as u8, metered));
        self.names.push(name);
        self.notices.push(false);
        proof {
            assert(texts(self.names@) =~= before.names.push(name@));
            assert forall|i: int| 0 <= i < self@.pending.len() implies (
            #[trigger] self@.pending[i]).wf(self@.n()) by {
                assert(before.pending[i].wf(before.n()));
            }
        }
        Ok(index)
    }
}

// ---- Pending packets ---------------------------------------------------------

pub proof fn lemma_pending_slot(pending: Seq<PendingView>, id: u64, i: int)
    requires
        0 <= i <= pending.len(),
    ensures
        i <= pending_slot(pending, id, i) <= pending.len(),
        forall|j: int|
            i <= j < pending_slot(pending, id, i) ==> (#[trigger] pending[j]).id < id,
        pending_slot(pending, id, i) < pending.len() ==> pending[pending_slot(
            pending,
            id,
            i,
        )].id >= id,
    decreases pending.len() - i,
{
    if i < pending.len() && pending[i].id < id {
        lemma_pending_slot(pending, id, i + 1);
    }
}

/// Replacing a packet by another state of itself keeps the list valid.
pub proof fn lemma_update_keeps(pending: Seq<PendingView>, i: int, p: PendingView, n: nat, id: u64)
    requires
        0 <= i < pending.len(),
        pending_ordered(pending),
        pending_within(pending, n),
        pending_below(pending, id),
        p.id == pending[i].id,
        p.wf(n),
    ensures
        pending_ordered(pending.update(i, p)),
        pending_within(pending.update(i, p), n),
        pending_below(pending.update(i, p), id),
{
}

pub proof fn lemma_remove_keeps(pending: Seq<PendingView>, i: int, n: nat, id: u64)
    requires
        0 <= i < pending.len(),
        pending_ordered(pending),
        pending_within(pending, n),
        pending_below(pending, id),
    ensures
        pending_ordered(pending.remove(i)),
        pending_within(pending.remove(i), n),
        pending_below(pending.remove(i), id),
{
    let rest: Seq<PendingView> = pending.remove(i);
    assert forall|j: int| 0 <= j < rest.len() implies #[trigger] rest[j] == pending[if j < i {
        j
    } else {
        j + 1
    }] by {}
}

/// The paths after the copies of a packet left the first `n` of its paths.
pub open spec fn released(
    paths: Seq<Path>,
    attempts: Seq<Attempt>,
    bytes: usize,
    n: nat,
) -> Seq<Path>
    decreases n,
{
    if n == 0 {
        paths
    } else {
        let before: Seq<Path> = released(paths, attempts, bytes, (n - 1) as nat);
        let attempt: Attempt = attempts[n - 1];
        if flight::is_current(before, attempt) {
            let p: Path = before[attempt.path as int];
            before.update(
                attempt.path as int,
                Path { in_flight: p.in_flight.saturating_sub(bytes), ..p },
            )
        } else {
            before
        }
    }
}

/// Acknowledgements still expected from other paths, after the first one came.
pub open spec fn expected_later(
    recent: Map<u128, RecentAttempt>,
    packet: PendingView,
    index: usize,
    now: u64,
    n: nat,
) -> Map<u128, RecentAttempt>
    decreases n,
{
    if n == 0 {
        recent
    } else {
        let before: Map<u128, RecentAttempt> = expected_later(
            recent,
            packet,
            index,
            now,
            (n - 1) as nat,
        );
        let attempt: Attempt = packet.attempts[n - 1];
        if attempt.path == index {
            before
        } else {
            let room: Map<u128, RecentAttempt> = if before.dom().len() >= MAX_RECENT_ACKS {
                table::without_least(before)
            } else {
                before
            };
            room.insert(
                recent_key(packet.id, attempt.path),
                RecentAttempt {
                    bytes: packet.body.len() as usize,
                    born: packet.born,
                    stamp: attempt.stamp,
                    generation: attempt.generation,
                    expires: now.saturating_add(RECENT_ACK_TTL_MS),
                },
            )
        }
    }
}

/// Whether a later acknowledgement on the path is evidence about the packet.
pub open spec fn evidence_counts(
    paths: Seq<Path>,
    packet: PendingView,
    index: usize,
    flow: u128,
) -> bool {
    packet.fast_repair_path is None && packet::spec_tcp_flow_key(packet.body) == Some(flow)
        && flight::current_on(paths, packet.attempts, index)
}

/// The packet with one more piece of evidence that its copy was lost.
pub open spec fn evidence_noted(packet: PendingView, index: usize, stamp: u64) -> PendingView {
    let i: int = flight::attempt_slot(packet.attempts, index, 0);
    let attempt: Attempt = packet.attempts[i];
    let more: u8 = attempt.evidence.saturating_add(1);
    let evidence: u8 = if more <= FAST_ACK_THRESHOLD {
        more
    } else {
        FAST_ACK_THRESHOLD
    };
    PendingView {
        attempts: packet.attempts.update(i, Attempt { evidence, ..attempt }),
        fast_repair_path: if evidence == FAST_ACK_THRESHOLD || stamp.saturating_sub(attempt.stamp)
            >= FAST_ACK_SEND_DELTA_MS {
            Some(index)
        } else {
            packet.fast_repair_path
        },
        ..packet
    }
}

/// Evidence for the nearest earlier packets of the flow, at most `left` of
/// them, searching down from position `i`.
pub open spec fn higher_noted(
    pending: Seq<PendingView>,
    paths: Seq<Path>,
    index: usize,
    stamp: u64,
    flow: u128,
    i: int,
    left: nat,
) -> Seq<PendingView>
    decreases i,
{
    if i <= 0 || left == 0 {
        pending
    } else if evidence_counts(paths, pending[i - 1], index, flow) {
        higher_noted(
            pending.update(i - 1, evidence_noted(pending[i - 1], index, stamp)),
            paths,
            index,
            stamp,
            flow,
            i - 1,
            (left - 1) as nat,
        )
    } else {
        higher_noted(pending, paths, index, stamp, flow, i - 1, left)
    }
}

impl SchedulerView {
    /// The scheduler after the first acknowledgement of a pending packet.
    pub open spec fn delivered(
        self,
        at: int,
        index: usize,
        stamp: u64,
        exact: bool,
        now: u64,
    ) -> SchedulerView {
        let packet: PendingView = self.pending[at];
        let bytes: usize = packet.body.len() as usize;
        let p: Path = self.paths[index as int];
        let rated: Path = if packet.bulk_tcp() {
            p.tcp_credited(bytes, now)
        } else {
            p
        };
        let trained: Seq<Path> = self.paths.update(
            index as int,
            rated.credited(bytes, stamp, exact, now),
        );
        let paths: Seq<Path> = released(trained, packet.attempts, bytes, packet.attempts.len());
        let rest: Seq<PendingView> = self.pending.remove(at);
        SchedulerView {
            paths,
            pending: match packet::spec_tcp_flow_key(packet.body) {
                Some(flow) => higher_noted(
                    rest,
                    paths,
                    index,
                    stamp,
                    flow,
                    pending_slot(rest, packet.id, 0),
                    FAST_ACK_SCAN as nat,
                ),
                None => rest,
            },
            recent: expected_later(self.recent, packet, index, now, packet.attempts.len()),
            counters: Counters {
                tcp_early_deferrals_acked: if packet.tcp_early_repair_deferred
                    && !packet.repaired {
                    self.counters.tcp_early_deferrals_acked.wrapping_add(1)
                } else {
                    self.counters.tcp_early_deferrals_acked
                },
                ..self.counters
            },
            ..self
        }
    }

    /// The scheduler after an acknowledgement. It counts only for a copy that
    /// was sent on that path, in its present incarnation, and not before.
    pub open spec fn acked(self, index: usize, id: u64, stamp: u64, now: u64) -> SchedulerView {
        let key: u128 = recent_key(id, index);
        let generation: u64 = self.paths[index as int].generation;
        if is_pending(self.pending, id) {
            let at: int = pending_slot(self.pending, id, 0);
            let packet: PendingView = self.pending[at];
            match flight::attempt_on(packet.attempts, index) {
                None => self,
                Some(attempt) => if stamp < packet.born || attempt.generation != generation
                    || stamp > attempt.stamp {
                    self
                } else {
                    self.delivered(at, index, stamp, attempt.stamp == stamp, now)
                },
            }
        } else if self.recent.contains_key(key) {
            let attempt: RecentAttempt = self.recent[key];
            let rest: SchedulerView = SchedulerView { recent: self.recent.remove(key), ..self };
            if attempt.generation != generation || stamp < attempt.born || stamp > attempt.stamp {
                rest
            } else {
                rest.set_path(
                    index as int,
                    self.paths[index as int].credited(
                        attempt.bytes,
                        stamp,
                        stamp == attempt.stamp,
                        now,
                    ),
                )
            }
        } else {
            self
        }
    }

    pub open spec fn all_acked(self, index: usize, acks: Seq<(u64, u64)>, now: u64) -> SchedulerView
        decreases acks.len(),
    {
        if acks.len() == 0 {
            self
        } else {
            self.all_acked(index, acks.drop_last(), now).acked(
                index,
                acks.last().0,
                acks.last().1,
                now,
            )
        }
    }

    /// State, delivered packet and answers after a frame came in.
    pub open spec fn after_frame(self, frame: FrameView, now: u64) -> (
        SchedulerView,
        Option<Seq<u8>>,
        Seq<FrameView>,
    ) {
        let index: usize = frame.path as usize;
        if index >= self.n() {
            (self, None, Seq::empty())
        } else {
            match frame.kind {
                Kind::Join | Kind::Probe => (
                    self,
                    None,
                    seq![frame::spec_control(Kind::Pong, frame.path, frame.id, frame.stamp)],
                ),
                Kind::Pong | Kind::JoinAck => (
                    self.set_path(
                        index as int,
                        self.paths[index as int].observed(now, frame.stamp),
                    ),
                    None,
                    Seq::empty(),
                ),
                Kind::Ack => (
                    self.acked(index, frame.id, frame.stamp, now),
                    None,
                    Seq::empty(),
                ),
                Kind::AckBatch => (
                    self.all_acked(index, frame::batch_acks(frame), now),
                    None,
                    Seq::empty(),
                ),
                Kind::Data => {
                    let p: Path = self.paths[index as int];
                    let counted: SchedulerView = self.set_path(
                        index as int,
                        Path {
                            received_bytes: p.received_bytes.wrapping_add(frame.body.len() as u64),
                            ..p
                        },
                    );
                    let ack: FrameView = frame::spec_control(
                        Kind::Ack,
                        frame.path,
                        frame.id,
                        frame.stamp,
                    );
                    if self.refused.contains(frame.id) {
                        (
                            SchedulerView {
                                counters: Counters {
                                    duplicates: self.counters.duplicates.wrapping_add(1),
                                    ..self.counters
                                },
                                ..counted
                            },
                            None,
                            seq![ack],
                        )
                    } else {
                        (
                            SchedulerView {
                                refused: replay::refused_after(
                                    self.refused,
                                    RECEIVE_WIDTH as nat,
                                    frame.id,
                                ),
                                counters: Counters {
                                    delivered_packets:
                                        self.counters.delivered_packets.wrapping_add(1),
                                    delivered_bytes: self.counters.delivered_bytes.wrapping_add(
                                        frame.body.len() as u64,
                                    ),
                                    ..self.counters
                                },
                                ..counted
                            },
                            Some(frame.body),
                            seq![ack],
                        )
                    }
                },
                _ => (self, None, Seq::empty()),
            }
        }
    }
}

pub proof fn lemma_released_len(paths: Seq<Path>, attempts: Seq<Attempt>, bytes: usize, n: nat)
    ensures
        released(paths, attempts, bytes, n).len() == paths.len(),
    decreases n,
{
    if n > 0 {
        lemma_released_len(paths, attempts, bytes, (n - 1) as nat);
    }
}

proof fn lemma_evidence_noted(
    paths: Seq<Path>,
    packet: PendingView,
    index: usize,
    stamp: u64,
    n: nat,
)
    requires
        packet.wf(n),
        index < n,
        flight::current_on(paths, packet.attempts, index),
    ensures
        evidence_noted(packet, index, stamp).wf(n),
{
    flight::lemma_attempt_slot(packet.attempts, index, 0);
}

/// Releases the copies of a packet from the windows of their paths.
pub fn release_flight(paths: &mut Vec<Path>, attempts: &Vec<Attempt>, bytes: usize)
    ensures
        final(paths)@ == released(old(paths)@, attempts@, bytes, attempts@.len()),
        final(paths)@.len() == old(paths)@.len(),
{
    let ghost start: Seq<Path> = paths@;
    let mut i: usize = 0;
    while i < attempts.len()
        invariant
            i <= attempts@.len(),
            paths@ == released(start, attempts@, bytes, i as nat),
            paths@.len() == start.len(),
        decreases attempts@.len() - i,
    {
        let attempt: Attempt = attempts[i];
        if flight::attempt_is_current(paths, attempt) {
            let mut p: Path = paths[attempt.path];
            p.in_flight = p.in_flight.saturating_sub(bytes);
            paths[attempt.path] = p;
        }
        i = i + 1;
    }
}

impl Scheduler {
    pub(crate) fn find_pending(&self, id: u64) -> (r: usize)
        ensures
            r == pending_slot(self@.pending, id, 0),
            r <= self@.pending.len(),
    {
        let mut i: usize = 0;
        while i < self.pending.len() && self.pending[i].id < id
            invariant
                i <= self.pending@.len(),
                pending_slot(self@.pending, id, i as int) == pending_slot(self@.pending, id, 0),
            decreases self.pending@.len() - i,
        {
            i = i + 1;
        }
        i
    }

    /// Adds evidence to the packets of a flow that were sent before.
    fn note_higher_ack(&mut self, index: usize, id: u64, stamp: u64, flow: Option<u128>)
        requires
            old(self).sound(),
            index < old(self)@.n(),
        ensures
            final(self).sound(),
            final(self)@ == (SchedulerView {
                pending: match flow {
                    Some(key) => higher_noted(
                        old(self)@.pending,
                        old(self)@.paths,
                        index,
                        stamp,
                        key,
                        pending_slot(old(self)@.pending, id, 0),
                        FAST_ACK_SCAN as nat,
                    ),
                    None => old(self)@.pending,
                },
                ..old(self)@
            }),
    {
        let key: u128 = match flow {
            Some(key) => key,
            None => {
                return;
            },
        };
        let mut i: usize = self.find_pending(id);
        let mut left: usize = FAST_ACK_SCAN;
        let ghost before: SchedulerView = self@;
        let ghost target: Seq<PendingView> = higher_noted(
            self@.pending,
            self@.paths,
            index,
            stamp,
            key,
            i as int,
            left as nat,
        );
        while i > 0 && left > 0
            invariant
                self.sound(),
                i <= self@.pending.len(),
                index < self@.n(),
                self@ == (SchedulerView { pending: self@.pending, ..before }),
                higher_noted(
                    self@.pending,
                    before.paths,
                    index,
                    stamp,
                    key,
                    i as int,
                    left as nat,
                ) == target,
            decreases i,
        {
            i = i - 1;
            let ghost pending: Seq<PendingView> = self@.pending;
            let counts: bool = {
                let packet: &Pending = &self.pending[i];
                packet.fast_repair_path.is_none() && (match packet::tcp_flow_key(
                    packet.body.as_slice(),
                ) {
                    Some(other) => other == key,
                    None => false,
                }) && flight::has_current(&self.paths, &packet.attempts, index)
            };
            assert(counts == evidence_counts(before.paths, pending[i as int], index, key));
            if counts {
                let ghost noted: PendingView = evidence_noted(pending[i as int], index, stamp);
                Self::note_evidence(&mut self.pending[i], index, stamp);
                proof {
                    assert(flight::pending_views(self.pending@) =~= pending.update(
                        i as int,
                        noted,
                    ));
                    lemma_evidence_noted(before.paths, pending[i as int], index, stamp, self@.n());
                    lemma_update_keeps(pending, i as int, noted, self@.n(), self@.next_id);
                    assert(self@ =~= (SchedulerView { pending: self@.pending, ..before }));
                }
                left = left - 1;
            }
        }
        assert(self@ =~= (SchedulerView { pending: target, ..before }));
    }

    fn note_evidence(packet: &mut Pending, index: usize, stamp: u64)
        requires
            flight::attempt_on(old(packet)@.attempts, index) is Some,
        ensures
            final(packet)@ == evidence_noted(old(packet)@, index, stamp),
    {
        let ghost before: PendingView = packet@;
        let mut i: usize = 0;
        while i < packet.attempts.len() && packet.attempts[i].path < index
            invariant
                packet@ == before,
                i <= packet.attempts@.len(),
                flight::attempt_slot(before.attempts, index, i as int) == flight::attempt_slot(
                    before.attempts,
                    index,
                    0,
                ),
            decreases packet.attempts@.len() - i,
        {
            i = i + 1;
        }
        let mut attempt: Attempt = packet.attempts[i];
        let more: u8 = attempt.evidence.saturating_add(1);
        attempt.evidence = if more <= FAST_ACK_THRESHOLD {
            more
        } else {
            FAST_ACK_THRESHOLD
        };
        packet.attempts[i] = attempt;
        if attempt.evidence == FAST_ACK_THRESHOLD || stamp.saturating_sub(attempt.stamp)
            >= FAST_ACK_SEND_DELTA_MS {
            packet.fast_repair_path = Some(index);
        }
        assert(packet@ =~= evidence_noted(before, index, stamp));
    }

    fn expect_later(&mut self, packet: &Pending, index: usize, now: u64)
        requires
            old(self).sound(),
        ensures
            final(self).sound(),
            final(self)@ == (SchedulerView {
                recent: expected_later(
                    old(self)@.recent,
                    packet@,
                    index,
                    now,
                    packet@.attempts.len(),
                ),
                ..old(self)@
            }),
    {
        let ghost before: SchedulerView = self@;
        let mut i: usize = 0;
        while i < packet.attempts.len()
            invariant
                self.sound(),
                i <= packet.attempts@.len(),
                self@ == (SchedulerView {
                    recent: expected_later(before.recent, packet@, index, now, i as nat),
                    ..before
                }),
            decreases packet.attempts@.len() - i,
        {
            let attempt: Attempt = packet.attempts[i];
            if attempt.path != index {
                if self.recent_attempts.len() >= MAX_RECENT_ACKS {
                    self.recent_attempts.pop_least();
                }
                let key: u128 = packet.id as u128 * 0x1_0000_0000_0000_0000 + attempt.path as u128;
                self.recent_attempts.insert(
                    key,
                    RecentAttempt {
                        bytes: packet.body.len(),
                        born: packet.born,
                        stamp: attempt.stamp,
                        generation: attempt.generation,
                        expires: now.saturating_add(RECENT_ACK_TTL_MS),
                    },
                );
            }
            i = i + 1;
            assert(self@ =~= (SchedulerView {
                recent: expected_later(before.recent, packet@, index, now, i as nat),
                ..before
            }));
        }
    }

    /// Applies one acknowledgement.
    fn acknowledge(&mut self, index: usize, id: u64, stamp: u64, now: u64)
        requires
            old(self).sound(),
            index < old(self)@.n(),
        ensures
            final(self).sound(),
            final(self)@ == old(self)@.acked(index, id, stamp, now),
            final(self)@.n() == old(self)@.n(),
            final(self)@.names == old(self)@.names,
    {
        let ghost before: SchedulerView = self@;
        let at: usize = self.find_pending(id);
        let generation: u64 = self.paths[index].generation;
        if at < self.pending.len() && self.pending[at].id == id {
            let attempt: Attempt = match flight::find_attempt(&self.pending[at].attempts, index) {
                Some(attempt) => attempt,
                None => {
                    return;
                },
            };
            if stamp < self.pending[at].born || attempt.generation != generation || stamp
                > attempt.stamp {
                return;
            }
            let ghost pending: Seq<PendingView> = self@.pending;
            let packet: Pending = self.pending.remove(at);
            proof {
                assert(flight::pending_views(self.pending@) =~= pending.remove(at as int));
                lemma_remove_keeps(pending, at as int, self@.n(), self@.next_id);
            }
            let flow: Option<u128> = packet::tcp_flow_key(packet.body.as_slice());
            if packet.tcp_early_repair_deferred && !packet.repaired {
                self.counters.tcp_early_deferrals_acked =
                self.counters.tcp_early_deferrals_acked.wrapping_add(1);
            }
            let bytes: usize = packet.body.len();
            let mut p: Path = self.paths[index];
            if bytes >= 600 && flow.is_some() {
                p.tcp_acked(bytes, now);
            }
            p.acknowledge(bytes, stamp, attempt.stamp == stamp, now);
            self.paths[index] = p;
            self.expect_later(&packet, index, now);
            release_flight(&mut self.paths, &packet.attempts, bytes);
            self.note_higher_ack(index, id, stamp, flow);
            assert(self@ =~= before.delivered(at as int, index, stamp, attempt.stamp == stamp, now));
        } else {
            let key: u128 = id as u128 * 0x1_0000_0000_0000_0000 + index as u128;
            match self.recent_attempts.take(key) {
                None => {
                    assert(self@ =~= before);
                },
                Some(attempt) => {
                    if attempt.generation != generation || stamp < attempt.born || stamp
                        > attempt.stamp {
                        assert(self@ =~= before.acked(index, id, stamp, now));
                        return;
                    }
                    let mut p: Path = self.paths[index];
                    p.acknowledge(attempt.bytes, stamp, stamp == attempt.stamp, now);
                    self.paths[index] = p;
                    assert(self@ =~= before.acked(index, id, stamp, now));
                },
            }
        }
    }

    /// Applies every acknowledgement of a batch.
    fn acknowledge_all(&mut self, index: usize, frame: &Frame, now: u64)
        requires
            old(self).sound(),
            index < old(self)@.n(),
        ensures
            final(self).sound(),
            final(self)@ == old(self)@.all_acked(index, frame::batch_acks(frame@), now),
            final(self)@.n() == old(self)@.n(),
            final(self)@.names == old(self)@.names,
    {
        let ghost before: SchedulerView = self@;
        let ghost first: Seq<(u64, u64)> = seq![(frame.id, frame.stamp)];
        let ghost rest: Seq<(u64, u64)> = frame::listed_acks(frame.body@);
        self.acknowledge(index, frame.id, frame.stamp, now);
        proof {
            assert(first.drop_last() =~= Seq::empty());
            assert(before.all_acked(index, Seq::empty(), now) == before);
            assert(self@ == before.all_acked(index, first, now));
            assert(frame.body@.skip(0) =~= frame.body@);
            assert(rest.skip(0) =~= rest);
            assert(first + rest.take(0) =~= first);
        }
        let mut at: usize = 0;
        let ghost mut done: int = 0;
        while frame.body.len() - at >= 16
            invariant
                self.sound(),
                self@.n() == before.n(),
                self@.names == before.names,
                index < before.n(),
                at <= frame.body@.len(),
                0 <= done <= rest.len(),
                rest.skip(done) == frame::listed_acks(frame.body@.skip(at as int)),
                self@ == before.all_acked(index, first + rest.take(done), now),
            decreases frame.body@.len() - at,
        {
            let id: u64 = wire::get_be(frame.body.as_slice(), at, 8);
            let stamp: u64 = wire::get_be(frame.body.as_slice(), at + 8, 8);
            proof {
                let tail: Seq<u8> = frame.body@.skip(at as int);
                assert(tail.subrange(0, 8) =~= frame.body@.subrange(at as int, at + 8));
                assert(tail.subrange(8, 16) =~= frame.body@.subrange(at + 8, at + 16));
                assert(tail.skip(16) =~= frame.body@.skip(at + 16));
                let listed: Seq<(u64, u64)> = frame::listed_acks(tail);
                assert(listed.len() > 0 && listed[0] == (id, stamp));
                assert(done < rest.len());
                assert(rest.skip(done)[0] == rest[done]);
                assert(listed.skip(1) =~= frame::listed_acks(tail.skip(16)));
                assert(rest.skip(done + 1) =~= listed.skip(1));
                let more: Seq<(u64, u64)> = first + rest.take(done + 1);
                assert(more.drop_last() =~= first + rest.take(done));
                assert(more.last() == (id, stamp));
            }
            self.acknowledge(index, id, stamp, now);
            at = at + 16;
            proof {
                done = done + 1;
            }
        }
        proof {
            assert(rest.skip(done) =~= Seq::empty());
            assert(first + rest.take(done) =~= frame::batch_acks(frame@));
        }
    }

    /// Takes a frame from the peer. Returns the packet it delivers, if it is a
    /// new one, and the frames to answer with. Acknowledgements that come again
    /// change nothing.
    pub fn receive(&mut self, frame: &Frame, now: u64) -> (r: (Option<Vec<u8>>, Vec<Frame>))
        requires
            old(self).wf(),
        ensures
            final(self).wf(),
            final(self)@.n() == old(self)@.n(),
            final(self)@.names == old(self)@.names,
            final(self)@ == old(self)@.after_frame(frame@, now).0,
            match r.0 {
                Some(body) => old(self)@.after_frame(frame@, now).1 == Some(body@),
                None => old(self)@.after_frame(frame@, now).1 is None,
            },
            frame::frame_views(r.1@) == old(self)@.after_frame(frame@, now).2,
            frame@.kind == Kind::Ack || frame@.kind == Kind::AckBatch ==> forall|later: u64|
                #[trigger] final(self)@.after_frame(frame@, later).0 == final(self)@,
    {
        let ghost before: SchedulerView = self@;
        proof {
            ack_laws::frame_keeps_settled_apart(before, frame@, now);
            assert forall|later: u64|
                frame@.kind == Kind::Ack || frame@.kind
                    == Kind::AckBatch implies #[trigger] before.after_frame(
                frame@,
                now,
            ).0.after_frame(frame@, later).0 == before.after_frame(frame@, now).0 by {
                if frame@.kind == Kind::Ack {
                    ack_laws::ack_counts_once(before, frame@, now, later);
                } else {
                    ack_laws::batch_counts_once(before, frame@, now, later);
                }
            }
        }
        let index: usize = frame.path as usize;
        let mut answers: Vec<Frame> = Vec::new();
        assert(frame::frame_views(answers@) =~= Seq::empty());
        if index >= self.paths.len() {
            return (None, answers);
        }
        match frame.kind {
            Kind::Join | Kind::Probe => {
                answers.push(Frame::control(Kind::Pong, frame.path, frame.id, frame.stamp));
                assert(frame::frame_views(answers@) =~= before.after_frame(frame@, now).2);
                (None, answers)
            },
            Kind::Pong | Kind::JoinAck => {
                let mut p: Path = self.paths[index];
                p.observe(now, frame.stamp);
                self.paths[index] = p;
                assert(self@ =~= before.after_frame(frame@, now).0);
                (None, answers)
            },
            Kind::Ack => {
                self.acknowledge(index, frame.id, frame.stamp, now);
                (None, answers)
            },
            Kind::AckBatch => {
                self.acknowledge_all(index, frame, now);
                (None, answers)
            },
            Kind::Data => {
                let mut p: Path = self.paths[index];
                p.received_bytes = p.received_bytes.wrapping_add(frame.body.len() as u64);
                self.paths[index] = p;
                answers.push(Frame::control(Kind::Ack, frame.path, frame.id, frame.stamp));
                assert(frame::frame_views(answers@) =~= before.after_frame(frame@, now).2);
                if self.received.contains(frame.id) {
                    self.counters.duplicates = self.counters.duplicates.wrapping_add(1);
                    assert(self@ =~= before.after_frame(frame@, now).0);
                    return (None, answers);
                }
                self.received.mark(frame.id);
                self.counters.delivered_packets = self.counters.delivered_packets.wrapping_add(1);
                self.counters.delivered_bytes = self.counters.delivered_bytes.wrapping_add(
                    frame.body.len() as u64,
                );
                assert(self@ =~= before.after_frame(frame@, now).0);
                (Some(wire::copy_bytes(frame.body.as_slice())), answers)
            },
            _ => (None, answers),
        }
    }
}

// ---- Choice of paths ---------------------------------------------------------

/// The two differ only in what they know of flows, tokens and counts.
pub open spec fn same_work(a: SchedulerView, b: SchedulerView) -> bool {
    &&& a.paths == b.paths
    &&& a.names == b.names
    &&& a.policy == b.policy
    &&& a.pending == b.pending
    &&& a.queued == b.queued
    &&& a.urgent == b.urgent
    &&& a.streaming == b.streaming
    &&& a.next_id == b.next_id
    &&& a.notices == b.notices
    &&& a.flow_paths == b.flow_paths
}

/// Three notices of a failed path for each of the first `m` survivors.
pub open spec fn survivor_notices(
    survivors: Seq<usize>,
    failed: int,
    now: u64,
    m: nat,
) -> Seq<FrameView>
    decreases m,
{
    if m == 0 {
        Seq::empty()
    } else {
        let notice: FrameView = frame::spec_control(
            Kind::PathDown,
            survivors[m - 1] as u8,
            failed as u64,
            now,
        );
        survivor_notices(survivors, failed, now, (m - 1) as nat).push(notice).push(notice).push(
            notice,
        )
    }
}

/// The notices of the failed paths among the first `n`.
pub open spec fn notice_frames(
    notices: Seq<bool>,
    survivors: Seq<usize>,
    now: u64,
    n: nat,
) -> Seq<FrameView>
    decreases n,
{
    if n == 0 {
        Seq::empty()
    } else {
        let before: Seq<FrameView> = notice_frames(notices, survivors, now, (n - 1) as nat);
        if notices[n - 1] {
            before + survivor_notices(survivors, n - 1, now, survivors.len())
        } else {
            before
        }
    }
}

pub open spec fn no_notices(n: nat) -> Seq<bool> {
    Seq::new(n, |i: int| false)
}

/// The product, cut to what fits.
pub open spec fn bounded_product(a: u64, b: u64) -> u64 {
    if a * b <= u64::MAX {
        (a * b) as u64
    } else {
        u64::MAX
    }
}

fn bounded_mul(a: u64, b: u64) -> (r: u64)
    ensures
        r == bounded_product(a, b),
{
    match a.checked_mul(b) {
        Some(product) => product,
        None => u64::MAX,
    }
}

/// How long a flow waits for a path that would deliver sooner.
pub open spec fn wait_limit(p: Path) -> u64 {
    p.rtt_or(20).ceil().clamp(Binary64::whole(2), Binary64::whole(20)).floor_u64()
}

impl SchedulerView {
    pub open spec fn announced(self, negotiated: bool, now: u64) -> (
        SchedulerView,
        Seq<FrameView>,
    ) {
        let survivors: Seq<usize> = self.data_paths(now);
        if !negotiated {
            (SchedulerView { notices: no_notices(self.n()), ..self }, Seq::empty())
        } else if survivors.len() == 0 {
            (self, Seq::empty())
        } else {
            let frames: Seq<FrameView> = notice_frames(self.notices, survivors, now, self.n());
            (
                SchedulerView {
                    notices: no_notices(self.n()),
                    counters: Counters {
                        path_down_notices_sent: self.counters.path_down_notices_sent.wrapping_add(
                            frames.len() as u64,
                        ),
                        ..self.counters
                    },
                    ..self
                },
                frames,
            )
        }
    }

    /// What the tokens are at a time, and whether they cover a packet.
    pub open spec fn refilled(self, now: u64) -> u64 {
        let earned: u64 = bounded_product(
            now.saturating_sub(self.refill_at),
            TCP_CONTINUITY_BYTES_PER_MS,
        );
        path::smaller(self.tokens.saturating_add(earned), TCP_CONTINUITY_BURST_BYTES)
    }

    #[verifier::opaque]
    pub open spec fn reserved(self, bytes: usize, now: u64) -> (SchedulerView, bool) {
        let tokens: u64 = self.refilled(now);
        if tokens < bytes {
            (SchedulerView { tokens, refill_at: now, ..self }, false)
        } else {
            (SchedulerView { tokens: (tokens - bytes) as u64, refill_at: now, ..self }, true)
        }
    }

    pub open spec fn flow_state(self, key: u128) -> TcpFlow {
        if self.tcp_flows.contains_key(key) {
            self.tcp_flows[key]
        } else {
            TcpFlow { waiting_since: None, last_arrival: path::zero(), touched: 0 }
        }
    }

    pub open spec fn set_flow(self, key: u128, flow: TcpFlow) -> SchedulerView {
        SchedulerView { tcp_flows: self.tcp_flows.insert(key, flow), ..self }
    }

    /// When the flow's backlog would be through on its nearest path.
    pub open spec fn fast_finish(
        self,
        fast: usize,
        flow: TcpFlow,
        bytes: usize,
        backlog: usize,
        now: u64,
    ) -> Binary64 {
        let p: Path = self.paths[fast as int];
        Binary64::whole(now).plus(p.tcp_send_wait_ms(bytes, now)).plus(
            p.tcp_forward_ms(now, bytes),
        ).max(flow.last_arrival).plus(
            Binary64::whole(backlog.saturating_sub(bytes) as u64).over(p.tcp_bytes_per_ms(now)),
        )
    }

    pub open spec fn slow_arrival(
        self,
        candidate: usize,
        flow: TcpFlow,
        bytes: usize,
        now: u64,
    ) -> Binary64 {
        Binary64::whole(now).plus(
            self.paths[candidate as int].tcp_forward_ms(now, bytes),
        ).max(flow.last_arrival)
    }

    /// Where a TCP packet goes. The flow may wait, for a short time, for a
    /// nearer path on which its whole backlog would still arrive first.
    #[verifier::opaque]
    pub open spec fn tcp_placed(self, key: u128, bytes: usize, backlog: usize, now: u64) -> (
        SchedulerView,
        Option<usize>,
    ) {
        let all: Seq<usize> = self.data_paths(now);
        let open: Seq<usize> = placement::kept(all, budget_flags(self.paths, bytes, false, now));
        match placement::cheapest(open, tcp_costs(self.paths, bytes, now)) {
            None => (self, None),
            Some(candidate) => if !self.tcp_flows.contains_key(key) && self.tcp_flows.dom().len()
                >= MAX_FLOW_PINS {
                (self, Some(candidate))
            } else {
                let fast: usize = all[0];
                let flow: TcpFlow = TcpFlow { touched: now, ..self.flow_state(key) };
                let p: Path = self.paths[fast as int];
                let since: u64 = flow.waiting_since.unwrap_or(now);
                let free: TcpFlow = TcpFlow { waiting_since: None, ..flow };
                if candidate == fast || !self.fast_finish(fast, flow, bytes, backlog, now).plus(
                    Binary64::ratio(1, 4),
                ).lt(self.slow_arrival(candidate, flow, bytes, now)) {
                    (self.set_flow(key, free), Some(candidate))
                } else if p.send_budget_allows(bytes, false, now) {
                    (self.set_flow(key, free), Some(fast))
                } else if now.saturating_sub(since) < wait_limit(p) {
                    (
                        SchedulerView {
                            counters: Counters {
                                tcp_path_waits: self.counters.tcp_path_waits.wrapping_add(1),
                                ..self.counters
                            },
                            ..self.set_flow(key, TcpFlow { waiting_since: Some(since), ..flow })
                        },
                        None,
                    )
                } else {
                    (
                        SchedulerView {
                            counters: Counters {
                                tcp_bounded_wait_fallbacks:
                                    self.counters.tcp_bounded_wait_fallbacks.wrapping_add(1),
                                ..self.counters
                            },
                            ..self.set_flow(key, free)
                        },
                        Some(candidate),
                    )
                }
            },
        }
    }

    /// Remembers when the packet just placed is expected at the far end.
    #[verifier::opaque]
    pub open spec fn tcp_noted(self, key: u128, index: usize, bytes: usize, now: u64) -> SchedulerView {
        if self.tcp_flows.contains_key(key) {
            let flow: TcpFlow = self.tcp_flows[key];
            self.set_flow(
                key,
                TcpFlow {
                    last_arrival: flow.last_arrival.max(
                        Binary64::whole(now).plus(
                            self.paths[index as int].tcp_forward_ms(now, bytes),
                        ),
                    ),
                    touched: now,
                    ..flow
                },
            )
        } else {
            self
        }
    }

    /// The flow that a packet belongs to: by its own header, or by the first
    /// fragment of its datagram.
    pub open spec fn logical_flow(self, ip: Seq<u8>) -> Option<u128> {
        match packet::spec_udp_tuple_key(ip) {
            Some(tuple) => Some(tuple),
            None => match packet::spec_udp_fragment_key(ip) {
                Some(fragment) => if self.fragment_flows.contains_key(fragment) {
                    Some(self.fragment_flows[fragment].flow)
                } else {
                    None
                },
                None => None,
            },
        }
    }

    /// State, flow and whether it is SRT. A control packet makes the whole
    /// flow SRT; fragments inherit the flow of their first one.
    #[verifier::opaque]
    pub open spec fn classified(self, ip: Seq<u8>, now: u64) -> (
        SchedulerView,
        Option<u128>,
        bool,
    ) {
        match self.logical_flow(ip) {
            None => (self, None, false),
            Some(flow) => {
                let noted: SchedulerView = match packet::spec_udp_fragment_key(ip) {
                    Some(fragment) => SchedulerView {
                        fragment_flows: self.fragment_flows.insert(
                            fragment,
                            FragmentFlow { flow, seen: now },
                        ),
                        ..self
                    },
                    None => self,
                };
                let srt: bool = packet::spec_srt_control_packet(ip)
                    || self.srt_flows.contains_key(flow);
                (
                    SchedulerView {
                        srt_flows: if srt {
                            self.srt_flows.insert(flow, now)
                        } else {
                            self.srt_flows
                        },
                        ..noted
                    },
                    Some(flow),
                    srt,
                )
            },
        }
    }
}

fn prefer(list: Vec<usize>, flags: &Vec<bool>) -> (r: Vec<usize>)
    requires
        placement::within(list@, flags@.len()),
    ensures
        r@ == preferred(list@, flags@),
        placement::within(r@, flags@.len()),
{
    let some: Vec<usize> = placement::keep(&list, flags);
    if some.len() > 0 {
        some
    } else {
        list
    }
}

impl Scheduler {
    pub fn data_paths(&self, now: u64) -> (r: Vec<usize>)
        ensures
            r@ == self@.data_paths(now),
            placement::within(r@, self@.n()),
    {
        proof {
            reveal(SchedulerView::data_paths);
        }
        let n: usize = self.paths.len();
        let mut ready: Vec<bool> = Vec::new();
        let mut fresh: Vec<bool> = Vec::new();
        let mut unmetered: Vec<bool> = Vec::new();
        let mut costs: Vec<Binary64> = Vec::new();
        let mut i: usize = 0;
        while i < n
            invariant
                i <= n == self.paths@.len(),
                ready@ =~= ready_flags(self.paths@, now).take(i as int),
                fresh@ =~= fresh_flags(self.paths@, now).take(i as int),
                unmetered@ =~= unmetered_flags(self.paths@).take(i as int),
                costs@ =~= delay_costs(self.paths@).take(i as int),
            decreases n - i,
        {
            let p: Path = self.paths[i];
            ready.push(p.ready(now));
            fresh.push(p.recently_responding(now));
            unmetered.push(!p.metered);
            costs.push(p.rtt_ms.unwrap_or(path::unknown_delay()));
            i = i + 1;
        }
        assert(ready@ =~= ready_flags(self.paths@, now));
        assert(fresh@ =~= fresh_flags(self.paths@, now));
        assert(unmetered@ =~= unmetered_flags(self.paths@));
        assert(costs@ =~= delay_costs(self.paths@));
        let usable: Vec<usize> = placement::keep(&placement::all_below(n), &ready);
        let near: Vec<usize> = placement::order(&prefer(usable, &fresh), &costs);
        match self.policy {
            Policy::DataSaver => prefer(near, &unmetered),
            _ => near,
        }
    }

    fn budgets(&self, bytes: usize, interactive: bool, now: u64) -> (r: Vec<bool>)
        ensures
            r@ == budget_flags(self@.paths, bytes, interactive, now),
    {
        let mut flags: Vec<bool> = Vec::new();
        let mut i: usize = 0;
        while i < self.paths.len()
            invariant
                i <= self.paths@.len(),
                flags@ =~= budget_flags(self.paths@, bytes, interactive, now).take(i as int),
            decreases self.paths@.len() - i,
        {
            flags.push(self.paths[i].send_budget_allows(bytes, interactive, now));
            i = i + 1;
        }
        assert(flags@ =~= budget_flags(self.paths@, bytes, interactive, now));
        flags
    }

    pub fn placement_paths(&self, interactive: bool, now: u64) -> (r: Vec<usize>)
        ensures
            r@ == self@.placement_paths(interactive, now),
            placement::within(r@, self@.n()),
    {
        proof {
            reveal(SchedulerView::placement_paths);
        }
        let mut ready: Vec<usize> = self.data_paths(now);
        if !interactive {
            return ready;
        }
        let mut flags: Vec<bool> = Vec::new();
        let mut i: usize = 0;
        while i < self.paths.len()
            invariant
                i <= self.paths@.len(),
                flags@ =~= low_delay_flags(self.paths@).take(i as int),
            decreases self.paths@.len() - i,
        {
            flags.push(!self.paths[i].latency_excluded);
            i = i + 1;
        }
        assert(flags@ =~= low_delay_flags(self.paths@));
        let low: Vec<usize> = placement::keep(&ready, &flags);
        if low.len() > 0 {
            return low;
        }
        if ready.len() > 1 {
            ready.truncate(1);
            assert(ready@ =~= self@.data_paths(now).take(1));
        }
        ready
    }

    fn weight(&self, name: &String) -> (r: u32)
        ensures
            r == advised_weight(self@.advice, name@, 0),
    {
        let mut i: usize = 0;
        while i < self.realtime_advice.len()
            invariant
                i <= self.realtime_advice@.len(),
                advised_weight(self@.advice, name@, i as int) == advised_weight(
                    self@.advice,
                    name@,
                    0,
                ),
            decreases self.realtime_advice@.len() - i,
        {
            if self.realtime_advice[i].0 == *name {
                let weight: u32 = self.realtime_advice[i].1;
                return if weight < 1 {
                    1
                } else if weight > 64 {
                    64
                } else {
                    weight
                };
            }
            i = i + 1;
        }
        16
    }

    pub fn targets(&self, bytes: usize, interactive: bool, now: u64) -> (r: Vec<usize>)
        requires
            self.sound(),
        ensures
            r@ == self@.targets(bytes, interactive, now),
            placement::within(r@, self@.n()),
    {
        proof {
            reveal(SchedulerView::targets);
        }
        let open: Vec<usize> = placement::keep(
            &self.placement_paths(interactive, now),
            &self.budgets(bytes, interactive, now),
        );
        let mut costs: Vec<Binary64> = Vec::new();
        let mut i: usize = 0;
        if !interactive {
            while i < self.paths.len()
                invariant
                    i <= self.paths@.len(),
                    costs@ =~= bulk_costs(self.paths@, bytes).take(i as int),
                decreases self.paths@.len() - i,
            {
                let p: Path = self.paths[i];
                costs.push(
                    p.rtt_or(30).over(Binary64::whole(2)).plus(
                        Binary64::whole(p.in_flight.wrapping_add(bytes) as u64).over(
                            p.estimated_bytes_per_ms(),
                        ),
                    ),
                );
                i = i + 1;
            }
            assert(costs@ =~= bulk_costs(self.paths@, bytes));
            placement::order(&open, &costs)
        } else if now < self.advice_until {
            while i < self.paths.len()
                invariant
                    self.sound(),
                    i <= self.paths@.len(),
                    costs@ =~= advised_costs(self.paths@, self@.names, self@.advice).take(
                        i as int,
                    ),
                decreases self.paths@.len() - i,
            {
                let p: Path = self.paths[i];
                let weight: u32 = self.weight(&self.names[i]);
                costs.push(
                    p.rtt_or(30).plus(Binary64::whole(4).times(p.jitter_ms)).over(
                        Binary64::whole(weight as u64).over(Binary64::whole(16)).sqrt().clamp(
                            Binary64::ratio(1, 2),
                            Binary64::whole(2),
                        ),
                    ),
                );
                i = i + 1;
            }
            assert(costs@ =~= advised_costs(self.paths@, self@.names, self@.advice));
            placement::order(&open, &costs)
        } else {
            open
        }
    }

    /// A backup may be slower than the cutoff for calls; liveness, window and
    /// pacing still count.
    pub fn udp_protection_targets(&self, bytes: usize, now: u64) -> (r: Vec<usize>)
        ensures
            r@ == self@.udp_protection_targets(bytes, now),
            placement::within(r@, self@.n()),
    {
        proof {
            reveal(SchedulerView::udp_protection_targets);
        }
        let mut flags: Vec<bool> = Vec::new();
        let mut i: usize = 0;
        while i < self.paths.len()
            invariant
                i <= self.paths@.len(),
                flags@ =~= protection_flags(self.paths@, bytes, now).take(i as int),
            decreases self.paths@.len() - i,
        {
            let p: Path = self.paths[i];
            flags.push(p.in_flight.wrapping_add(bytes) <= p.congestion_window && p.paced(now));
            i = i + 1;
        }
        assert(flags@ =~= protection_flags(self.paths@, bytes, now));
        placement::keep(&self.data_paths(now), &flags)
    }

    pub fn tcp_protection_targets(&self, bytes: usize, now: u64) -> (r: Vec<usize>)
        ensures
            r@ == self@.tcp_protection_targets(bytes, now),
            placement::within(r@, self@.n()),
    {
        proof {
            reveal(SchedulerView::tcp_protection_targets);
        }
        placement::keep(&self.data_paths(now), &self.budgets(bytes, false, now))
    }

    /// Three notices of every failed path on every live one. Without the
    /// peer's consent they are dropped; without a survivor they wait.
    pub fn path_failure_notices(&mut self, negotiated: bool, now: u64) -> (r: Vec<Frame>)
        requires
            old(self).wf(),
        ensures
            final(self).wf(),
            final(self)@ == old(self)@.announced(negotiated, now).0,
            frame::frame_views(r@) == old(self)@.announced(negotiated, now).1,
    {
        let ghost before: SchedulerView = self@;
        let mut output: Vec<Frame> = Vec::new();
        assert(frame::frame_views(output@) =~= Seq::empty());
        let survivors: Vec<usize> = self.data_paths(now);
        if negotiated && survivors.len() == 0 {
            return output;
        }
        let n: usize = self.paths.len();
        let mut cleared: Vec<bool> = Vec::new();
        let mut i: usize = 0;
        while i < n
            invariant
                i <= n == before.n(),
                self@ == before,
                self.wf(),
                survivors@ == before.data_paths(now),
                cleared@ =~= no_notices(i as nat),
                negotiated ==> frame::frame_views(output@) == notice_frames(
                    before.notices,
                    survivors@,
                    now,
                    i as nat,
                ),
                !negotiated ==> frame::frame_views(output@) =~= Seq::<FrameView>::empty(),
            decreases n - i,
        {
            if negotiated && self.notices[i] {
                let ghost done: Seq<FrameView> = frame::frame_views(output@);
                let mut j: usize = 0;
                while j < survivors.len()
                    invariant
                        j <= survivors@.len(),
                        frame::frame_views(output@) =~= done + survivor_notices(
                            survivors@,
                            i as int,
                            now,
                            j as nat,
                        ),
                    decreases survivors@.len() - j,
                {
                    let ghost current: Seq<FrameView> = frame::frame_views(output@);
                    #[verifier::truncate]
                    let number: u8 = survivors[j] as u8;
                    output.push(Frame::control(Kind::PathDown, number, i as u64, now));
                    output.push(Frame::control(Kind::PathDown, number, i as u64, now));
                    output.push(Frame::control(Kind::PathDown, number, i as u64, now));
                    proof {
                        let notice: FrameView = frame::spec_control(
                            Kind::PathDown,
                            number,
                            i as u64,
                            now,
                        );
                        assert(frame::frame_views(output@) =~= current.push(notice).push(
                            notice,
                        ).push(notice));
                    }
                    j = j + 1;
                }
            }
            cleared.push(false);
            i = i + 1;
        }
        self.notices = cleared;
        if negotiated {
            self.counters.path_down_notices_sent =
            self.counters.path_down_notices_sent.wrapping_add(output.len() as u64);
        }
        assert(self@ =~= before.announced(negotiated, now).0);
        output
    }

    /// Takes the tokens for a copy of a TCP packet, if there are enough.
    pub(crate) fn reserve_tcp_continuity(&mut self, bytes: usize, now: u64) -> (r: bool)
        requires
            old(self).sound(),
        ensures
            final(self).sound(),
            final(self)@ == old(self)@.reserved(bytes, now).0,
            same_work(old(self)@, final(self)@),
            r == old(self)@.reserved(bytes, now).1,
    {
        proof {
            reveal(SchedulerView::reserved);
        }
        let ghost before: SchedulerView = self@;
        let elapsed: u64 = now.saturating_sub(self.tcp_continuity_refill_at);
        let earned: u64 = bounded_mul(elapsed, TCP_CONTINUITY_BYTES_PER_MS);
        self.tcp_continuity_tokens = path::smaller(
            self.tcp_continuity_tokens.saturating_add(earned),
            TCP_CONTINUITY_BURST_BYTES,
        );
        self.tcp_continuity_refill_at = now;
        if self.tcp_continuity_tokens < bytes as u64 {
            assert(self@ =~= before.reserved(bytes, now).0);
            return false;
        }
        self.tcp_continuity_tokens = self.tcp_continuity_tokens - bytes as u64;
        assert(self@ =~= before.reserved(bytes, now).0);
        true
    }

    pub(crate) fn tcp_target(&mut self, key: u128, bytes: usize, backlog: usize, now: u64) -> (r: Option<
        usize,
    >)
        requires
            old(self).sound(),
        ensures
            final(self).sound(),
            final(self)@ == old(self)@.tcp_placed(key, bytes, backlog, now).0,
            same_work(old(self)@, final(self)@),
            r == old(self)@.tcp_placed(key, bytes, backlog, now).1,
            flight::path_within(r, old(self)@.n()),
    {
        proof {
            reveal(SchedulerView::tcp_placed);
        }
        let ghost before: SchedulerView = self@;
        let all: Vec<usize> = self.data_paths(now);
        let open: Vec<usize> = placement::keep(&all, &self.budgets(bytes, false, now));
        let mut costs: Vec<Binary64> = Vec::new();
        let mut i: usize = 0;
        while i < self.paths.len()
            invariant
                i <= self.paths@.len(),
                costs@ =~= tcp_costs(self.paths@, bytes, now).take(i as int),
            decreases self.paths@.len() - i,
        {
            let p: Path = self.paths[i];
            costs.push(
                p.tcp_forward_ms(now, bytes).plus(
                    Binary64::whole(p.in_flight as u64).over(p.tcp_bytes_per_ms(now)),
                ),
            );
            i = i + 1;
        }
        assert(costs@ =~= tcp_costs(self.paths@, bytes, now));
        let candidate: usize = match placement::cheapest_of(&open, &costs) {
            Some(candidate) => candidate,
            None => {
                return None;
            },
        };
        let known: Option<TcpFlow> = self.tcp_flows.get(key);
        if known.is_none() && self.tcp_flows.len() >= MAX_FLOW_PINS {
            return Some(candidate);
        }
        proof {
            placement::lemma_kept(
                all@,
                budget_flags(self.paths@, bytes, false, now),
                self.paths@.len(),
            );
            placement::lemma_cheapest(open@, costs@, self.paths@.len());
        }
        let fast: usize = all[0];
        let mut flow: TcpFlow = match known {
            Some(flow) => flow,
            None => TcpFlow { waiting_since: None, last_arrival: path::zero(), touched: 0 },
        };
        flow.touched = now;
        let p: Path = self.paths[fast];
        let fast_finish: Binary64 = Binary64::whole(now).plus(
            p.tcp_send_wait_ms(bytes, now),
        ).plus(p.tcp_forward_ms(now, bytes)).max(flow.last_arrival).plus(
            Binary64::whole(backlog.saturating_sub(bytes) as u64).over(p.tcp_bytes_per_ms(now)),
        );
        let slow_arrival: Binary64 = Binary64::whole(now).plus(
            self.paths[candidate].tcp_forward_ms(now, bytes),
        ).max(flow.last_arrival);
        if candidate != fast && fast_finish.plus(Binary64::ratio(1, 4)).lt(slow_arrival) {
            if p.send_budget_allows(bytes, false, now) {
                flow.waiting_since = None;
                self.tcp_flows.insert(key, flow);
                assert(self@ =~= before.tcp_placed(key, bytes, backlog, now).0);
                return Some(fast);
            }
            let since: u64 = flow.waiting_since.unwrap_or(now);
            let limit: u64 = p.rtt_or(20).ceil().clamp(
                Binary64::whole(2),
                Binary64::whole(20),
            ).floor_u64();
            if now.saturating_sub(since) < limit {
                flow.waiting_since = Some(since);
                self.tcp_flows.insert(key, flow);
                self.counters.tcp_path_waits = self.counters.tcp_path_waits.wrapping_add(1);
                assert(self@ =~= before.tcp_placed(key, bytes, backlog, now).0);
                return None;
            }
            self.counters.tcp_bounded_wait_fallbacks =
            self.counters.tcp_bounded_wait_fallbacks.wrapping_add(1);
        }
        flow.waiting_since = None;
        self.tcp_flows.insert(key, flow);
        assert(self@ =~= before.tcp_placed(key, bytes, backlog, now).0);
        Some(candidate)
    }

    pub(crate) fn note_tcp_placement(&mut self, key: u128, index: usize, bytes: usize, now: u64)
        requires
            old(self).sound(),
            index < old(self)@.n(),
        ensures
            final(self).sound(),
            final(self)@ == old(self)@.tcp_noted(key, index, bytes, now),
            same_work(old(self)@, final(self)@),
    {
        proof {
            reveal(SchedulerView::tcp_noted);
        }
        let ghost before: SchedulerView = self@;
        match self.tcp_flows.get(key) {
            Some(found) => {
                let mut flow: TcpFlow = found;
                flow.last_arrival = flow.last_arrival.max(
                    Binary64::whole(now).plus(self.paths[index].tcp_forward_ms(now, bytes)),
                );
                flow.touched = now;
                self.tcp_flows.insert(key, flow);
            },
            None => {},
        }
        assert(self@ =~= before.tcp_noted(key, index, bytes, now));
    }

    pub fn classify_udp_flow(&mut self, ip: &[u8], now: u64) -> (r: (Option<u128>, bool))
        requires
            old(self).sound(),
        ensures
            final(self).sound(),
            final(self)@ == old(self)@.classified(ip@, now).0,
            same_work(old(self)@, final(self)@),
            old(self).wf() ==> final(self).wf(),
            r.0 == old(self)@.classified(ip@, now).1,
            r.1 == old(self)@.classified(ip@, now).2,
    {
        proof {
            reveal(SchedulerView::classified);
        }
        let ghost before: SchedulerView = self@;
        let fragment: Option<u128> = packet::udp_fragment_key(ip);
        let logical: Option<u128> = match packet::udp_tuple_key(ip) {
            Some(tuple) => Some(tuple),
            None => match fragment {
                Some(key) => match self.fragment_flows.get(key) {
                    Some(known) => Some(known.flow),
                    None => None,
                },
                None => None,
            },
        };
        let flow: u128 = match logical {
            Some(flow) => flow,
            None => {
                return (None, false);
            },
        };
        match fragment {
            Some(key) => {
                self.fragment_flows.insert(key, FragmentFlow { flow, seen: now });
            },
            None => {},
        }
        let srt: bool = packet::is_srt_control_packet(ip) || self.srt_flows.contains(flow);
        if srt {
            self.srt_flows.insert(flow, now);
        }
        assert(self@ =~= before.classified(ip@, now).0);
        (Some(flow), srt)
    }
}

} // verus!
