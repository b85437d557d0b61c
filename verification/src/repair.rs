//! The first half of a scheduling turn: upkeep, probes, and new copies of
//! packets that were lost, delayed or left without protection.
use crate::binary64::Binary64;
use crate::bond;
use crate::bond::{
    Counters, FlowPin, FragmentFlow, Policy, Scheduler, SchedulerView, TcpFlow,
    FRAGMENT_FLOW_TTL_MS, PACKET_TTL_MS, SRT_FLOW_TTL_MS, TCP_FLOW_TTL_MS, TURN_REPAIRS,
    UDP_FLOW_TTL_MS,
};
use crate::flight;
use crate::flight::{Attempt, Pending, PendingView, RecentAttempt};
use crate::frame;
use crate::frame::{Frame, FrameView, Kind};
use crate::packet;
use crate::path;
use crate::path::{Path, PathState, PROBE_MS};
use crate::placement;
use crate::table;
use vstd::prelude::*;

verus! {

// ---- Upkeep ------------------------------------------------------------------

/// A path that has not answered for its failure time.
pub open spec fn silent(p: Path, now: u64) -> bool {
    match p.last_response {
        Some(last) => now.saturating_sub(last) > p.failure_ms(),
        None => false,
    }
}

pub open spec fn pin_kept(key: u128, pin: FlowPin, now: u64) -> bool {
    now.saturating_sub(pin.seen) < if key % 2 == 1 {
        PACKET_TTL_MS
    } else {
        UDP_FLOW_TTL_MS
    }
}

/// Probes for the enabled paths among the first `n`.
pub open spec fn probe_frames(paths: Seq<Path>, now: u64, n: nat) -> Seq<FrameView>
    decreases n,
{
    if n == 0 {
        Seq::empty()
    } else {
        let before: Seq<FrameView> = probe_frames(paths, now, (n - 1) as nat);
        if paths[n - 1].enabled {
            before.push(frame::spec_control(Kind::Probe, paths[n - 1].id, now, now))
        } else {
            before
        }
    }
}

impl SchedulerView {
    pub open spec fn recent_expired(self, now: u64) -> SchedulerView {
        SchedulerView {
            recent: table::retained(
                self.recent,
                |k: u128, attempt: RecentAttempt| now <= attempt.expires,
            ),
            ..self
        }
    }

    /// Failure of the silent paths among the first `n`.
    pub open spec fn silent_failed(self, now: u64, n: nat) -> SchedulerView
        decreases n,
    {
        if n == 0 {
            self
        } else {
            let before: SchedulerView = self.silent_failed(now, (n - 1) as nat);
            if silent(before.paths[n - 1], now) {
                before.path_failed(n - 1, true)
            } else {
                before
            }
        }
    }

    /// Flows forgotten that were not seen for long. Looked at once a second.
    pub open spec fn pruned(self, now: u64) -> SchedulerView {
        if now.saturating_sub(self.last_prune) < 1000 {
            self
        } else {
            SchedulerView {
                last_prune: now,
                flow_paths: table::retained(
                    self.flow_paths,
                    |k: u128, pin: FlowPin| pin_kept(k, pin, now),
                ),
                srt_flows: table::retained(
                    self.srt_flows,
                    |k: u128, seen: u64| now.saturating_sub(seen) < SRT_FLOW_TTL_MS,
                ),
                fragment_flows: table::retained(
                    self.fragment_flows,
                    |k: u128, f: FragmentFlow| now.saturating_sub(f.seen) < FRAGMENT_FLOW_TTL_MS,
                ),
                tcp_flows: table::retained(
                    self.tcp_flows,
                    |k: u128, f: TcpFlow| now.saturating_sub(f.touched) < TCP_FLOW_TTL_MS,
                ),
                ..self
            }
        }
    }

    pub open spec fn probe_due(self, now: u64) -> bool {
        match self.last_probe {
            Some(last) => now.saturating_sub(last) >= PROBE_MS,
            None => true,
        }
    }

    pub open spec fn probed(self, now: u64) -> (SchedulerView, Seq<FrameView>) {
        if self.probe_due(now) {
            (
                SchedulerView { last_probe: Some(now), ..self },
                probe_frames(self.paths, now, self.n()),
            )
        } else {
            (self, Seq::empty())
        }
    }

    /// The state in which a turn begins, and the probes it sends.
    pub open spec fn begun(self, now: u64) -> (SchedulerView, Seq<FrameView>) {
        let s: SchedulerView = self.recent_expired(now);
        s.silent_failed(now, s.n()).pruned(now).probed(now)
    }

    /// A packet given up.
    pub open spec fn packet_expired(self, at: int) -> SchedulerView {
        let packet: PendingView = self.pending[at];
        SchedulerView {
            paths: bond::released(
                self.paths,
                packet.attempts,
                packet.body.len() as usize,
                packet.attempts.len(),
            ),
            pending: self.pending.remove(at),
            counters: Counters {
                expired_packets: self.counters.expired_packets.wrapping_add(1),
                ..self.counters
            },
            ..self
        }
    }

    pub open spec fn with_packet(self, at: int, packet: PendingView) -> SchedulerView {
        SchedulerView { pending: self.pending.update(at, packet), ..self }
    }

    // -- Repairs on evidence -----------------------------------------------------

    /// Packets with evidence of loss on a path that may send now, among the
    /// first `n`; at most one turn's worth.
    pub open spec fn fast_due(self, data: Seq<usize>, now: u64, n: nat) -> Seq<(u64, usize)>
        decreases n,
    {
        if n == 0 {
            Seq::empty()
        } else {
            let before: Seq<(u64, usize)> = self.fast_due(data, now, (n - 1) as nat);
            match self.pending[n - 1].fast_repair_path {
                Some(index) => if before.len() < TURN_REPAIRS && data.contains(index)
                    && self.paths[index as int].paced(now) {
                    before.push((self.pending[n - 1].id, index))
                } else {
                    before
                },
                None => before,
            }
        }
    }
}

/// The packet with its evidence of loss cleared.
pub open spec fn evidence_cleared(packet: PendingView) -> PendingView {
    PendingView {
        fast_repair_path: None,
        attempts: packet.attempts.map_values(|a: Attempt| Attempt { evidence: 0, ..a }),
        ..packet
    }
}

impl SchedulerView {
    /// A second copy on the path that lost the first.
    pub open spec fn fast_repaired(self, id: u64, index: usize, now: u64) -> (
        SchedulerView,
        Seq<FrameView>,
    ) {
        let at: int = bond::pending_slot(self.pending, id, 0);
        if !bond::is_pending(self.pending, id) {
            (self, Seq::empty())
        } else if now.saturating_sub(self.pending[at].born) > PACKET_TTL_MS {
            (self.packet_expired(at), Seq::empty())
        } else {
            let cleared: PendingView = evidence_cleared(self.pending[at]);
            let paths: Seq<Path> = self.paths.update(
                index as int,
                self.paths[index as int].repair_timed_out(now, true),
            );
            let sent: PendingView = cleared.sent(index, paths[index as int].generation, now);
            (
                SchedulerView {
                    paths: paths.update(
                        index as int,
                        flight::path_after_send(paths, cleared, index, now),
                    ),
                    pending: self.pending.update(
                        at,
                        PendingView { last_repair: now, repaired: true, ..sent },
                    ),
                    counters: Counters {
                        repairs: self.counters.repairs.wrapping_add(1),
                        tcp_same_path_repairs: self.counters.tcp_same_path_repairs.wrapping_add(1),
                        tcp_fast_ack_repairs: self.counters.tcp_fast_ack_repairs.wrapping_add(1),
                        ..self.counters
                    },
                    ..self
                },
                seq![cleared.data_frame(index, now)],
            )
        }
    }

    pub open spec fn all_fast_repaired(self, due: Seq<(u64, usize)>, now: u64) -> (
        SchedulerView,
        Seq<FrameView>,
    )
        decreases due.len(),
    {
        if due.len() == 0 {
            (self, Seq::empty())
        } else {
            let before: (SchedulerView, Seq<FrameView>) = self.all_fast_repaired(
                due.drop_last(),
                now,
            );
            let step: (SchedulerView, Seq<FrameView>) = before.0.fast_repaired(
                due.last().0,
                due.last().1,
                now,
            );
            (step.0, before.1 + step.1)
        }
    }

    // -- Protection that had to wait ----------------------------------------------

    /// Packets among the first `n` whose second copy waits for its path.
    pub open spec fn protection_waiting(self, n: nat) -> Seq<(u64, usize)>
        decreases n,
    {
        if n == 0 {
            Seq::empty()
        } else {
            let before: Seq<(u64, usize)> = self.protection_waiting((n - 1) as nat);
            match self.pending[n - 1].protection_path {
                Some(index) => before.push((self.pending[n - 1].id, index)),
                None => before,
            }
        }
    }

    /// Whether a waiting copy is no longer wanted.
    pub open spec fn protection_moot(self, packet: PendingView, index: usize, now: u64) -> bool {
        ||| self.policy == Policy::DataSaver
        ||| now.saturating_sub(packet.born) > PACKET_TTL_MS
        ||| flight::current_on(self.paths, packet.attempts, index)
        ||| flight::current_count(self.paths, packet.attempts, packet.attempts.len()) >= 2
        ||| !self.paths[index as int].enabled
        ||| self.paths[index as int].state == PathState::Failed
        ||| self.paths[index as int].state == PathState::Removed
    }

    pub open spec fn protection_eligible(self, body: Seq<u8>, now: u64) -> Seq<usize> {
        let bytes: usize = body.len() as usize;
        if packet::spec_ipv4_udp(body) {
            self.udp_protection_targets(bytes, now)
        } else if packet::spec_ipv4_tcp(body) {
            self.tcp_protection_targets(bytes, now)
        } else {
            self.targets(bytes, true, now)
        }
    }
}

/// State, frames, paths that are blocked in this turn, and copies sent.
#[verifier::ext_equal]
pub struct ProtectionView {
    pub s: SchedulerView,
    pub out: Seq<FrameView>,
    pub blocked: Seq<usize>,
    pub sent: nat,
}

impl ProtectionView {
    /// One waiting copy. A path that cannot take one takes no later one either,
    /// so that copies keep their order on it.
    pub open spec fn protected(self, id: u64, index: usize, now: u64) -> ProtectionView {
        let s: SchedulerView = self.s;
        let at: int = bond::pending_slot(s.pending, id, 0);
        let packet: PendingView = s.pending[at];
        if self.sent >= TURN_REPAIRS || !bond::is_pending(s.pending, id) {
            self
        } else if s.protection_moot(packet, index, now) {
            ProtectionView {
                s: s.with_packet(at, PendingView { protection_path: None, ..packet }),
                ..self
            }
        } else if self.blocked.contains(index) {
            self
        } else if !s.protection_eligible(packet.body, now).contains(index) {
            ProtectionView { blocked: self.blocked.push(index), ..self }
        } else {
            ProtectionView {
                s: SchedulerView {
                    paths: s.paths.update(
                        index as int,
                        flight::path_after_send(s.paths, packet, index, now),
                    ),
                    pending: s.pending.update(
                        at,
                        packet.sent(index, s.paths[index as int].generation, now),
                    ),
                    counters: Counters {
                        protection_copies: s.counters.protection_copies.wrapping_add(1),
                        protection_deferred_sent: s.counters.protection_deferred_sent.wrapping_add(
                            1,
                        ),
                        ..s.counters
                    },
                    ..s
                },
                out: self.out.push(packet.data_frame(index, now)),
                sent: self.sent + 1,
                ..self
            }
        }
    }

    pub open spec fn all_protected(self, waiting: Seq<(u64, usize)>, now: u64) -> ProtectionView
        decreases waiting.len(),
    {
        if waiting.len() == 0 {
            self
        } else {
            self.all_protected(waiting.drop_last(), now).protected(
                waiting.last().0,
                waiting.last().1,
                now,
            )
        }
    }
}

// ---- Repairs by age ------------------------------------------------------------

/// A copy that no longer speaks against a repair: of an older incarnation, on
/// a path that gets no data, or past its repair time.
pub open spec fn overdue(paths: Seq<Path>, data: Seq<usize>, attempt: Attempt, now: u64) -> bool {
    ||| !flight::is_current(paths, attempt)
    ||| !data.contains(attempt.path)
    ||| now.saturating_sub(attempt.stamp) >= paths[attempt.path as int].repair_ms()
}

/// A copy that may still arrive on its own.
pub open spec fn live(paths: Seq<Path>, attempt: Attempt, now: u64) -> bool {
    &&& flight::is_current(paths, attempt)
    &&& paths[attempt.path as int].ready(now)
    &&& now.saturating_sub(attempt.stamp) < paths[attempt.path as int].repair_ms()
}

pub open spec fn all_overdue(
    paths: Seq<Path>,
    data: Seq<usize>,
    attempts: Seq<Attempt>,
    now: u64,
) -> bool {
    forall|i: int|
        0 <= i < attempts.len() ==> overdue(paths, data, #[trigger] attempts[i], now)
}

pub open spec fn any_live(paths: Seq<Path>, attempts: Seq<Attempt>, now: u64) -> bool {
    exists|i: int| 0 <= i < attempts.len() && live(paths, #[trigger] attempts[i], now)
}

/// A copy whose path is not ready, or has come back since.
pub open spec fn unavailable(paths: Seq<Path>, attempt: Attempt, now: u64) -> bool {
    !flight::is_current(paths, attempt) || !paths[attempt.path as int].ready(now)
}

pub open spec fn any_unavailable(paths: Seq<Path>, attempts: Seq<Attempt>, now: u64) -> bool {
    exists|i: int| 0 <= i < attempts.len() && unavailable(paths, #[trigger] attempts[i], now)
}

pub open spec fn unresponsive(paths: Seq<Path>, attempt: Attempt, now: u64) -> bool {
    !flight::is_current(paths, attempt) || !paths[attempt.path as int].recently_responding(now)
}

pub open spec fn any_unresponsive(paths: Seq<Path>, attempts: Seq<Attempt>, now: u64) -> bool {
    exists|i: int| 0 <= i < attempts.len() && unresponsive(paths, #[trigger] attempts[i], now)
}

impl SchedulerView {
    pub open spec fn repair_due(self, data: Seq<usize>, packet: PendingView, now: u64) -> bool {
        now.saturating_sub(packet.last_repair) >= 2 && all_overdue(
            self.paths,
            data,
            packet.attempts,
            now,
        )
    }

    /// The packets due for a repair among the first `n`, at most one turn's
    /// worth. A TCP packet with a copy that may still arrive waits; the first
    /// such wait is counted.
    pub open spec fn due_found(self, data: Seq<usize>, now: u64, n: nat) -> (
        SchedulerView,
        Seq<u64>,
    )
        decreases n,
    {
        if n == 0 {
            (self, Seq::empty())
        } else {
            let before: (SchedulerView, Seq<u64>) = self.due_found(data, now, (n - 1) as nat);
            let s: SchedulerView = before.0;
            let packet: PendingView = s.pending[n - 1];
            if before.1.len() >= TURN_REPAIRS || !s.repair_due(data, packet, now) {
                before
            } else if packet::spec_ipv4_tcp(packet.body) && any_live(
                s.paths,
                packet.attempts,
                now,
            ) {
                if packet.tcp_early_repair_deferred {
                    before
                } else {
                    (
                        SchedulerView {
                            counters: Counters {
                                tcp_early_repairs_deferred:
                                    s.counters.tcp_early_repairs_deferred.wrapping_add(1),
                                ..s.counters
                            },
                            ..s.with_packet(
                                n - 1,
                                PendingView { tcp_early_repair_deferred: true, ..packet },
                            )
                        },
                        before.1,
                    )
                }
            } else {
                (s, before.1.push(packet.id))
            }
        }
    }
}

/// Candidates together with the packet's own paths: a copy on these takes no
/// more room, so that a full window cannot hold up its own repair.
pub open spec fn with_own_paths(
    list: Seq<usize>,
    paths: Seq<Path>,
    attempts: Seq<Attempt>,
    data: Seq<usize>,
    now: u64,
    n: nat,
) -> Seq<usize>
    decreases n,
{
    if n == 0 {
        list
    } else {
        let before: Seq<usize> = with_own_paths(
            list,
            paths,
            attempts,
            data,
            now,
            (n - 1) as nat,
        );
        let attempt: Attempt = attempts[n - 1];
        if flight::is_current(paths, attempt) && data.contains(attempt.path)
            && paths[attempt.path as int].paced(now) && !before.contains(attempt.path) {
            before.push(attempt.path)
        } else {
            before
        }
    }
}

/// Whether the path already carries a repeated copy.
pub open spec fn repeated_on(paths: Seq<Path>, packet: PendingView, index: usize) -> bool {
    match flight::attempt_on(packet.attempts, index) {
        Some(attempt) => flight::is_current(paths, attempt) && attempt.stamp > packet.born,
        None => false,
    }
}

/// Cost of a TCP repair: its arrival, and a penalty where it was repeated.
pub open spec fn repair_cost(paths: Seq<Path>, packet: PendingView, index: int, now: u64) -> Binary64 {
    paths[index].tcp_forward_ms(now, packet.body.len() as usize).plus(
        if repeated_on(paths, packet, index as usize) {
            Binary64::whole(paths[index].repair_ms())
        } else {
            path::zero()
        },
    )
}

pub open spec fn repair_costs(paths: Seq<Path>, packet: PendingView, now: u64) -> Seq<Binary64> {
    Seq::new(paths.len(), |i: int| repair_cost(paths, packet, i, now))
}

/// First candidate from `i` on that does not carry the packet.
pub open spec fn first_unused(
    list: Seq<usize>,
    paths: Seq<Path>,
    attempts: Seq<Attempt>,
    i: int,
) -> Option<usize>
    decreases list.len() - i,
{
    if i >= list.len() {
        None
    } else if !flight::current_on(paths, attempts, list[i]) {
        Some(list[i])
    } else {
        first_unused(list, paths, attempts, i + 1)
    }
}

/// Whether the copy on a path is past its repair time.
pub open spec fn repeatable(
    paths: Seq<Path>,
    attempts: Seq<Attempt>,
    index: usize,
    now: u64,
) -> bool {
    match flight::attempt_on(attempts, index) {
        Some(attempt) => flight::is_current(paths, attempt) && now.saturating_sub(attempt.stamp)
            >= paths[index as int].repair_ms(),
        None => false,
    }
}

/// Where a repair goes: TCP takes the earliest arrival; other traffic prefers
/// a path that does not carry the packet yet.
pub open spec fn repair_target(
    list: Seq<usize>,
    paths: Seq<Path>,
    packet: PendingView,
    now: u64,
) -> Option<usize> {
    if packet::spec_ipv4_tcp(packet.body) {
        placement::cheapest(list, repair_costs(paths, packet, now))
    } else {
        match first_unused(list, paths, packet.attempts, 0) {
            Some(index) => Some(index),
            None => if list.len() > 0 && repeatable(paths, packet.attempts, list[0], now) {
                Some(list[0])
            } else {
                None
            },
        }
    }
}

/// The paths after the loss was held against the first `n` copies. Where some
/// copy is on a path that does not answer, only such paths are charged.
pub open spec fn penalised(
    paths: Seq<Path>,
    attempts: Seq<Attempt>,
    some_unresponsive: bool,
    redundant_loss: bool,
    now: u64,
    n: nat,
) -> Seq<Path>
    decreases n,
{
    if n == 0 {
        paths
    } else {
        let before: Seq<Path> = penalised(
            paths,
            attempts,
            some_unresponsive,
            redundant_loss,
            now,
            (n - 1) as nat,
        );
        let attempt: Attempt = attempts[n - 1];
        let index: int = attempt.path as int;
        if flight::is_current(before, attempt) {
            let mute: bool = !before[index].recently_responding(now);
            if !some_unresponsive || mute {
                before.update(index, before[index].repair_timed_out(now, mute || redundant_loss))
            } else {
                before
            }
        } else {
            before
        }
    }
}

impl SchedulerView {
    pub open spec fn repair_candidates(self, packet: PendingView, data: Seq<usize>, now: u64) -> Seq<
        usize,
    > {
        with_own_paths(
            self.targets(
                packet.body.len() as usize,
                packet::spec_interactive(packet.body) || packet::spec_streaming(packet.body),
                now,
            ),
            self.paths,
            packet.attempts,
            data,
            now,
            packet.attempts.len(),
        )
    }

    pub open spec fn repair_counted(self, packet: PendingView, target: usize, now: u64) -> Counters {
        let c: Counters = self.counters;
        let tcp: bool = packet::spec_ipv4_tcp(packet.body);
        let missing: bool = tcp && any_unavailable(self.paths, packet.attempts, now);
        let same: bool = tcp && flight::current_on(self.paths, packet.attempts, target);
        Counters {
            tcp_unavailable_path_repairs: if missing {
                c.tcp_unavailable_path_repairs.wrapping_add(1)
            } else {
                c.tcp_unavailable_path_repairs
            },
            tcp_deadline_repairs: if tcp && !missing {
                c.tcp_deadline_repairs.wrapping_add(1)
            } else {
                c.tcp_deadline_repairs
            },
            tcp_same_path_repairs: if same {
                c.tcp_same_path_repairs.wrapping_add(1)
            } else {
                c.tcp_same_path_repairs
            },
            repairs: c.repairs.wrapping_add(1),
            ..c
        }
    }

    /// The paths after the packet's loss was held against them.
    pub open spec fn loss_noted(self, packet: PendingView, now: u64) -> Seq<Path> {
        let some: bool = any_unresponsive(self.paths, packet.attempts, now);
        let redundant: bool = !some && flight::current_count(
            self.paths,
            packet.attempts,
            packet.attempts.len(),
        ) > 1;
        penalised(self.paths, packet.attempts, some, redundant, now, packet.attempts.len())
    }

    pub open spec fn repaired(self, id: u64, data: Seq<usize>, now: u64) -> (
        SchedulerView,
        Seq<FrameView>,
    ) {
        let at: int = bond::pending_slot(self.pending, id, 0);
        let packet: PendingView = self.pending[at];
        if !bond::is_pending(self.pending, id) {
            (self, Seq::empty())
        } else if now.saturating_sub(packet.born) > PACKET_TTL_MS {
            (self.packet_expired(at), Seq::empty())
        } else {
            let list: Seq<usize> = self.repair_candidates(packet, data, now);
            match repair_target(list, self.paths, packet, now) {
                None => (
                    self.with_packet(at, PendingView { last_repair: now, ..packet }),
                    Seq::empty(),
                ),
                Some(target) => {
                    let paths: Seq<Path> = self.loss_noted(packet, now);
                    let sent: PendingView = packet.sent(
                        target,
                        paths[target as int].generation,
                        now,
                    );
                    (
                        SchedulerView {
                            paths: paths.update(
                                target as int,
                                flight::path_after_send(paths, packet, target, now),
                            ),
                            pending: self.pending.update(
                                at,
                                PendingView { last_repair: now, repaired: true, ..sent },
                            ),
                            counters: self.repair_counted(packet, target, now),
                            ..self
                        },
                        seq![packet.data_frame(target, now)],
                    )
                },
            }
        }
    }

    pub open spec fn all_repaired(self, due: Seq<u64>, data: Seq<usize>, now: u64) -> (
        SchedulerView,
        Seq<FrameView>,
    )
        decreases due.len(),
    {
        if due.len() == 0 {
            (self, Seq::empty())
        } else {
            let before: (SchedulerView, Seq<FrameView>) = self.all_repaired(
                due.drop_last(),
                data,
                now,
            );
            let step: (SchedulerView, Seq<FrameView>) = before.0.repaired(due.last(), data, now);
            (step.0, before.1 + step.1)
        }
    }
}

// ---- Execution -----------------------------------------------------------------

impl Scheduler {
    fn expire_recent(&mut self, now: u64)
        requires
            old(self).sound(),
        ensures
            final(self).sound(),
            final(self)@ == old(self)@.recent_expired(now),
    {
        let ghost before: SchedulerView = self@;
        let fresh = |k: u128, attempt: &RecentAttempt| -> (keep: bool)
            ensures
                keep == (now <= attempt.expires),
        {
            now <= attempt.expires
        };
        self.recent_attempts.retain(
            fresh,
            Ghost(|k: u128, attempt: RecentAttempt| now <= attempt.expires),
        );
        assert(self@ =~= before.recent_expired(now));
    }

    fn fail_silent(&mut self, now: u64)
        requires
            old(self).sound(),
        ensures
            final(self).sound(),
            final(self)@ == old(self)@.silent_failed(now, old(self)@.n()),
            final(self)@.n() == old(self)@.n(),
            final(self)@.names == old(self)@.names,
    {
        let ghost before: SchedulerView = self@;
        let n: usize = self.paths.len();
        let mut i: usize = 0;
        while i < n
            invariant
                self.sound(),
                i <= n == before.n(),
                self@.n() == n,
                self@.names == before.names,
                self@ == before.silent_failed(now, i as nat),
            decreases n - i,
        {
            let p: Path = self.paths[i];
            let quiet: bool = match p.last_response {
                Some(last) => now.saturating_sub(last) > p.failure_ms(),
                None => false,
            };
            if quiet {
                self.mark_path_failed(i, true);
            }
            i = i + 1;
        }
    }

    fn prune_flows(&mut self, now: u64)
        requires
            old(self).sound(),
        ensures
            final(self).sound(),
            final(self)@ == old(self)@.pruned(now),
            final(self)@.n() == old(self)@.n(),
            final(self)@.names == old(self)@.names,
    {
        if now.saturating_sub(self.last_flow_prune) < 1000 {
            return;
        }
        let ghost before: SchedulerView = self@;
        self.last_flow_prune = now;
        let pinned = |k: u128, pin: &FlowPin| -> (keep: bool)
            ensures
                keep == pin_kept(k, *pin, now),
        {
            now.saturating_sub(pin.seen) < if k % 2 == 1 {
                PACKET_TTL_MS
            } else {
                UDP_FLOW_TTL_MS
            }
        };
        self.flow_paths.retain(pinned, Ghost(|k: u128, pin: FlowPin| pin_kept(k, pin, now)));
        let srt = |k: u128, seen: &u64| -> (keep: bool)
            ensures
                keep == (now.saturating_sub(*seen) < SRT_FLOW_TTL_MS),
        {
            now.saturating_sub(*seen) < SRT_FLOW_TTL_MS
        };
        self.srt_flows.retain(
            srt,
            Ghost(|k: u128, seen: u64| now.saturating_sub(seen) < SRT_FLOW_TTL_MS),
        );
        let fragment = |k: u128, f: &FragmentFlow| -> (keep: bool)
            ensures
                keep == (now.saturating_sub(f.seen) < FRAGMENT_FLOW_TTL_MS),
        {
            now.saturating_sub(f.seen) < FRAGMENT_FLOW_TTL_MS
        };
        self.fragment_flows.retain(
            fragment,
            Ghost(|k: u128, f: FragmentFlow| now.saturating_sub(f.seen) < FRAGMENT_FLOW_TTL_MS),
        );
        let tcp = |k: u128, f: &TcpFlow| -> (keep: bool)
            ensures
                keep == (now.saturating_sub(f.touched) < TCP_FLOW_TTL_MS),
        {
            now.saturating_sub(f.touched) < TCP_FLOW_TTL_MS
        };
        self.tcp_flows.retain(
            tcp,
            Ghost(|k: u128, f: TcpFlow| now.saturating_sub(f.touched) < TCP_FLOW_TTL_MS),
        );
        assert(self@ =~= before.pruned(now));
    }

    fn send_probes(&mut self, now: u64) -> (r: Vec<Frame>)
        requires
            old(self).sound(),
        ensures
            final(self).sound(),
            final(self)@ == old(self)@.probed(now).0,
            final(self)@.n() == old(self)@.n(),
            final(self)@.names == old(self)@.names,
            frame::frame_views(r@) == old(self)@.probed(now).1,
    {
        let ghost before: SchedulerView = self@;
        let mut output: Vec<Frame> = Vec::new();
        assert(frame::frame_views(output@) =~= Seq::empty());
        let due: bool = match self.last_probe {
            Some(last) => now.saturating_sub(last) >= PROBE_MS,
            None => true,
        };
        if !due {
            return output;
        }
        self.last_probe = Some(now);
        let mut i: usize = 0;
        while i < self.paths.len()
            invariant
                i <= self.paths@.len(),
                self.paths@ == before.paths,
                frame::frame_views(output@) == probe_frames(before.paths, now, i as nat),
            decreases self.paths@.len() - i,
        {
            let ghost done: Seq<FrameView> = frame::frame_views(output@);
            if self.paths[i].enabled {
                output.push(Frame::control(Kind::Probe, self.paths[i].id, now, now));
                assert(frame::frame_views(output@) =~= done.push(
                    frame::spec_control(Kind::Probe, before.paths[i as int].id, now, now),
                ));
            }
            i = i + 1;
        }
        assert(self@ =~= before.probed(now).0);
        output
    }

    /// Upkeep at the beginning of a turn. Returns the probes to send.
    pub(crate) fn begin_turn(&mut self, now: u64) -> (r: Vec<Frame>)
        requires
            old(self).sound(),
        ensures
            final(self).sound(),
            final(self)@ == old(self)@.begun(now).0,
            final(self)@.n() == old(self)@.n(),
            final(self)@.names == old(self)@.names,
            frame::frame_views(r@) == old(self)@.begun(now).1,
    {
        self.expire_recent(now);
        self.fail_silent(now);
        self.prune_flows(now);
        self.send_probes(now)
    }

    fn expire_packet(&mut self, at: usize)
        requires
            old(self).sound(),
            at < old(self)@.pending.len(),
        ensures
            final(self).sound(),
            final(self)@ == old(self)@.packet_expired(at as int),
            final(self)@.n() == old(self)@.n(),
            final(self)@.names == old(self)@.names,
    {
        let ghost before: SchedulerView = self@;
        let packet: Pending = self.pending.remove(at);
        bond::release_flight(&mut self.paths, &packet.attempts, packet.body.len());
        self.counters.expired_packets = self.counters.expired_packets.wrapping_add(1);
        proof {
            assert(flight::pending_views(self.pending@) =~= before.pending.remove(at as int));
            bond::lemma_remove_keeps(before.pending, at as int, before.n(), before.next_id);
            assert(self@ =~= before.packet_expired(at as int));
        }
    }

    fn find_fast_due(&self, data: &Vec<usize>, now: u64) -> (r: Vec<(u64, usize)>)
        requires
            self.sound(),
        ensures
            r@ == self@.fast_due(data@, now, self@.pending.len()),
            forall|i: int| 0 <= i < r@.len() ==> (#[trigger] r@[i]).1 < self@.n(),
    {
        let mut due: Vec<(u64, usize)> = Vec::new();
        let mut i: usize = 0;
        while i < self.pending.len()
            invariant
                self.sound(),
                i <= self.pending@.len(),
                due@ == self@.fast_due(data@, now, i as nat),
                forall|j: int| 0 <= j < due@.len() ==> (#[trigger] due@[j]).1 < self@.n(),
            decreases self.pending@.len() - i,
        {
            assert(self@.pending[i as int].wf(self@.n()));
            match self.pending[i].fast_repair_path {
                Some(index) => {
                    if due.len() < TURN_REPAIRS && placement::holds(data, index)
                        && self.paths[index].paced(now) {
                        due.push((self.pending[i].id, index));
                    }
                },
                None => {},
            }
            i = i + 1;
        }
        due
    }

    /// Sends another copy of a packet whose loss on the path is evident.
    #[verifier::rlimit(30)]
    fn fast_repair(&mut self, id: u64, index: usize, now: u64, output: &mut Vec<Frame>)
        requires
            old(self).sound(),
            index < old(self)@.n(),
        ensures
            final(self).sound(),
            final(self)@.n() == old(self)@.n(),
            final(self)@.names == old(self)@.names,
            final(self)@ == old(self)@.fast_repaired(id, index, now).0,
            frame::frame_views(final(output)@) == frame::frame_views(old(output)@) + old(
                self,
            )@.fast_repaired(id, index, now).1,
    {
        let ghost before: SchedulerView = self@;
        let ghost sent_before: Seq<FrameView> = frame::frame_views(output@);
        let at: usize = self.find_pending(id);
        if at >= self.pending.len() || self.pending[at].id != id {
            assert(sent_before + Seq::empty() =~= sent_before);
            return;
        }
        if now.saturating_sub(self.pending[at].born) > PACKET_TTL_MS {
            self.expire_packet(at);
            assert(sent_before + Seq::empty() =~= sent_before);
            return;
        }
        let ghost packet: PendingView = before.pending[at as int];
        let ghost cleared: PendingView = evidence_cleared(packet);
        clear_evidence(&mut self.pending[at]);
        let mut p: Path = self.paths[index];
        p.repair_timeout(now, true);
        self.paths[index] = p;
        let ghost paths: Seq<Path> = self.paths@;
        let frame: Frame = flight::send_copy(&mut self.paths, &mut self.pending[at], index, now);
        let ghost sent: PendingView = cleared.sent(index, paths[index as int].generation, now);
        self.pending[at].last_repair = now;
        self.pending[at].repaired = true;
        self.counters.repairs = self.counters.repairs.wrapping_add(1);
        self.counters.tcp_same_path_repairs = self.counters.tcp_same_path_repairs.wrapping_add(1);
        self.counters.tcp_fast_ack_repairs = self.counters.tcp_fast_ack_repairs.wrapping_add(1);
        output.push(frame);
        proof {
            let done: PendingView = PendingView { last_repair: now, repaired: true, ..sent };
            assert(packet.wf(before.n()));
            flight::lemma_with_attempt(
                cleared.attempts,
                index,
                now,
                paths[index as int].generation,
                before.n(),
            );
            assert(flight::pending_views(self.pending@) =~= before.pending.update(
                at as int,
                done,
            ));
            bond::lemma_update_keeps(
                before.pending,
                at as int,
                done,
                before.n(),
                before.next_id,
            );
            assert(self@ =~= before.fast_repaired(id, index, now).0);
            assert(frame::frame_views(output@) =~= sent_before + before.fast_repaired(
                id,
                index,
                now,
            ).1);
        }
    }

    pub(crate) fn run_fast_repairs(
        &mut self,
        data: &Vec<usize>,
        now: u64,
        output: &mut Vec<Frame>,
    )
        requires
            old(self).sound(),
        ensures
            final(self).sound(),
            final(self)@.n() == old(self)@.n(),
            final(self)@.names == old(self)@.names,
            ({
                let due: Seq<(u64, usize)> = old(self)@.fast_due(
                    data@,
                    now,
                    old(self)@.pending.len(),
                );
                &&& final(self)@ == old(self)@.all_fast_repaired(due, now).0
                &&& frame::frame_views(final(output)@) == frame::frame_views(old(output)@) + old(
                    self,
                )@.all_fast_repaired(due, now).1
            }),
    {
        let ghost before: SchedulerView = self@;
        let ghost sent_before: Seq<FrameView> = frame::frame_views(output@);
        let due: Vec<(u64, usize)> = self.find_fast_due(data, now);
        let mut i: usize = 0;
        assert(due@.take(0) =~= Seq::empty());
        assert(sent_before + Seq::empty() =~= sent_before);
        while i < due.len()
            invariant
                self.sound(),
                i <= due@.len(),
                self@.n() == before.n(),
                self@.names == before.names,
                forall|j: int| 0 <= j < due@.len() ==> (#[trigger] due@[j]).1 < before.n(),
                self@ == before.all_fast_repaired(due@.take(i as int), now).0,
                frame::frame_views(output@) == sent_before + before.all_fast_repaired(
                    due@.take(i as int),
                    now,
                ).1,
            decreases due@.len() - i,
        {
            let ghost part: Seq<(u64, usize)> = due@.take(i + 1);
            assert(part.drop_last() =~= due@.take(i as int));
            let (id, index) = due[i];
            assert(due@[i as int].1 < before.n());
            let ghost done: Seq<FrameView> = before.all_fast_repaired(due@.take(i as int), now).1;
            let ghost step: Seq<FrameView> = self@.fast_repaired(id, index, now).1;
            self.fast_repair(id, index, now, output);
            assert(sent_before + done + step =~= sent_before + (done + step));
            i = i + 1;
        }
        assert(due@.take(i as int) =~= due@);
    }

    fn find_protection(&self) -> (r: Vec<(u64, usize)>)
        requires
            self.sound(),
        ensures
            r@ == self@.protection_waiting(self@.pending.len()),
            forall|i: int| 0 <= i < r@.len() ==> (#[trigger] r@[i]).1 < self@.n(),
    {
        let mut waiting: Vec<(u64, usize)> = Vec::new();
        let mut i: usize = 0;
        while i < self.pending.len()
            invariant
                self.sound(),
                i <= self.pending@.len(),
                waiting@ == self@.protection_waiting(i as nat),
                forall|j: int| 0 <= j < waiting@.len() ==> (#[trigger] waiting@[j]).1 < self@.n(),
            decreases self.pending@.len() - i,
        {
            assert(self@.pending[i as int].wf(self@.n()));
            match self.pending[i].protection_path {
                Some(index) => {
                    waiting.push((self.pending[i].id, index));
                },
                None => {},
            }
            i = i + 1;
        }
        waiting
    }

    fn eligible_for_protection(&self, body: &Vec<u8>, now: u64) -> (r: Vec<usize>)
        requires
            self.sound(),
        ensures
            r@ == self@.protection_eligible(body@, now),
    {
        if packet::ipv4_udp(body.as_slice()) {
            self.udp_protection_targets(body.len(), now)
        } else if packet::ipv4_tcp(body.as_slice()) {
            self.tcp_protection_targets(body.len(), now)
        } else {
            self.targets(body.len(), true, now)
        }
    }

    #[verifier::rlimit(40)]
    fn protect(
        &mut self,
        id: u64,
        index: usize,
        now: u64,
        output: &mut Vec<Frame>,
        blocked: &mut Vec<usize>,
        sent: usize,
    ) -> (r: usize)
        requires
            old(self).sound(),
            index < old(self)@.n(),
            sent < TURN_REPAIRS,
        ensures
            final(self).sound(),
            final(self)@.n() == old(self)@.n(),
            final(self)@.names == old(self)@.names,
            (ProtectionView {
                s: final(self)@,
                out: frame::frame_views(final(output)@),
                blocked: final(blocked)@,
                sent: r as nat,
            }) == (ProtectionView {
                s: old(self)@,
                out: frame::frame_views(old(output)@),
                blocked: old(blocked)@,
                sent: sent as nat,
            }).protected(id, index, now),
            r <= sent + 1,
    {
        let ghost before: SchedulerView = self@;
        let ghost start: ProtectionView = ProtectionView {
            s: self@,
            out: frame::frame_views(output@),
            blocked: blocked@,
            sent: sent as nat,
        };
        let at: usize = self.find_pending(id);
        if at >= self.pending.len() || self.pending[at].id != id {
            return sent;
        }
        let ghost packet: PendingView = before.pending[at as int];
        assert(packet.wf(before.n()));
        let moot: bool = {
            let p: Path = self.paths[index];
            let waiting: &Pending = &self.pending[at];
            (match self.policy {
                Policy::DataSaver => true,
                _ => false,
            }) || now.saturating_sub(waiting.born) > PACKET_TTL_MS || flight::has_current(
                &self.paths,
                &waiting.attempts,
                index,
            ) || flight::count_current(&self.paths, &waiting.attempts) >= 2 || !p.enabled
                || p.state == PathState::Failed || p.state == PathState::Removed
        };
        assert(moot == before.protection_moot(packet, index, now));
        if moot {
            self.pending[at].protection_path = None;
            proof {
                let done: PendingView = PendingView { protection_path: None, ..packet };
                assert(flight::pending_views(self.pending@) =~= before.pending.update(
                    at as int,
                    done,
                ));
                bond::lemma_update_keeps(
                    before.pending,
                    at as int,
                    done,
                    before.n(),
                    before.next_id,
                );
                assert(self@ =~= start.protected(id, index, now).s);
            }
            return sent;
        }
        if placement::holds(blocked, index) {
            return sent;
        }
        let eligible: Vec<usize> = self.eligible_for_protection(&self.pending[at].body, now);
        if !placement::holds(&eligible, index) {
            blocked.push(index);
            return sent;
        }
        let frame: Frame = flight::send_copy(&mut self.paths, &mut self.pending[at], index, now);
        output.push(frame);
        self.counters.protection_copies = self.counters.protection_copies.wrapping_add(1);
        self.counters.protection_deferred_sent =
        self.counters.protection_deferred_sent.wrapping_add(1);
        proof {
            let generation: u64 = before.paths[index as int].generation;
            let done: PendingView = packet.sent(index, generation, now);
            flight::lemma_with_attempt(packet.attempts, index, now, generation, before.n());
            assert(flight::pending_views(self.pending@) =~= before.pending.update(
                at as int,
                done,
            ));
            bond::lemma_update_keeps(
                before.pending,
                at as int,
                done,
                before.n(),
                before.next_id,
            );
            assert(self@ =~= start.protected(id, index, now).s);
            assert(frame::frame_views(output@) =~= start.protected(id, index, now).out);
        }
        sent + 1
    }

    pub(crate) fn run_protection(&mut self, now: u64, output: &mut Vec<Frame>)
        requires
            old(self).sound(),
        ensures
            final(self).sound(),
            final(self)@.n() == old(self)@.n(),
            final(self)@.names == old(self)@.names,
            ({
                let start: ProtectionView = ProtectionView {
                    s: old(self)@,
                    out: frame::frame_views(old(output)@),
                    blocked: Seq::empty(),
                    sent: 0,
                };
                let end: ProtectionView = start.all_protected(
                    old(self)@.protection_waiting(old(self)@.pending.len()),
                    now,
                );
                final(self)@ == end.s && frame::frame_views(final(output)@) == end.out
            }),
    {
        let ghost before: SchedulerView = self@;
        let ghost start: ProtectionView = ProtectionView {
            s: self@,
            out: frame::frame_views(output@),
            blocked: Seq::empty(),
            sent: 0,
        };
        let waiting: Vec<(u64, usize)> = self.find_protection();
        let mut blocked: Vec<usize> = Vec::new();
        let mut sent: usize = 0;
        let mut i: usize = 0;
        assert(waiting@.take(0) =~= Seq::empty());
        assert(blocked@ =~= Seq::empty());
        while i < waiting.len()
            invariant
                self.sound(),
                i <= waiting@.len(),
                sent <= TURN_REPAIRS,
                self@.n() == before.n(),
                self@.names == before.names,
                forall|j: int|
                    0 <= j < waiting@.len() ==> (#[trigger] waiting@[j]).1 < before.n(),
                (ProtectionView {
                    s: self@,
                    out: frame::frame_views(output@),
                    blocked: blocked@,
                    sent: sent as nat,
                }) == start.all_protected(waiting@.take(i as int), now),
            decreases waiting@.len() - i,
        {
            assert(waiting@.take(i + 1).drop_last() =~= waiting@.take(i as int));
            let (id, index) = waiting[i];
            assert(waiting@[i as int].1 < before.n());
            if sent < TURN_REPAIRS {
                sent = self.protect(id, index, now, output, &mut blocked, sent);
            }
            i = i + 1;
        }
        assert(waiting@.take(i as int) =~= waiting@);
    }
}

fn clear_evidence(packet: &mut Pending)
    ensures
        final(packet)@ == evidence_cleared(old(packet)@),
{
    let ghost before: PendingView = packet@;
    packet.fast_repair_path = None;
    let mut i: usize = 0;
    while i < packet.attempts.len()
        invariant
            i <= packet.attempts@.len() == before.attempts.len(),
            forall|j: int|
                0 <= j < i ==> #[trigger] packet.attempts@[j] == (Attempt {
                    evidence: 0,
                    ..before.attempts[j]
                }),
            forall|j: int|
                i <= j < before.attempts.len() ==> #[trigger] packet.attempts@[j]
                    == before.attempts[j],
            packet@ == (PendingView {
                fast_repair_path: None,
                attempts: packet.attempts@,
                ..before
            }),
        decreases packet.attempts@.len() - i,
    {
        let mut attempt: Attempt = packet.attempts[i];
        attempt.evidence = 0;
        packet.attempts[i] = attempt;
        i = i + 1;
    }
    assert(packet@ =~= evidence_cleared(before));
}

/// Whether every copy is overdue.
fn check_overdue(paths: &Vec<Path>, data: &Vec<usize>, attempts: &Vec<Attempt>, now: u64) -> (r:
    bool)
    ensures
        r == all_overdue(paths@, data@, attempts@, now),
{
    let mut i: usize = 0;
    while i < attempts.len()
        invariant
            i <= attempts@.len(),
            forall|j: int| 0 <= j < i ==> overdue(paths@, data@, #[trigger] attempts@[j], now),
        decreases attempts@.len() - i,
    {
        let attempt: Attempt = attempts[i];
        if flight::attempt_is_current(paths, attempt) && placement::holds(data, attempt.path)
            && now.saturating_sub(attempt.stamp) < paths[attempt.path].repair_ms() {
            assert(!overdue(paths@, data@, attempts@[i as int], now));
            return false;
        }
        i = i + 1;
    }
    true
}

fn check_live(paths: &Vec<Path>, attempts: &Vec<Attempt>, now: u64) -> (r: bool)
    ensures
        r == any_live(paths@, attempts@, now),
{
    let mut i: usize = 0;
    while i < attempts.len()
        invariant
            i <= attempts@.len(),
            forall|j: int| 0 <= j < i ==> !live(paths@, #[trigger] attempts@[j], now),
        decreases attempts@.len() - i,
    {
        let attempt: Attempt = attempts[i];
        if flight::attempt_is_current(paths, attempt) && paths[attempt.path].ready(now)
            && now.saturating_sub(attempt.stamp) < paths[attempt.path].repair_ms() {
            assert(live(paths@, attempts@[i as int], now));
            return true;
        }
        i = i + 1;
    }
    false
}

fn check_unavailable(paths: &Vec<Path>, attempts: &Vec<Attempt>, now: u64) -> (r: bool)
    ensures
        r == any_unavailable(paths@, attempts@, now),
{
    let mut i: usize = 0;
    while i < attempts.len()
        invariant
            i <= attempts@.len(),
            forall|j: int| 0 <= j < i ==> !unavailable(paths@, #[trigger] attempts@[j], now),
        decreases attempts@.len() - i,
    {
        let attempt: Attempt = attempts[i];
        if !flight::attempt_is_current(paths, attempt) || !paths[attempt.path].ready(now) {
            assert(unavailable(paths@, attempts@[i as int], now));
            return true;
        }
        i = i + 1;
    }
    false
}

fn check_unresponsive(paths: &Vec<Path>, attempts: &Vec<Attempt>, now: u64) -> (r: bool)
    ensures
        r == any_unresponsive(paths@, attempts@, now),
{
    let mut i: usize = 0;
    while i < attempts.len()
        invariant
            i <= attempts@.len(),
            forall|j: int| 0 <= j < i ==> !unresponsive(paths@, #[trigger] attempts@[j], now),
        decreases attempts@.len() - i,
    {
        let attempt: Attempt = attempts[i];
        if !flight::attempt_is_current(paths, attempt) || !paths[attempt.path].recently_responding(
            now,
        ) {
            assert(unresponsive(paths@, attempts@[i as int], now));
            return true;
        }
        i = i + 1;
    }
    false
}

fn penalise(
    paths: &mut Vec<Path>,
    attempts: &Vec<Attempt>,
    some_unresponsive: bool,
    redundant_loss: bool,
    now: u64,
)
    ensures
        final(paths)@ == penalised(
            old(paths)@,
            attempts@,
            some_unresponsive,
            redundant_loss,
            now,
            attempts@.len(),
        ),
        final(paths)@.len() == old(paths)@.len(),
{
    let ghost start: Seq<Path> = paths@;
    let mut i: usize = 0;
    while i < attempts.len()
        invariant
            i <= attempts@.len(),
            paths@.len() == start.len(),
            paths@ == penalised(
                start,
                attempts@,
                some_unresponsive,
                redundant_loss,
                now,
                i as nat,
            ),
        decreases attempts@.len() - i,
    {
        let attempt: Attempt = attempts[i];
        if flight::attempt_is_current(paths, attempt) {
            let mut p: Path = paths[attempt.path];
            let mute: bool = !p.recently_responding(now);
            if !some_unresponsive || mute {
                p.repair_timeout(now, mute || redundant_loss);
                paths[attempt.path] = p;
            }
        }
        i = i + 1;
    }
}

fn add_own_paths(
    list: Vec<usize>,
    paths: &Vec<Path>,
    attempts: &Vec<Attempt>,
    data: &Vec<usize>,
    now: u64,
) -> (r: Vec<usize>)
    requires
        placement::within(list@, paths@.len()),
    ensures
        r@ == with_own_paths(list@, paths@, attempts@, data@, now, attempts@.len()),
        placement::within(r@, paths@.len()),
{
    let ghost start: Seq<usize> = list@;
    let mut all: Vec<usize> = list;
    let mut i: usize = 0;
    while i < attempts.len()
        invariant
            i <= attempts@.len(),
            placement::within(all@, paths@.len()),
            all@ == with_own_paths(start, paths@, attempts@, data@, now, i as nat),
        decreases attempts@.len() - i,
    {
        let attempt: Attempt = attempts[i];
        if flight::attempt_is_current(paths, attempt) && placement::holds(data, attempt.path)
            && paths[attempt.path].paced(now) && !placement::holds(&all, attempt.path) {
            all.push(attempt.path);
        }
        i = i + 1;
    }
    all
}

fn choose_repair(list: &Vec<usize>, paths: &Vec<Path>, packet: &Pending, now: u64) -> (r: Option<
    usize,
>)
    requires
        placement::within(list@, paths@.len()),
    ensures
        r == repair_target(list@, paths@, packet@, now),
        flight::path_within(r, paths@.len()),
{
    if packet::ipv4_tcp(packet.body.as_slice()) {
        let mut costs: Vec<Binary64> = Vec::new();
        let mut i: usize = 0;
        while i < paths.len()
            invariant
                i <= paths@.len(),
                costs@ =~= repair_costs(paths@, packet@, now).take(i as int),
            decreases paths@.len() - i,
        {
            let repeated: bool = match flight::find_attempt(&packet.attempts, i) {
                Some(attempt) => flight::attempt_is_current(paths, attempt) && attempt.stamp
                    > packet.born,
                None => false,
            };
            let penalty: Binary64 = if repeated {
                Binary64::whole(paths[i].repair_ms())
            } else {
                path::zero()
            };
            costs.push(paths[i].tcp_forward_ms(now, packet.body.len()).plus(penalty));
            i = i + 1;
        }
        assert(costs@ =~= repair_costs(paths@, packet@, now));
        return placement::cheapest_of(list, &costs);
    }
    let mut i: usize = 0;
    while i < list.len()
        invariant
            i <= list@.len(),
            placement::within(list@, paths@.len()),
            !packet::spec_ipv4_tcp(packet@.body),
            first_unused(list@, paths@, packet@.attempts, i as int) == first_unused(
                list@,
                paths@,
                packet@.attempts,
                0,
            ),
        decreases list@.len() - i,
    {
        if !flight::has_current(paths, &packet.attempts, list[i]) {
            return Some(list[i]);
        }
        i = i + 1;
    }
    if list.len() == 0 {
        return None;
    }
    let index: usize = list[0];
    match flight::find_attempt(&packet.attempts, index) {
        Some(attempt) => if flight::attempt_is_current(paths, attempt) && now.saturating_sub(
            attempt.stamp,
        ) >= paths[index].repair_ms() {
            Some(index)
        } else {
            None
        },
        None => None,
    }
}

impl Scheduler {
    #[verifier::rlimit(30)]
    fn find_due(&mut self, data: &Vec<usize>, now: u64) -> (r: Vec<u64>)
        requires
            old(self).sound(),
        ensures
            final(self).sound(),
            final(self)@.n() == old(self)@.n(),
            final(self)@.names == old(self)@.names,
            final(self)@ == old(self)@.due_found(data@, now, old(self)@.pending.len()).0,
            r@ == old(self)@.due_found(data@, now, old(self)@.pending.len()).1,
    {
        let ghost before: SchedulerView = self@;
        let n: usize = self.pending.len();
        let mut found: Vec<u64> = Vec::new();
        let mut i: usize = 0;
        while i < n
            invariant
                self.sound(),
                i <= n == before.pending.len(),
                self@.pending.len() == n,
                self@.n() == before.n(),
                self@.names == before.names,
                self@ == before.due_found(data@, now, i as nat).0,
                found@ == before.due_found(data@, now, i as nat).1,
            decreases n - i,
        {
            let ghost current: SchedulerView = self@;
            let ghost packet: PendingView = current.pending[i as int];
            assert(packet.wf(current.n()));
            if found.len() < TURN_REPAIRS {
                let due: bool = now.saturating_sub(self.pending[i].last_repair) >= 2
                    && check_overdue(&self.paths, data, &self.pending[i].attempts, now);
                assert(due == current.repair_due(data@, packet, now));
                if due {
                    if packet::ipv4_tcp(self.pending[i].body.as_slice()) && check_live(
                        &self.paths,
                        &self.pending[i].attempts,
                        now,
                    ) {
                        if !self.pending[i].tcp_early_repair_deferred {
                            self.pending[i].tcp_early_repair_deferred = true;
                            self.counters.tcp_early_repairs_deferred =
                            self.counters.tcp_early_repairs_deferred.wrapping_add(1);
                            proof {
                                let noted: PendingView = PendingView {
                                    tcp_early_repair_deferred: true,
                                    ..packet
                                };
                                assert(flight::pending_views(self.pending@)
                                    =~= current.pending.update(i as int, noted));
                                bond::lemma_update_keeps(
                                    current.pending,
                                    i as int,
                                    noted,
                                    current.n(),
                                    current.next_id,
                                );
                                assert(self@ =~= before.due_found(data@, now, (i + 1) as nat).0);
                            }
                        }
                    } else {
                        found.push(self.pending[i].id);
                    }
                }
            }
            i = i + 1;
        }
        found
    }

    /// Sends a new copy of a packet that is due, where some path can take it.
    #[verifier::rlimit(60)]
    fn repair(&mut self, id: u64, data: &Vec<usize>, now: u64, output: &mut Vec<Frame>)
        requires
            old(self).sound(),
        ensures
            final(self).sound(),
            final(self)@.n() == old(self)@.n(),
            final(self)@.names == old(self)@.names,
            final(self)@ == old(self)@.repaired(id, data@, now).0,
            frame::frame_views(final(output)@) == frame::frame_views(old(output)@) + old(
                self,
            )@.repaired(id, data@, now).1,
    {
        let ghost before: SchedulerView = self@;
        let ghost sent_before: Seq<FrameView> = frame::frame_views(output@);
        assert(sent_before + Seq::empty() =~= sent_before);
        let at: usize = self.find_pending(id);
        if at >= self.pending.len() || self.pending[at].id != id {
            return;
        }
        if now.saturating_sub(self.pending[at].born) > PACKET_TTL_MS {
            self.expire_packet(at);
            return;
        }
        let ghost packet: PendingView = before.pending[at as int];
        assert(packet.wf(before.n()));
        let bytes: usize = self.pending[at].body.len();
        let tcp: bool = packet::ipv4_tcp(self.pending[at].body.as_slice());
        let sensitive: bool = packet::interactive(self.pending[at].body.as_slice())
            || packet::streaming(self.pending[at].body.as_slice());
        let open: Vec<usize> = self.targets(bytes, sensitive, now);
        let list: Vec<usize> = add_own_paths(
            open,
            &self.paths,
            &self.pending[at].attempts,
            data,
            now,
        );
        assert(list@ == before.repair_candidates(packet, data@, now));
        match choose_repair(&list, &self.paths, &self.pending[at], now) {
            None => {
                self.pending[at].last_repair = now;
                proof {
                    let done: PendingView = PendingView { last_repair: now, ..packet };
                    assert(flight::pending_views(self.pending@) =~= before.pending.update(
                        at as int,
                        done,
                    ));
                    bond::lemma_update_keeps(
                        before.pending,
                        at as int,
                        done,
                        before.n(),
                        before.next_id,
                    );
                    assert(self@ =~= before.repaired(id, data@, now).0);
                }
            },
            Some(target) => {
                self.count_repair(at, target, tcp, now);
                let some: bool = check_unresponsive(
                    &self.paths,
                    &self.pending[at].attempts,
                    now,
                );
                let redundant: bool = !some && flight::count_current(
                    &self.paths,
                    &self.pending[at].attempts,
                ) > 1;
                penalise(&mut self.paths, &self.pending[at].attempts, some, redundant, now);
                let ghost paths: Seq<Path> = self.paths@;
                assert(paths == before.loss_noted(packet, now));
                let frame: Frame = flight::send_copy(
                    &mut self.paths,
                    &mut self.pending[at],
                    target,
                    now,
                );
                self.pending[at].last_repair = now;
                self.pending[at].repaired = true;
                output.push(frame);
                proof {
                    let generation: u64 = paths[target as int].generation;
                    let done: PendingView = PendingView {
                        last_repair: now,
                        repaired: true,
                        ..packet.sent(target, generation, now)
                    };
                    flight::lemma_with_attempt(
                        packet.attempts,
                        target,
                        now,
                        generation,
                        before.n(),
                    );
                    assert(flight::pending_views(self.pending@) =~= before.pending.update(
                        at as int,
                        done,
                    ));
                    bond::lemma_update_keeps(
                        before.pending,
                        at as int,
                        done,
                        before.n(),
                        before.next_id,
                    );
                    assert(self@ =~= before.repaired(id, data@, now).0);
                    assert(frame::frame_views(output@) =~= sent_before + before.repaired(
                        id,
                        data@,
                        now,
                    ).1);
                }
            },
        }
    }

    fn count_repair(&mut self, at: usize, target: usize, tcp: bool, now: u64)
        requires
            old(self).sound(),
            at < old(self)@.pending.len(),
            tcp == packet::spec_ipv4_tcp(old(self)@.pending[at as int].body),
        ensures
            final(self).sound(),
            final(self)@ == (SchedulerView {
                counters: old(self)@.repair_counted(
                    old(self)@.pending[at as int],
                    target,
                    now,
                ),
                ..old(self)@
            }),
            final(self).pending@ == old(self).pending@,
    {
        let missing: bool = tcp && check_unavailable(
            &self.paths,
            &self.pending[at].attempts,
            now,
        );
        if tcp {
            if missing {
                self.counters.tcp_unavailable_path_repairs =
                self.counters.tcp_unavailable_path_repairs.wrapping_add(1);
            } else {
                self.counters.tcp_deadline_repairs =
                self.counters.tcp_deadline_repairs.wrapping_add(1);
            }
        }
        if tcp && flight::has_current(&self.paths, &self.pending[at].attempts, target) {
            self.counters.tcp_same_path_repairs =
            self.counters.tcp_same_path_repairs.wrapping_add(1);
        }
        self.counters.repairs = self.counters.repairs.wrapping_add(1);
    }

    pub(crate) fn run_repairs(&mut self, data: &Vec<usize>, now: u64, output: &mut Vec<Frame>)
        requires
            old(self).sound(),
        ensures
            final(self).sound(),
            final(self)@.n() == old(self)@.n(),
            final(self)@.names == old(self)@.names,
            ({
                let found: (SchedulerView, Seq<u64>) = old(self)@.due_found(
                    data@,
                    now,
                    old(self)@.pending.len(),
                );
                let end: (SchedulerView, Seq<FrameView>) = found.0.all_repaired(
                    found.1,
                    data@,
                    now,
                );
                &&& final(self)@ == end.0
                &&& frame::frame_views(final(output)@) == frame::frame_views(old(output)@) + end.1
            }),
    {
        let due: Vec<u64> = self.find_due(data, now);
        let ghost before: SchedulerView = self@;
        let ghost sent_before: Seq<FrameView> = frame::frame_views(output@);
        let mut i: usize = 0;
        assert(due@.take(0) =~= Seq::empty());
        assert(sent_before + Seq::empty() =~= sent_before);
        while i < due.len()
            invariant
                self.sound(),
                i <= due@.len(),
                self@.n() == before.n(),
                self@.names == before.names,
                self@ == before.all_repaired(due@.take(i as int), data@, now).0,
                frame::frame_views(output@) == sent_before + before.all_repaired(
                    due@.take(i as int),
                    data@,
                    now,
                ).1,
            decreases due@.len() - i,
        {
            assert(due@.take(i + 1).drop_last() =~= due@.take(i as int));
            let ghost done: Seq<FrameView> = before.all_repaired(
                due@.take(i as int),
                data@,
                now,
            ).1;
            let ghost step: Seq<FrameView> = self@.repaired(due@[i as int], data@, now).1;
            self.repair(due[i], data, now, output);
            assert(sent_before + done + step =~= sent_before + (done + step));
            i = i + 1;
        }
        assert(due@.take(i as int) =~= due@);
    }
}

} // verus!
