//! A scheduling turn: after repairs, the queues are looked through once and as
//! many new packets are placed as the paths take.
use crate::ack_laws;
use crate::binary64::Binary64;
use crate::bond;
use crate::bond::{
    Counters, FlowPin, Policy, Scheduler, SchedulerView, MAX_FLOW_PINS, MAX_PENDING, TURN_PACKETS,
};
use crate::flight;
use crate::flight::{Attempt, Pending, PendingView};
use crate::frame;
use crate::frame::{Frame, FrameView};
use crate::packet;
use crate::path::{Path, PathState, PROBE_MS};
use crate::placement;
use crate::repair::ProtectionView;
use crate::table::Table;
use crate::turn_frames;
use crate::turn_numbers;
use std::collections::VecDeque;
use vstd::prelude::*;

verus! {

// ---- What the queues hold ------------------------------------------------------

pub open spec fn lesser(least: Option<usize>, len: usize) -> Option<usize> {
    match least {
        None => Some(len),
        Some(other) => Some(
            if other <= len {
                other
            } else {
                len
            },
        ),
    }
}

/// Least packet length among the first `n`.
pub open spec fn least_len(queue: Seq<Seq<u8>>, n: nat, start: Option<usize>) -> Option<usize>
    decreases n,
{
    if n == 0 {
        start
    } else {
        lesser(least_len(queue, (n - 1) as nat, start), queue[n - 1].len() as usize)
    }
}

/// The same among packets that are UDP, or that are not.
pub open spec fn least_len_where(
    queue: Seq<Seq<u8>>,
    n: nat,
    udp: bool,
    start: Option<usize>,
) -> Option<usize>
    decreases n,
{
    if n == 0 {
        start
    } else {
        let before: Option<usize> = least_len_where(queue, (n - 1) as nat, udp, start);
        if packet::spec_protocol(queue[n - 1], 17) == udp {
            lesser(before, queue[n - 1].len() as usize)
        } else {
            before
        }
    }
}

/// Queued bytes of each TCP flow among the first `n` packets.
pub open spec fn backlogs(queue: Seq<Seq<u8>>, n: nat) -> Map<u128, usize>
    decreases n,
{
    if n == 0 {
        Map::empty()
    } else {
        let before: Map<u128, usize> = backlogs(queue, (n - 1) as nat);
        match packet::spec_tcp_flow_key(queue[n - 1]) {
            Some(key) => {
                let bytes: usize = if before.contains_key(key) {
                    before[key]
                } else {
                    0
                };
                before.insert(key, bytes.wrapping_add(queue[n - 1].len() as usize))
            },
            None => before,
        }
    }
}

/// What stays the same through the scan: the time, the paths that carry data,
/// and the smallest packets that wait.
#[verifier::ext_equal]
pub struct ScanSetting {
    pub now: u64,
    pub data: Seq<usize>,
    pub least_priority: Option<usize>,
    pub least_bulk: Option<usize>,
}

pub open spec fn fits(p: Path, least: Option<usize>, interactive: bool, now: u64) -> bool {
    match least {
        Some(bytes) => p.send_budget_allows(bytes, interactive, now),
        None => false,
    }
}

/// Whether any path that carries data can take the smallest packet.
pub open spec fn room_left(paths: Seq<Path>, setting: ScanSetting) -> bool {
    exists|i: int|
        0 <= i < setting.data.len() && {
            let p: Path = paths[(#[trigger] setting.data[i]) as int];
            fits(p, setting.least_priority, true, setting.now) || fits(
                p,
                setting.least_bulk,
                false,
                setting.now,
            )
        }
}

/// The scheduler in the middle of a scan. Packets that could not be placed
/// wait in `deferred`, by queue.
#[verifier::ext_equal]
pub struct ScanView {
    pub s: SchedulerView,
    pub out: Seq<FrameView>,
    pub deferred_urgent: Seq<Seq<u8>>,
    pub deferred_streaming: Seq<Seq<u8>>,
    pub deferred_queued: Seq<Seq<u8>>,
    pub blocked_flows: Seq<u128>,
    pub blocked_tcp: Seq<u128>,
    pub backlog: Map<u128, usize>,
    pub sent: nat,
    pub stop: bool,
}

/// How a packet is to be treated.
pub struct PlanView {
    pub tcp_key: Option<u128>,
    pub logical: Option<u128>,
    pub interactive: bool,
    pub protected_media: bool,
    pub protect_udp: bool,
    pub sensitive: bool,
    pub targets: Seq<usize>,
    pub lookup: Option<u128>,
    pub pinned: Option<usize>,
}

pub open spec fn scan_tcp_key(body: Seq<u8>) -> Option<u128> {
    if packet::spec_interactive(body) {
        None
    } else {
        packet::spec_tcp_flow_key(body)
    }
}

impl SchedulerView {
    /// The treatment of a packet whose flow was looked up. Protected media has
    /// any live path if the preferred ones are full; a pin counts only while
    /// its path is eligible.
    pub open spec fn planned(
        self,
        body: Seq<u8>,
        logical: Option<u128>,
        srt: bool,
        now: u64,
    ) -> PlanView {
        let bytes: usize = body.len() as usize;
        let interactive: bool = packet::spec_interactive(body);
        let continuity_udp: bool = self.policy == Policy::Continuity && packet::spec_ipv4_udp(
            body,
        );
        let protected_media: bool = srt || packet::spec_realtime_media(body) || continuity_udp;
        let protect_udp: bool = protected_media && self.policy != Policy::DataSaver;
        let sensitive: bool = interactive || packet::spec_streaming(body) || srt || continuity_udp;
        let preferred: Seq<usize> = self.targets(bytes, sensitive, now);
        let targets: Seq<usize> = if protect_udp && preferred.len() == 0 {
            self.udp_protection_targets(bytes, now)
        } else {
            preferred
        };
        let lookup: Option<u128> = match logical {
            Some(flow) => Some(flow),
            None => packet::spec_udp_flow_key(body),
        };
        let pinned: Option<usize> = match lookup {
            Some(key) => if self.flow_paths.contains_key(key) {
                let index: usize = self.flow_paths[key].path;
                let eligible: Seq<usize> = if protected_media {
                    targets
                } else {
                    self.placement_paths(sensitive, now)
                };
                if eligible.contains(index) {
                    Some(index)
                } else {
                    None
                }
            } else {
                None
            },
            None => None,
        };
        PlanView {
            tcp_key: scan_tcp_key(body),
            logical,
            interactive,
            protected_media,
            protect_udp,
            sensitive,
            targets,
            lookup,
            pinned,
        }
    }
}

pub open spec fn fresh_packet(id: u64, body: Seq<u8>, now: u64) -> PendingView {
    PendingView {
        id,
        body,
        born: now,
        attempts: Seq::empty(),
        last_repair: now,
        protection_path: None,
        tcp_early_repair_deferred: false,
        fast_repair_path: None,
        repaired: false,
    }
}

/// First entry from `i` on other than the primary.
pub open spec fn first_other(list: Seq<usize>, primary: usize, i: int) -> Option<usize>
    decreases list.len() - i,
{
    if i >= list.len() {
        None
    } else if list[i] != primary {
        Some(list[i])
    } else {
        first_other(list, primary, i + 1)
    }
}

/// Time in which the other path could make up for a loss.
pub open spec fn recovery_ms(p: Path, bytes: usize) -> Binary64 {
    Binary64::whole(3).times(Binary64::whole(PROBE_MS)).plus(p.rtt_or(100)).plus(
        Binary64::whole(p.in_flight.wrapping_add(bytes) as u64).over(p.estimated_bytes_per_ms()),
    )
}

/// A packet being sent: the scheduler, the packet and the frames.
#[verifier::ext_equal]
pub struct SendingView {
    pub s: SchedulerView,
    pub packet: PendingView,
    pub out: Seq<FrameView>,
}

impl SendingView {
    pub open spec fn copied(self, index: usize, now: u64) -> SendingView {
        SendingView {
            s: self.s.set_path(
                index as int,
                flight::path_after_send(self.s.paths, self.packet, index, now),
            ),
            packet: self.packet.sent(index, self.s.paths[index as int].generation, now),
            out: self.out.push(self.packet.data_frame(index, now)),
        }
    }

    /// Whether an urgent packet earns a second copy: for continuity, for
    /// media, where a loss would be noticed, or where the first path is weak.
    /// Where data is to be saved none does.
    pub open spec fn interactive_protected(
        self,
        plan: PlanView,
        primary: usize,
        alternate: usize,
    ) -> bool {
        let s: SchedulerView = self.s;
        plan.interactive && plan.pinned is None && s.policy != Policy::DataSaver && (s.policy
            == Policy::Continuity || packet::spec_realtime_media(self.packet.body) || recovery_ms(
            s.paths[alternate as int],
            self.packet.body.len() as usize,
        ).ge(Binary64::whole(100)) || s.paths[primary as int].state == PathState::Degraded)
    }

    /// The second copy, sent or reserved, where the packet gets one.
    pub open spec fn seconded(
        self,
        plan: PlanView,
        primary: usize,
        tcp_continuity: bool,
        now: u64,
    ) -> SendingView {
        let bytes: usize = self.packet.body.len() as usize;
        let list: Seq<usize> = if plan.protect_udp || tcp_continuity {
            self.s.data_paths(now)
        } else {
            plan.targets
        };
        match first_other(list, primary, 0) {
            None => self,
            Some(alternate) => {
                let by_class: bool = self.interactive_protected(plan, primary, alternate);
                let funded: (SchedulerView, bool) = if tcp_continuity {
                    self.s.reserved(bytes, now)
                } else {
                    (self.s, false)
                };
                let next: SendingView = SendingView { s: funded.0, ..self };
                if plan.protect_udp || by_class || funded.1 {
                    let eligible: Seq<usize> = if plan.protect_udp {
                        funded.0.udp_protection_targets(bytes, now)
                    } else if funded.1 {
                        funded.0.tcp_protection_targets(bytes, now)
                    } else {
                        plan.targets
                    };
                    if eligible.contains(alternate) {
                        let copied: SendingView = next.copied(alternate, now);
                        SendingView {
                            s: SchedulerView {
                                counters: Counters {
                                    protection_copies:
                                        copied.s.counters.protection_copies.wrapping_add(1),
                                    ..copied.s.counters
                                },
                                ..copied.s
                            },
                            ..copied
                        }
                    } else {
                        SendingView {
                            s: SchedulerView {
                                counters: Counters {
                                    protection_deferred:
                                        next.s.counters.protection_deferred.wrapping_add(1),
                                    ..next.s.counters
                                },
                                ..next.s
                            },
                            packet: PendingView {
                                protection_path: Some(alternate),
                                ..next.packet
                            },
                            ..next
                        }
                    }
                } else {
                    next
                }
            },
        }
    }
}

impl SchedulerView {
    /// Remembers the path of a large flow, or of one that has a path.
    pub open spec fn pin_noted(
        self,
        plan: PlanView,
        len: nat,
        primary: usize,
        now: u64,
    ) -> SchedulerView {
        let key: Option<u128> = if len >= 500 && plan.logical is Some {
            plan.logical
        } else if plan.pinned is Some {
            plan.lookup
        } else {
            None
        };
        match key {
            Some(flow) => if self.flow_paths.dom().len() < MAX_FLOW_PINS
                || self.flow_paths.contains_key(flow) {
                SchedulerView {
                    flow_paths: self.flow_paths.insert(
                        flow,
                        FlowPin { path: primary, seen: now },
                    ),
                    ..self
                }
            } else {
                self
            },
            None => self,
        }
    }
}

impl ScanView {
    pub open spec fn deferred_len(self) -> nat {
        self.deferred_urgent.len() + self.deferred_streaming.len() + self.deferred_queued.len()
    }

    pub open spec fn wf(self) -> bool {
        &&& self.s.sound()
        &&& self.s.waiting() + self.s.pending.len() + self.deferred_len() <= MAX_PENDING
    }

    pub open spec fn defer(self, priority: nat, body: Seq<u8>) -> ScanView {
        if priority == 0 {
            ScanView { deferred_urgent: self.deferred_urgent.push(body), ..self }
        } else if priority == 1 {
            ScanView { deferred_streaming: self.deferred_streaming.push(body), ..self }
        } else {
            ScanView { deferred_queued: self.deferred_queued.push(body), ..self }
        }
    }

    pub open spec fn with_state(self, s: SchedulerView) -> ScanView {
        ScanView { s, ..self }
    }

    /// A packet set aside, with its flows held back for the rest of the turn.
    pub open spec fn held_back(self, priority: nat, body: Seq<u8>, plan: PlanView) -> ScanView {
        (ScanView {
            blocked_flows: match plan.lookup {
                Some(key) => self.blocked_flows.push(key),
                None => self.blocked_flows,
            },
            blocked_tcp: match plan.tcp_key {
                Some(key) => self.blocked_tcp.push(key),
                None => self.blocked_tcp,
            },
            ..self
        }).defer(priority, body)
    }

    /// A packet sent on its path, and on a second one where it earns that.
    pub open spec fn placed(self, body: Seq<u8>, plan: PlanView, primary: usize, now: u64) -> ScanView {
        let bytes: usize = body.len() as usize;
        let noted: ScanView = match plan.tcp_key {
            Some(key) => ScanView {
                s: self.s.tcp_noted(key, primary, bytes, now),
                backlog: if self.backlog.contains_key(key) {
                    self.backlog.insert(key, self.backlog[key].saturating_sub(bytes))
                } else {
                    self.backlog
                },
                ..self
            },
            None => self,
        };
        let id: u64 = noted.s.next_id;
        if id == u64::MAX {
            ScanView { s: noted.s.dropped(), stop: true, ..noted }
        } else {
            let numbered: SchedulerView = SchedulerView { next_id: (id + 1) as u64, ..noted.s };
            let start: SendingView = SendingView {
                s: numbered.pin_noted(plan, body.len(), primary, now),
                packet: fresh_packet(id, body, now),
                out: noted.out,
            };
            let tcp_continuity: bool = packet::spec_ipv4_tcp(body) && noted.s.policy
                == Policy::Continuity;
            let done: SendingView = start.copied(primary, now).seconded(
                plan,
                primary,
                tcp_continuity,
                now,
            );
            ScanView {
                s: SchedulerView { pending: done.s.pending.push(done.packet), ..done.s },
                out: done.out,
                sent: noted.sent + 1,
                ..noted
            }
        }
    }

    /// What happens to the packet taken from a queue.
    pub open spec fn scanned(self, priority: nat, body: Seq<u8>, now: u64) -> ScanView {
        let held: bool = match scan_tcp_key(body) {
            Some(key) => self.blocked_tcp.contains(key),
            None => false,
        };
        if held {
            self.defer(priority, body)
        } else {
            let bytes: usize = body.len() as usize;
            let looked: (SchedulerView, Option<u128>, bool) = self.s.classified(body, now);
            let plan: PlanView = looked.0.planned(body, looked.1, looked.2, now);
            let choice: (SchedulerView, Option<usize>) = match plan.tcp_key {
                Some(key) => looked.0.tcp_placed(
                    key,
                    bytes,
                    if self.backlog.contains_key(key) {
                        self.backlog[key]
                    } else {
                        bytes
                    },
                    now,
                ),
                None => (
                    looked.0,
                    if plan.pinned is Some {
                        plan.pinned
                    } else {
                        placement::first_of(plan.targets)
                    },
                ),
            };
            let next: ScanView = self.with_state(choice.0);
            let flow_held: bool = match plan.lookup {
                Some(key) => self.blocked_flows.contains(key),
                None => false,
            };
            match choice.1 {
                Some(primary) => if plan.targets.contains(primary) && !flow_held {
                    next.placed(body, plan, primary, now)
                } else {
                    next.held_back(priority, body, plan)
                },
                None => next.held_back(priority, body, plan),
            }
        }
    }

    pub open spec fn counted(self) -> ScanView {
        self.with_state(
            SchedulerView {
                counters: Counters {
                    queue_scans: self.s.counters.queue_scans.wrapping_add(1),
                    ..self.s.counters
                },
                ..self.s
            },
        )
    }

    /// One step of the scan: stop where nothing fits any more, else take the
    /// next packet, urgent ones first.
    pub open spec fn stepped(self, setting: ScanSetting) -> ScanView {
        let s: SchedulerView = self.s;
        if !room_left(s.paths, setting) {
            ScanView {
                s: SchedulerView {
                    counters: Counters {
                        budget_blocked_turns: s.counters.budget_blocked_turns.wrapping_add(1),
                        ..s.counters
                    },
                    ..s
                },
                stop: true,
                ..self
            }
        } else if s.urgent.len() > 0 {
            self.with_state(SchedulerView { urgent: s.urgent.drop_first(), ..s }).counted().scanned(
                0,
                s.urgent[0],
                setting.now,
            )
        } else if s.streaming.len() > 0 {
            self.with_state(
                SchedulerView { streaming: s.streaming.drop_first(), ..s },
            ).counted().scanned(1, s.streaming[0], setting.now)
        } else if s.queued.len() > 0 {
            self.with_state(SchedulerView { queued: s.queued.drop_first(), ..s }).counted().scanned(
                2,
                s.queued[0],
                setting.now,
            )
        } else {
            ScanView { stop: true, ..self }
        }
    }

    /// At most `budget` steps, and at most one turn's packets.
    pub open spec fn run(self, setting: ScanSetting, budget: nat) -> ScanView
        decreases budget,
    {
        if budget == 0 || self.stop || self.sent >= TURN_PACKETS {
            self
        } else {
            self.stepped(setting).run(setting, (budget - 1) as nat)
        }
    }

    /// Packets set aside go back to the front of their queues, in order.
    pub open spec fn restored(self) -> SchedulerView {
        SchedulerView {
            urgent: self.deferred_urgent + self.s.urgent,
            streaming: self.deferred_streaming + self.s.streaming,
            queued: self.deferred_queued + self.s.queued,
            ..self.s
        }
    }
}

impl SchedulerView {
    pub open spec fn setting(self, data: Seq<usize>, now: u64) -> ScanSetting {
        ScanSetting {
            now,
            data,
            least_priority: least_len_where(
                self.queued,
                self.queued.len(),
                true,
                least_len(
                    self.streaming,
                    self.streaming.len(),
                    least_len(self.urgent, self.urgent.len(), None),
                ),
            ),
            least_bulk: least_len_where(self.queued, self.queued.len(), false, None),
        }
    }

    pub open spec fn scan_start(self, out: Seq<FrameView>) -> ScanView {
        ScanView {
            s: self,
            out,
            deferred_urgent: Seq::empty(),
            deferred_streaming: Seq::empty(),
            deferred_queued: Seq::empty(),
            blocked_flows: Seq::empty(),
            blocked_tcp: Seq::empty(),
            backlog: backlogs(self.queued, self.queued.len()),
            sent: 0,
            stop: false,
        }
    }

    /// The repairs of a turn, given the paths that carry data.
    pub open spec fn mended(self, out: Seq<FrameView>, data: Seq<usize>, now: u64) -> (
        SchedulerView,
        Seq<FrameView>,
    ) {
        let fast: (SchedulerView, Seq<FrameView>) = self.all_fast_repaired(
            self.fast_due(data, now, self.pending.len()),
            now,
        );
        let guarded: ProtectionView = (ProtectionView {
            s: fast.0,
            out: out + fast.1,
            blocked: Seq::empty(),
            sent: 0,
        }).all_protected(fast.0.protection_waiting(fast.0.pending.len()), now);
        let due: (SchedulerView, Seq<u64>) = guarded.s.due_found(
            data,
            now,
            guarded.s.pending.len(),
        );
        let done: (SchedulerView, Seq<FrameView>) = due.0.all_repaired(due.1, data, now);
        (done.0, guarded.out + done.1)
    }

    /// State and frames after a turn.
    pub open spec fn ticked(self, now: u64) -> (SchedulerView, Seq<FrameView>) {
        let begun: (SchedulerView, Seq<FrameView>) = self.begun(now);
        let data: Seq<usize> = begun.0.data_paths(now);
        let mended: (SchedulerView, Seq<FrameView>) = begun.0.mended(begun.1, data, now);
        let scanned: ScanView = mended.0.scan_start(mended.1).run(
            mended.0.setting(data, now),
            mended.0.waiting(),
        );
        (scanned.restored(), scanned.out)
    }
}

// ---- Execution -----------------------------------------------------------------

/// What a scan keeps besides the scheduler.
struct Scan {
    output: Vec<Frame>,
    deferred_urgent: VecDeque<Vec<u8>>,
    deferred_streaming: VecDeque<Vec<u8>>,
    deferred_queued: VecDeque<Vec<u8>>,
    blocked_flows: Vec<u128>,
    blocked_tcp: Vec<u128>,
    backlog: Table<usize>,
    sent: usize,
    stop: bool,
}

spec fn scan_view(s: SchedulerView, scan: Scan) -> ScanView {
    ScanView {
        s,
        out: frame::frame_views(scan.output@),
        deferred_urgent: bond::bodies(scan.deferred_urgent@),
        deferred_streaming: bond::bodies(scan.deferred_streaming@),
        deferred_queued: bond::bodies(scan.deferred_queued@),
        blocked_flows: scan.blocked_flows@,
        blocked_tcp: scan.blocked_tcp@,
        backlog: scan.backlog@,
        sent: scan.sent as nat,
        stop: scan.stop,
    }
}

struct Plan {
    tcp_key: Option<u128>,
    logical: Option<u128>,
    interactive: bool,
    protected_media: bool,
    protect_udp: bool,
    sensitive: bool,
    targets: Vec<usize>,
    lookup: Option<u128>,
    pinned: Option<usize>,
}

impl View for Plan {
    type V = PlanView;

    closed spec fn view(&self) -> PlanView {
        PlanView {
            tcp_key: self.tcp_key,
            logical: self.logical,
            interactive: self.interactive,
            protected_media: self.protected_media,
            protect_udp: self.protect_udp,
            sensitive: self.sensitive,
            targets: self.targets@,
            lookup: self.lookup,
            pinned: self.pinned,
        }
    }
}

fn less(least: Option<usize>, len: usize) -> (r: Option<usize>)
    ensures
        r == lesser(least, len),
{
    match least {
        None => Some(len),
        Some(other) => Some(
            if other <= len {
                other
            } else {
                len
            },
        ),
    }
}

fn shortest(queue: &VecDeque<Vec<u8>>, start: Option<usize>) -> (r: Option<usize>)
    ensures
        r == least_len(bond::bodies(queue@), queue@.len(), start),
{
    let mut least: Option<usize> = start;
    let mut i: usize = 0;
    while i < queue.len()
        invariant
            i <= queue@.len(),
            least == least_len(bond::bodies(queue@), i as nat, start),
        decreases queue@.len() - i,
    {
        least = less(least, queue[i].len());
        i = i + 1;
    }
    least
}

fn is_udp(body: &Vec<u8>) -> (r: bool)
    ensures
        r == packet::spec_protocol(body@, 17),
{
    body.len() > 9 && body[9] == 17
}

fn shortest_where(queue: &VecDeque<Vec<u8>>, udp: bool, start: Option<usize>) -> (r: Option<usize>)
    ensures
        r == least_len_where(bond::bodies(queue@), queue@.len(), udp, start),
{
    let mut least: Option<usize> = start;
    let mut i: usize = 0;
    while i < queue.len()
        invariant
            i <= queue@.len(),
            least == least_len_where(bond::bodies(queue@), i as nat, udp, start),
        decreases queue@.len() - i,
    {
        if is_udp(&queue[i]) == udp {
            least = less(least, queue[i].len());
        }
        i = i + 1;
    }
    least
}

fn count_backlogs(queue: &VecDeque<Vec<u8>>) -> (r: Table<usize>)
    ensures
        r.wf(),
        r@ == backlogs(bond::bodies(queue@), queue@.len()),
{
    let mut backlog: Table<usize> = Table::new();
    let mut i: usize = 0;
    while i < queue.len()
        invariant
            backlog.wf(),
            i <= queue@.len(),
            backlog@ == backlogs(bond::bodies(queue@), i as nat),
        decreases queue@.len() - i,
    {
        match packet::tcp_flow_key(queue[i].as_slice()) {
            Some(key) => {
                let bytes: usize = match backlog.get(key) {
                    Some(bytes) => bytes,
                    None => 0,
                };
                backlog.insert(key, bytes.wrapping_add(queue[i].len()));
            },
            None => {},
        }
        i = i + 1;
    }
    backlog
}

fn other_than(list: &Vec<usize>, primary: usize) -> (r: Option<usize>)
    ensures
        r == first_other(list@, primary, 0),
        match r {
            Some(index) => list@.contains(index),
            None => true,
        },
{
    let mut i: usize = 0;
    while i < list.len()
        invariant
            i <= list@.len(),
            first_other(list@, primary, i as int) == first_other(list@, primary, 0),
        decreases list@.len() - i,
    {
        if list[i] != primary {
            assert(list@.contains(list@[i as int]));
            return Some(list[i]);
        }
        i = i + 1;
    }
    None
}

proof fn lemma_contained_within(list: Seq<usize>, n: nat, index: usize)
    requires
        placement::within(list, n),
        list.contains(index),
    ensures
        index < n,
{
    let i: int = choose|i: int| 0 <= i < list.len() && list[i] == index;
    assert(list[i] < n);
}

impl Scheduler {
    fn plan(&self, body: &Vec<u8>, logical: Option<u128>, srt: bool, now: u64) -> (r: Plan)
        requires
            self.sound(),
        ensures
            r@ == self@.planned(body@, logical, srt, now),
            placement::within(r@.targets, self@.n()),
    {
        let ip: &[u8] = body.as_slice();
        let bytes: usize = body.len();
        let interactive: bool = packet::interactive(ip);
        let continuity: bool = match self.policy {
            Policy::Continuity => true,
            _ => false,
        };
        let saver: bool = match self.policy {
            Policy::DataSaver => true,
            _ => false,
        };
        let continuity_udp: bool = continuity && packet::ipv4_udp(ip);
        let protected_media: bool = srt || packet::is_realtime_media(ip) || continuity_udp;
        let protect_udp: bool = protected_media && !saver;
        let sensitive: bool = interactive || packet::streaming(ip) || srt || continuity_udp;
        let mut targets: Vec<usize> = self.targets(bytes, sensitive, now);
        if protect_udp && targets.len() == 0 {
            targets = self.udp_protection_targets(bytes, now);
        }
        let lookup: Option<u128> = match logical {
            Some(flow) => Some(flow),
            None => packet::udp_flow_key(ip),
        };
        let pinned: Option<usize> = match lookup {
            Some(key) => match self.flow_paths.get(key) {
                Some(pin) => {
                    let eligible: bool = if protected_media {
                        placement::holds(&targets, pin.path)
                    } else {
                        placement::holds(&self.placement_paths(sensitive, now), pin.path)
                    };
                    if eligible {
                        Some(pin.path)
                    } else {
                        None
                    }
                },
                None => None,
            },
            None => None,
        };
        let tcp_key: Option<u128> = if interactive {
            None
        } else {
            packet::tcp_flow_key(ip)
        };
        Plan {
            tcp_key,
            logical,
            interactive,
            protected_media,
            protect_udp,
            sensitive,
            targets,
            lookup,
            pinned,
        }
    }

    fn note_pin(&mut self, plan: &Plan, len: usize, primary: usize, now: u64)
        requires
            old(self).sound(),
        ensures
            final(self).sound(),
            final(self)@ == old(self)@.pin_noted(plan@, len as nat, primary, now),
            final(self)@.n() == old(self)@.n(),
            final(self)@.names == old(self)@.names,
            final(self)@.pending == old(self)@.pending,
            final(self)@.waiting() == old(self)@.waiting(),
            final(self)@.next_id == old(self)@.next_id,
            final(self)@.policy == old(self)@.policy,
    {
        let ghost before: SchedulerView = self@;
        let key: Option<u128> = if len >= 500 && plan.logical.is_some() {
            plan.logical
        } else if plan.pinned.is_some() {
            plan.lookup
        } else {
            None
        };
        match key {
            Some(flow) => {
                if self.flow_paths.len() < MAX_FLOW_PINS || self.flow_paths.contains(flow) {
                    self.flow_paths.insert(flow, FlowPin { path: primary, seen: now });
                }
            },
            None => {},
        }
        assert(self@ =~= before.pin_noted(plan@, len as nat, primary, now));
    }
}

impl Scheduler {
    /// Sends a copy of a packet that is not in the list yet.
    fn send_new(&mut self, packet: &mut Pending, index: usize, now: u64, output: &mut Vec<Frame>)
        requires
            old(self).sound(),
            index < old(self)@.n(),
            old(packet)@.wf(old(self)@.n()),
        ensures
            final(self).sound(),
            final(packet)@.wf(final(self)@.n()),
            same_queues(old(self)@, final(self)@),
            (SendingView {
                s: final(self)@,
                packet: final(packet)@,
                out: frame::frame_views(final(output)@),
            }) == (SendingView {
                s: old(self)@,
                packet: old(packet)@,
                out: frame::frame_views(old(output)@),
            }).copied(index, now),
    {
        let ghost start: SendingView = SendingView {
            s: self@,
            packet: packet@,
            out: frame::frame_views(output@),
        };
        let frame: Frame = flight::send_copy(&mut self.paths, packet, index, now);
        output.push(frame);
        proof {
            flight::lemma_with_attempt(
                start.packet.attempts,
                index,
                now,
                start.s.paths[index as int].generation,
                start.s.n(),
            );
            assert(self@ =~= start.copied(index, now).s);
            assert(frame::frame_views(output@) =~= start.copied(index, now).out);
        }
    }

    /// Sends or reserves the second copy of a packet, where it gets one.
    #[verifier::rlimit(40)]
    fn send_second(
        &mut self,
        packet: &mut Pending,
        plan: &Plan,
        primary: usize,
        tcp_continuity: bool,
        now: u64,
        output: &mut Vec<Frame>,
    )
        requires
            old(self).sound(),
            primary < old(self)@.n(),
            old(packet)@.wf(old(self)@.n()),
            placement::within(plan@.targets, old(self)@.n()),
        ensures
            final(self).sound(),
            final(packet)@.wf(final(self)@.n()),
            final(packet)@.id == old(packet)@.id,
            same_queues(old(self)@, final(self)@),
            (SendingView {
                s: final(self)@,
                packet: final(packet)@,
                out: frame::frame_views(final(output)@),
            }) == (SendingView {
                s: old(self)@,
                packet: old(packet)@,
                out: frame::frame_views(old(output)@),
            }).seconded(plan@, primary, tcp_continuity, now),
    {
        let ghost start: SendingView = SendingView {
            s: self@,
            packet: packet@,
            out: frame::frame_views(output@),
        };
        let bytes: usize = packet.body.len();
        let alternate: usize = {
            let found: Option<usize> = if plan.protect_udp || tcp_continuity {
                let data: Vec<usize> = self.data_paths(now);
                let found: Option<usize> = other_than(&data, primary);
                proof {
                    if found is Some {
                        lemma_contained_within(data@, self@.n(), found->0);
                    }
                }
                found
            } else {
                let found: Option<usize> = other_than(&plan.targets, primary);
                proof {
                    if found is Some {
                        lemma_contained_within(plan@.targets, self@.n(), found->0);
                    }
                }
                found
            };
            match found {
                Some(index) => index,
                None => {
                    return;
                },
            }
        };
        let continuity: bool = match self.policy {
            Policy::Continuity => true,
            _ => false,
        };
        let saver: bool = match self.policy {
            Policy::DataSaver => true,
            _ => false,
        };
        let p: Path = self.paths[alternate];
        let recovery: Binary64 = Binary64::whole(3).times(Binary64::whole(PROBE_MS)).plus(
            p.rtt_or(100),
        ).plus(
            Binary64::whole(p.in_flight.wrapping_add(bytes) as u64).over(
                p.estimated_bytes_per_ms(),
            ),
        );
        let by_class: bool = plan.interactive && plan.pinned.is_none() && !saver && (continuity
            || packet::is_realtime_media(packet.body.as_slice()) || recovery.ge(
            Binary64::whole(100),
        ) || self.paths[primary].state == PathState::Degraded);
        assert(by_class == start.interactive_protected(plan@, primary, alternate));
        let funded: bool = tcp_continuity && self.reserve_tcp_continuity(bytes, now);
        if plan.protect_udp || by_class || funded {
            let eligible: bool = if plan.protect_udp {
                placement::holds(&self.udp_protection_targets(bytes, now), alternate)
            } else if funded {
                placement::holds(&self.tcp_protection_targets(bytes, now), alternate)
            } else {
                placement::holds(&plan.targets, alternate)
            };
            if eligible {
                self.send_new(packet, alternate, now, output);
                self.counters.protection_copies = self.counters.protection_copies.wrapping_add(1);
            } else {
                packet.protection_path = Some(alternate);
                self.counters.protection_deferred =
                self.counters.protection_deferred.wrapping_add(1);
            }
        }
        assert(self@ =~= start.seconded(plan@, primary, tcp_continuity, now).s);
        assert(packet@ =~= start.seconded(plan@, primary, tcp_continuity, now).packet);
    }
}

/// The two have the same packets waiting, pending and numbered.
spec fn same_queues(a: SchedulerView, b: SchedulerView) -> bool {
    &&& a.n() == b.n()
    &&& a.names == b.names
    &&& a.pending == b.pending
    &&& a.queued == b.queued
    &&& a.urgent == b.urgent
    &&& a.streaming == b.streaming
    &&& a.next_id == b.next_id
}

impl Scan {
    fn defer(&mut self, priority: usize, body: Vec<u8>, Ghost(s): Ghost<SchedulerView>)
        ensures
            scan_view(s, *final(self)) == scan_view(s, *old(self)).defer(priority as nat, body@),
            final(self).backlog == old(self).backlog,
    {
        let ghost start: ScanView = scan_view(s, *self);
        if priority == 0 {
            self.deferred_urgent.push_back(body);
        } else if priority == 1 {
            self.deferred_streaming.push_back(body);
        } else {
            self.deferred_queued.push_back(body);
        }
        assert(scan_view(s, *self) =~= start.defer(priority as nat, body@));
    }

    fn hold_back(
        &mut self,
        priority: usize,
        body: Vec<u8>,
        plan: &Plan,
        Ghost(s): Ghost<SchedulerView>,
    )
        ensures
            scan_view(s, *final(self)) == scan_view(s, *old(self)).held_back(
                priority as nat,
                body@,
                plan@,
            ),
            final(self).backlog == old(self).backlog,
    {
        match plan.lookup {
            Some(key) => {
                self.blocked_flows.push(key);
            },
            None => {},
        }
        match plan.tcp_key {
            Some(key) => {
                self.blocked_tcp.push(key);
            },
            None => {},
        }
        self.defer(priority, body, Ghost(s));
    }
}

impl Scheduler {
    /// Sends a packet on its path.
    #[verifier::rlimit(60)]
    fn place(&mut self, scan: &mut Scan, body: Vec<u8>, plan: &Plan, primary: usize, now: u64)
        requires
            old(self).sound(),
            old(scan).backlog.wf(),
            primary < old(self)@.n(),
            placement::within(plan@.targets, old(self)@.n()),
            scan_view(old(self)@, *old(scan)).wf(),
            old(self)@.waiting() + old(self)@.pending.len() + scan_view(
                old(self)@,
                *old(scan),
            ).deferred_len() < MAX_PENDING,
            old(scan).sent < TURN_PACKETS,
        ensures
            final(self).sound(),
            final(scan).backlog.wf(),
            final(self)@.n() == old(self)@.n(),
            final(self)@.names == old(self)@.names,
            final(scan).sent <= TURN_PACKETS,
            scan_view(final(self)@, *final(scan)).wf(),
            scan_view(final(self)@, *final(scan)) == scan_view(old(self)@, *old(scan)).placed(
                body@,
                plan@,
                primary,
                now,
            ),
    {
        let ghost start: ScanView = scan_view(self@, *scan);
        let ghost text: Seq<u8> = body@;
        let bytes: usize = body.len();
        match plan.tcp_key {
            Some(key) => {
                self.note_tcp_placement(key, primary, bytes, now);
                match scan.backlog.get(key) {
                    Some(waiting) => {
                        scan.backlog.insert(key, waiting.saturating_sub(bytes));
                    },
                    None => {},
                }
            },
            None => {},
        }
        let ghost noted: ScanView = scan_view(self@, *scan);
        let id: u64 = self.next_id;
        if id == u64::MAX {
            self.counters.queue_drops = self.counters.queue_drops.wrapping_add(1);
            scan.stop = true;
            assert(scan_view(self@, *scan) =~= start.placed(text, plan@, primary, now));
            return;
        }
        let continuity: bool = match self.policy {
            Policy::Continuity => true,
            _ => false,
        };
        let tcp_continuity: bool = packet::ipv4_tcp(body.as_slice()) && continuity;
        self.next_id = id + 1;
        assert(self@ =~= (SchedulerView { next_id: (id + 1) as u64, ..noted.s }));
        self.note_pin(plan, bytes, primary, now);
        let attempts: Vec<Attempt> = Vec::new();
        let mut packet: Pending = Pending {
            id,
            body,
            born: now,
            attempts,
            last_repair: now,
            protection_path: None,
            tcp_early_repair_deferred: false,
            fast_repair_path: None,
            repaired: false,
        };
        assert(packet@ =~= fresh_packet(id, text, now));
        self.send_new(&mut packet, primary, now, &mut scan.output);
        self.send_second(
            &mut packet,
            plan,
            primary,
            tcp_continuity,
            now,
            &mut scan.output,
        );
        let ghost sent: SchedulerView = self@;
        let ghost last: PendingView = packet@;
        self.pending.push(packet);
        scan.sent = scan.sent + 1;
        proof {
            assert(flight::pending_views(self.pending@) =~= sent.pending.push(last));
            assert(self@ =~= (SchedulerView { pending: sent.pending.push(last), ..sent }));
            assert(bond::pending_ordered(self@.pending));
            assert(scan_view(self@, *scan) =~= start.placed(text, plan@, primary, now));
        }
    }

    /// Places the packet taken from a queue, or sets it aside.
    #[verifier::rlimit(40)]
    fn scan_packet(&mut self, scan: &mut Scan, priority: usize, body: Vec<u8>, now: u64)
        requires
            old(self).sound(),
            old(scan).backlog.wf(),
            scan_view(old(self)@, *old(scan)).wf(),
            old(self)@.waiting() + old(self)@.pending.len() + scan_view(
                old(self)@,
                *old(scan),
            ).deferred_len() < MAX_PENDING,
            old(scan).sent < TURN_PACKETS,
        ensures
            final(self).sound(),
            final(scan).backlog.wf(),
            final(self)@.n() == old(self)@.n(),
            final(self)@.names == old(self)@.names,
            final(scan).sent <= TURN_PACKETS,
            scan_view(final(self)@, *final(scan)).wf(),
            scan_view(final(self)@, *final(scan)) == scan_view(old(self)@, *old(scan)).scanned(
                priority as nat,
                body@,
                now,
            ),
    {
        let ghost start: ScanView = scan_view(self@, *scan);
        let key: Option<u128> = if packet::interactive(body.as_slice()) {
            None
        } else {
            packet::tcp_flow_key(body.as_slice())
        };
        let held: bool = match key {
            Some(flow) => placement::holds_key(&scan.blocked_tcp, flow),
            None => false,
        };
        if held {
            scan.defer(priority, body, Ghost(self@));
            return;
        }
        let bytes: usize = body.len();
        let (logical, srt) = self.classify_udp_flow(body.as_slice(), now);
        let plan: Plan = self.plan(&body, logical, srt, now);
        let ghost looked: SchedulerView = self@;
        let primary: Option<usize> = match plan.tcp_key {
            Some(flow) => {
                let backlog: usize = match scan.backlog.get(flow) {
                    Some(waiting) => waiting,
                    None => bytes,
                };
                self.tcp_target(flow, bytes, backlog, now)
            },
            None => if plan.pinned.is_some() {
                plan.pinned
            } else {
                placement::first(&plan.targets)
            },
        };
        let flow_held: bool = match plan.lookup {
            Some(flow) => placement::holds_key(&scan.blocked_flows, flow),
            None => false,
        };
        assert(scan_view(self@, *scan) =~= start.with_state(self@));
        match primary {
            Some(index) => {
                if placement::holds(&plan.targets, index) && !flow_held {
                    proof {
                        lemma_contained_within(plan@.targets, looked.n(), index);
                    }
                    self.place(scan, body, &plan, index, now);
                } else {
                    scan.hold_back(priority, body, &plan, Ghost(self@));
                }
            },
            None => {
                scan.hold_back(priority, body, &plan, Ghost(self@));
            },
        }
    }

    fn has_room(&self, data: &Vec<usize>, priority: Option<usize>, bulk: Option<usize>, now: u64) -> (r:
        bool)
        requires
            placement::within(data@, self@.n()),
        ensures
            r == room_left(
                self@.paths,
                (ScanSetting { now, data: data@, least_priority: priority, least_bulk: bulk }),
            ),
    {
        let ghost setting: ScanSetting = ScanSetting {
            now,
            data: data@,
            least_priority: priority,
            least_bulk: bulk,
        };
        let mut i: usize = 0;
        while i < data.len()
            invariant
                i <= data@.len(),
                setting.now == now,
                setting.data == data@,
                setting.least_priority == priority,
                setting.least_bulk == bulk,
                placement::within(data@, self@.n()),
                forall|j: int|
                    0 <= j < i ==> {
                        let p: Path = self@.paths[(#[trigger] setting.data[j]) as int];
                        !fits(p, priority, true, now) && !fits(p, bulk, false, now)
                    },
            decreases data@.len() - i,
        {
            let p: Path = self.paths[data[i]];
            let urgent: bool = match priority {
                Some(bytes) => p.send_budget_allows(bytes, true, now),
                None => false,
            };
            let large: bool = match bulk {
                Some(bytes) => p.send_budget_allows(bytes, false, now),
                None => false,
            };
            if urgent || large {
                assert(setting.data[i as int] == data@[i as int]);
                return true;
            }
            i = i + 1;
        }
        false
    }

    /// One step of the scan.
    #[verifier::rlimit(40)]
    fn scan_step(
        &mut self,
        scan: &mut Scan,
        data: &Vec<usize>,
        priority: Option<usize>,
        bulk: Option<usize>,
        now: u64,
    )
        requires
            old(self).sound(),
            old(scan).backlog.wf(),
            placement::within(data@, old(self)@.n()),
            scan_view(old(self)@, *old(scan)).wf(),
            old(scan).sent < TURN_PACKETS,
        ensures
            final(self).sound(),
            final(scan).backlog.wf(),
            final(self)@.n() == old(self)@.n(),
            final(self)@.names == old(self)@.names,
            final(scan).sent <= TURN_PACKETS,
            scan_view(final(self)@, *final(scan)).wf(),
            scan_view(final(self)@, *final(scan)) == scan_view(old(self)@, *old(scan)).stepped(
                (ScanSetting { now, data: data@, least_priority: priority, least_bulk: bulk }),
            ),
    {
        let ghost start: ScanView = scan_view(self@, *scan);
        let ghost before: SchedulerView = self@;
        let ghost setting: ScanSetting = ScanSetting {
            now,
            data: data@,
            least_priority: priority,
            least_bulk: bulk,
        };
        if !self.has_room(data, priority, bulk, now) {
            self.counters.budget_blocked_turns =
            self.counters.budget_blocked_turns.wrapping_add(1);
            scan.stop = true;
            assert(scan_view(self@, *scan) =~= start.stepped(setting));
            return;
        }
        let (class, body): (usize, Vec<u8>) = if self.urgent.len() > 0 {
            (0, self.urgent.pop_front().unwrap())
        } else if self.streaming.len() > 0 {
            (1, self.streaming.pop_front().unwrap())
        } else if self.queued.len() > 0 {
            (2, self.queued.pop_front().unwrap())
        } else {
            scan.stop = true;
            assert(scan_view(self@, *scan) =~= start.stepped(setting));
            return;
        };
        self.counters.queue_scans = self.counters.queue_scans.wrapping_add(1);
        proof {
            if class == 0 {
                assert(bond::bodies(self.urgent@) =~= before.urgent.drop_first());
                assert(scan_view(self@, *scan) =~= start.with_state(
                    SchedulerView { urgent: before.urgent.drop_first(), ..before },
                ).counted());
            } else if class == 1 {
                assert(bond::bodies(self.streaming@) =~= before.streaming.drop_first());
                assert(scan_view(self@, *scan) =~= start.with_state(
                    SchedulerView { streaming: before.streaming.drop_first(), ..before },
                ).counted());
            } else {
                assert(bond::bodies(self.queued@) =~= before.queued.drop_first());
                assert(scan_view(self@, *scan) =~= start.with_state(
                    SchedulerView { queued: before.queued.drop_first(), ..before },
                ).counted());
            }
        }
        self.scan_packet(scan, class, body, now);
    }

    fn restore(&mut self, scan: Scan) -> (r: Vec<Frame>)
        requires
            old(self).sound(),
            scan_view(old(self)@, scan).wf(),
        ensures
            final(self).sound(),
            final(self)@ == scan_view(old(self)@, scan).restored(),
            frame::frame_views(r@) == scan_view(old(self)@, scan).out,
    {
        let ghost start: ScanView = scan_view(self@, scan);
        let mut kept: Scan = scan;
        kept.deferred_urgent.append(&mut self.urgent);
        kept.deferred_streaming.append(&mut self.streaming);
        kept.deferred_queued.append(&mut self.queued);
        self.urgent = kept.deferred_urgent;
        self.streaming = kept.deferred_streaming;
        self.queued = kept.deferred_queued;
        proof {
            assert(bond::bodies(self.urgent@) =~= start.deferred_urgent + start.s.urgent);
            assert(bond::bodies(self.streaming@) =~= start.deferred_streaming
                + start.s.streaming);
            assert(bond::bodies(self.queued@) =~= start.deferred_queued + start.s.queued);
            assert(self@ =~= start.restored());
        }
        kept.output
    }

    /// Looks through the queues once and places what the paths take.
    fn scan_queues(&mut self, data: &Vec<usize>, now: u64, output: Vec<Frame>) -> (r: Vec<Frame>)
        requires
            old(self).sound(),
            placement::within(data@, old(self)@.n()),
        ensures
            final(self).sound(),
            final(self)@.n() == old(self)@.n(),
            final(self)@.names == old(self)@.names,
            ({
                let end: ScanView = old(self)@.scan_start(frame::frame_views(output@)).run(
                    old(self)@.setting(data@, now),
                    old(self)@.waiting(),
                );
                final(self)@ == end.restored() && frame::frame_views(r@) == end.out
            }),
    {
        let ghost before: SchedulerView = self@;
        let ghost setting: ScanSetting = self@.setting(data@, now);
        let priority: Option<usize> = shortest_where(
            &self.queued,
            true,
            shortest(&self.streaming, shortest(&self.urgent, None)),
        );
        let bulk: Option<usize> = shortest_where(&self.queued, false, None);
        let mut budget: usize = self.queued_packets();
        let mut scan: Scan = Scan {
            output,
            deferred_urgent: VecDeque::new(),
            deferred_streaming: VecDeque::new(),
            deferred_queued: VecDeque::new(),
            blocked_flows: Vec::new(),
            blocked_tcp: Vec::new(),
            backlog: count_backlogs(&self.queued),
            sent: 0,
            stop: false,
        };
        let ghost start: ScanView = before.scan_start(frame::frame_views(output@));
        let ghost target: ScanView = start.run(setting, before.waiting());
        assert(scan_view(self@, scan) =~= start);
        while budget > 0 && !scan.stop && scan.sent < TURN_PACKETS
            invariant
                self.sound(),
                scan.backlog.wf(),
                self@.n() == before.n(),
                self@.names == before.names,
                placement::within(data@, before.n()),
                scan.sent <= TURN_PACKETS,
                setting.now == now,
                setting.data == data@,
                setting.least_priority == priority,
                setting.least_bulk == bulk,
                scan_view(self@, scan).wf(),
                scan_view(self@, scan).run(setting, budget as nat) == target,
            decreases budget,
        {
            assert(setting =~= (ScanSetting {
                now,
                data: data@,
                least_priority: priority,
                least_bulk: bulk,
            }));
            self.scan_step(&mut scan, data, priority, bulk, now);
            budget = budget - 1;
        }
        assert(scan_view(self@, scan) == target);
        self.restore(scan)
    }

    /// One scheduling turn. Returns the frames to send: probes where they are
    /// due, and then data, under numbers that were in flight or are new.
    pub fn tick(&mut self, now: u64) -> (r: Vec<Frame>)
        requires
            old(self).wf(),
        ensures
            final(self).wf(),
            final(self)@.n() == old(self)@.n(),
            final(self)@.names == old(self)@.names,
            final(self)@ == old(self)@.ticked(now).0,
            frame::frame_views(r@) == old(self)@.ticked(now).1,
            turn_frames::probes_then_data(
                old(self)@,
                final(self)@,
                frame::frame_views(r@),
                now,
            ),
            turn_numbers::data_numbered(old(self)@, final(self)@, frame::frame_views(r@), now),
    {
        proof {
            ack_laws::turn_keeps_settled_apart(self@, now);
            turn_frames::turn_sends_probes_and_data(self@, now);
            turn_numbers::turn_frames_bear_numbers(self@, now);
        }
        let mut output: Vec<Frame> = self.begin_turn(now);
        let data: Vec<usize> = self.data_paths(now);
        self.run_fast_repairs(&data, now, &mut output);
        self.run_protection(now, &mut output);
        self.run_repairs(&data, now, &mut output);
        self.scan_queues(&data, now, output)
    }
}

} // verus!
