//! What holds of a bond as a whole.
use crate::binary64::Binary64;
use crate::bond;
use crate::bond::{Policy, SchedulerView, TURN_PACKETS};
use crate::flight;
use crate::frame;
use crate::frame::{FrameView, Kind, BOND_MTU};
use crate::path;
use crate::path::{Path, PathState, LATENCY_CUTOFF_MS, LATENCY_RECOVERY_MS, MAX_WINDOW};
use crate::placement;
use crate::repair::ProtectionView;
use crate::turn::{PlanView, ScanSetting, ScanView, SendingView};
use vstd::multiset::Multiset;
use vstd::prelude::*;

verus! {

/// A path that failed is counted and announced once: failing it again changes
/// neither the count nor the announcements.
pub proof fn failure_is_counted_once(s: SchedulerView, i: int, first: bool, again: bool)
    requires
        0 <= i,
    ensures
        ({
            let once: SchedulerView = s.path_failed(i, first);
            let twice: SchedulerView = once.path_failed(i, again);
            twice.counters == once.counters && twice.notices == once.notices
        }),
{
}

/// A failure that the peer told of is not announced to it.
pub proof fn remote_failure_is_not_announced(s: SchedulerView, i: int)
    ensures
        s.path_failed(i, false).notices == s.notices,
{
}

/// A packet is delivered once, whichever paths its copies take; every copy is
/// acknowledged on the path that it came on.
pub proof fn packet_is_delivered_once(
    s: SchedulerView,
    first: FrameView,
    copy: FrameView,
    now: u64,
    later: u64,
)
    requires
        first.kind == Kind::Data,
        copy.kind == Kind::Data,
        copy.id == first.id,
        first.path < s.n(),
        copy.path < s.n(),
        !s.refused.contains(first.id),
    ensures
        ({
            let (after, packet, answers) = s.after_frame(first, now);
            &&& packet == Some(first.body)
            &&& answers == seq![
                frame::spec_control(Kind::Ack, first.path, first.id, first.stamp),
            ]
            &&& after.after_frame(copy, later).1 is None
            &&& after.after_frame(copy, later).2 == seq![
                frame::spec_control(Kind::Ack, copy.path, copy.id, copy.stamp),
            ]
        }),
{
}

/// An acknowledgement of a copy that went out before its path came back counts
/// for nothing.
pub proof fn old_acknowledgement_is_ignored(
    s: SchedulerView,
    index: usize,
    id: u64,
    stamp: u64,
    now: u64,
)
    requires
        bond::is_pending(s.pending, id),
        match flight::attempt_on(
            s.pending[bond::pending_slot(s.pending, id, 0)].attempts,
            index,
        ) {
            Some(attempt) => attempt.generation != s.paths[index as int].generation,
            None => true,
        },
    ensures
        s.acked(index, id, stamp, now) == s,
{
}

/// A path that comes back after it has carried data is only probed: it is not
/// ready at any time before an answer ends its probation.
pub proof fn returning_path_is_probed_first(p: Path, metered: bool, now: u64)
    requires
        !p.enabled || p.state == PathState::Failed || p.state == PathState::Removed,
        p.sent_bytes > 0 || p.received_bytes > 0 || p.acknowledged_bytes > 0,
    ensures
        !bond::readmitted(p, metered).ready(now),
        bond::readmitted(p, metered).generation == p.generation.wrapping_add(1),
        bond::readmitted(p, metered).in_flight == 0,
{
}

/// At the cutoff a path is excluded from delay-sensitive traffic, below the
/// recovery limit it is let back, and in between it stays as it was.
pub proof fn exclusion_is_sticky(p: Path)
    ensures
        p.rtt_or(0).ge(Binary64::whole(LATENCY_CUTOFF_MS)) ==> p.exclusion(),
        !p.rtt_or(0).ge(Binary64::whole(LATENCY_CUTOFF_MS)) && !p.rtt_or(0).lt(
            Binary64::whole(LATENCY_RECOVERY_MS),
        ) ==> p.exclusion() == p.latency_excluded,
        !p.rtt_or(0).ge(Binary64::whole(LATENCY_CUTOFF_MS)) && p.rtt_or(0).lt(
            Binary64::whole(LATENCY_RECOVERY_MS),
        ) && p.good_samples >= 3 ==> !p.exclusion(),
{
}

/// An answer never enlarges the window, and an acknowledgement never beyond
/// its limit.
pub proof fn window_is_bounded(p: Path, bytes: usize, stamp: u64, exact: bool, now: u64)
    requires
        p.congestion_window <= MAX_WINDOW,
    ensures
        p.observed(now, stamp).congestion_window <= p.congestion_window,
        p.capacity_acknowledged(bytes).congestion_window <= MAX_WINDOW,
        p.repair_timed_out(now, exact).congestion_window <= MAX_WINDOW,
{
    reveal(Path::observed);
    reveal(Path::capacity_noted);
    reveal(Path::capacity_acknowledged);
    reveal(Path::repair_timed_out);
}

/// An answer that comes while nothing is in flight leaves the window as it
/// was, whatever delay it shows.
pub proof fn idle_answer_keeps_window(p: Path, stamp: u64, now: u64)
    requires
        p.in_flight == 0,
    ensures
        p.observed(now, stamp).congestion_window == p.congestion_window,
        p.observed(now, stamp).slow_start_threshold == p.slow_start_threshold,
{
    reveal(Path::observed);
    reveal(Path::capacity_noted);
}

/// A loss alone leaves the window; together with a persistent queue it halves
/// it, down to a few packets.
pub proof fn loss_alone_keeps_window(p: Path, now: u64, backoff: bool)
    ensures
        !p.queue_persistent ==> p.repair_timed_out(now, backoff).congestion_window
            == p.congestion_window,
        p.repair_timed_out(now, backoff).congestion_window == p.congestion_window
            || p.repair_timed_out(now, backoff).congestion_window == path::larger_size(
            p.congestion_window / 2,
            (8 * BOND_MTU) as usize,
        ),
{
    reveal(Path::repair_timed_out);
}

proof fn lemma_up_to_has(n: nat, i: int)
    requires
        0 <= i < n,
        n <= frame::MAX_PATHS,
    ensures
        placement::up_to(n).contains(i as usize),
{
    assert(placement::up_to(n)[i] == i as usize);
}

pub proof fn lemma_same_members(a: Seq<usize>, b: Seq<usize>, x: usize)
    requires
        a.to_multiset() == b.to_multiset(),
    ensures
        a.contains(x) == b.contains(x),
{
    broadcast use vstd::seq_lib::group_to_multiset_ensures;

    assert(a.to_multiset().count(x) == b.to_multiset().count(x));
    assert(a.contains(x) <==> a.to_multiset().count(x) > 0);
    assert(b.contains(x) <==> b.to_multiset().count(x) > 0);
}

/// Data goes only over paths that are ready, and over some as soon as one is.
pub proof fn data_paths_are_ready(s: SchedulerView, now: u64)
    requires
        s.n() <= frame::MAX_PATHS,
    ensures
        forall|x: usize|
            #[trigger] s.data_paths(now).contains(x) ==> x < s.n() && s.paths[x as int].ready(now),
        (s.data_paths(now).len() > 0) == exists|i: int|
            0 <= i < s.n() && (#[trigger] s.paths[i]).ready(now),
{
    reveal(SchedulerView::data_paths);
    let n: nat = s.n();
    let all: Seq<usize> = placement::up_to(n);
    let ready_flags: Seq<bool> = bond::ready_flags(s.paths, now);
    let fresh_flags: Seq<bool> = bond::fresh_flags(s.paths, now);
    let ready: Seq<usize> = placement::kept(all, ready_flags);
    placement::lemma_kept(all, ready_flags, n);
    placement::lemma_kept(ready, fresh_flags, n);
    let fresh: Seq<usize> = bond::preferred(ready, fresh_flags);
    let near: Seq<usize> = placement::ordered(fresh, bond::delay_costs(s.paths));
    placement::ordered_is_sorted(fresh, bond::delay_costs(s.paths));
    placement::lemma_ordered_within(fresh, bond::delay_costs(s.paths), n);
    placement::lemma_kept(near, bond::unmetered_flags(s.paths), n);
    assert forall|x: usize| #[trigger] s.data_paths(now).contains(x) implies x < n
        && s.paths[x as int].ready(now) by {
        assert(near.contains(x));
        lemma_same_members(near, fresh, x);
        assert(ready.contains(x));
        assert(all.contains(x));
    }
    if exists|i: int| 0 <= i < n && (#[trigger] s.paths[i]).ready(now) {
        let i: int = choose|i: int| 0 <= i < n && (#[trigger] s.paths[i]).ready(now);
        lemma_up_to_has(n, i);
        assert(ready.contains(i as usize));
        assert(ready.len() > 0);
        assert(near.len() > 0);
    }
    if s.data_paths(now).len() > 0 {
        let x: usize = s.data_paths(now)[0];
        assert(s.data_paths(now).contains(x));
    }
}

/// To save data, metered paths carry none while an unmetered one can.
pub proof fn saver_spares_metered(s: SchedulerView, now: u64, free: usize, other: usize)
    requires
        s.wf(),
        s.policy == Policy::DataSaver,
        s.data_paths(now).contains(free),
        !s.paths[free as int].metered,
        s.data_paths(now).contains(other),
    ensures
        !s.paths[other as int].metered,
{
    reveal(SchedulerView::data_paths);
    let n: nat = s.n();
    let all: Seq<usize> = placement::up_to(n);
    let ready: Seq<usize> = placement::kept(all, bond::ready_flags(s.paths, now));
    placement::lemma_kept(all, bond::ready_flags(s.paths, now), n);
    placement::lemma_kept(ready, bond::fresh_flags(s.paths, now), n);
    let fresh: Seq<usize> = bond::preferred(ready, bond::fresh_flags(s.paths, now));
    let near: Seq<usize> = placement::ordered(fresh, bond::delay_costs(s.paths));
    placement::ordered_is_sorted(fresh, bond::delay_costs(s.paths));
    placement::lemma_ordered_within(fresh, bond::delay_costs(s.paths), n);
    placement::lemma_kept(near, bond::unmetered_flags(s.paths), n);
    let some: Seq<usize> = placement::kept(near, bond::unmetered_flags(s.paths));
    data_paths_are_ready(s, now);
    assert(near.contains(free));
    assert(bond::unmetered_flags(s.paths)[free as int]);
    assert(some.contains(free));
    assert(some.len() > 0);
    assert(some.contains(other));
    assert(other < n);
    assert(bond::unmetered_flags(s.paths)[other as int]);
}

/// Delay-sensitive traffic is kept off excluded paths while there is another,
/// and has the nearest path as a last resort: it is stopped only where all
/// traffic is.
pub proof fn sensitive_traffic_is_never_stranded(s: SchedulerView, now: u64, x: usize)
    requires
        s.wf(),
    ensures
        (s.placement_paths(true, now).len() == 0) == (s.data_paths(now).len() == 0),
        s.placement_paths(true, now).contains(x) && s.paths[x as int].latency_excluded
            ==> x == s.data_paths(now)[0] && forall|y: usize|
            #[trigger] s.data_paths(now).contains(y) ==> s.paths[y as int].latency_excluded,
{
    reveal(SchedulerView::placement_paths);
    data_paths_are_ready(s, now);
    let ready: Seq<usize> = s.data_paths(now);
    assert(placement::within(ready, s.n())) by {
        assert forall|i: int| 0 <= i < ready.len() implies #[trigger] ready[i] < s.n() by {
            assert(ready.contains(ready[i]));
        }
    }
    let flags: Seq<bool> = bond::low_delay_flags(s.paths);
    let low: Seq<usize> = placement::kept(ready, flags);
    placement::lemma_kept(ready, flags, s.n());
    if s.placement_paths(true, now).contains(x) && s.paths[x as int].latency_excluded {
        if low.len() > 0 {
            assert(low.contains(x));
            assert(ready.contains(x));
            assert(x < s.n());
            assert(flags[x as int]);
        } else if ready.len() > 1 {
            let k: int = choose|k: int| 0 <= k < 1 && ready.take(1)[k] == x;
            assert(ready.take(1)[k] == ready[0]);
        } else {
            let k: int = choose|k: int| 0 <= k < ready.len() && ready[k] == x;
            assert(k == 0);
        }
    }
    if low.len() == 0 {
        assert forall|y: usize| #[trigger] ready.contains(y) implies s.paths[y as int].latency_excluded by {
            if !s.paths[y as int].latency_excluded {
                assert(low.contains(y));
            }
        }
    }
}

/// Second copies of TCP for continuity come out of a budget that never exceeds
/// its burst, and each is paid in full.
pub proof fn continuity_budget_is_bounded(s: SchedulerView, bytes: usize, now: u64)
    ensures
        s.reserved(bytes, now).0.tokens <= bond::TCP_CONTINUITY_BURST_BYTES,
        s.reserved(bytes, now).1 ==> s.reserved(bytes, now).0.tokens + bytes == s.refilled(now),
        !s.reserved(bytes, now).1 ==> s.refilled(now) < bytes,
{
    reveal(SchedulerView::reserved);
}

/// All the packets that a scan has in its hands: those that wait, those set
/// aside, and those in flight.
pub open spec fn in_hand(v: ScanView) -> Multiset<Seq<u8>> {
    v.s.urgent.to_multiset().add(v.s.streaming.to_multiset()).add(v.s.queued.to_multiset()).add(
        v.deferred_urgent.to_multiset(),
    ).add(v.deferred_streaming.to_multiset()).add(v.deferred_queued.to_multiset()).add(
        flying(v.s),
    )
}

/// The packets in flight, in the order of their numbers.
pub open spec fn flight_bodies(s: SchedulerView) -> Seq<Seq<u8>> {
    s.pending.map_values(|p: flight::PendingView| p.body)
}

/// The packets in flight.
pub open spec fn flying(s: SchedulerView) -> Multiset<Seq<u8>> {
    flight_bodies(s).to_multiset()
}

/// Whether two states have the same packets waiting and in flight.
pub open spec fn same_packets(a: SchedulerView, b: SchedulerView) -> bool {
    a.urgent == b.urgent && a.streaming == b.streaming && a.queued == b.queued && a.pending
        == b.pending && a.next_id == b.next_id
}

proof fn lemma_push_multiset(s: Seq<Seq<u8>>, x: Seq<u8>)
    ensures
        s.push(x).to_multiset() == s.to_multiset().insert(x),
{
    s.to_multiset_ensures();
    assert(s.push(x).to_multiset() =~= s.to_multiset().insert(x));
}

proof fn lemma_drop_first_multiset(s: Seq<Seq<u8>>)
    requires
        s.len() > 0,
    ensures
        s.to_multiset() == s.drop_first().to_multiset().insert(s[0]),
{
    s.to_multiset_ensures();
    assert(s.drop_first() =~= s.remove(0));
    assert(s.to_multiset() =~= s.drop_first().to_multiset().insert(s[0]));
}

/// Whether a scan differs only in one more packet in flight, as far as
/// packets go.
pub open spec fn only_flies(before: ScanView, after: ScanView, body: Seq<u8>) -> bool {
    &&& after.s.urgent == before.s.urgent
    &&& after.s.streaming == before.s.streaming
    &&& after.s.queued == before.s.queued
    &&& after.deferred_urgent == before.deferred_urgent
    &&& after.deferred_streaming == before.deferred_streaming
    &&& after.deferred_queued == before.deferred_queued
    &&& after.blocked_tcp == before.blocked_tcp
    &&& after.blocked_flows == before.blocked_flows
    &&& flight_bodies(after.s) == flight_bodies(before.s).push(body)
}

proof fn lemma_seconded_keeps(
    v: SendingView,
    plan: PlanView,
    primary: usize,
    tcp_continuity: bool,
    now: u64,
)
    ensures
        same_packets(v.seconded(plan, primary, tcp_continuity, now).s, v.s),
        v.seconded(plan, primary, tcp_continuity, now).packet.body == v.packet.body,
        v.seconded(plan, primary, tcp_continuity, now).packet.id == v.packet.id,
        v.seconded(plan, primary, tcp_continuity, now).s.counters.expired_packets
            == v.s.counters.expired_packets,
{
    reveal(SchedulerView::reserved);
}

pub proof fn lemma_placed_keeps(v: ScanView, body: Seq<u8>, plan: PlanView, primary: usize, now: u64)
    requires
        v.s.next_id < u64::MAX,
    ensures
        in_hand(v.placed(body, plan, primary, now)) == in_hand(v).insert(body),
        v.placed(body, plan, primary, now).s.next_id == v.s.next_id + 1,
        v.placed(body, plan, primary, now).sent == v.sent + 1,
        v.placed(body, plan, primary, now).stop == v.stop,
        only_flies(v, v.placed(body, plan, primary, now), body),
        ({
            let after: SchedulerView = v.placed(body, plan, primary, now).s;
            &&& after.pending.len() == v.s.pending.len() + 1
            &&& after.pending.drop_last() == v.s.pending
            &&& after.pending.last().id == v.s.next_id
            &&& after.counters.expired_packets == v.s.counters.expired_packets
        }),
{
    let after: ScanView = v.placed(body, plan, primary, now);
    let noted: SchedulerView = match plan.tcp_key {
        Some(key) => v.s.tcp_noted(key, primary, body.len() as usize, now),
        None => v.s,
    };
    assert(same_packets(noted, v.s) && noted.counters == v.s.counters) by {
        reveal(SchedulerView::tcp_noted);
    }
    let numbered: SchedulerView = SchedulerView {
        next_id: (noted.next_id + 1) as u64,
        ..noted
    };
    let pinned: SchedulerView = numbered.pin_noted(plan, body.len(), primary, now);
    assert(same_packets(pinned, numbered));
    let start: SendingView = SendingView {
        s: pinned,
        packet: crate::turn::fresh_packet(noted.next_id, body, now),
        out: v.out,
    };
    let copied: SendingView = start.copied(primary, now);
    assert(same_packets(copied.s, pinned));
    assert(copied.packet.body == body);
    let tcp_continuity: bool = crate::packet::spec_ipv4_tcp(body) && noted.policy
        == Policy::Continuity;
    lemma_seconded_keeps(copied, plan, primary, tcp_continuity, now);
    let old_bodies: Seq<Seq<u8>> = flight_bodies(v.s);
    let new_bodies: Seq<Seq<u8>> = flight_bodies(after.s);
    assert(new_bodies =~= old_bodies.push(body));
    assert(after.s.pending.drop_last() =~= v.s.pending);
    lemma_push_multiset(old_bodies, body);
    assert(in_hand(after) =~= in_hand(v).insert(body));
}

proof fn lemma_defer_keeps(v: ScanView, priority: nat, body: Seq<u8>)
    ensures
        in_hand(v.defer(priority, body)) == in_hand(v).insert(body),
{
    lemma_push_multiset(v.deferred_urgent, body);
    lemma_push_multiset(v.deferred_streaming, body);
    lemma_push_multiset(v.deferred_queued, body);
    assert(in_hand(v.defer(priority, body)) =~= in_hand(v).insert(body));
}

proof fn lemma_scanned_keeps(v: ScanView, priority: nat, body: Seq<u8>, now: u64)
    requires
        v.s.next_id < u64::MAX,
    ensures
        in_hand(v.scanned(priority, body, now)) == in_hand(v).insert(body),
        v.s.next_id <= v.scanned(priority, body, now).s.next_id <= v.s.next_id + 1,
        v.sent <= v.scanned(priority, body, now).sent <= v.sent + 1,
        v.scanned(priority, body, now).s.next_id - v.s.next_id == v.scanned(
            priority,
            body,
            now,
        ).sent - v.sent,
{
    let held: bool = match crate::turn::scan_tcp_key(body) {
        Some(key) => v.blocked_tcp.contains(key),
        None => false,
    };
    if held {
        lemma_defer_keeps(v, priority, body);
    } else {
        let bytes: usize = body.len() as usize;
        let looked: (SchedulerView, Option<u128>, bool) = v.s.classified(body, now);
        assert(same_packets(looked.0, v.s)) by {
            reveal(SchedulerView::classified);
        }
        let plan: PlanView = looked.0.planned(body, looked.1, looked.2, now);
        let choice: (SchedulerView, Option<usize>) = match plan.tcp_key {
            Some(key) => looked.0.tcp_placed(
                key,
                bytes,
                if v.backlog.contains_key(key) {
                    v.backlog[key]
                } else {
                    bytes
                },
                now,
            ),
            None => (
                looked.0,
                if plan.pinned is Some {
                    plan.pinned
                } else {
                    placement::first_of(plan.targets)
                },
            ),
        };
        assert(same_packets(choice.0, looked.0)) by {
            reveal(SchedulerView::tcp_placed);
        }
        let next: ScanView = v.with_state(choice.0);
        assert(in_hand(next) == in_hand(v));
        match choice.1 {
            Some(primary) => {
                lemma_placed_keeps(next, body, plan, primary, now);
            },
            None => {},
        }
        let held_back: ScanView = ScanView {
            blocked_flows: match plan.lookup {
                Some(key) => next.blocked_flows.push(key),
                None => next.blocked_flows,
            },
            blocked_tcp: match plan.tcp_key {
                Some(key) => next.blocked_tcp.push(key),
                None => next.blocked_tcp,
            },
            ..next
        };
        assert(in_hand(held_back) == in_hand(next));
        lemma_defer_keeps(held_back, priority, body);
    }
}

pub proof fn lemma_stepped_keeps(v: ScanView, setting: ScanSetting)
    requires
        v.s.next_id < u64::MAX,
    ensures
        in_hand(v.stepped(setting)) == in_hand(v),
        v.sent <= v.stepped(setting).sent <= v.sent + 1,
        v.stepped(setting).s.next_id - v.s.next_id == v.stepped(setting).sent - v.sent,
{
    let s: SchedulerView = v.s;
    if !crate::turn::room_left(s.paths, setting) {
        assert(in_hand(v.stepped(setting)) =~= in_hand(v));
    } else if s.urgent.len() > 0 {
        let taken: ScanView = v.with_state(
            SchedulerView { urgent: s.urgent.drop_first(), ..s },
        ).counted();
        lemma_drop_first_multiset(s.urgent);
        lemma_scanned_keeps(taken, 0, s.urgent[0], setting.now);
        assert(in_hand(taken).insert(s.urgent[0]) =~= in_hand(v));
    } else if s.streaming.len() > 0 {
        let taken: ScanView = v.with_state(
            SchedulerView { streaming: s.streaming.drop_first(), ..s },
        ).counted();
        lemma_drop_first_multiset(s.streaming);
        lemma_scanned_keeps(taken, 1, s.streaming[0], setting.now);
        assert(in_hand(taken).insert(s.streaming[0]) =~= in_hand(v));
    } else if s.queued.len() > 0 {
        let taken: ScanView = v.with_state(
            SchedulerView { queued: s.queued.drop_first(), ..s },
        ).counted();
        lemma_drop_first_multiset(s.queued);
        lemma_scanned_keeps(taken, 2, s.queued[0], setting.now);
        assert(in_hand(taken).insert(s.queued[0]) =~= in_hand(v));
    } else {
        assert(in_hand(v.stepped(setting)) =~= in_hand(v));
    }
}

proof fn lemma_run_keeps(v: ScanView, setting: ScanSetting, budget: nat)
    requires
        v.sent <= TURN_PACKETS,
        v.s.next_id + (TURN_PACKETS - v.sent) < u64::MAX,
    ensures
        in_hand(v.run(setting, budget)) == in_hand(v),
        v.sent <= v.run(setting, budget).sent <= TURN_PACKETS,
        v.run(setting, budget).s.next_id - v.s.next_id == v.run(setting, budget).sent - v.sent,
    decreases budget,
{
    if !(budget == 0 || v.stop || v.sent >= TURN_PACKETS) {
        lemma_stepped_keeps(v, setting);
        lemma_run_keeps(v.stepped(setting), setting, (budget - 1) as nat);
    }
}

/// Whether two states have the same packets waiting.
pub open spec fn same_queues(a: SchedulerView, b: SchedulerView) -> bool {
    a.urgent == b.urgent && a.streaming == b.streaming && a.queued == b.queued && a.next_id
        == b.next_id
}

proof fn lemma_silent_failed_keeps(s: SchedulerView, now: u64, n: nat)
    ensures
        same_queues(s.silent_failed(now, n), s),
    decreases n,
{
    if n > 0 {
        lemma_silent_failed_keeps(s, now, (n - 1) as nat);
    }
}

proof fn lemma_fast_repaired_keeps(s: SchedulerView, due: Seq<(u64, usize)>, now: u64)
    ensures
        same_queues(s.all_fast_repaired(due, now).0, s),
    decreases due.len(),
{
    if due.len() > 0 {
        lemma_fast_repaired_keeps(s, due.drop_last(), now);
    }
}

proof fn lemma_protected_keeps(v: ProtectionView, waiting: Seq<(u64, usize)>, now: u64)
    ensures
        same_queues(v.all_protected(waiting, now).s, v.s),
    decreases waiting.len(),
{
    if waiting.len() > 0 {
        lemma_protected_keeps(v, waiting.drop_last(), now);
    }
}

proof fn lemma_due_found_keeps(s: SchedulerView, data: Seq<usize>, now: u64, n: nat)
    ensures
        same_queues(s.due_found(data, now, n).0, s),
    decreases n,
{
    if n > 0 {
        lemma_due_found_keeps(s, data, now, (n - 1) as nat);
    }
}

proof fn lemma_repaired_keeps(s: SchedulerView, due: Seq<u64>, data: Seq<usize>, now: u64)
    ensures
        same_queues(s.all_repaired(due, data, now).0, s),
    decreases due.len(),
{
    if due.len() > 0 {
        lemma_repaired_keeps(s, due.drop_last(), data, now);
    }
}

/// The state of a turn after its repairs, before it looks at the queues.
pub open spec fn repaired_state(s: SchedulerView, now: u64) -> SchedulerView {
    s.begun(now).0.mended(s.begun(now).1, s.begun(now).0.data_paths(now), now).0
}

pub proof fn lemma_repaired_state_keeps(s: SchedulerView, now: u64)
    ensures
        same_queues(repaired_state(s, now), s),
{
    let expired: SchedulerView = s.recent_expired(now);
    lemma_silent_failed_keeps(expired, now, expired.n());
    let begun: (SchedulerView, Seq<FrameView>) = s.begun(now);
    assert(same_queues(begun.0, s));
    let data: Seq<usize> = begun.0.data_paths(now);
    let found: Seq<(u64, usize)> = begun.0.fast_due(data, now, begun.0.pending.len());
    lemma_fast_repaired_keeps(begun.0, found, now);
    let fast: (SchedulerView, Seq<FrameView>) = begun.0.all_fast_repaired(found, now);
    let guard: ProtectionView = ProtectionView {
        s: fast.0,
        out: begun.1 + fast.1,
        blocked: Seq::empty(),
        sent: 0,
    };
    let waiting: Seq<(u64, usize)> = fast.0.protection_waiting(fast.0.pending.len());
    lemma_protected_keeps(guard, waiting, now);
    let guarded: SchedulerView = guard.all_protected(waiting, now).s;
    lemma_due_found_keeps(guarded, data, now, guarded.pending.len());
    let due: (SchedulerView, Seq<u64>) = guarded.due_found(data, now, guarded.pending.len());
    lemma_repaired_keeps(due.0, due.1, data, now);
}

/// A turn sends at most its share of new packets, numbers each, and loses
/// none: every packet that waited waits still or is in flight, beside those
/// that were in flight after the turn's repairs.
pub proof fn turn_loses_no_packet(s: SchedulerView, now: u64)
    requires
        s.next_id + TURN_PACKETS < u64::MAX,
    ensures
        ({
            let after: SchedulerView = s.ticked(now).0;
            &&& after.urgent.to_multiset().add(after.streaming.to_multiset()).add(
                after.queued.to_multiset(),
            ).add(flying(after)) == s.urgent.to_multiset().add(s.streaming.to_multiset()).add(
                s.queued.to_multiset(),
            ).add(flying(repaired_state(s, now)))
            &&& s.next_id <= after.next_id <= s.next_id + TURN_PACKETS
        }),
{
    lemma_repaired_state_keeps(s, now);
    let begun: (SchedulerView, Seq<FrameView>) = s.begun(now);
    let data: Seq<usize> = begun.0.data_paths(now);
    let mended: (SchedulerView, Seq<FrameView>) = begun.0.mended(begun.1, data, now);
    let start: ScanView = mended.0.scan_start(mended.1);
    let setting: ScanSetting = mended.0.setting(data, now);
    let end: ScanView = start.run(setting, mended.0.waiting());
    lemma_run_keeps(start, setting, mended.0.waiting());
    let after: SchedulerView = end.restored();
    vstd::seq_lib::lemma_multiset_commutative(end.deferred_urgent, end.s.urgent);
    vstd::seq_lib::lemma_multiset_commutative(end.deferred_streaming, end.s.streaming);
    vstd::seq_lib::lemma_multiset_commutative(end.deferred_queued, end.s.queued);
    Seq::<Seq<u8>>::empty().to_multiset_ensures();
    let none: Multiset<Seq<u8>> = Seq::<Seq<u8>>::empty().to_multiset();
    assert(none =~= Multiset::empty());
    let waiting: Multiset<Seq<u8>> = mended.0.urgent.to_multiset().add(
        mended.0.streaming.to_multiset(),
    ).add(mended.0.queued.to_multiset()).add(flying(mended.0));
    assert(in_hand(start) =~= waiting);
    assert(after.urgent.to_multiset().add(after.streaming.to_multiset()).add(
        after.queued.to_multiset(),
    ).add(flying(after)) =~= in_hand(end));
}

} // verus!
