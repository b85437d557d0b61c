//! What holds of a turn: where packets go, and in which order.
use crate::binary64::Binary64;
use crate::bond;
use crate::bond::{Policy, SchedulerView, MAX_PENDING, PACKET_TTL_MS, TURN_PACKETS};
use crate::bond_laws;
use crate::flight;
use crate::flight::{Attempt, PendingView};
use crate::frame::{FrameView, BOND_MTU, MAX_PATHS};
use crate::packet;
use crate::path::Path;
use crate::placement;
use crate::repair;
use crate::turn;
use crate::turn::{PlanView, ScanSetting, ScanView, SendingView};
use vstd::prelude::*;

verus! {

// ---- Where packets go ------------------------------------------------------------

/// Whether the costs of a list's entries do not fall.
pub open spec fn rising(list: Seq<usize>, costs: Seq<Binary64>) -> bool {
    forall|i: int, j: int|
        0 <= i < j < list.len() ==> costs[(#[trigger] list[i]) as int].key() <= costs[(
        #[trigger] list[j]) as int].key()
}

proof fn lemma_kept_rising(list: Seq<usize>, flags: Seq<bool>, costs: Seq<Binary64>, n: nat)
    requires
        placement::within(list, n),
        rising(list, costs),
    ensures
        rising(placement::kept(list, flags), costs),
    decreases list.len(),
{
    if list.len() > 0 {
        let head: Seq<usize> = list.drop_last();
        assert(rising(head, costs)) by {
            assert forall|i: int, j: int| 0 <= i < j < head.len() implies costs[(
            #[trigger] head[i]) as int].key() <= costs[(#[trigger] head[j]) as int].key() by {
                assert(head[i] == list[i] && head[j] == list[j]);
            }
        }
        lemma_kept_rising(head, flags, costs, n);
        placement::lemma_kept(head, flags, n);
        let rest: Seq<usize> = placement::kept(head, flags);
        let all: Seq<usize> = placement::kept(list, flags);
        assert forall|i: int, j: int| 0 <= i < j < all.len() implies costs[(
        #[trigger] all[i]) as int].key() <= costs[(#[trigger] all[j]) as int].key() by {
            assert(all[i] == rest[i]);
            assert(rest.contains(rest[i]));
            assert(head.contains(rest[i]));
            let k: int = choose|k: int| 0 <= k < head.len() && head[k] == rest[i];
            assert(list[k] == all[i]);
            if j == rest.len() {
                assert(all[j] == list[list.len() - 1]);
            } else {
                assert(all[j] == rest[j]);
            }
        }
    }
}

/// The paths that carry data are listed by rising delay: the first is the
/// nearest.
pub proof fn nearest_path_comes_first(s: SchedulerView, now: u64)
    requires
        s.wf(),
    ensures
        rising(s.data_paths(now), bond::delay_costs(s.paths)),
{
    reveal(SchedulerView::data_paths);
    let n: nat = s.n();
    let all: Seq<usize> = placement::up_to(n);
    let ready: Seq<usize> = placement::kept(all, bond::ready_flags(s.paths, now));
    placement::lemma_kept(all, bond::ready_flags(s.paths, now), n);
    placement::lemma_kept(ready, bond::fresh_flags(s.paths, now), n);
    let fresh: Seq<usize> = bond::preferred(ready, bond::fresh_flags(s.paths, now));
    let near: Seq<usize> = placement::ordered(fresh, bond::delay_costs(s.paths));
    placement::ordered_is_sorted(fresh, bond::delay_costs(s.paths));
    placement::lemma_ordered_within(fresh, bond::delay_costs(s.paths), n);
    assert(rising(near, bond::delay_costs(s.paths)));
    lemma_kept_rising(near, bond::unmetered_flags(s.paths), bond::delay_costs(s.paths), n);
}

pub proof fn lemma_data_within(s: SchedulerView, now: u64)
    requires
        s.n() <= MAX_PATHS,
    ensures
        placement::within(s.data_paths(now), s.n()),
{
    bond_laws::data_paths_are_ready(s, now);
    let list: Seq<usize> = s.data_paths(now);
    assert forall|i: int| 0 <= i < list.len() implies #[trigger] list[i] < s.n() by {
        assert(list.contains(list[i]));
    }
}

/// A packet is offered only to paths that carry data, are ready and have room
/// for it. Advice orders them, and adds none.
pub proof fn packet_goes_to_ready_path(
    s: SchedulerView,
    bytes: usize,
    interactive: bool,
    now: u64,
    x: usize,
)
    requires
        s.n() <= MAX_PATHS,
        s.targets(bytes, interactive, now).contains(x),
    ensures
        s.data_paths(now).contains(x),
        x < s.n(),
        s.paths[x as int].ready(now),
        s.paths[x as int].send_budget_allows(bytes, interactive, now),
{
    reveal(SchedulerView::targets);
    reveal(SchedulerView::placement_paths);
    bond_laws::data_paths_are_ready(s, now);
    lemma_data_within(s, now);
    let n: nat = s.n();
    let ready: Seq<usize> = s.data_paths(now);
    let low: Seq<usize> = placement::kept(ready, bond::low_delay_flags(s.paths));
    placement::lemma_kept(ready, bond::low_delay_flags(s.paths), n);
    let fit: Seq<usize> = s.placement_paths(interactive, now);
    assert forall|y: usize| #[trigger] fit.contains(y) implies ready.contains(y) by {
        if interactive && low.len() == 0 && ready.len() > 1 {
            let k: int = choose|k: int| 0 <= k < 1 && ready.take(1)[k] == y;
            assert(ready[k] == y);
        }
    }
    assert(placement::within(fit, n)) by {
        assert forall|i: int| 0 <= i < fit.len() implies #[trigger] fit[i] < n by {
            assert(fit.contains(fit[i]));
            assert(ready.contains(fit[i]));
        }
    }
    let flags: Seq<bool> = bond::budget_flags(s.paths, bytes, interactive, now);
    placement::lemma_kept(fit, flags, n);
    let open: Seq<usize> = placement::kept(fit, flags);
    placement::ordered_is_sorted(open, bond::bulk_costs(s.paths, bytes));
    placement::ordered_is_sorted(open, bond::advised_costs(s.paths, s.names, s.advice));
    bond_laws::lemma_same_members(placement::ordered(open, bond::bulk_costs(s.paths, bytes)), open, x);
    bond_laws::lemma_same_members(
        placement::ordered(open, bond::advised_costs(s.paths, s.names, s.advice)),
        open,
        x,
    );
    assert(open.contains(x));
    assert(fit.contains(x));
    assert(ready.contains(x));
}

/// Advice that has run out has no effect on where a packet goes.
pub proof fn advice_runs_out(
    s: SchedulerView,
    other: Seq<(Seq<char>, u32)>,
    bytes: usize,
    interactive: bool,
    now: u64,
)
    requires
        now >= s.advice_until,
    ensures
        (SchedulerView { advice: other, ..s }).targets(bytes, interactive, now) == s.targets(
            bytes,
            interactive,
            now,
        ),
{
    reveal(SchedulerView::data_paths);
    reveal(SchedulerView::placement_paths);
    reveal(SchedulerView::targets);
}

/// The last places of the queues are kept for urgent packets: others are
/// dropped once only these are left, and an urgent one of a sound size is
/// queued as long as any place is.
pub proof fn room_is_kept_for_urgent(s: SchedulerView, ip: Seq<u8>)
    ensures
        !packet::spec_interactive(ip) && s.waiting() + s.pending.len() >= MAX_PENDING - 64
            ==> s.enqueued(ip) == s.dropped(),
        packet::spec_interactive(ip) && 20 <= ip.len() <= BOND_MTU && s.waiting() + s.pending.len()
            < MAX_PENDING ==> s.enqueued(ip) == (SchedulerView {
            urgent: s.urgent.push(ip),
            ..s
        }),
{
}

// ---- Copies ------------------------------------------------------------------------

proof fn lemma_first_other(list: Seq<usize>, primary: usize, i: int)
    ensures
        turn::first_other(list, primary, i) is Some ==> turn::first_other(list, primary, i)
            != Some(primary),
    decreases list.len() - i,
{
    if i < list.len() && list[i] == primary {
        lemma_first_other(list, primary, i + 1);
    }
}

/// A second copy of a packet, sent or put off, takes another path than the
/// first.
pub proof fn copy_takes_another_path(
    v: SendingView,
    plan: PlanView,
    primary: usize,
    tcp_continuity: bool,
    now: u64,
)
    requires
        v.packet.protection_path is None,
    ensures
        ({
            let after: SendingView = v.seconded(plan, primary, tcp_continuity, now);
            &&& after.packet.protection_path != Some(primary)
            &&& after.out == v.out || exists|x: usize|
                x != primary && after.out == v.out.push(#[trigger] v.packet.data_frame(x, now))
        }),
{
    reveal(SchedulerView::reserved);
    let list: Seq<usize> = if plan.protect_udp || tcp_continuity {
        v.s.data_paths(now)
    } else {
        plan.targets
    };
    lemma_first_other(list, primary, 0);
    match turn::first_other(list, primary, 0) {
        Some(alternate) => {
            let frame: FrameView = v.packet.data_frame(alternate, now);
            let after: SendingView = v.seconded(plan, primary, tcp_continuity, now);
            assert(after.out == v.out || after.out == v.out.push(frame));
        },
        None => {},
    }
}

/// To save data, every new packet goes out once, whatever its class.
pub proof fn saver_sends_once(
    v: ScanView,
    body: Seq<u8>,
    logical: Option<u128>,
    srt: bool,
    primary: usize,
    now: u64,
)
    requires
        v.s.policy == Policy::DataSaver,
        v.s.next_id < u64::MAX,
    ensures
        v.placed(body, v.s.planned(body, logical, srt, now), primary, now).out == v.out.push(
            turn::fresh_packet(v.s.next_id, body, now).data_frame(primary, now),
        ),
{
    reveal(SchedulerView::tcp_noted);
}

/// Protected traffic goes out twice where another path that carries data has
/// room.
pub proof fn protected_packet_goes_twice(
    v: SendingView,
    plan: PlanView,
    primary: usize,
    tcp_continuity: bool,
    now: u64,
)
    requires
        plan.protect_udp,
        turn::first_other(v.s.data_paths(now), primary, 0) is Some,
        ({
            let alternate: usize = turn::first_other(v.s.data_paths(now), primary, 0)->0;
            let s: SchedulerView = if tcp_continuity {
                v.s.reserved(v.packet.body.len() as usize, now).0
            } else {
                v.s
            };
            s.udp_protection_targets(v.packet.body.len() as usize, now).contains(alternate)
        }),
    ensures
        ({
            let alternate: usize = turn::first_other(v.s.data_paths(now), primary, 0)->0;
            &&& alternate != primary
            &&& v.seconded(plan, primary, tcp_continuity, now).out == v.out.push(
                v.packet.data_frame(alternate, now),
            )
        }),
{
    lemma_first_other(v.s.data_paths(now), primary, 0);
}

// ---- Order ---------------------------------------------------------------------------

/// A flow by its addresses and ports.
pub enum FlowKey {
    Tcp(u128),
    Udp(u128),
}

/// Whether a packet shows that it belongs to a flow. Urgent TCP packets, which
/// are sent before all others, count for none, and neither do later fragments,
/// which show no ports.
pub open spec fn in_flow(body: Seq<u8>, key: FlowKey) -> bool {
    match key {
        FlowKey::Tcp(tuple) => turn::scan_tcp_key(body) == Some(tuple),
        FlowKey::Udp(tuple) => packet::spec_udp_tuple_key(body) == Some(tuple),
    }
}

/// The packets of one flow in a queue, in order.
pub open spec fn of_flow(queue: Seq<Seq<u8>>, key: FlowKey) -> Seq<Seq<u8>>
    decreases queue.len(),
{
    if queue.len() == 0 {
        Seq::empty()
    } else {
        let rest: Seq<Seq<u8>> = of_flow(queue.drop_last(), key);
        if in_flow(queue.last(), key) {
            rest.push(queue.last())
        } else {
            rest
        }
    }
}

/// The packets of one flow that a scheduler has: those in flight in the
/// order of their numbers, then those that wait in the order in which they
/// are looked at.
pub open spec fn flow_line(s: SchedulerView, key: FlowKey) -> Seq<Seq<u8>> {
    of_flow(bond_laws::flight_bodies(s), key) + of_flow(s.urgent, key) + of_flow(
        s.streaming,
        key,
    ) + of_flow(s.queued, key)
}

/// The same for a scan, which has set some packets aside.
spec fn scan_line(v: ScanView, key: FlowKey) -> Seq<Seq<u8>> {
    of_flow(bond_laws::flight_bodies(v.s), key) + of_flow(v.deferred_urgent, key) + of_flow(
        v.s.urgent,
        key,
    ) + of_flow(v.deferred_streaming, key) + of_flow(v.s.streaming, key) + of_flow(
        v.deferred_queued,
        key,
    ) + of_flow(v.s.queued, key)
}

/// Whether a flow is held back for the rest of the turn.
spec fn is_blocked(v: ScanView, key: FlowKey) -> bool {
    match key {
        FlowKey::Tcp(tuple) => v.blocked_tcp.contains(tuple),
        FlowKey::Udp(tuple) => v.blocked_flows.contains(tuple),
    }
}

/// A flow of which a packet was set aside is held back.
spec fn held_where_deferred(v: ScanView, key: FlowKey) -> bool {
    is_blocked(v, key) || (of_flow(v.deferred_urgent, key).len() == 0 && of_flow(
        v.deferred_streaming,
        key,
    ).len() == 0 && of_flow(v.deferred_queued, key).len() == 0)
}

proof fn lemma_of_flow_push(queue: Seq<Seq<u8>>, body: Seq<u8>, key: FlowKey)
    ensures
        of_flow(queue.push(body), key) == if in_flow(body, key) {
            of_flow(queue, key).push(body)
        } else {
            of_flow(queue, key)
        },
{
    assert(queue.push(body).drop_last() =~= queue);
}

proof fn lemma_of_flow_add(a: Seq<Seq<u8>>, b: Seq<Seq<u8>>, key: FlowKey)
    ensures
        of_flow(a + b, key) == of_flow(a, key) + of_flow(b, key),
    decreases b.len(),
{
    if b.len() == 0 {
        assert(a + b =~= a);
        assert(of_flow(a, key) + of_flow(b, key) =~= of_flow(a, key));
    } else {
        lemma_of_flow_add(a, b.drop_last(), key);
        assert((a + b).drop_last() =~= a + b.drop_last());
        assert((a + b).last() == b.last());
        assert(of_flow(a + b, key) =~= of_flow(a, key) + of_flow(b, key));
    }
}

proof fn lemma_of_flow_first(queue: Seq<Seq<u8>>, key: FlowKey)
    requires
        queue.len() > 0,
    ensures
        of_flow(queue, key) == if in_flow(queue[0], key) {
            seq![queue[0]] + of_flow(queue.drop_first(), key)
        } else {
            of_flow(queue.drop_first(), key)
        },
{
    let none: Seq<Seq<u8>> = Seq::empty();
    assert(queue =~= seq![queue[0]] + queue.drop_first());
    lemma_of_flow_add(seq![queue[0]], queue.drop_first(), key);
    assert(seq![queue[0]] =~= none.push(queue[0]));
    lemma_of_flow_push(none, queue[0], key);
    assert(of_flow(none, key) =~= none);
    assert(of_flow(queue, key) =~= if in_flow(queue[0], key) {
        seq![queue[0]] + of_flow(queue.drop_first(), key)
    } else {
        of_flow(queue.drop_first(), key)
    });
}

/// The line with a packet that was just taken from the front of a queue put
/// back there.
spec fn line_with(v: ScanView, priority: nat, body: Seq<u8>, key: FlowKey) -> Seq<Seq<u8>> {
    let one: Seq<Seq<u8>> = if in_flow(body, key) {
        seq![body]
    } else {
        Seq::empty()
    };
    let none: Seq<Seq<u8>> = Seq::empty();
    of_flow(bond_laws::flight_bodies(v.s), key) + of_flow(v.deferred_urgent, key) + (if priority
        == 0 {
        one
    } else {
        none
    }) + of_flow(v.s.urgent, key) + of_flow(v.deferred_streaming, key) + (if priority == 1 {
        one
    } else {
        none
    }) + of_flow(v.s.streaming, key) + of_flow(v.deferred_queued, key) + (if priority == 2 {
        one
    } else {
        none
    }) + of_flow(v.s.queued, key)
}

/// Whether packets of a priority are the next to be looked at.
spec fn turn_of(v: ScanView, priority: nat) -> bool {
    priority <= 2 && (priority >= 1 ==> v.s.urgent.len() == 0) && (priority == 2
        ==> v.s.streaming.len() == 0)
}

proof fn lemma_defer_line(v: ScanView, priority: nat, body: Seq<u8>, key: FlowKey)
    requires
        turn_of(v, priority),
    ensures
        scan_line(v.defer(priority, body), key) == line_with(v, priority, body, key),
        !in_flow(body, key) && held_where_deferred(v, key)
            ==> held_where_deferred(v.defer(priority, body), key),
{
    lemma_of_flow_push(v.deferred_urgent, body, key);
    lemma_of_flow_push(v.deferred_streaming, body, key);
    lemma_of_flow_push(v.deferred_queued, body, key);
    assert(scan_line(v.defer(priority, body), key) =~= line_with(v, priority, body, key));
}

/// A list with one more entry has that entry, and all that it had.
proof fn lemma_push_keeps(list: Seq<u128>, more: Option<u128>)
    ensures
        ({
            let after: Seq<u128> = match more {
                Some(x) => list.push(x),
                None => list,
            };
            &&& forall|x: u128| #[trigger] list.contains(x) ==> after.contains(x)
            &&& more is Some ==> after.contains(more->0)
        }),
{
    match more {
        Some(x) => {
            assert(list.push(x)[list.len() as int] == x);
            assert forall|y: u128| #[trigger] list.contains(y) implies list.push(x).contains(y) by {
                let i: int = choose|i: int| 0 <= i < list.len() && list[i] == y;
                assert(list.push(x)[i] == y);
            }
        },
        None => {},
    }
}

proof fn lemma_scanned_line(v: ScanView, priority: nat, body: Seq<u8>, now: u64, key: FlowKey)
    requires
        v.s.next_id < u64::MAX,
        turn_of(v, priority),
        held_where_deferred(v, key),
    ensures
        scan_line(v.scanned(priority, body, now), key) == line_with(v, priority, body, key),
        held_where_deferred(v.scanned(priority, body, now), key),
{
    let after: ScanView = v.scanned(priority, body, now);
    let held: bool = match turn::scan_tcp_key(body) {
        Some(flow) => v.blocked_tcp.contains(flow),
        None => false,
    };
    if held {
        lemma_defer_line(v, priority, body, key);
    } else {
        let bytes: usize = body.len() as usize;
        let looked: (SchedulerView, Option<u128>, bool) = v.s.classified(body, now);
        assert(bond_laws::same_packets(looked.0, v.s)) by {
            reveal(SchedulerView::classified);
        }
        let plan: PlanView = looked.0.planned(body, looked.1, looked.2, now);
        let choice: (SchedulerView, Option<usize>) = match plan.tcp_key {
            Some(flow) => looked.0.tcp_placed(
                flow,
                bytes,
                if v.backlog.contains_key(flow) {
                    v.backlog[flow]
                } else {
                    bytes
                },
                now,
            ),
            None => (
                looked.0,
                if plan.pinned is Some {
                    plan.pinned
                } else {
                    placement::first_of(plan.targets)
                },
            ),
        };
        assert(bond_laws::same_packets(choice.0, looked.0)) by {
            reveal(SchedulerView::tcp_placed);
        }
        let next: ScanView = v.with_state(choice.0);
        assert(line_with(next, priority, body, key) == line_with(v, priority, body, key));
        let back: ScanView = ScanView {
            blocked_flows: match plan.lookup {
                Some(flow) => next.blocked_flows.push(flow),
                None => next.blocked_flows,
            },
            blocked_tcp: match plan.tcp_key {
                Some(flow) => next.blocked_tcp.push(flow),
                None => next.blocked_tcp,
            },
            ..next
        };
        assert(next.held_back(priority, body, plan) == back.defer(priority, body));
        lemma_push_keeps(next.blocked_tcp, plan.tcp_key);
        lemma_push_keeps(next.blocked_flows, plan.lookup);
        assert(in_flow(body, key) ==> is_blocked(back, key)) by {
            reveal(SchedulerView::classified);
        }
        lemma_defer_line(back, priority, body, key);
        assert(line_with(back, priority, body, key) == line_with(v, priority, body, key));
        match choice.1 {
            Some(primary) => {
                bond_laws::lemma_placed_keeps(next, body, plan, primary, now);
                lemma_of_flow_push(bond_laws::flight_bodies(next.s), body, key);
                let placed: ScanView = next.placed(body, plan, primary, now);
                if in_flow(body, key) && !is_blocked(v, key) {
                    assert(of_flow(v.deferred_urgent, key) =~= Seq::empty());
                    assert(of_flow(v.deferred_streaming, key) =~= Seq::empty());
                    assert(of_flow(v.deferred_queued, key) =~= Seq::empty());
                }
                if in_flow(body, key) ==> !is_blocked(v, key) {
                    assert(scan_line(placed, key) =~= line_with(v, priority, body, key));
                } else {
                    assert(after == next.held_back(priority, body, plan)) by {
                        reveal(SchedulerView::classified);
                    }
                }
            },
            None => {},
        }
    }
}

proof fn lemma_stepped_line(v: ScanView, setting: ScanSetting, key: FlowKey)
    requires
        v.s.next_id < u64::MAX,
        held_where_deferred(v, key),
    ensures
        scan_line(v.stepped(setting), key) == scan_line(v, key),
        held_where_deferred(v.stepped(setting), key),
{
    let s: SchedulerView = v.s;
    if turn::room_left(s.paths, setting) {
        if s.urgent.len() > 0 {
            let taken: ScanView = v.with_state(
                SchedulerView { urgent: s.urgent.drop_first(), ..s },
            ).counted();
            lemma_of_flow_first(s.urgent, key);
            lemma_scanned_line(taken, 0, s.urgent[0], setting.now, key);
            assert(line_with(taken, 0, s.urgent[0], key) =~= scan_line(v, key));
        } else if s.streaming.len() > 0 {
            let taken: ScanView = v.with_state(
                SchedulerView { streaming: s.streaming.drop_first(), ..s },
            ).counted();
            lemma_of_flow_first(s.streaming, key);
            lemma_scanned_line(taken, 1, s.streaming[0], setting.now, key);
            assert(line_with(taken, 1, s.streaming[0], key) =~= scan_line(v, key));
        } else if s.queued.len() > 0 {
            let taken: ScanView = v.with_state(
                SchedulerView { queued: s.queued.drop_first(), ..s },
            ).counted();
            lemma_of_flow_first(s.queued, key);
            lemma_scanned_line(taken, 2, s.queued[0], setting.now, key);
            assert(line_with(taken, 2, s.queued[0], key) =~= scan_line(v, key));
        }
    }
}

proof fn lemma_run_line(v: ScanView, setting: ScanSetting, budget: nat, key: FlowKey)
    requires
        v.sent <= TURN_PACKETS,
        v.s.next_id + (TURN_PACKETS - v.sent) < u64::MAX,
        held_where_deferred(v, key),
    ensures
        scan_line(v.run(setting, budget), key) == scan_line(v, key),
    decreases budget,
{
    if !(budget == 0 || v.stop || v.sent >= TURN_PACKETS) {
        lemma_stepped_line(v, setting, key);
        bond_laws::lemma_stepped_keeps(v, setting);
        lemma_run_line(v.stepped(setting), setting, (budget - 1) as nat, key);
    }
}

/// A turn keeps the order of every flow: its packets in flight after the
/// repairs, followed by those that wait, are the same line before and after
/// new packets are sent. No packet overtakes an earlier one of its flow.
pub proof fn flow_keeps_its_order(s: SchedulerView, now: u64, key: FlowKey)
    requires
        s.next_id + TURN_PACKETS < u64::MAX,
    ensures
        flow_line(s.ticked(now).0, key) == flow_line(bond_laws::repaired_state(s, now), key),
        of_flow(s.urgent, key) == of_flow(bond_laws::repaired_state(s, now).urgent, key),
        of_flow(s.streaming, key) == of_flow(bond_laws::repaired_state(s, now).streaming, key),
        of_flow(s.queued, key) == of_flow(bond_laws::repaired_state(s, now).queued, key),
{
    bond_laws::lemma_repaired_state_keeps(s, now);
    let begun: (SchedulerView, Seq<FrameView>) = s.begun(now);
    let data: Seq<usize> = begun.0.data_paths(now);
    let mended: (SchedulerView, Seq<FrameView>) = begun.0.mended(begun.1, data, now);
    let start: ScanView = mended.0.scan_start(mended.1);
    let setting: ScanSetting = mended.0.setting(data, now);
    let end: ScanView = start.run(setting, mended.0.waiting());
    let none: Seq<Seq<u8>> = Seq::empty();
    assert(of_flow(none, key) =~= none);
    lemma_run_line(start, setting, mended.0.waiting(), key);
    assert(scan_line(start, key) =~= flow_line(mended.0, key));
    lemma_of_flow_add(end.deferred_urgent, end.s.urgent, key);
    lemma_of_flow_add(end.deferred_streaming, end.s.streaming, key);
    lemma_of_flow_add(end.deferred_queued, end.s.queued, key);
    assert(flow_line(end.restored(), key) =~= scan_line(end, key));
}

// ---- Repairs -------------------------------------------------------------------------

proof fn lemma_no_own_paths(
    list: Seq<usize>,
    paths: Seq<Path>,
    attempts: Seq<Attempt>,
    data: Seq<usize>,
    now: u64,
    n: nat,
)
    requires
        n <= attempts.len(),
        forall|i: int| 0 <= i < attempts.len() ==> !data.contains((#[trigger] attempts[i]).path),
    ensures
        repair::with_own_paths(list, paths, attempts, data, now, n) == list,
    decreases n,
{
    if n > 0 {
        lemma_no_own_paths(list, paths, attempts, data, now, (n - 1) as nat);
    }
}

/// When a path fails, a packet that only it carries is due for a repair at
/// once, and goes out on a path that is ready, as soon as one has room for it.
pub proof fn survivor_repairs_at_once(s: SchedulerView, failed: int, announce: bool, id: u64, now: u64)
    requires
        s.wf(),
        0 <= failed < s.n(),
        bond::is_pending(s.pending, id),
        ({
            let packet: PendingView = s.pending[bond::pending_slot(s.pending, id, 0)];
            let f: SchedulerView = s.path_failed(failed, announce);
            &&& forall|i: int|
                0 <= i < packet.attempts.len() ==> (#[trigger] packet.attempts[i]).path == failed
            &&& now.saturating_sub(packet.last_repair) >= 2
            &&& now.saturating_sub(packet.born) <= PACKET_TTL_MS
            &&& f.targets(
                packet.body.len() as usize,
                packet::spec_interactive(packet.body) || packet::spec_streaming(packet.body),
                now,
            ).len() > 0
        }),
    ensures
        ({
            let packet: PendingView = s.pending[bond::pending_slot(s.pending, id, 0)];
            let f: SchedulerView = s.path_failed(failed, announce);
            let data: Seq<usize> = f.data_paths(now);
            &&& f.repair_due(data, packet, now)
            &&& exists|x: usize|
                x < f.n() && f.paths[x as int].ready(now) && x != failed && f.repaired(
                    id,
                    data,
                    now,
                ).1 == seq![#[trigger] packet.data_frame(x, now)]
        }),
{
    let packet: PendingView = s.pending[bond::pending_slot(s.pending, id, 0)];
    let f: SchedulerView = s.path_failed(failed, announce);
    let data: Seq<usize> = f.data_paths(now);
    assert(f.wf());
    bond_laws::data_paths_are_ready(f, now);
    assert(!data.contains(failed as usize));
    let sensitive: bool = packet::spec_interactive(packet.body) || packet::spec_streaming(
        packet.body,
    );
    let list: Seq<usize> = f.targets(packet.body.len() as usize, sensitive, now);
    lemma_no_own_paths(list, f.paths, packet.attempts, data, now, packet.attempts.len());
    assert forall|x: usize| #[trigger] list.contains(x) implies x < f.n() && f.paths[x as int].ready(
        now,
    ) && x != failed by {
        packet_goes_to_ready_path(f, packet.body.len() as usize, sensitive, now, x);
    }
    assert(placement::within(list, f.n())) by {
        assert forall|i: int| 0 <= i < list.len() implies #[trigger] list[i] < f.n() by {
            assert(list.contains(list[i]));
        }
    }
    let costs: Seq<Binary64> = repair::repair_costs(f.paths, packet, now);
    placement::lemma_cheapest(list, costs, f.n());
    assert(list.contains(list[0]));
    flight::lemma_attempt_slot(packet.attempts, list[0], 0);
    let target: usize = if packet::spec_ipv4_tcp(packet.body) {
        placement::cheapest(list, costs)->0
    } else {
        list[0]
    };
    assert(repair::repair_target(list, f.paths, packet, now) == Some(target));
    assert(list.contains(target));
    assert(f.repaired(id, data, now).1 == seq![packet.data_frame(target, now)]);
}

} // verus!
