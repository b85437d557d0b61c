//! How a turn numbers packets, and what stays in the queues.
use crate::ack_laws;
use crate::bond;
use crate::bond::{Policy, SchedulerView, TURN_PACKETS};
use crate::bond_laws;
use crate::flight::PendingView;
use crate::frame::{FrameView, MAX_PATHS};
use crate::packet;
use crate::placement;
use crate::repair::ProtectionView;
use crate::turn;
use crate::turn::{PlanView, ScanSetting, ScanView, SendingView};
use crate::turn_frames;
use vstd::prelude::*;

verus! {

// ---- What is left of a queue ---------------------------------------------------------

/// Whether positions rise and lie within a list of `n`.
pub open spec fn rising_places(places: Seq<int>, n: nat) -> bool {
    &&& forall|i: int| 0 <= i < places.len() ==> 0 <= #[trigger] places[i] < n
    &&& forall|i: int, j: int|
        0 <= i < j < places.len() ==> #[trigger] places[i] < #[trigger] places[j]
}

/// Whether a queue is what a list leaves when some of its packets are taken
/// out, at those places.
pub open spec fn left_at(queue: Seq<Seq<u8>>, list: Seq<Seq<u8>>, places: Seq<int>) -> bool {
    &&& places.len() == queue.len()
    &&& rising_places(places, list.len())
    &&& forall|i: int| 0 <= i < queue.len() ==> #[trigger] queue[i] == list[places[i]]
}

/// Whether a queue is what a list leaves when some of its packets are taken
/// out: what is left keeps its order.
pub open spec fn left_of(queue: Seq<Seq<u8>>, list: Seq<Seq<u8>>) -> bool {
    exists|places: Seq<int>| #[trigger] left_at(queue, list, places)
}

proof fn lemma_left_all(list: Seq<Seq<u8>>)
    ensures
        left_of(list, list),
{
    let places: Seq<int> = Seq::new(list.len(), |i: int| i);
    assert(left_at(list, list, places));
}

proof fn lemma_left_remove(queue: Seq<Seq<u8>>, list: Seq<Seq<u8>>, k: int)
    requires
        left_of(queue, list),
        0 <= k < queue.len(),
    ensures
        left_of(queue.remove(k), list),
{
    let places: Seq<int> = choose|places: Seq<int>| #[trigger] left_at(queue, list, places);
    assert(left_at(queue.remove(k), list, places.remove(k)));
}

// ---- The scan ------------------------------------------------------------------------

/// The packets of each class that a scan has not sent, in order.
spec fn line(v: ScanView, class: nat) -> Seq<Seq<u8>> {
    if class == 0 {
        v.deferred_urgent + v.s.urgent
    } else if class == 1 {
        v.deferred_streaming + v.s.streaming
    } else {
        v.deferred_queued + v.s.queued
    }
}

/// What is true of a scan that began in a state: the numbers given out follow
/// one another, and each takes a packet from its line.
spec fn numbered(r: SchedulerView, v: ScanView) -> bool {
    &&& v.s.next_id == r.next_id + v.sent
    &&& v.s.pending.len() == r.pending.len() + v.sent
    &&& forall|k: int| 0 <= k < r.pending.len() ==> v.s.pending[k] == #[trigger] r.pending[k]
    &&& forall|k: int|
        r.pending.len() <= k < v.s.pending.len() ==> (#[trigger] v.s.pending[k]).id == r.next_id
            + (k - r.pending.len())
    &&& v.s.waiting() + v.deferred_len() + v.sent == r.waiting()
    &&& v.s.counters.expired_packets == r.counters.expired_packets
    &&& left_of(line(v, 0), r.urgent)
    &&& left_of(line(v, 1), r.streaming)
    &&& left_of(line(v, 2), r.queued)
}

/// The same where a packet of a class has been taken and is in the hand.
spec fn numbered_with(r: SchedulerView, v: ScanView, class: nat, body: Seq<u8>) -> bool {
    numbered(r, v.defer(class, body))
}

/// Whether nothing that numbers and lines rest on differs.
spec fn alike(a: ScanView, b: ScanView) -> bool {
    &&& bond_laws::same_packets(a.s, b.s)
    &&& a.s.counters.expired_packets == b.s.counters.expired_packets
    &&& a.deferred_urgent == b.deferred_urgent
    &&& a.deferred_streaming == b.deferred_streaming
    &&& a.deferred_queued == b.deferred_queued
    &&& a.sent == b.sent
}

proof fn lemma_alike(r: SchedulerView, a: ScanView, b: ScanView)
    requires
        numbered(r, a),
        alike(a, b),
    ensures
        numbered(r, b),
{
}

proof fn lemma_placed_numbers(
    r: SchedulerView,
    v: ScanView,
    class: nat,
    body: Seq<u8>,
    plan: PlanView,
    primary: usize,
    now: u64,
)
    requires
        class <= 2,
        numbered_with(r, v, class, body),
        v.s.next_id < u64::MAX,
    ensures
        numbered(r, v.placed(body, plan, primary, now)),
{
    let after: ScanView = v.placed(body, plan, primary, now);
    let held: ScanView = v.defer(class, body);
    bond_laws::lemma_placed_keeps(v, body, plan, primary, now);
    assert forall|k: int| 0 <= k < v.s.pending.len() implies after.s.pending[k]
        == #[trigger] v.s.pending[k] by {
        assert(after.s.pending.drop_last()[k] == after.s.pending[k]);
    }
    assert forall|k: int| r.pending.len() <= k < after.s.pending.len() implies (
    #[trigger] after.s.pending[k]).id == r.next_id + (k - r.pending.len()) by {
        if k < v.s.pending.len() {
            assert(after.s.pending[k] == v.s.pending[k]);
            assert(held.s.pending[k] == v.s.pending[k]);
        }
    }
    assert forall|k: int| 0 <= k < r.pending.len() implies after.s.pending[k]
        == #[trigger] r.pending[k] by {
        assert(held.s.pending[k] == r.pending[k]);
        assert(after.s.pending[k] == v.s.pending[k]);
    }
    let at: int = if class == 0 {
        v.deferred_urgent.len() as int
    } else if class == 1 {
        v.deferred_streaming.len() as int
    } else {
        v.deferred_queued.len() as int
    };
    assert(line(held, class).remove(at) =~= line(v, class));
    lemma_left_remove(
        line(held, class),
        if class == 0 {
            r.urgent
        } else if class == 1 {
            r.streaming
        } else {
            r.queued
        },
        at,
    );
    assert(line(after, 0) == line(v, 0) && line(after, 1) == line(v, 1) && line(after, 2)
        == line(v, 2));
}

proof fn lemma_scanned_numbers(
    r: SchedulerView,
    v: ScanView,
    class: nat,
    body: Seq<u8>,
    now: u64,
)
    requires
        class <= 2,
        numbered_with(r, v, class, body),
        v.s.next_id < u64::MAX,
    ensures
        numbered(r, v.scanned(class, body, now)),
{
    let held: bool = match turn::scan_tcp_key(body) {
        Some(key) => v.blocked_tcp.contains(key),
        None => false,
    };
    if !held {
        let bytes: usize = body.len() as usize;
        let looked: (SchedulerView, Option<u128>, bool) = v.s.classified(body, now);
        assert(bond_laws::same_packets(looked.0, v.s) && looked.0.counters == v.s.counters) by {
            reveal(SchedulerView::classified);
        }
        let plan: PlanView = looked.0.planned(body, looked.1, looked.2, now);
        let choice: (SchedulerView, Option<usize>) = match plan.tcp_key {
            Some(key) => looked.0.tcp_placed(
                key,
                bytes,
                if v.backlog.contains_key(key) {
                    v.backlog[key]
                } else {
                    bytes
                },
                now,
            ),
            None => (
                looked.0,
                if plan.pinned is Some {
                    plan.pinned
                } else {
                    placement::first_of(plan.targets)
                },
            ),
        };
        assert(bond_laws::same_packets(choice.0, looked.0)
            && choice.0.counters.expired_packets == looked.0.counters.expired_packets) by {
            reveal(SchedulerView::tcp_placed);
        }
        let next: ScanView = v.with_state(choice.0);
        lemma_alike(r, v.defer(class, body), next.defer(class, body));
        match choice.1 {
            Some(primary) => {
                lemma_placed_numbers(r, next, class, body, plan, primary, now);
            },
            None => {},
        }
        lemma_alike(r, next.defer(class, body), next.held_back(class, body, plan));
    }
}

proof fn lemma_stepped_numbers(r: SchedulerView, v: ScanView, setting: ScanSetting)
    requires
        numbered(r, v),
        v.s.next_id < u64::MAX,
    ensures
        numbered(r, v.stepped(setting)),
{
    let s: SchedulerView = v.s;
    let now: u64 = setting.now;
    if !turn::room_left(s.paths, setting) {
        lemma_alike(r, v, v.stepped(setting));
    } else if s.urgent.len() > 0 {
        let taken: ScanView = v.with_state(
            SchedulerView { urgent: s.urgent.drop_first(), ..s },
        ).counted();
        let hand: ScanView = taken.defer(0, s.urgent[0]);
        assert(line(hand, 0) =~= line(v, 0));
        assert(numbered(r, hand));
        lemma_scanned_numbers(r, taken, 0, s.urgent[0], now);
    } else if s.streaming.len() > 0 {
        let taken: ScanView = v.with_state(
            SchedulerView { streaming: s.streaming.drop_first(), ..s },
        ).counted();
        let hand: ScanView = taken.defer(1, s.streaming[0]);
        assert(line(hand, 1) =~= line(v, 1));
        assert(numbered(r, hand));
        lemma_scanned_numbers(r, taken, 1, s.streaming[0], now);
    } else if s.queued.len() > 0 {
        let taken: ScanView = v.with_state(
            SchedulerView { queued: s.queued.drop_first(), ..s },
        ).counted();
        let hand: ScanView = taken.defer(2, s.queued[0]);
        assert(line(hand, 2) =~= line(v, 2));
        assert(numbered(r, hand));
        lemma_scanned_numbers(r, taken, 2, s.queued[0], now);
    } else {
        lemma_alike(r, v, v.stepped(setting));
    }
}

proof fn lemma_run_numbers(r: SchedulerView, v: ScanView, setting: ScanSetting, budget: nat)
    requires
        numbered(r, v),
        v.sent <= TURN_PACKETS,
        r.next_id + TURN_PACKETS < u64::MAX,
    ensures
        numbered(r, v.run(setting, budget)),
        v.run(setting, budget).sent <= TURN_PACKETS,
    decreases budget,
{
    if !(budget == 0 || v.stop || v.sent >= TURN_PACKETS) {
        lemma_stepped_numbers(r, v, setting);
        bond_laws::lemma_stepped_keeps(v, setting);
        lemma_run_numbers(r, v.stepped(setting), setting, (budget - 1) as nat);
    }
}

// ---- Packets that expire ---------------------------------------------------------------

/// Whether each packet that is no longer in flight was counted as expired.
spec fn accounted(a: SchedulerView, b: SchedulerView) -> bool {
    b.pending.len() + b.counters.expired_packets == a.pending.len() + a.counters.expired_packets
}

/// Whether the count of expired packets has room for all that are in flight.
spec fn countable(a: SchedulerView) -> bool {
    a.pending.len() + a.counters.expired_packets <= u64::MAX
}

proof fn lemma_slot(pending: Seq<PendingView>, id: u64)
    ensures
        0 <= bond::pending_slot(pending, id, 0) <= pending.len(),
{
    bond::lemma_pending_slot(pending, id, 0);
}

proof fn lemma_silent_accounts(s: SchedulerView, now: u64, n: nat)
    ensures
        s.silent_failed(now, n).pending == s.pending,
        s.silent_failed(now, n).counters.expired_packets == s.counters.expired_packets,
    decreases n,
{
    if n > 0 {
        lemma_silent_accounts(s, now, (n - 1) as nat);
    }
}

proof fn lemma_fast_accounts(s: SchedulerView, due: Seq<(u64, usize)>, now: u64)
    requires
        countable(s),
    ensures
        accounted(s, s.all_fast_repaired(due, now).0),
    decreases due.len(),
{
    if due.len() > 0 {
        lemma_fast_accounts(s, due.drop_last(), now);
        lemma_slot(s.all_fast_repaired(due.drop_last(), now).0.pending, due.last().0);
    }
}

proof fn lemma_protected_accounts(v: ProtectionView, waiting: Seq<(u64, usize)>, now: u64)
    ensures
        accounted(v.s, v.all_protected(waiting, now).s),
    decreases waiting.len(),
{
    if waiting.len() > 0 {
        lemma_protected_accounts(v, waiting.drop_last(), now);
        lemma_slot(v.all_protected(waiting.drop_last(), now).s.pending, waiting.last().0);
    }
}

proof fn lemma_due_accounts(s: SchedulerView, data: Seq<usize>, now: u64, n: nat)
    requires
        n <= s.pending.len(),
    ensures
        s.due_found(data, now, n).0.pending.len() == s.pending.len(),
        accounted(s, s.due_found(data, now, n).0),
    decreases n,
{
    if n > 0 {
        lemma_due_accounts(s, data, now, (n - 1) as nat);
    }
}

proof fn lemma_repaired_accounts(s: SchedulerView, due: Seq<u64>, data: Seq<usize>, now: u64)
    requires
        countable(s),
    ensures
        accounted(s, s.all_repaired(due, data, now).0),
    decreases due.len(),
{
    if due.len() > 0 {
        lemma_repaired_accounts(s, due.drop_last(), data, now);
        lemma_slot(s.all_repaired(due.drop_last(), data, now).0.pending, due.last());
    }
}

proof fn lemma_repairs_account(s: SchedulerView, now: u64)
    requires
        countable(s),
    ensures
        accounted(s, bond_laws::repaired_state(s, now)),
{
    let expired: SchedulerView = s.recent_expired(now);
    lemma_silent_accounts(expired, now, expired.n());
    let begun: (SchedulerView, Seq<FrameView>) = s.begun(now);
    assert(accounted(s, begun.0));
    let data: Seq<usize> = begun.0.data_paths(now);
    let found: Seq<(u64, usize)> = begun.0.fast_due(data, now, begun.0.pending.len());
    lemma_fast_accounts(begun.0, found, now);
    let fast: (SchedulerView, Seq<FrameView>) = begun.0.all_fast_repaired(found, now);
    let guard: ProtectionView = ProtectionView {
        s: fast.0,
        out: begun.1 + fast.1,
        blocked: Seq::empty(),
        sent: 0,
    };
    let waiting: Seq<(u64, usize)> = fast.0.protection_waiting(fast.0.pending.len());
    lemma_protected_accounts(guard, waiting, now);
    let guarded: SchedulerView = guard.all_protected(waiting, now).s;
    lemma_due_accounts(guarded, data, now, guarded.pending.len());
    let due: (SchedulerView, Seq<u64>) = guarded.due_found(data, now, guarded.pending.len());
    lemma_repaired_accounts(due.0, due.1, data, now);
}

// ---- Numbers of the frames -------------------------------------------------------------

/// Whether all frames bear numbers of packets in flight.
spec fn of_flight(frames: Seq<FrameView>, pending: Seq<PendingView>) -> bool {
    forall|i: int| 0 <= i < frames.len() ==> ack_laws::has(pending, (#[trigger] frames[i]).id)
}

proof fn lemma_flight_add(a: Seq<FrameView>, b: Seq<FrameView>, pending: Seq<PendingView>)
    requires
        of_flight(a, pending),
        of_flight(b, pending),
    ensures
        of_flight(a + b, pending),
{
    assert forall|i: int| 0 <= i < (a + b).len() implies ack_laws::has(
        pending,
        (#[trigger] (a + b)[i]).id,
    ) by {
        if i < a.len() {
            assert((a + b)[i] == a[i]);
        } else {
            assert((a + b)[i] == b[i - a.len()]);
        }
    }
}

proof fn lemma_flight_less(frames: Seq<FrameView>, a: Seq<PendingView>, b: Seq<PendingView>)
    requires
        of_flight(frames, b),
        forall|id: u64| #[trigger] ack_laws::has(b, id) ==> ack_laws::has(a, id),
    ensures
        of_flight(frames, a),
{
    assert forall|i: int| 0 <= i < frames.len() implies ack_laws::has(
        a,
        (#[trigger] frames[i]).id,
    ) by {
        assert(ack_laws::has(b, frames[i].id));
    }
}

proof fn lemma_fast_flight(s: SchedulerView, due: Seq<(u64, usize)>, now: u64)
    ensures
        of_flight(s.all_fast_repaired(due, now).1, s.pending),
    decreases due.len(),
{
    if due.len() > 0 {
        lemma_fast_flight(s, due.drop_last(), now);
        ack_laws::lemma_fast_drawn(s, due.drop_last(), now);
        let before: (SchedulerView, Seq<FrameView>) = s.all_fast_repaired(due.drop_last(), now);
        let step: (SchedulerView, Seq<FrameView>) = before.0.fast_repaired(
            due.last().0,
            due.last().1,
            now,
        );
        lemma_slot(before.0.pending, due.last().0);
        let at: int = bond::pending_slot(before.0.pending, due.last().0, 0);
        if step.1.len() > 0 {
            assert(before.0.pending[at].id == step.1[0].id);
            assert(ack_laws::has(before.0.pending, step.1[0].id));
        }
        lemma_flight_less(step.1, s.pending, before.0.pending);
        lemma_flight_add(before.1, step.1, s.pending);
    }
}

proof fn lemma_protected_flight(v: ProtectionView, waiting: Seq<(u64, usize)>, now: u64)
    ensures
        v.out.len() <= v.all_protected(waiting, now).out.len(),
        v.all_protected(waiting, now).out.take(v.out.len() as int) == v.out,
        of_flight(v.all_protected(waiting, now).out.skip(v.out.len() as int), v.s.pending),
    decreases waiting.len(),
{
    let k: int = v.out.len() as int;
    if waiting.len() == 0 {
        assert(v.out.take(k) =~= v.out);
    } else {
        lemma_protected_flight(v, waiting.drop_last(), now);
        ack_laws::lemma_protected_drawn(v, waiting.drop_last(), now);
        let before: ProtectionView = v.all_protected(waiting.drop_last(), now);
        let after: ProtectionView = v.all_protected(waiting, now);
        lemma_slot(before.s.pending, waiting.last().0);
        let at: int = bond::pending_slot(before.s.pending, waiting.last().0, 0);
        if after.out != before.out {
            let frame: FrameView = before.s.pending[at].data_frame(waiting.last().1, now);
            assert(after.out == before.out.push(frame));
            assert(before.s.pending[at].id == frame.id);
            assert(ack_laws::has(before.s.pending, frame.id));
            assert(of_flight(seq![frame], before.s.pending));
            lemma_flight_less(seq![frame], v.s.pending, before.s.pending);
            lemma_flight_add(before.out.skip(k), seq![frame], v.s.pending);
            assert(after.out.skip(k) =~= before.out.skip(k) + seq![frame]);
            assert(after.out.take(k) =~= before.out.take(k));
        }
    }
}

proof fn lemma_repaired_flight(s: SchedulerView, due: Seq<u64>, data: Seq<usize>, now: u64)
    ensures
        of_flight(s.all_repaired(due, data, now).1, s.pending),
    decreases due.len(),
{
    if due.len() > 0 {
        lemma_repaired_flight(s, due.drop_last(), data, now);
        ack_laws::lemma_repaired_drawn(s, due.drop_last(), data, now);
        let before: (SchedulerView, Seq<FrameView>) = s.all_repaired(due.drop_last(), data, now);
        let step: (SchedulerView, Seq<FrameView>) = before.0.repaired(due.last(), data, now);
        lemma_slot(before.0.pending, due.last());
        let at: int = bond::pending_slot(before.0.pending, due.last(), 0);
        if step.1.len() > 0 {
            assert(before.0.pending[at].id == step.1[0].id);
            assert(ack_laws::has(before.0.pending, step.1[0].id));
        }
        lemma_flight_less(step.1, s.pending, before.0.pending);
        lemma_flight_add(before.1, step.1, s.pending);
    }
}

/// What repairs send was in flight before.
proof fn lemma_mended_flight(s: SchedulerView, out: Seq<FrameView>, data: Seq<usize>, now: u64)
    ensures
        out.len() <= s.mended(out, data, now).1.len(),
        s.mended(out, data, now).1.take(out.len() as int) == out,
        of_flight(s.mended(out, data, now).1.skip(out.len() as int), s.pending),
{
    let due: Seq<(u64, usize)> = s.fast_due(data, now, s.pending.len());
    lemma_fast_flight(s, due, now);
    ack_laws::lemma_fast_drawn(s, due, now);
    let fast: (SchedulerView, Seq<FrameView>) = s.all_fast_repaired(due, now);
    let guard: ProtectionView = ProtectionView {
        s: fast.0,
        out: out + fast.1,
        blocked: Seq::empty(),
        sent: 0,
    };
    let waiting: Seq<(u64, usize)> = fast.0.protection_waiting(fast.0.pending.len());
    lemma_protected_flight(guard, waiting, now);
    ack_laws::lemma_protected_drawn(guard, waiting, now);
    let guarded: ProtectionView = guard.all_protected(waiting, now);
    ack_laws::lemma_due_drawn(guarded.s, data, now, guarded.s.pending.len());
    let found: (SchedulerView, Seq<u64>) = guarded.s.due_found(data, now, guarded.s.pending.len());
    lemma_repaired_flight(found.0, found.1, data, now);
    let done: (SchedulerView, Seq<FrameView>) = found.0.all_repaired(found.1, data, now);
    let mended: (SchedulerView, Seq<FrameView>) = s.mended(out, data, now);
    assert(mended.1 == guarded.out + done.1);
    let k: int = out.len() as int;
    let g: int = guard.out.len() as int;
    let late: Seq<FrameView> = guarded.out.skip(g);
    lemma_flight_less(done.1, guarded.s.pending, found.0.pending);
    lemma_flight_less(done.1, fast.0.pending, guarded.s.pending);
    lemma_flight_add(late, done.1, fast.0.pending);
    lemma_flight_less(late + done.1, s.pending, fast.0.pending);
    lemma_flight_add(fast.1, late + done.1, s.pending);
    let more: Seq<FrameView> = fast.1 + (late + done.1);
    assert(guarded.out.take(g) + late =~= guarded.out);
    assert(mended.1 =~= out + more);
    assert(mended.1.take(k) =~= out);
    assert(mended.1.skip(k) =~= more);
}

/// Whether a number is borne by one of some frames.
pub open spec fn borne(frames: Seq<FrameView>, id: u64) -> bool {
    exists|i: int| 0 <= i < frames.len() && (#[trigger] frames[i]).id == id
}

/// Whether a scan that went on from another put frames behind, which bear the
/// numbers that it gave out, all of them and no others.
spec fn bears(a: ScanView, b: ScanView) -> bool {
    &&& a.s.next_id <= b.s.next_id
    &&& a.out.len() <= b.out.len()
    &&& forall|i: int| 0 <= i < a.out.len() ==> (#[trigger] b.out[i]) == a.out[i]
    &&& forall|i: int|
        a.out.len() <= i < b.out.len() ==> a.s.next_id <= (#[trigger] b.out[i]).id
            < b.s.next_id
    &&& forall|id: u64|
        a.s.next_id <= id < b.s.next_id ==> #[trigger] borne(b.out.skip(a.out.len() as int), id)
}

proof fn lemma_bears_trans(a: ScanView, b: ScanView, c: ScanView)
    requires
        bears(a, b),
        bears(b, c),
    ensures
        bears(a, c),
{
    assert forall|i: int| 0 <= i < a.out.len() implies (#[trigger] c.out[i]) == a.out[i] by {
        assert(c.out[i] == b.out[i]);
    }
    assert forall|i: int| a.out.len() <= i < c.out.len() implies a.s.next_id <= (
    #[trigger] c.out[i]).id < c.s.next_id by {
        if i < b.out.len() {
            assert(c.out[i] == b.out[i]);
        }
    }
    let k: int = a.out.len() as int;
    let m: int = b.out.len() as int;
    assert forall|id: u64| a.s.next_id <= id < c.s.next_id implies #[trigger] borne(
        c.out.skip(k),
        id,
    ) by {
        if id < b.s.next_id {
            assert(borne(b.out.skip(k), id));
            let i: int = choose|i: int|
                0 <= i < b.out.skip(k).len() && (#[trigger] b.out.skip(k)[i]).id == id;
            assert(c.out[i + k] == b.out[i + k]);
            assert(c.out.skip(k)[i].id == id);
        } else {
            assert(borne(c.out.skip(m), id));
            let i: int = choose|i: int|
                0 <= i < c.out.skip(m).len() && (#[trigger] c.out.skip(m)[i]).id == id;
            assert(c.out.skip(k)[i + m - k].id == id);
        }
    }
}

/// A packet that is placed is sent under the number that it is given.
proof fn lemma_placed_bears(
    v: ScanView,
    body: Seq<u8>,
    plan: PlanView,
    primary: usize,
    now: u64,
)
    ensures
        bears(v, v.placed(body, plan, primary, now)),
{
    let after: ScanView = v.placed(body, plan, primary, now);
    let noted: SchedulerView = match plan.tcp_key {
        Some(key) => v.s.tcp_noted(key, primary, body.len() as usize, now),
        None => v.s,
    };
    assert(bond_laws::same_packets(noted, v.s)) by {
        reveal(SchedulerView::tcp_noted);
    }
    let id: u64 = noted.next_id;
    if id != u64::MAX {
        bond_laws::lemma_placed_keeps(v, body, plan, primary, now);
        let numbered: SchedulerView = SchedulerView { next_id: (id + 1) as u64, ..noted };
        let start: SendingView = SendingView {
            s: numbered.pin_noted(plan, body.len(), primary, now),
            packet: turn::fresh_packet(id, body, now),
            out: v.out,
        };
        let copied: SendingView = start.copied(primary, now);
        let first: FrameView = start.packet.data_frame(primary, now);
        assert(copied.out == v.out.push(first));
        assert(copied.packet.id == id);
        let tcp_continuity: bool = packet::spec_ipv4_tcp(body) && noted.policy
            == Policy::Continuity;
        lemma_seconded_bears(copied, plan, primary, tcp_continuity, now);
        let done: SendingView = copied.seconded(plan, primary, tcp_continuity, now);
        assert(after.out == done.out);
        let k: int = v.out.len() as int;
        assert(after.out[k] == first);
        assert(after.out.skip(k)[0].id == id);
        assert(borne(after.out.skip(k), id));
    }
}

proof fn lemma_seconded_bears(
    v: SendingView,
    plan: PlanView,
    primary: usize,
    tcp_continuity: bool,
    now: u64,
)
    ensures
        ({
            let after: SendingView = v.seconded(plan, primary, tcp_continuity, now);
            &&& v.out.len() <= after.out.len() <= v.out.len() + 1
            &&& forall|i: int| 0 <= i < v.out.len() ==> (#[trigger] after.out[i]) == v.out[i]
            &&& after.out.len() > v.out.len() ==> after.out.last().id == v.packet.id
        }),
{
}

proof fn lemma_scanned_bears(v: ScanView, class: nat, body: Seq<u8>, now: u64)
    ensures
        bears(v, v.scanned(class, body, now)),
{
    let bytes: usize = body.len() as usize;
    let looked: (SchedulerView, Option<u128>, bool) = v.s.classified(body, now);
    assert(bond_laws::same_packets(looked.0, v.s)) by {
        reveal(SchedulerView::classified);
    }
    let plan: PlanView = looked.0.planned(body, looked.1, looked.2, now);
    let choice: (SchedulerView, Option<usize>) = match plan.tcp_key {
        Some(key) => looked.0.tcp_placed(
            key,
            bytes,
            if v.backlog.contains_key(key) {
                v.backlog[key]
            } else {
                bytes
            },
            now,
        ),
        None => (
            looked.0,
            if plan.pinned is Some {
                plan.pinned
            } else {
                placement::first_of(plan.targets)
            },
        ),
    };
    assert(bond_laws::same_packets(choice.0, looked.0)) by {
        reveal(SchedulerView::tcp_placed);
    }
    match choice.1 {
        Some(primary) => {
            lemma_placed_bears(v.with_state(choice.0), body, plan, primary, now);
        },
        None => {},
    }
}

proof fn lemma_run_bears(v: ScanView, setting: ScanSetting, budget: nat)
    ensures
        bears(v, v.run(setting, budget)),
    decreases budget,
{
    if !(budget == 0 || v.stop || v.sent >= TURN_PACKETS) {
        let s: SchedulerView = v.s;
        let now: u64 = setting.now;
        let after: ScanView = v.stepped(setting);
        if !turn::room_left(s.paths, setting) {
        } else if s.urgent.len() > 0 {
            lemma_scanned_bears(
                v.with_state(SchedulerView { urgent: s.urgent.drop_first(), ..s }).counted(),
                0,
                s.urgent[0],
                now,
            );
        } else if s.streaming.len() > 0 {
            lemma_scanned_bears(
                v.with_state(SchedulerView { streaming: s.streaming.drop_first(), ..s }).counted(),
                1,
                s.streaming[0],
                now,
            );
        } else if s.queued.len() > 0 {
            lemma_scanned_bears(
                v.with_state(SchedulerView { queued: s.queued.drop_first(), ..s }).counted(),
                2,
                s.queued[0],
                now,
            );
        }
        assert(bears(v, after));
        lemma_run_bears(after, setting, (budget - 1) as nat);
        lemma_bears_trans(v, after, v.run(setting, budget));
    }
}

/// Whether the data among a turn's frames bears the numbers that it should:
/// each frame that of a packet that was in flight before, or one of those that
/// the turn gave out; and each of those is borne.
pub open spec fn data_numbered(
    s: SchedulerView,
    after: SchedulerView,
    out: Seq<FrameView>,
    now: u64,
) -> bool {
    let data: Seq<FrameView> = out.skip(turn_frames::probes_due(s, now) as int);
    &&& s.next_id <= after.next_id
    &&& forall|i: int|
        0 <= i < data.len() ==> ack_laws::has(s.pending, (#[trigger] data[i]).id) || s.next_id
            <= data[i].id < after.next_id
    &&& forall|id: u64| s.next_id <= id < after.next_id ==> #[trigger] borne(data, id)
    &&& forall|id: u64|
        #[trigger] borne(data, id) && !ack_laws::has(s.pending, id) ==> s.next_id <= id
            < after.next_id
}

/// The data frames of a turn bear numbers of packets that were in flight
/// before, and the new ones that the turn gives out: no others, and of the new
/// ones each. Those new to the flight are thus as many as the numbers that were
/// given out, one after the other.
pub proof fn turn_frames_bear_numbers(s: SchedulerView, now: u64)
    requires
        s.n() <= MAX_PATHS,
    ensures
        data_numbered(s, s.ticked(now).0, s.ticked(now).1, now),
{
    turn_frames::turn_sends_probes_and_data(s, now);
    bond_laws::lemma_repaired_state_keeps(s, now);
    let expired: SchedulerView = s.recent_expired(now);
    ack_laws::lemma_silent_drawn(expired, now, expired.n());
    let begun: (SchedulerView, Seq<FrameView>) = s.begun(now);
    assert(begun.0.pending == s.pending);
    let data: Seq<usize> = begun.0.data_paths(now);
    lemma_mended_flight(begun.0, begun.1, data, now);
    let r: SchedulerView = bond_laws::repaired_state(s, now);
    let mended: (SchedulerView, Seq<FrameView>) = begun.0.mended(begun.1, data, now);
    assert(mended.0 == r && r.next_id == s.next_id);
    let start: ScanView = r.scan_start(mended.1);
    lemma_run_bears(start, r.setting(data, now), r.waiting());
    let (after, out) = s.ticked(now);
    let end: ScanView = start.run(r.setting(data, now), r.waiting());
    assert(out == end.out && after.next_id == end.s.next_id);
    let k: int = begun.1.len() as int;
    let m: int = mended.1.len() as int;
    let sent: Seq<FrameView> = out.skip(k);
    assert forall|i: int| 0 <= i < sent.len() implies ack_laws::has(
        s.pending,
        (#[trigger] sent[i]).id,
    ) || s.next_id <= sent[i].id < after.next_id by {
        assert(sent[i] == out[i + k]);
        if i + k < m {
            assert(out[i + k] == mended.1[i + k]);
            assert(mended.1.skip(k)[i] == mended.1[i + k]);
        }
    }
    assert forall|id: u64| s.next_id <= id < after.next_id implies #[trigger] borne(sent, id) by {
        assert(borne(out.skip(m), id));
        let i: int = choose|i: int|
            0 <= i < out.skip(m).len() && (#[trigger] out.skip(m)[i]).id == id;
        assert(sent[i + m - k].id == id);
    }
    assert forall|id: u64|
        #[trigger] borne(sent, id) && !ack_laws::has(s.pending, id) implies s.next_id <= id
        < after.next_id by {
        let i: int = choose|i: int| 0 <= i < sent.len() && (#[trigger] sent[i]).id == id;
    }
}

// ---- The turn ----------------------------------------------------------------------------

/// A turn numbers the new packets that it sends one after the other, above all
/// numbers before, and sends at most its share. Each leaves the queues and is
/// in flight, behind those that were; packets in flight that are gone were
/// counted as expired. In each class the packets that still wait keep their
/// order. The data that the turn sends bears the numbers of packets that were
/// in flight, and the new ones, each of them.
pub proof fn turn_numbers_packets_in_order(s: SchedulerView, now: u64)
    requires
        s.n() <= MAX_PATHS,
        s.next_id + TURN_PACKETS < u64::MAX,
        s.pending.len() + s.counters.expired_packets <= u64::MAX,
    ensures
        ({
            let after: SchedulerView = s.ticked(now).0;
            let kept: Seq<PendingView> = bond_laws::repaired_state(s, now).pending;
            let sent: int = after.next_id - s.next_id;
            let expired: int = after.counters.expired_packets - s.counters.expired_packets;
            &&& 0 <= sent <= TURN_PACKETS
            &&& after.waiting() == s.waiting() - sent
            &&& after.pending.len() == s.pending.len() + sent - expired
            &&& kept.len() == s.pending.len() - expired
            &&& forall|k: int| 0 <= k < kept.len() ==> after.pending[k] == #[trigger] kept[k]
            &&& forall|k: int|
                kept.len() <= k < after.pending.len() ==> (#[trigger] after.pending[k]).id
                    == s.next_id + (k - kept.len())
            &&& left_of(after.urgent, s.urgent)
            &&& left_of(after.streaming, s.streaming)
            &&& left_of(after.queued, s.queued)
            &&& data_numbered(s, after, s.ticked(now).1, now)
        }),
{
    turn_frames_bear_numbers(s, now);
    lemma_repairs_account(s, now);
    bond_laws::lemma_repaired_state_keeps(s, now);
    let r: SchedulerView = bond_laws::repaired_state(s, now);
    let begun: (SchedulerView, Seq<FrameView>) = s.begun(now);
    let data: Seq<usize> = begun.0.data_paths(now);
    let mended: (SchedulerView, Seq<FrameView>) = begun.0.mended(begun.1, data, now);
    assert(mended.0 == r);
    let start: ScanView = r.scan_start(mended.1);
    let setting: ScanSetting = r.setting(data, now);
    lemma_left_all(r.urgent);
    lemma_left_all(r.streaming);
    lemma_left_all(r.queued);
    assert(line(start, 0) =~= r.urgent);
    assert(line(start, 1) =~= r.streaming);
    assert(line(start, 2) =~= r.queued);
    assert(numbered(r, start));
    lemma_run_numbers(r, start, setting, r.waiting());
}

} // verus!
