//! What a turn sends: its probes, and after them data on paths that carry it.
use crate::bond;
use crate::bond::{Policy, SchedulerView};
use crate::bond_laws;
use crate::flight;
use crate::flight::{Attempt, PendingView};
use crate::frame;
use crate::frame::{FrameView, Kind, MAX_PATHS};
use crate::packet;
use crate::path::Path;
use crate::placement;
use crate::repair;
use crate::repair::ProtectionView;
use crate::turn;
use crate::turn::{PlanView, ScanSetting, ScanView, SendingView};
use crate::turn_laws;
use vstd::prelude::*;

verus! {

/// Whether two states of a path agree in what its choice for data rests on.
pub open spec fn same_standing(a: Path, b: Path) -> bool {
    &&& a.id == b.id
    &&& a.enabled == b.enabled
    &&& a.metered == b.metered
    &&& a.probation_until == b.probation_until
    &&& a.good_samples == b.good_samples
    &&& a.last_response == b.last_response
    &&& a.jitter_ms == b.jitter_ms
    &&& a.rtt_ms == b.rtt_ms
}

/// Whether two states of a bond agree in what the choice of paths rests on.
pub open spec fn same_roads(a: SchedulerView, b: SchedulerView) -> bool {
    &&& a.policy == b.policy
    &&& a.paths.len() == b.paths.len()
    &&& forall|i: int|
        0 <= i < a.paths.len() ==> same_standing(#[trigger] a.paths[i], b.paths[i])
}

/// Whether all frames are data of this moment, each on one of the paths.
pub open spec fn data_on(frames: Seq<FrameView>, data: Seq<usize>, now: u64) -> bool {
    forall|i: int|
        0 <= i < frames.len() ==> {
            let sent: FrameView = #[trigger] frames[i];
            sent.kind == Kind::Data && sent.stamp == now && data.contains(sent.path as usize)
        }
}

proof fn lemma_same_data(a: SchedulerView, b: SchedulerView, now: u64)
    requires
        same_roads(a, b),
    ensures
        a.data_paths(now) == b.data_paths(now),
{
    reveal(SchedulerView::data_paths);
    assert forall|i: int| 0 <= i < a.paths.len() implies (#[trigger] a.paths[i]).ready(now)
        == b.paths[i].ready(now) && a.paths[i].recently_responding(now)
        == b.paths[i].recently_responding(now) by {
        assert(same_standing(a.paths[i], b.paths[i]));
    }
    assert(bond::ready_flags(a.paths, now) =~= bond::ready_flags(b.paths, now));
    assert(bond::fresh_flags(a.paths, now) =~= bond::fresh_flags(b.paths, now));
    assert(bond::unmetered_flags(a.paths) =~= bond::unmetered_flags(b.paths));
    assert(bond::delay_costs(a.paths) =~= bond::delay_costs(b.paths));
}

/// Sending on a path, and holding a loss against it, keep its standing.
proof fn lemma_path_keeps(p: Path, repeated: bool, bulk: bool, bytes: usize, backoff: bool, now: u64)
    ensures
        same_standing(p.charged(repeated, bulk, bytes, now), p),
        same_standing(p.repair_timed_out(now, backoff), p),
{
    reveal(Path::charged);
    reveal(Path::capacity_noted);
    reveal(Path::tcp_noted);
    reveal(Path::repair_timed_out);
}

proof fn lemma_sent_keeps(paths: Seq<Path>, packet: PendingView, index: usize, now: u64)
    requires
        index < paths.len(),
    ensures
        same_standing(
            flight::path_after_send(paths, packet, index, now),
            paths[index as int],
        ),
{
    lemma_path_keeps(
        paths[index as int],
        flight::current_on(paths, packet.attempts, index),
        packet.bulk_tcp(),
        packet.body.len() as usize,
        false,
        now,
    );
}

proof fn lemma_released_keeps(paths: Seq<Path>, attempts: Seq<Attempt>, bytes: usize, n: nat)
    ensures
        bond::released(paths, attempts, bytes, n).len() == paths.len(),
        forall|i: int|
            0 <= i < paths.len() ==> same_standing(
                #[trigger] bond::released(paths, attempts, bytes, n)[i],
                paths[i],
            ),
    decreases n,
{
    if n > 0 {
        lemma_released_keeps(paths, attempts, bytes, (n - 1) as nat);
    }
}

proof fn lemma_penalised_keeps(
    paths: Seq<Path>,
    attempts: Seq<Attempt>,
    some: bool,
    redundant: bool,
    now: u64,
    n: nat,
)
    ensures
        repair::penalised(paths, attempts, some, redundant, now, n).len() == paths.len(),
        forall|i: int|
            0 <= i < paths.len() ==> same_standing(
                #[trigger] repair::penalised(paths, attempts, some, redundant, now, n)[i],
                paths[i],
            ),
    decreases n,
{
    if n > 0 {
        lemma_penalised_keeps(paths, attempts, some, redundant, now, (n - 1) as nat);
        let before: Seq<Path> = repair::penalised(
            paths,
            attempts,
            some,
            redundant,
            now,
            (n - 1) as nat,
        );
        let attempt: Attempt = attempts[n - 1];
        if flight::is_current(before, attempt) {
            let p: Path = before[attempt.path as int];
            let mute: bool = !p.recently_responding(now);
            lemma_path_keeps(p, false, false, 0, mute || redundant, now);
        }
    }
}

proof fn lemma_roads_trans(a: SchedulerView, b: SchedulerView, c: SchedulerView)
    requires
        same_roads(a, b),
        same_roads(b, c),
    ensures
        same_roads(a, c),
{
    assert forall|i: int| 0 <= i < a.paths.len() implies same_standing(
        #[trigger] a.paths[i],
        c.paths[i],
    ) by {
        assert(same_standing(a.paths[i], b.paths[i]));
        assert(same_standing(b.paths[i], c.paths[i]));
    }
}

proof fn lemma_data_frame(packet: PendingView, index: usize, data: Seq<usize>, now: u64)
    requires
        data.contains(index),
        index < MAX_PATHS,
    ensures
        data_on(seq![packet.data_frame(index, now)], data, now),
{
    assert((index as u8) as usize == index);
}

proof fn lemma_data_add(a: Seq<FrameView>, b: Seq<FrameView>, data: Seq<usize>, now: u64)
    requires
        data_on(a, data, now),
        data_on(b, data, now),
    ensures
        data_on(a + b, data, now),
{
    assert forall|i: int| 0 <= i < (a + b).len() implies ({
        let sent: FrameView = #[trigger] (a + b)[i];
        sent.kind == Kind::Data && sent.stamp == now && data.contains(sent.path as usize)
    }) by {
        if i < a.len() {
            assert((a + b)[i] == a[i]);
        } else {
            assert((a + b)[i] == b[i - a.len()]);
        }
    }
}

/// The lists that a second copy is drawn from hold only paths with data.
proof fn lemma_protection_within(s: SchedulerView, bytes: usize, now: u64, x: usize)
    requires
        s.n() <= MAX_PATHS,
    ensures
        s.udp_protection_targets(bytes, now).contains(x) ==> s.data_paths(now).contains(x),
        s.tcp_protection_targets(bytes, now).contains(x) ==> s.data_paths(now).contains(x),
{
    reveal(SchedulerView::udp_protection_targets);
    reveal(SchedulerView::tcp_protection_targets);
    turn_laws::lemma_data_within(s, now);
    placement::lemma_kept(
        s.data_paths(now),
        bond::protection_flags(s.paths, bytes, now),
        s.n(),
    );
    placement::lemma_kept(
        s.data_paths(now),
        bond::budget_flags(s.paths, bytes, false, now),
        s.n(),
    );
}

// ---- Repairs -----------------------------------------------------------------------

/// Whether the paths of a list may be used, given the paths that carry data.
spec fn known(due: Seq<(u64, usize)>, data: Seq<usize>) -> bool {
    forall|i: int| 0 <= i < due.len() ==> data.contains((#[trigger] due[i]).1)
}

proof fn lemma_fast_due_known(s: SchedulerView, data: Seq<usize>, now: u64, n: nat)
    ensures
        known(s.fast_due(data, now, n), data),
    decreases n,
{
    if n > 0 {
        lemma_fast_due_known(s, data, now, (n - 1) as nat);
    }
}

proof fn lemma_fast_sends(
    s: SchedulerView,
    due: Seq<(u64, usize)>,
    data: Seq<usize>,
    now: u64,
)
    requires
        known(due, data),
        placement::within(data, s.n()),
        s.n() <= MAX_PATHS,
    ensures
        same_roads(s.all_fast_repaired(due, now).0, s),
        data_on(s.all_fast_repaired(due, now).1, data, now),
    decreases due.len(),
{
    if due.len() > 0 {
        assert(known(due.drop_last(), data)) by {
            assert forall|i: int| 0 <= i < due.drop_last().len() implies data.contains(
                (#[trigger] due.drop_last()[i]).1,
            ) by {
                assert(due.drop_last()[i] == due[i]);
            }
        }
        lemma_fast_sends(s, due.drop_last(), data, now);
        let before: (SchedulerView, Seq<FrameView>) = s.all_fast_repaired(due.drop_last(), now);
        let id: u64 = due.last().0;
        let index: usize = due.last().1;
        assert(data.contains(due[due.len() - 1].1));
        let step: (SchedulerView, Seq<FrameView>) = before.0.fast_repaired(id, index, now);
        let at: int = bond::pending_slot(before.0.pending, id, 0);
        let packet: PendingView = before.0.pending[at];
        lemma_released_keeps(
            before.0.paths,
            packet.attempts,
            packet.body.len() as usize,
            packet.attempts.len(),
        );
        let cleared: PendingView = repair::evidence_cleared(packet);
        let k: int = choose|k: int| 0 <= k < data.len() && data[k] == index;
        assert(index < s.n());
        lemma_path_keeps(before.0.paths[index as int], false, false, 0, true, now);
        let paths: Seq<Path> = before.0.paths.update(
            index as int,
            before.0.paths[index as int].repair_timed_out(now, true),
        );
        lemma_sent_keeps(paths, cleared, index, now);
        assert(same_roads(step.0, before.0));
        lemma_roads_trans(step.0, before.0, s);
        lemma_data_frame(cleared, index, data, now);
        lemma_data_add(before.1, step.1, data, now);
    }
}

proof fn lemma_protects(
    v: ProtectionView,
    waiting: Seq<(u64, usize)>,
    data: Seq<usize>,
    now: u64,
)
    requires
        v.s.n() <= MAX_PATHS,
        v.s.data_paths(now) == data,
    ensures
        same_roads(v.all_protected(waiting, now).s, v.s),
        v.out.len() <= v.all_protected(waiting, now).out.len(),
        v.all_protected(waiting, now).out.take(v.out.len() as int) == v.out,
        data_on(v.all_protected(waiting, now).out.skip(v.out.len() as int), data, now),
    decreases waiting.len(),
{
    let k: int = v.out.len() as int;
    if waiting.len() == 0 {
        assert(v.out.take(k) =~= v.out);
    } else {
        lemma_protects(v, waiting.drop_last(), data, now);
        let before: ProtectionView = v.all_protected(waiting.drop_last(), now);
        let id: u64 = waiting.last().0;
        let index: usize = waiting.last().1;
        let after: ProtectionView = before.protected(id, index, now);
        let s: SchedulerView = before.s;
        let packet: PendingView = s.pending[bond::pending_slot(s.pending, id, 0)];
        lemma_same_data(s, v.s, now);
        turn_laws::lemma_data_within(s, now);
        if s.protection_eligible(packet.body, now).contains(index) {
            let bytes: usize = packet.body.len() as usize;
            lemma_protection_within(s, bytes, now, index);
            if !packet::spec_ipv4_udp(packet.body) && !packet::spec_ipv4_tcp(packet.body) {
                turn_laws::packet_goes_to_ready_path(s, bytes, true, now, index);
            }
            assert(data.contains(index));
            let at: int = choose|at: int| 0 <= at < data.len() && data[at] == index;
            assert(index < s.n());
            lemma_sent_keeps(s.paths, packet, index, now);
            lemma_data_frame(packet, index, data, now);
            let frame: FrameView = packet.data_frame(index, now);
            lemma_data_add(before.out.skip(k), seq![frame], data, now);
            assert(before.out.push(frame).skip(k) =~= before.out.skip(k) + seq![frame]);
            assert(before.out.push(frame).take(k) =~= before.out.take(k));
        }
        assert(same_roads(after.s, s));
        lemma_roads_trans(after.s, s, v.s);
    }
}

proof fn lemma_due_keeps(s: SchedulerView, data: Seq<usize>, now: u64, n: nat)
    ensures
        s.due_found(data, now, n).0.paths == s.paths,
        s.due_found(data, now, n).0.policy == s.policy,
    decreases n,
{
    if n > 0 {
        lemma_due_keeps(s, data, now, (n - 1) as nat);
    }
}

proof fn lemma_own_within(
    list: Seq<usize>,
    paths: Seq<Path>,
    attempts: Seq<Attempt>,
    data: Seq<usize>,
    now: u64,
    n: nat,
)
    requires
        forall|x: usize| #[trigger] list.contains(x) ==> data.contains(x),
    ensures
        forall|x: usize|
            #[trigger] repair::with_own_paths(list, paths, attempts, data, now, n).contains(x)
                ==> data.contains(x),
    decreases n,
{
    if n > 0 {
        lemma_own_within(list, paths, attempts, data, now, (n - 1) as nat);
        let before: Seq<usize> = repair::with_own_paths(
            list,
            paths,
            attempts,
            data,
            now,
            (n - 1) as nat,
        );
        let all: Seq<usize> = repair::with_own_paths(list, paths, attempts, data, now, n);
        assert forall|x: usize| #[trigger] all.contains(x) implies data.contains(x) by {
            let i: int = choose|i: int| 0 <= i < all.len() && all[i] == x;
            if i < before.len() {
                assert(before[i] == x);
                assert(before.contains(x));
            }
        }
    }
}

proof fn lemma_first_unused(list: Seq<usize>, paths: Seq<Path>, attempts: Seq<Attempt>, i: int)
    requires
        0 <= i,
    ensures
        match repair::first_unused(list, paths, attempts, i) {
            Some(x) => list.contains(x),
            None => true,
        },
    decreases list.len() - i,
{
    if i < list.len() && flight::current_on(paths, attempts, list[i]) {
        lemma_first_unused(list, paths, attempts, i + 1);
    }
}

proof fn lemma_repairs_send(s: SchedulerView, due: Seq<u64>, data: Seq<usize>, now: u64)
    requires
        s.n() <= MAX_PATHS,
        s.data_paths(now) == data,
    ensures
        same_roads(s.all_repaired(due, data, now).0, s),
        data_on(s.all_repaired(due, data, now).1, data, now),
    decreases due.len(),
{
    if due.len() > 0 {
        lemma_repairs_send(s, due.drop_last(), data, now);
        let before: (SchedulerView, Seq<FrameView>) = s.all_repaired(due.drop_last(), data, now);
        let b: SchedulerView = before.0;
        let step: (SchedulerView, Seq<FrameView>) = b.repaired(due.last(), data, now);
        let packet: PendingView = b.pending[bond::pending_slot(b.pending, due.last(), 0)];
        let bytes: usize = packet.body.len() as usize;
        lemma_same_data(b, s, now);
        turn_laws::lemma_data_within(b, now);
        lemma_released_keeps(b.paths, packet.attempts, bytes, packet.attempts.len());
        let near: bool = packet::spec_interactive(packet.body) || packet::spec_streaming(
            packet.body,
        );
        let fit: Seq<usize> = b.targets(bytes, near, now);
        assert forall|x: usize| #[trigger] fit.contains(x) implies data.contains(x) by {
            turn_laws::packet_goes_to_ready_path(b, bytes, near, now, x);
        }
        let list: Seq<usize> = b.repair_candidates(packet, data, now);
        lemma_own_within(fit, b.paths, packet.attempts, data, now, packet.attempts.len());
        assert(placement::within(list, b.n())) by {
            assert forall|i: int| 0 <= i < list.len() implies #[trigger] list[i] < b.n() by {
                assert(list.contains(list[i]));
                let k: int = choose|k: int| 0 <= k < data.len() && data[k] == list[i];
            }
        }
        placement::lemma_cheapest(list, repair::repair_costs(b.paths, packet, now), b.n());
        lemma_first_unused(list, b.paths, packet.attempts, 0);
        match repair::repair_target(list, b.paths, packet, now) {
            Some(target) => {
                if list.len() > 0 {
                    assert(list.contains(list[0]));
                }
                assert(list.contains(target));
                assert(data.contains(target));
                let k: int = choose|k: int| 0 <= k < data.len() && data[k] == target;
                assert(target < b.n());
                let some: bool = repair::any_unresponsive(b.paths, packet.attempts, now);
                let redundant: bool = !some && flight::current_count(
                    b.paths,
                    packet.attempts,
                    packet.attempts.len(),
                ) > 1;
                lemma_penalised_keeps(
                    b.paths,
                    packet.attempts,
                    some,
                    redundant,
                    now,
                    packet.attempts.len(),
                );
                let paths: Seq<Path> = b.loss_noted(packet, now);
                lemma_sent_keeps(paths, packet, target, now);
                lemma_data_frame(packet, target, data, now);
            },
            None => {},
        }
        assert(same_roads(step.0, b));
        lemma_roads_trans(step.0, b, s);
        lemma_data_add(before.1, step.1, data, now);
    }
}

// ---- New packets -------------------------------------------------------------------

/// Whether a scan went on from another on the same paths, and added only data.
spec fn goes_on(a: ScanView, b: ScanView, data: Seq<usize>, now: u64) -> bool {
    &&& same_roads(b.s, a.s)
    &&& a.out.len() <= b.out.len()
    &&& b.out.take(a.out.len() as int) == a.out
    &&& data_on(b.out.skip(a.out.len() as int), data, now)
}

proof fn lemma_goes_on_trans(a: ScanView, b: ScanView, c: ScanView, data: Seq<usize>, now: u64)
    requires
        goes_on(a, b, data, now),
        goes_on(b, c, data, now),
    ensures
        goes_on(a, c, data, now),
{
    let k: int = a.out.len() as int;
    let m: int = b.out.len() as int;
    lemma_roads_trans(c.s, b.s, a.s);
    assert(c.out.take(k) =~= b.out.take(k)) by {
        assert(c.out.take(m).take(k) =~= c.out.take(k));
    }
    lemma_data_add(b.out.skip(k), c.out.skip(m), data, now);
    assert(c.out.skip(k) =~= b.out.skip(k) + c.out.skip(m)) by {
        assert forall|i: int| 0 <= i < c.out.skip(k).len() implies #[trigger] c.out.skip(k)[i]
            == (b.out.skip(k) + c.out.skip(m))[i] by {
            if i < m - k {
                assert(c.out.take(m)[i + k] == c.out[i + k]);
            }
        }
    }
}

proof fn lemma_stays(v: ScanView, data: Seq<usize>, now: u64)
    ensures
        goes_on(v, v, data, now),
{
    assert(v.out.take(v.out.len() as int) =~= v.out);
}

proof fn lemma_copied(v: SendingView, index: usize, data: Seq<usize>, now: u64)
    requires
        data.contains(index),
        index < v.s.n() <= MAX_PATHS,
    ensures
        same_roads(v.copied(index, now).s, v.s),
        v.copied(index, now).out == v.out.push(v.packet.data_frame(index, now)),
{
    lemma_sent_keeps(v.s.paths, v.packet, index, now);
}

proof fn lemma_seconded(
    v: SendingView,
    plan: PlanView,
    primary: usize,
    tcp_continuity: bool,
    data: Seq<usize>,
    now: u64,
)
    requires
        v.s.n() <= MAX_PATHS,
        v.s.data_paths(now) == data,
        forall|x: usize| #[trigger] plan.targets.contains(x) ==> data.contains(x),
    ensures
        ({
            let after: SendingView = v.seconded(plan, primary, tcp_continuity, now);
            &&& same_roads(after.s, v.s)
            &&& after.out == v.out || exists|x: usize|
                data.contains(x) && x < v.s.n() && after.out == v.out.push(
                    #[trigger] v.packet.data_frame(x, now),
                )
        }),
{
    let bytes: usize = v.packet.body.len() as usize;
    let after: SendingView = v.seconded(plan, primary, tcp_continuity, now);
    let list: Seq<usize> = if plan.protect_udp || tcp_continuity {
        v.s.data_paths(now)
    } else {
        plan.targets
    };
    turn_laws::lemma_data_within(v.s, now);
    match turn::first_other(list, primary, 0) {
        Some(alternate) => {
            let funded: (SchedulerView, bool) = if tcp_continuity {
                v.s.reserved(bytes, now)
            } else {
                (v.s, false)
            };
            assert(funded.0.paths == v.s.paths && funded.0.policy == v.s.policy) by {
                reveal(SchedulerView::reserved);
            }
            lemma_same_data(funded.0, v.s, now);
            lemma_protection_within(funded.0, bytes, now, alternate);
            let next: SendingView = SendingView { s: funded.0, ..v };
            let eligible: Seq<usize> = if plan.protect_udp {
                funded.0.udp_protection_targets(bytes, now)
            } else if funded.1 {
                funded.0.tcp_protection_targets(bytes, now)
            } else {
                plan.targets
            };
            if eligible.contains(alternate) {
                assert(data.contains(alternate));
                let k: int = choose|k: int| 0 <= k < data.len() && data[k] == alternate;
                assert(alternate < v.s.n());
                lemma_copied(next, alternate, data, now);
            }
            assert(after.out == v.out || after.out == v.out.push(
                v.packet.data_frame(alternate, now),
            ));
        },
        None => {},
    }
}

proof fn lemma_placed_sends(
    v: ScanView,
    body: Seq<u8>,
    plan: PlanView,
    primary: usize,
    data: Seq<usize>,
    now: u64,
)
    requires
        v.s.n() <= MAX_PATHS,
        v.s.data_paths(now) == data,
        forall|x: usize| #[trigger] plan.targets.contains(x) ==> data.contains(x),
        plan.targets.contains(primary),
    ensures
        goes_on(v, v.placed(body, plan, primary, now), data, now),
{
    let after: ScanView = v.placed(body, plan, primary, now);
    let bytes: usize = body.len() as usize;
    let noted: SchedulerView = match plan.tcp_key {
        Some(key) => v.s.tcp_noted(key, primary, bytes, now),
        None => v.s,
    };
    assert(noted.paths == v.s.paths && noted.policy == v.s.policy) by {
        reveal(SchedulerView::tcp_noted);
    }
    lemma_stays(v, data, now);
    let id: u64 = noted.next_id;
    if id != u64::MAX {
        turn_laws::lemma_data_within(v.s, now);
        let at: int = choose|at: int| 0 <= at < data.len() && data[at] == primary;
        assert(primary < v.s.n());
        let numbered: SchedulerView = SchedulerView { next_id: (id + 1) as u64, ..noted };
        let start: SendingView = SendingView {
            s: numbered.pin_noted(plan, body.len(), primary, now),
            packet: turn::fresh_packet(id, body, now),
            out: v.out,
        };
        assert(start.s.paths == v.s.paths && start.s.policy == v.s.policy);
        let copied: SendingView = start.copied(primary, now);
        lemma_copied(start, primary, data, now);
        lemma_same_data(start.s, v.s, now);
        lemma_same_data(copied.s, start.s, now);
        let tcp_continuity: bool = packet::spec_ipv4_tcp(body) && noted.policy
            == Policy::Continuity;
        lemma_seconded(copied, plan, primary, tcp_continuity, data, now);
        let done: SendingView = copied.seconded(plan, primary, tcp_continuity, now);
        lemma_roads_trans(done.s, copied.s, start.s);
        lemma_data_frame(start.packet, primary, data, now);
        let first: FrameView = start.packet.data_frame(primary, now);
        let k: int = v.out.len() as int;
        assert(after.out == done.out);
        if done.out == copied.out {
            assert(after.out.take(k) =~= v.out);
            assert(after.out.skip(k) =~= seq![first]);
        } else {
            let x: usize = choose|x: usize|
                data.contains(x) && x < v.s.n() && done.out == copied.out.push(
                    #[trigger] copied.packet.data_frame(x, now),
                );
            let second: FrameView = copied.packet.data_frame(x, now);
            lemma_data_frame(copied.packet, x, data, now);
            lemma_data_add(seq![first], seq![second], data, now);
            assert(after.out.take(k) =~= v.out);
            assert(after.out.skip(k) =~= seq![first] + seq![second]);
        }
    }
}

proof fn lemma_scanned_sends(
    v: ScanView,
    priority: nat,
    body: Seq<u8>,
    data: Seq<usize>,
    now: u64,
)
    requires
        v.s.n() <= MAX_PATHS,
        v.s.data_paths(now) == data,
    ensures
        goes_on(v, v.scanned(priority, body, now), data, now),
{
    lemma_stays(v, data, now);
    let bytes: usize = body.len() as usize;
    let looked: (SchedulerView, Option<u128>, bool) = v.s.classified(body, now);
    assert(looked.0.paths == v.s.paths && looked.0.policy == v.s.policy) by {
        reveal(SchedulerView::classified);
    }
    lemma_same_data(looked.0, v.s, now);
    let plan: PlanView = looked.0.planned(body, looked.1, looked.2, now);
    assert forall|x: usize| #[trigger] plan.targets.contains(x) implies data.contains(x) by {
        let near: Seq<usize> = looked.0.targets(bytes, plan.sensitive, now);
        if near.contains(x) {
            turn_laws::packet_goes_to_ready_path(looked.0, bytes, plan.sensitive, now, x);
        }
        lemma_protection_within(looked.0, bytes, now, x);
    }
    let choice: (SchedulerView, Option<usize>) = match plan.tcp_key {
        Some(key) => looked.0.tcp_placed(
            key,
            bytes,
            if v.backlog.contains_key(key) {
                v.backlog[key]
            } else {
                bytes
            },
            now,
        ),
        None => (
            looked.0,
            if plan.pinned is Some {
                plan.pinned
            } else {
                placement::first_of(plan.targets)
            },
        ),
    };
    assert(choice.0.paths == v.s.paths && choice.0.policy == v.s.policy) by {
        reveal(SchedulerView::tcp_placed);
    }
    lemma_same_data(choice.0, v.s, now);
    let next: ScanView = v.with_state(choice.0);
    match choice.1 {
        Some(primary) => {
            if plan.targets.contains(primary) {
                lemma_placed_sends(next, body, plan, primary, data, now);
                lemma_goes_on_trans(v, next, next.placed(body, plan, primary, now), data, now);
            }
        },
        None => {},
    }
}

proof fn lemma_run_sends(v: ScanView, setting: ScanSetting, budget: nat)
    requires
        v.s.n() <= MAX_PATHS,
        v.s.data_paths(setting.now) == setting.data,
    ensures
        goes_on(v, v.run(setting, budget), setting.data, setting.now),
    decreases budget,
{
    let data: Seq<usize> = setting.data;
    let now: u64 = setting.now;
    lemma_stays(v, data, now);
    if !(budget == 0 || v.stop || v.sent >= bond::TURN_PACKETS) {
        let s: SchedulerView = v.s;
        let after: ScanView = v.stepped(setting);
        if !turn::room_left(s.paths, setting) {
            assert(goes_on(v, after, data, now));
        } else if s.urgent.len() > 0 {
            let taken: ScanView = v.with_state(
                SchedulerView { urgent: s.urgent.drop_first(), ..s },
            ).counted();
            lemma_same_data(taken.s, s, now);
            lemma_scanned_sends(taken, 0, s.urgent[0], data, now);
            assert(goes_on(v, taken, data, now));
            lemma_goes_on_trans(v, taken, after, data, now);
        } else if s.streaming.len() > 0 {
            let taken: ScanView = v.with_state(
                SchedulerView { streaming: s.streaming.drop_first(), ..s },
            ).counted();
            lemma_same_data(taken.s, s, now);
            lemma_scanned_sends(taken, 1, s.streaming[0], data, now);
            assert(goes_on(v, taken, data, now));
            lemma_goes_on_trans(v, taken, after, data, now);
        } else if s.queued.len() > 0 {
            let taken: ScanView = v.with_state(
                SchedulerView { queued: s.queued.drop_first(), ..s },
            ).counted();
            lemma_same_data(taken.s, s, now);
            lemma_scanned_sends(taken, 2, s.queued[0], data, now);
            assert(goes_on(v, taken, data, now));
            lemma_goes_on_trans(v, taken, after, data, now);
        } else {
            assert(goes_on(v, after, data, now));
        }
        lemma_same_data(after.s, s, now);
        lemma_run_sends(after, setting, (budget - 1) as nat);
        lemma_goes_on_trans(v, after, after.run(setting, (budget - 1) as nat), data, now);
    }
}

// ---- The turn ----------------------------------------------------------------------

proof fn lemma_silent_keeps(s: SchedulerView, now: u64, n: nat)
    requires
        n <= s.n(),
    ensures
        s.silent_failed(now, n).n() == s.n(),
        s.silent_failed(now, n).last_probe == s.last_probe,
        forall|i: int|
            0 <= i < s.n() ==> (#[trigger] s.silent_failed(now, n).paths[i]).id == s.paths[i].id
                && s.silent_failed(now, n).paths[i].enabled == s.paths[i].enabled,
    decreases n,
{
    if n > 0 {
        lemma_silent_keeps(s, now, (n - 1) as nat);
    }
}

/// Repairs keep what was to be sent and add only data.
proof fn lemma_mended_sends(s: SchedulerView, out: Seq<FrameView>, data: Seq<usize>, now: u64)
    requires
        s.n() <= MAX_PATHS,
        s.data_paths(now) == data,
    ensures
        same_roads(s.mended(out, data, now).0, s),
        out.len() <= s.mended(out, data, now).1.len(),
        s.mended(out, data, now).1.take(out.len() as int) == out,
        data_on(s.mended(out, data, now).1.skip(out.len() as int), data, now),
{
    turn_laws::lemma_data_within(s, now);
    let due: Seq<(u64, usize)> = s.fast_due(data, now, s.pending.len());
    lemma_fast_due_known(s, data, now, s.pending.len());
    lemma_fast_sends(s, due, data, now);
    let fast: (SchedulerView, Seq<FrameView>) = s.all_fast_repaired(due, now);
    lemma_same_data(fast.0, s, now);
    let guard: ProtectionView = ProtectionView {
        s: fast.0,
        out: out + fast.1,
        blocked: Seq::empty(),
        sent: 0,
    };
    let waiting: Seq<(u64, usize)> = fast.0.protection_waiting(fast.0.pending.len());
    lemma_protects(guard, waiting, data, now);
    let guarded: ProtectionView = guard.all_protected(waiting, now);
    lemma_same_data(guarded.s, fast.0, now);
    lemma_due_keeps(guarded.s, data, now, guarded.s.pending.len());
    let found: (SchedulerView, Seq<u64>) = guarded.s.due_found(data, now, guarded.s.pending.len());
    assert(same_roads(found.0, guarded.s));
    lemma_same_data(found.0, guarded.s, now);
    lemma_repairs_send(found.0, found.1, data, now);
    let done: (SchedulerView, Seq<FrameView>) = found.0.all_repaired(found.1, data, now);
    let mended: (SchedulerView, Seq<FrameView>) = s.mended(out, data, now);
    assert(mended.0 == done.0 && mended.1 == guarded.out + done.1);
    lemma_roads_trans(done.0, found.0, guarded.s);
    lemma_roads_trans(done.0, guarded.s, fast.0);
    lemma_roads_trans(done.0, fast.0, s);
    let k: int = out.len() as int;
    let g: int = guard.out.len() as int;
    lemma_data_add(guarded.out.skip(g), done.1, data, now);
    lemma_data_add(fast.1, guarded.out.skip(g) + done.1, data, now);
    let more: Seq<FrameView> = fast.1 + (guarded.out.skip(g) + done.1);
    assert(guarded.out.take(g) + guarded.out.skip(g) =~= guarded.out);
    assert(mended.1 =~= out + more);
    assert(mended.1.take(k) =~= out);
    assert(mended.1.skip(k) =~= more);
}

/// How many of the first `n` paths are enabled.
pub open spec fn enabled_count(paths: Seq<Path>, n: nat) -> nat
    decreases n,
{
    if n == 0 {
        0
    } else {
        enabled_count(paths, (n - 1) as nat) + if paths[n - 1].enabled {
            1nat
        } else {
            0nat
        }
    }
}

proof fn lemma_probes(a: Seq<Path>, b: Seq<Path>, now: u64, n: nat)
    requires
        n <= a.len() == b.len(),
        forall|i: int|
            0 <= i < a.len() ==> (#[trigger] a[i]).id == b[i].id && a[i].enabled == b[i].enabled,
    ensures
        ({
            let probes: Seq<FrameView> = repair::probe_frames(a, now, n);
            &&& probes.len() == enabled_count(b, n)
            &&& forall|j: int|
                0 <= j < n && (#[trigger] b[j]).enabled ==> probes[enabled_count(b, j as nat) as int]
                    == frame::spec_control(Kind::Probe, b[j].id, now, now)
            &&& forall|j: int|
                0 <= j < n && (#[trigger] b[j]).enabled ==> enabled_count(b, j as nat)
                    < probes.len()
        }),
    decreases n,
{
    if n > 0 {
        lemma_probes(a, b, now, (n - 1) as nat);
        assert(a[n - 1].enabled == b[n - 1].enabled);
    }
}

proof fn lemma_scan_sends(s: SchedulerView, out: Seq<FrameView>, data: Seq<usize>, now: u64)
    requires
        s.n() <= MAX_PATHS,
        s.data_paths(now) == data,
    ensures
        ({
            let end: ScanView = s.scan_start(out).run(s.setting(data, now), s.waiting());
            &&& same_roads(end.restored(), s)
            &&& out.len() <= end.out.len()
            &&& end.out.take(out.len() as int) == out
            &&& data_on(end.out.skip(out.len() as int), data, now)
        }),
{
    lemma_run_sends(s.scan_start(out), s.setting(data, now), s.waiting());
}

/// Data goes behind what a turn begins with.
proof fn lemma_turn_sends(s: SchedulerView, begun: (SchedulerView, Seq<FrameView>), now: u64)
    requires
        begun == s.begun(now),
        begun.0.n() <= MAX_PATHS,
    ensures
        ({
            let (after, out) = s.ticked(now);
            let k: int = begun.1.len() as int;
            &&& same_roads(after, begun.0)
            &&& k <= out.len()
            &&& out.take(k) == begun.1
            &&& data_on(out.skip(k), begun.0.data_paths(now), now)
        }),
{
    let data: Seq<usize> = begun.0.data_paths(now);
    lemma_mended_sends(begun.0, begun.1, data, now);
    let (mended, first) = begun.0.mended(begun.1, data, now);
    lemma_same_data(mended, begun.0, now);
    lemma_scan_sends(mended, first, data, now);
    let end: ScanView = mended.scan_start(first).run(mended.setting(data, now), mended.waiting());
    lemma_roads_trans(end.restored(), mended, begun.0);
    let out: Seq<FrameView> = end.out;
    let k: int = begun.1.len() as int;
    let m: int = first.len() as int;
    lemma_data_add(first.skip(k), out.skip(m), data, now);
    assert(out.skip(k) =~= first.skip(k) + out.skip(m)) by {
        assert forall|i: int| 0 <= i < out.skip(k).len() implies #[trigger] out.skip(k)[i] == (
        first.skip(k) + out.skip(m))[i] by {
            if i < m - k {
                assert(out.take(m)[i + k] == out[i + k]);
            }
        }
    }
    assert(out.take(k) =~= out.take(m).take(k));
}

/// How many probes a turn begins with: one for each enabled path where the last
/// ones are long enough ago, else none.
pub open spec fn probes_due(s: SchedulerView, now: u64) -> nat {
    if s.probe_due(now) {
        enabled_count(s.paths, s.n())
    } else {
        0
    }
}

/// Whether frames are what a turn may send: probes of the enabled paths in
/// order, which bear the time as their number and stamp, where they are due;
/// and behind them data of this moment, on paths that carry data after the
/// turn: those are ready, and so enabled.
pub open spec fn probes_then_data(
    s: SchedulerView,
    after: SchedulerView,
    out: Seq<FrameView>,
    now: u64,
) -> bool {
    let probes: nat = probes_due(s, now);
    let data: Seq<usize> = after.data_paths(now);
    &&& after.n() == s.n()
    &&& probes <= out.len()
    &&& probes > 0 ==> forall|j: int|
        0 <= j < s.n() && (#[trigger] s.paths[j]).enabled ==> enabled_count(s.paths, j as nat)
            < probes && out[enabled_count(s.paths, j as nat) as int] == frame::spec_control(
            Kind::Probe,
            s.paths[j].id,
            now,
            now,
        )
    &&& data_on(out.skip(probes as int), data, now)
    &&& forall|x: usize|
        #[trigger] data.contains(x) ==> x < s.n() && after.paths[x as int].ready(now)
            && after.paths[x as int].enabled
}

/// A turn sends nothing but probes and data. Where the last probes are long
/// enough ago it begins with one probe for each enabled path; else with none.
/// All that follows is data of this moment, on paths that carry data before and
/// after the turn.
pub proof fn turn_sends_probes_and_data(s: SchedulerView, now: u64)
    requires
        s.n() <= MAX_PATHS,
    ensures
        probes_then_data(s, s.ticked(now).0, s.ticked(now).1, now),
        s.begun(now).1.len() == probes_due(s, now),
        s.begun(now).0.data_paths(now) == s.ticked(now).0.data_paths(now),
{
    let expired: SchedulerView = s.recent_expired(now);
    lemma_silent_keeps(expired, now, expired.n());
    let begun: (SchedulerView, Seq<FrameView>) = s.begun(now);
    lemma_probes(begun.0.paths, s.paths, now, s.n());
    lemma_turn_sends(s, begun, now);
    let (after, out) = s.ticked(now);
    lemma_same_data(after, begun.0, now);
    bond_laws::data_paths_are_ready(after, now);
    let k: int = begun.1.len() as int;
    assert forall|i: int| 0 <= i < k implies #[trigger] out[i] == begun.1[i] by {
        assert(out.take(k)[i] == out[i]);
    }
}

} // verus!
