//! What holds of acknowledgements: alone, in a batch, and when they come again.
use crate::bond;
use crate::bond::{Policy, SchedulerView};
use crate::bond_laws;
use crate::flight;
use crate::flight::{Attempt, PendingView, RecentAttempt};
use crate::frame;
use crate::frame::{FrameView, Kind};
use crate::packet;
use crate::path::Path;
use crate::placement;
use crate::repair::ProtectionView;
use crate::turn;
use crate::turn::{PlanView, ScanSetting, ScanView, SendingView};
use vstd::prelude::*;

verus! {

/// The state after frames came in one after the other.
pub open spec fn received(s: SchedulerView, frames: Seq<FrameView>, now: u64) -> SchedulerView
    decreases frames.len(),
{
    if frames.len() == 0 {
        s
    } else {
        received(s, frames.drop_last(), now).after_frame(frames.last(), now).0
    }
}

/// The acknowledgements as frames of their own.
pub open spec fn single_acks(path: u8, acks: Seq<(u64, u64)>) -> Seq<FrameView> {
    acks.map_values(|ack: (u64, u64)| frame::spec_control(Kind::Ack, path, ack.0, ack.1))
}

proof fn lemma_acked_n(s: SchedulerView, index: usize, id: u64, stamp: u64, now: u64)
    requires
        index < s.n(),
    ensures
        s.acked(index, id, stamp, now).n() == s.n(),
{
    let packet: PendingView = s.pending[bond::pending_slot(s.pending, id, 0)];
    let bytes: usize = packet.body.len() as usize;
    let p: Path = s.paths[index as int];
    let rated: Path = if packet.bulk_tcp() {
        p.tcp_credited(bytes, now)
    } else {
        p
    };
    match flight::attempt_on(packet.attempts, index) {
        Some(attempt) => {
            bond::lemma_released_len(
                s.paths.update(
                    index as int,
                    rated.credited(bytes, stamp, attempt.stamp == stamp, now),
                ),
                packet.attempts,
                bytes,
                packet.attempts.len(),
            );
        },
        None => {},
    }
}

proof fn lemma_singles(s: SchedulerView, path: u8, acks: Seq<(u64, u64)>, now: u64)
    requires
        path < s.n(),
    ensures
        received(s, single_acks(path, acks), now) == s.all_acked(path as usize, acks, now),
        s.all_acked(path as usize, acks, now).n() == s.n(),
    decreases acks.len(),
{
    if acks.len() > 0 {
        let rest: Seq<(u64, u64)> = acks.drop_last();
        lemma_singles(s, path, rest, now);
        assert(single_acks(path, acks).drop_last() =~= single_acks(path, rest));
        lemma_acked_n(
            s.all_acked(path as usize, rest, now),
            path as usize,
            acks.last().0,
            acks.last().1,
            now,
        );
    }
}

/// A batch of acknowledgements does what they would do one by one, in turn. It
/// delivers nothing and is not answered.
pub proof fn batch_is_its_acknowledgements(s: SchedulerView, batch: FrameView, now: u64)
    requires
        batch.kind == Kind::AckBatch,
    ensures
        s.after_frame(batch, now).0 == received(
            s,
            single_acks(batch.path, frame::batch_acks(batch)),
            now,
        ),
        s.after_frame(batch, now).1 is None,
        s.after_frame(batch, now).2.len() == 0,
{
    if batch.path < s.n() {
        lemma_singles(s, batch.path, frame::batch_acks(batch), now);
    } else {
        lemma_ignored(s, batch.path, frame::batch_acks(batch), now);
    }
}

proof fn lemma_ignored(s: SchedulerView, path: u8, acks: Seq<(u64, u64)>, now: u64)
    requires
        path >= s.n(),
    ensures
        received(s, single_acks(path, acks), now) == s,
    decreases acks.len(),
{
    if acks.len() > 0 {
        lemma_ignored(s, path, acks.drop_last(), now);
        assert(single_acks(path, acks).drop_last() =~= single_acks(path, acks.drop_last()));
    }
}

// ---- Acknowledgements that come again ------------------------------------------------

/// Whether what is settled is no longer in flight.
spec fn apart(s: SchedulerView) -> bool {
    forall|id: u64, path: usize|
        #[trigger] s.recent.contains_key(bond::recent_key(id, path)) ==> id < s.next_id
            && !bond::is_pending(s.pending, id)
}

proof fn lemma_apart(s: SchedulerView)
    ensures
        apart(s) == bond::settled_apart(s.recent, s.pending, s.next_id),
{
    reveal(bond::settled_apart);
}

/// Whether an acknowledgement has anything left to settle.
pub open spec fn counts(s: SchedulerView, index: usize, id: u64, stamp: u64) -> bool {
    if bond::is_pending(s.pending, id) {
        let sent: PendingView = s.pending[bond::pending_slot(s.pending, id, 0)];
        match flight::attempt_on(sent.attempts, index) {
            Some(attempt) => sent.born <= stamp <= attempt.stamp && attempt.generation
                == s.paths[index as int].generation,
            None => false,
        }
    } else {
        s.recent.contains_key(bond::recent_key(id, index))
    }
}

/// An acknowledgement that has nothing left to settle changes nothing.
proof fn lemma_idle(s: SchedulerView, index: usize, id: u64, stamp: u64, now: u64)
    requires
        !counts(s, index, id, stamp),
    ensures
        s.acked(index, id, stamp, now) == s,
{
}

proof fn lemma_keys_differ(id: u64, path: usize, other: u64, there: usize)
    requires
        bond::recent_key(id, path) == bond::recent_key(other, there),
    ensures
        id == other,
        path == there,
{
    assert(id * 0x1_0000_0000_0000_0000 + path < 0x1_0000_0000_0000_0000_0000_0000_0000_0000);
    assert(other * 0x1_0000_0000_0000_0000 + there
        < 0x1_0000_0000_0000_0000_0000_0000_0000_0000);
}

proof fn lemma_expected(
    recent: Map<u128, RecentAttempt>,
    sent: PendingView,
    index: usize,
    now: u64,
    n: nat,
    id: u64,
    path: usize,
)
    requires
        bond::expected_later(recent, sent, index, now, n).contains_key(bond::recent_key(id, path)),
    ensures
        recent.contains_key(bond::recent_key(id, path)) || (id == sent.id && path != index),
    decreases n,
{
    if n > 0 {
        let key: u128 = bond::recent_key(id, path);
        let before: Map<u128, RecentAttempt> = bond::expected_later(
            recent,
            sent,
            index,
            now,
            (n - 1) as nat,
        );
        let attempt: Attempt = sent.attempts[n - 1];
        if before.contains_key(key) {
            lemma_expected(recent, sent, index, now, (n - 1) as nat, id, path);
        } else {
            lemma_keys_differ(id, path, sent.id, attempt.path);
        }
    }
}

/// Whether two states of a packet agree in what acknowledgements rest on.
spec fn same_claim(a: PendingView, b: PendingView) -> bool {
    &&& a.id == b.id
    &&& a.born == b.born
    &&& a.attempts.len() == b.attempts.len()
    &&& forall|i: int|
        0 <= i < a.attempts.len() ==> (#[trigger] a.attempts[i]).path == b.attempts[i].path
            && a.attempts[i].stamp == b.attempts[i].stamp && a.attempts[i].generation
            == b.attempts[i].generation
}

proof fn lemma_same_slot(a: Seq<Attempt>, b: Seq<Attempt>, path: usize, i: int)
    requires
        0 <= i,
        a.len() == b.len(),
        forall|k: int| 0 <= k < a.len() ==> (#[trigger] a[k]).path == b[k].path,
    ensures
        flight::attempt_slot(a, path, i) == flight::attempt_slot(b, path, i),
    decreases a.len() - i,
{
    if i < a.len() {
        assert(a[i].path == b[i].path);
        lemma_same_slot(a, b, path, i + 1);
    }
}

proof fn lemma_noted(
    pending: Seq<PendingView>,
    paths: Seq<Path>,
    index: usize,
    stamp: u64,
    flow: u128,
    i: int,
    left: nat,
)
    requires
        i <= pending.len(),
    ensures
        ({
            let after: Seq<PendingView> = bond::higher_noted(
                pending,
                paths,
                index,
                stamp,
                flow,
                i,
                left,
            );
            &&& after.len() == pending.len()
            &&& forall|k: int|
                0 <= k < pending.len() ==> same_claim(#[trigger] after[k], pending[k])
        }),
    decreases i,
{
    if i > 0 && left > 0 {
        if bond::evidence_counts(paths, pending[i - 1], index, flow) {
            let noted: PendingView = bond::evidence_noted(pending[i - 1], index, stamp);
            flight::lemma_attempt_slot(pending[i - 1].attempts, index, 0);
            assert(same_claim(noted, pending[i - 1]));
            let next: Seq<PendingView> = pending.update(i - 1, noted);
            lemma_noted(next, paths, index, stamp, flow, i - 1, (left - 1) as nat);
            let after: Seq<PendingView> = bond::higher_noted(
                pending,
                paths,
                index,
                stamp,
                flow,
                i,
                left,
            );
            assert forall|k: int| 0 <= k < pending.len() implies same_claim(
                #[trigger] after[k],
                pending[k],
            ) by {
                assert(same_claim(after[k], next[k]));
                assert(same_claim(next[k], pending[k]));
            }
        } else {
            lemma_noted(pending, paths, index, stamp, flow, i - 1, left);
        }
    }
}

/// In an ordered list a packet is found where it stands.
proof fn lemma_found(pending: Seq<PendingView>, id: u64, i: int)
    requires
        bond::pending_ordered(pending),
        0 <= i < pending.len(),
        pending[i].id == id,
    ensures
        bond::is_pending(pending, id),
        bond::pending_slot(pending, id, 0) == i,
{
    bond::lemma_pending_slot(pending, id, 0);
    let k: int = bond::pending_slot(pending, id, 0);
    if k > i {
        assert(pending[i].id < id);
    }
    if k < i {
        assert(pending[k].id < pending[i].id);
    }
}

proof fn lemma_generation_kept(p: Path, bytes: usize, stamp: u64, exact: bool, now: u64)
    ensures
        p.credited(bytes, stamp, exact, now).generation == p.generation,
        p.tcp_credited(bytes, now).generation == p.generation,
{
    reveal(Path::credited);
    reveal(Path::observed);
    reveal(Path::capacity_noted);
    reveal(Path::capacity_acknowledged);
    reveal(Path::tcp_credited);
}

proof fn lemma_released_generation(
    paths: Seq<Path>,
    attempts: Seq<Attempt>,
    bytes: usize,
    n: nat,
    i: int,
)
    requires
        0 <= i < paths.len(),
    ensures
        bond::released(paths, attempts, bytes, n)[i].generation == paths[i].generation,
        bond::released(paths, attempts, bytes, n).len() == paths.len(),
    decreases n,
{
    if n > 0 {
        lemma_released_generation(paths, attempts, bytes, (n - 1) as nat, i);
    }
}

/// What the first acknowledgement of a packet leaves: the others in flight as
/// they were, and no word of the packet on that path.
proof fn lemma_delivered(
    s: SchedulerView,
    at: int,
    index: usize,
    stamp: u64,
    exact: bool,
    now: u64,
)
    requires
        bond::pending_ordered(s.pending),
        bond::pending_below(s.pending, s.next_id),
        apart(s),
        0 <= at < s.pending.len(),
        index < s.n(),
    ensures
        ({
            let after: SchedulerView = s.delivered(at, index, stamp, exact, now);
            &&& after.next_id == s.next_id
            &&& bond::pending_ordered(after.pending)
            &&& bond::pending_below(after.pending, after.next_id)
            &&& after.pending.len() == s.pending.len() - 1
            &&& forall|k: int|
                0 <= k < after.pending.len() ==> same_claim(
                    #[trigger] after.pending[k],
                    s.pending[if k < at {
                        k
                    } else {
                        k + 1
                    }],
                )
            &&& after.n() == s.n()
            &&& after.paths[index as int].generation == s.paths[index as int].generation
            &&& after.recent == bond::expected_later(
                s.recent,
                s.pending[at],
                index,
                now,
                s.pending[at].attempts.len(),
            )
        }),
{
    let after: SchedulerView = s.delivered(at, index, stamp, exact, now);
    let sent: PendingView = s.pending[at];
    let bytes: usize = sent.body.len() as usize;
    let p: Path = s.paths[index as int];
    let rated: Path = if sent.bulk_tcp() {
        p.tcp_credited(bytes, now)
    } else {
        p
    };
    lemma_generation_kept(p, bytes, stamp, exact, now);
    lemma_generation_kept(rated, bytes, stamp, exact, now);
    let trained: Seq<Path> = s.paths.update(
        index as int,
        rated.credited(bytes, stamp, exact, now),
    );
    lemma_released_generation(
        trained,
        sent.attempts,
        bytes,
        sent.attempts.len(),
        index as int,
    );
    let paths: Seq<Path> = bond::released(trained, sent.attempts, bytes, sent.attempts.len());
    let rest: Seq<PendingView> = s.pending.remove(at);
    bond::lemma_pending_slot(rest, sent.id, 0);
    match packet::spec_tcp_flow_key(sent.body) {
        Some(flow) => {
            lemma_noted(
                rest,
                paths,
                index,
                stamp,
                flow,
                bond::pending_slot(rest, sent.id, 0),
                bond::FAST_ACK_SCAN as nat,
            );
        },
        None => {},
    }
    assert forall|k: int| 0 <= k < after.pending.len() implies same_claim(
        #[trigger] after.pending[k],
        s.pending[if k < at {
            k
        } else {
            k + 1
        }],
    ) by {
        assert(same_claim(after.pending[k], rest[k]));
    }
    assert(bond::pending_ordered(after.pending)) by {
        assert forall|i: int, j: int| 0 <= i < j < after.pending.len() implies (
        #[trigger] after.pending[i]).id < (#[trigger] after.pending[j]).id by {
            assert(after.pending[i].id == rest[i].id);
            assert(after.pending[j].id == rest[j].id);
        }
    }
}

/// An acknowledgement keeps the order of packets and what is settled apart.
proof fn lemma_acked_keeps(s: SchedulerView, index: usize, id: u64, stamp: u64, now: u64)
    requires
        bond::pending_ordered(s.pending),
        bond::pending_below(s.pending, s.next_id),
        apart(s),
        index < s.n(),
    ensures
        ({
            let after: SchedulerView = s.acked(index, id, stamp, now);
            &&& bond::pending_ordered(after.pending)
            &&& bond::pending_below(after.pending, after.next_id)
            &&& apart(after)
            &&& after.n() == s.n()
        }),
{
    let after: SchedulerView = s.acked(index, id, stamp, now);
    bond::lemma_pending_slot(s.pending, id, 0);
    if counts(s, index, id, stamp) && bond::is_pending(s.pending, id) {
        let at: int = bond::pending_slot(s.pending, id, 0);
        let exact: bool = flight::attempt_on(s.pending[at].attempts, index)->Some_0.stamp == stamp;
        lemma_delivered(s, at, index, stamp, exact, now);
        assert forall|other: u64, path: usize|
            #[trigger] after.recent.contains_key(
                bond::recent_key(other, path),
            ) implies other < after.next_id && !bond::is_pending(after.pending, other) by {
            lemma_expected(
                s.recent,
                s.pending[at],
                index,
                now,
                s.pending[at].attempts.len(),
                other,
                path,
            );
            if bond::is_pending(after.pending, other) {
                bond::lemma_pending_slot(after.pending, other, 0);
                let k: int = bond::pending_slot(after.pending, other, 0);
                let there: int = if k < at {
                    k
                } else {
                    k + 1
                };
                assert(same_claim(after.pending[k], s.pending[there]));
                lemma_found(s.pending, other, there);
                if s.recent.contains_key(bond::recent_key(other, path)) {
                    assert(!bond::is_pending(s.pending, other));
                } else {
                    assert(s.pending[there].id == s.pending[at].id);
                }
            }
        }
    }
}

/// Once it came, an acknowledgement has nothing left to settle.
proof fn lemma_settles(s: SchedulerView, index: usize, id: u64, stamp: u64, now: u64)
    requires
        bond::pending_ordered(s.pending),
        bond::pending_below(s.pending, s.next_id),
        apart(s),
        index < s.n(),
    ensures
        !counts(s.acked(index, id, stamp, now), index, id, stamp),
{
    let after: SchedulerView = s.acked(index, id, stamp, now);
    bond::lemma_pending_slot(s.pending, id, 0);
    if counts(s, index, id, stamp) && bond::is_pending(s.pending, id) {
        let at: int = bond::pending_slot(s.pending, id, 0);
        let exact: bool = flight::attempt_on(s.pending[at].attempts, index)->Some_0.stamp == stamp;
        lemma_delivered(s, at, index, stamp, exact, now);
        if bond::is_pending(after.pending, id) {
            bond::lemma_pending_slot(after.pending, id, 0);
            let k: int = bond::pending_slot(after.pending, id, 0);
            let there: int = if k < at {
                k
            } else {
                k + 1
            };
            assert(same_claim(after.pending[k], s.pending[there]));
            assert(s.pending[there].id == s.pending[at].id);
        }
        if after.recent.contains_key(bond::recent_key(id, index)) {
            lemma_expected(
                s.recent,
                s.pending[at],
                index,
                now,
                s.pending[at].attempts.len(),
                id,
                index,
            );
        }
    }
}

/// What has nothing left to settle stays so when another one comes.
proof fn lemma_stays_settled(
    s: SchedulerView,
    index: usize,
    id: u64,
    stamp: u64,
    other: u64,
    sent_at: u64,
    now: u64,
)
    requires
        bond::pending_ordered(s.pending),
        bond::pending_below(s.pending, s.next_id),
        apart(s),
        index < s.n(),
        !counts(s, index, id, stamp),
    ensures
        !counts(s.acked(index, other, sent_at, now), index, id, stamp),
{
    let after: SchedulerView = s.acked(index, other, sent_at, now);
    bond::lemma_pending_slot(s.pending, other, 0);
    if counts(s, index, other, sent_at) {
        if bond::is_pending(s.pending, other) {
            let at: int = bond::pending_slot(s.pending, other, 0);
            let exact: bool = flight::attempt_on(s.pending[at].attempts, index)->Some_0.stamp
                == sent_at;
            lemma_delivered(s, at, index, sent_at, exact, now);
            if bond::is_pending(after.pending, id) {
                bond::lemma_pending_slot(after.pending, id, 0);
                let k: int = bond::pending_slot(after.pending, id, 0);
                let there: int = if k < at {
                    k
                } else {
                    k + 1
                };
                assert(same_claim(after.pending[k], s.pending[there]));
                lemma_found(s.pending, id, there);
                lemma_same_slot(
                    after.pending[k].attempts,
                    s.pending[there].attempts,
                    index,
                    0,
                );
                flight::lemma_attempt_slot(s.pending[there].attempts, index, 0);
            } else if after.recent.contains_key(bond::recent_key(id, index)) {
                lemma_expected(
                    s.recent,
                    s.pending[at],
                    index,
                    now,
                    s.pending[at].attempts.len(),
                    id,
                    index,
                );
                assert(bond::is_pending(s.pending, id));
            }
        } else {
            lemma_generation_kept(
                s.paths[index as int],
                s.recent[bond::recent_key(other, index)].bytes,
                sent_at,
                sent_at == s.recent[bond::recent_key(other, index)].stamp,
                now,
            );
        }
    }
}

proof fn lemma_all_settled(
    s: SchedulerView,
    index: usize,
    acks: Seq<(u64, u64)>,
    now: u64,
)
    requires
        bond::pending_ordered(s.pending),
        bond::pending_below(s.pending, s.next_id),
        apart(s),
        index < s.n(),
    ensures
        ({
            let after: SchedulerView = s.all_acked(index, acks, now);
            &&& bond::pending_ordered(after.pending)
            &&& bond::pending_below(after.pending, after.next_id)
            &&& apart(after)
            &&& after.n() == s.n()
            &&& forall|i: int|
                0 <= i < acks.len() ==> !counts(
                    after,
                    index,
                    (#[trigger] acks[i]).0,
                    acks[i].1,
                )
        }),
    decreases acks.len(),
{
    if acks.len() > 0 {
        let rest: Seq<(u64, u64)> = acks.drop_last();
        lemma_all_settled(s, index, rest, now);
        let before: SchedulerView = s.all_acked(index, rest, now);
        let after: SchedulerView = s.all_acked(index, acks, now);
        let last: (u64, u64) = acks.last();
        lemma_acked_keeps(before, index, last.0, last.1, now);
        lemma_settles(before, index, last.0, last.1, now);
        assert forall|i: int| 0 <= i < acks.len() implies !counts(
            after,
            index,
            (#[trigger] acks[i]).0,
            acks[i].1,
        ) by {
            if i < rest.len() {
                assert(rest[i] == acks[i]);
                lemma_stays_settled(
                    before,
                    index,
                    rest[i].0,
                    rest[i].1,
                    last.0,
                    last.1,
                    now,
                );
            }
        }
    }
}

proof fn lemma_all_idle(s: SchedulerView, index: usize, acks: Seq<(u64, u64)>, now: u64)
    requires
        forall|i: int|
            0 <= i < acks.len() ==> !counts(s, index, (#[trigger] acks[i]).0, acks[i].1),
    ensures
        s.all_acked(index, acks, now) == s,
    decreases acks.len(),
{
    if acks.len() > 0 {
        let rest: Seq<(u64, u64)> = acks.drop_last();
        assert forall|i: int| 0 <= i < rest.len() implies !counts(
            s,
            index,
            (#[trigger] rest[i]).0,
            rest[i].1,
        ) by {
            assert(rest[i] == acks[i]);
        }
        lemma_all_idle(s, index, rest, now);
        lemma_idle(s, index, acks.last().0, acks.last().1, now);
    }
}

/// A batch of acknowledgements that comes again, at whatever time, changes
/// nothing: it releases no packet and credits no path a second time.
pub proof fn batch_counts_once(s: SchedulerView, batch: FrameView, now: u64, later: u64)
    requires
        s.wf(),
        batch.kind == Kind::AckBatch,
    ensures
        s.after_frame(batch, now).0.after_frame(batch, later).0 == s.after_frame(batch, now).0,
{
    if batch.path < s.n() {
        let index: usize = batch.path as usize;
        let acks: Seq<(u64, u64)> = frame::batch_acks(batch);
        lemma_apart(s);
        lemma_all_settled(s, index, acks, now);
        lemma_all_idle(s.all_acked(index, acks, now), index, acks, later);
    }
}

/// So does a single acknowledgement that comes again.
pub proof fn ack_counts_once(s: SchedulerView, ack: FrameView, now: u64, later: u64)
    requires
        s.wf(),
        ack.kind == Kind::Ack,
    ensures
        s.after_frame(ack, now).0.after_frame(ack, later).0 == s.after_frame(ack, now).0,
{
    if ack.path < s.n() {
        let index: usize = ack.path as usize;
        lemma_apart(s);
        lemma_acked_keeps(s, index, ack.id, ack.stamp, now);
        lemma_settles(s, index, ack.id, ack.stamp, now);
        lemma_idle(s.acked(index, ack.id, ack.stamp, now), index, ack.id, ack.stamp, later);
    }
}

// ---- What is settled stays apart -------------------------------------------------------

/// Whether a packet of a number is in flight.
pub open spec fn has(pending: Seq<PendingView>, id: u64) -> bool {
    exists|i: int| 0 <= i < pending.len() && (#[trigger] pending[i]).id == id
}

/// Whether only packets that were in flight still are, and no more is settled.
pub open spec fn drawn(a: SchedulerView, b: SchedulerView) -> bool {
    &&& forall|key: u128| #[trigger] b.recent.contains_key(key) ==> a.recent.contains_key(key)
    &&& forall|id: u64| #[trigger] has(b.pending, id) ==> has(a.pending, id)
}

proof fn lemma_has(pending: Seq<PendingView>, id: u64)
    ensures
        bond::is_pending(pending, id) ==> has(pending, id),
        bond::pending_ordered(pending) && has(pending, id) ==> bond::is_pending(pending, id),
{
    bond::lemma_pending_slot(pending, id, 0);
    if bond::is_pending(pending, id) {
        assert(pending[bond::pending_slot(pending, id, 0)].id == id);
    }
    if bond::pending_ordered(pending) && has(pending, id) {
        let i: int = choose|i: int| 0 <= i < pending.len() && (#[trigger] pending[i]).id == id;
        lemma_found(pending, id, i);
    }
}

proof fn lemma_changed(pending: Seq<PendingView>, at: int, p: PendingView, id: u64)
    requires
        0 <= at < pending.len(),
    ensures
        has(pending.remove(at), id) ==> has(pending, id),
        p.id == pending[at].id && has(pending.update(at, p), id) ==> has(pending, id),
{
    if has(pending.remove(at), id) {
        let rest: Seq<PendingView> = pending.remove(at);
        let i: int = choose|i: int| 0 <= i < rest.len() && (#[trigger] rest[i]).id == id;
        assert(rest[i] == pending[if i < at {
            i
        } else {
            i + 1
        }]);
    }
    if p.id == pending[at].id && has(pending.update(at, p), id) {
        let next: Seq<PendingView> = pending.update(at, p);
        let i: int = choose|i: int| 0 <= i < next.len() && (#[trigger] next[i]).id == id;
        assert(pending[i].id == id);
    }
}

pub proof fn lemma_fast_drawn(s: SchedulerView, due: Seq<(u64, usize)>, now: u64)
    ensures
        drawn(s, s.all_fast_repaired(due, now).0),
    decreases due.len(),
{
    if due.len() > 0 {
        lemma_fast_drawn(s, due.drop_last(), now);
        let b: SchedulerView = s.all_fast_repaired(due.drop_last(), now).0;
        let at: int = bond::pending_slot(b.pending, due.last().0, 0);
        bond::lemma_pending_slot(b.pending, due.last().0, 0);
        let after: SchedulerView = s.all_fast_repaired(due, now).0;
        assert forall|id: u64| #[trigger] has(after.pending, id) implies has(s.pending, id) by {
            if bond::is_pending(b.pending, due.last().0) {
                lemma_changed(b.pending, at, after.pending[at], id);
            }
            assert(has(b.pending, id));
        }
    }
}

pub proof fn lemma_protected_drawn(v: ProtectionView, waiting: Seq<(u64, usize)>, now: u64)
    ensures
        drawn(v.s, v.all_protected(waiting, now).s),
    decreases waiting.len(),
{
    if waiting.len() > 0 {
        lemma_protected_drawn(v, waiting.drop_last(), now);
        let b: SchedulerView = v.all_protected(waiting.drop_last(), now).s;
        let at: int = bond::pending_slot(b.pending, waiting.last().0, 0);
        bond::lemma_pending_slot(b.pending, waiting.last().0, 0);
        let after: SchedulerView = v.all_protected(waiting, now).s;
        assert forall|id: u64| #[trigger] has(after.pending, id) implies has(v.s.pending, id) by {
            if bond::is_pending(b.pending, waiting.last().0) {
                lemma_changed(b.pending, at, after.pending[at], id);
            }
            assert(has(b.pending, id));
        }
    }
}

pub proof fn lemma_due_drawn(s: SchedulerView, data: Seq<usize>, now: u64, n: nat)
    requires
        n <= s.pending.len(),
    ensures
        drawn(s, s.due_found(data, now, n).0),
        s.due_found(data, now, n).0.pending.len() == s.pending.len(),
    decreases n,
{
    if n > 0 {
        lemma_due_drawn(s, data, now, (n - 1) as nat);
        let b: SchedulerView = s.due_found(data, now, (n - 1) as nat).0;
        let after: SchedulerView = s.due_found(data, now, n).0;
        assert forall|id: u64| #[trigger] has(after.pending, id) implies has(s.pending, id) by {
            lemma_changed(b.pending, n - 1, after.pending[n - 1], id);
            assert(has(b.pending, id));
        }
    }
}

pub proof fn lemma_repaired_drawn(s: SchedulerView, due: Seq<u64>, data: Seq<usize>, now: u64)
    ensures
        drawn(s, s.all_repaired(due, data, now).0),
    decreases due.len(),
{
    if due.len() > 0 {
        lemma_repaired_drawn(s, due.drop_last(), data, now);
        let b: SchedulerView = s.all_repaired(due.drop_last(), data, now).0;
        let at: int = bond::pending_slot(b.pending, due.last(), 0);
        bond::lemma_pending_slot(b.pending, due.last(), 0);
        let after: SchedulerView = s.all_repaired(due, data, now).0;
        assert forall|id: u64| #[trigger] has(after.pending, id) implies has(s.pending, id) by {
            if bond::is_pending(b.pending, due.last()) {
                lemma_changed(b.pending, at, after.pending[at], id);
            }
            assert(has(b.pending, id));
        }
    }
}

pub proof fn lemma_silent_drawn(s: SchedulerView, now: u64, n: nat)
    ensures
        s.silent_failed(now, n).pending == s.pending,
        s.silent_failed(now, n).recent == s.recent,
    decreases n,
{
    if n > 0 {
        lemma_silent_drawn(s, now, (n - 1) as nat);
    }
}

proof fn lemma_repairs_drawn(s: SchedulerView, now: u64)
    ensures
        drawn(s, bond_laws::repaired_state(s, now)),
{
    let expired: SchedulerView = s.recent_expired(now);
    lemma_silent_drawn(expired, now, expired.n());
    let begun: (SchedulerView, Seq<FrameView>) = s.begun(now);
    assert(begun.0.pending == s.pending && begun.0.recent == expired.recent);
    let data: Seq<usize> = begun.0.data_paths(now);
    let found: Seq<(u64, usize)> = begun.0.fast_due(data, now, begun.0.pending.len());
    lemma_fast_drawn(begun.0, found, now);
    let fast: (SchedulerView, Seq<FrameView>) = begun.0.all_fast_repaired(found, now);
    let guard: ProtectionView = ProtectionView {
        s: fast.0,
        out: begun.1 + fast.1,
        blocked: Seq::empty(),
        sent: 0,
    };
    let waiting: Seq<(u64, usize)> = fast.0.protection_waiting(fast.0.pending.len());
    lemma_protected_drawn(guard, waiting, now);
    let guarded: SchedulerView = guard.all_protected(waiting, now).s;
    lemma_due_drawn(guarded, data, now, guarded.pending.len());
    let due: (SchedulerView, Seq<u64>) = guarded.due_found(data, now, guarded.pending.len());
    lemma_repaired_drawn(due.0, due.1, data, now);
}

/// Whether packets only came behind those in flight, with higher numbers, and
/// the same is settled.
spec fn grown(a: SchedulerView, b: SchedulerView) -> bool {
    &&& b.recent == a.recent
    &&& a.next_id <= b.next_id
    &&& a.pending.len() <= b.pending.len()
    &&& forall|k: int| 0 <= k < a.pending.len() ==> (#[trigger] b.pending[k]) == a.pending[k]
    &&& forall|k: int|
        a.pending.len() <= k < b.pending.len() ==> a.next_id <= (#[trigger] b.pending[k]).id
}

proof fn lemma_grown_trans(a: SchedulerView, b: SchedulerView, c: SchedulerView)
    requires
        grown(a, b),
        grown(b, c),
    ensures
        grown(a, c),
{
    assert forall|k: int| 0 <= k < a.pending.len() implies (#[trigger] c.pending[k])
        == a.pending[k] by {
        assert(c.pending[k] == b.pending[k]);
    }
    assert forall|k: int| a.pending.len() <= k < c.pending.len() implies a.next_id <= (
    #[trigger] c.pending[k]).id by {
        if k < b.pending.len() {
            assert(c.pending[k] == b.pending[k]);
        }
    }
}

proof fn lemma_seconded_settled(
    v: SendingView,
    plan: PlanView,
    primary: usize,
    tcp_continuity: bool,
    now: u64,
)
    ensures
        v.seconded(plan, primary, tcp_continuity, now).s.recent == v.s.recent,
{
    reveal(SchedulerView::reserved);
}

proof fn lemma_placed_settled(
    v: ScanView,
    body: Seq<u8>,
    plan: PlanView,
    primary: usize,
    now: u64,
)
    ensures
        grown(v.s, v.placed(body, plan, primary, now).s),
{
    let after: SchedulerView = v.placed(body, plan, primary, now).s;
    let noted: SchedulerView = match plan.tcp_key {
        Some(key) => v.s.tcp_noted(key, primary, body.len() as usize, now),
        None => v.s,
    };
    assert(noted.recent == v.s.recent && bond_laws::same_packets(noted, v.s)) by {
        reveal(SchedulerView::tcp_noted);
    }
    if noted.next_id != u64::MAX {
        let numbered: SchedulerView = SchedulerView {
            next_id: (noted.next_id + 1) as u64,
            ..noted
        };
        let start: SendingView = SendingView {
            s: numbered.pin_noted(plan, body.len(), primary, now),
            packet: turn::fresh_packet(noted.next_id, body, now),
            out: v.out,
        };
        let tcp_continuity: bool = packet::spec_ipv4_tcp(body) && noted.policy
            == Policy::Continuity;
        lemma_seconded_settled(start.copied(primary, now), plan, primary, tcp_continuity, now);
        bond_laws::lemma_placed_keeps(v, body, plan, primary, now);
        assert forall|k: int| 0 <= k < v.s.pending.len() implies (#[trigger] after.pending[k])
            == v.s.pending[k] by {
            assert(after.pending.drop_last()[k] == after.pending[k]);
        }
    }
}

proof fn lemma_scanned_settled(v: ScanView, class: nat, body: Seq<u8>, now: u64)
    ensures
        grown(v.s, v.scanned(class, body, now).s),
{
    let bytes: usize = body.len() as usize;
    let looked: (SchedulerView, Option<u128>, bool) = v.s.classified(body, now);
    assert(looked.0.recent == v.s.recent && bond_laws::same_packets(looked.0, v.s)) by {
        reveal(SchedulerView::classified);
    }
    let plan: PlanView = looked.0.planned(body, looked.1, looked.2, now);
    let choice: (SchedulerView, Option<usize>) = match plan.tcp_key {
        Some(key) => looked.0.tcp_placed(
            key,
            bytes,
            if v.backlog.contains_key(key) {
                v.backlog[key]
            } else {
                bytes
            },
            now,
        ),
        None => (
            looked.0,
            if plan.pinned is Some {
                plan.pinned
            } else {
                placement::first_of(plan.targets)
            },
        ),
    };
    assert(choice.0.recent == looked.0.recent && bond_laws::same_packets(choice.0, looked.0)) by {
        reveal(SchedulerView::tcp_placed);
    }
    match choice.1 {
        Some(primary) => {
            lemma_placed_settled(v.with_state(choice.0), body, plan, primary, now);
        },
        None => {},
    }
}

proof fn lemma_run_settled(v: ScanView, setting: ScanSetting, budget: nat)
    ensures
        grown(v.s, v.run(setting, budget).s),
    decreases budget,
{
    if !(budget == 0 || v.stop || v.sent >= bond::TURN_PACKETS) {
        let s: SchedulerView = v.s;
        let now: u64 = setting.now;
        let after: ScanView = v.stepped(setting);
        if !turn::room_left(s.paths, setting) {
        } else if s.urgent.len() > 0 {
            lemma_scanned_settled(
                v.with_state(SchedulerView { urgent: s.urgent.drop_first(), ..s }).counted(),
                0,
                s.urgent[0],
                now,
            );
        } else if s.streaming.len() > 0 {
            lemma_scanned_settled(
                v.with_state(SchedulerView { streaming: s.streaming.drop_first(), ..s }).counted(),
                1,
                s.streaming[0],
                now,
            );
        } else if s.queued.len() > 0 {
            lemma_scanned_settled(
                v.with_state(SchedulerView { queued: s.queued.drop_first(), ..s }).counted(),
                2,
                s.queued[0],
                now,
            );
        }
        assert(grown(s, after.s));
        lemma_run_settled(after, setting, (budget - 1) as nat);
        lemma_grown_trans(s, after.s, v.run(setting, budget).s);
    }
}

/// A turn keeps apart what is settled and what is in flight.
pub proof fn turn_keeps_settled_apart(s: SchedulerView, now: u64)
    requires
        s.wf(),
    ensures
        bond::settled_apart(
            s.ticked(now).0.recent,
            s.ticked(now).0.pending,
            s.ticked(now).0.next_id,
        ),
{
    lemma_apart(s);
    lemma_repairs_drawn(s, now);
    bond_laws::lemma_repaired_state_keeps(s, now);
    let r: SchedulerView = bond_laws::repaired_state(s, now);
    let after: SchedulerView = s.ticked(now).0;
    let begun: (SchedulerView, Seq<FrameView>) = s.begun(now);
    let data: Seq<usize> = begun.0.data_paths(now);
    let mended: (SchedulerView, Seq<FrameView>) = begun.0.mended(begun.1, data, now);
    lemma_run_settled(r.scan_start(mended.1), r.setting(data, now), r.waiting());
    assert(grown(r, after));
    assert forall|id: u64, path: usize|
        #[trigger] after.recent.contains_key(bond::recent_key(id, path)) implies id < after.next_id
        && !bond::is_pending(after.pending, id) by {
        assert(s.recent.contains_key(bond::recent_key(id, path)));
        lemma_has(s.pending, id);
        lemma_has(after.pending, id);
        if has(after.pending, id) {
            let i: int = choose|i: int|
                0 <= i < after.pending.len() && (#[trigger] after.pending[i]).id == id;
            if i < r.pending.len() {
                assert(after.pending[i] == r.pending[i]);
                assert(has(r.pending, id));
            }
        }
    }
    lemma_apart(after);
}

/// So does every frame that comes in.
pub proof fn frame_keeps_settled_apart(s: SchedulerView, sent: FrameView, now: u64)
    requires
        s.wf(),
    ensures
        bond::settled_apart(
            s.after_frame(sent, now).0.recent,
            s.after_frame(sent, now).0.pending,
            s.after_frame(sent, now).0.next_id,
        ),
{
    let index: usize = sent.path as usize;
    lemma_apart(s);
    lemma_apart(s.after_frame(sent, now).0);
    if index < s.n() {
        match sent.kind {
            Kind::Ack => {
                lemma_acked_keeps(s, index, sent.id, sent.stamp, now);
            },
            Kind::AckBatch => {
                lemma_all_settled(s, index, frame::batch_acks(sent), now);
            },
            _ => {},
        }
    }
}

} // verus!
