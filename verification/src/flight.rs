//! Packets that were sent and not yet acknowledged, with their copies.
use crate::frame::{Frame, FrameView, Kind};
use crate::packet;
use crate::path::Path;
use crate::wire;
use vstd::prelude::*;

verus! {

/// A copy of a packet on one path, and the evidence that it was lost: later
/// packets of its flow that this path delivered.
#[derive(Clone, Copy, Debug, PartialEq, Eq, Structural)]
pub struct Attempt {
    pub path: usize,
    pub stamp: u64,
    pub generation: u64,
    pub evidence: u8,
}

#[derive(Clone, Copy, Debug)]
pub struct RecentAttempt {
    pub bytes: usize,
    pub born: u64,
    pub stamp: u64,
    pub generation: u64,
    pub expires: u64,
}

/// A packet that waits for its acknowledgement. Attempts are in the order of
/// their paths, at most one for each.
pub struct Pending {
    pub id: u64,
    pub body: Vec<u8>,
    pub born: u64,
    pub attempts: Vec<Attempt>,
    pub last_repair: u64,
    pub protection_path: Option<usize>,
    pub tcp_early_repair_deferred: bool,
    pub fast_repair_path: Option<usize>,
    pub repaired: bool,
}

#[verifier::ext_equal]
pub struct PendingView {
    pub id: u64,
    pub body: Seq<u8>,
    pub born: u64,
    pub attempts: Seq<Attempt>,
    pub last_repair: u64,
    pub protection_path: Option<usize>,
    pub tcp_early_repair_deferred: bool,
    pub fast_repair_path: Option<usize>,
    pub repaired: bool,
}

impl View for Pending {
    type V = PendingView;

    open spec fn view(&self) -> PendingView {
        PendingView {
            id: self.id,
            body: self.body@,
            born: self.born,
            attempts: self.attempts@,
            last_repair: self.last_repair,
            protection_path: self.protection_path,
            tcp_early_repair_deferred: self.tcp_early_repair_deferred,
            fast_repair_path: self.fast_repair_path,
            repaired: self.repaired,
        }
    }
}

pub open spec fn pending_views(list: Seq<Pending>) -> Seq<PendingView> {
    list.map_values(|p: Pending| p@)
}

/// First position from `i` on that does not belong to an earlier path.
pub open spec fn attempt_slot(attempts: Seq<Attempt>, path: usize, i: int) -> int
    decreases attempts.len() - i,
{
    if i < attempts.len() && attempts[i].path < path {
        attempt_slot(attempts, path, i + 1)
    } else {
        i
    }
}

/// The attempt on a path.
pub open spec fn attempt_on(attempts: Seq<Attempt>, path: usize) -> Option<Attempt> {
    let i: int = attempt_slot(attempts, path, 0);
    if i < attempts.len() && attempts[i].path == path {
        Some(attempts[i])
    } else {
        None
    }
}

/// The attempts with the one on a path renewed, or added.
pub open spec fn with_attempt(
    attempts: Seq<Attempt>,
    path: usize,
    stamp: u64,
    generation: u64,
) -> Seq<Attempt> {
    let i: int = attempt_slot(attempts, path, 0);
    if i < attempts.len() && attempts[i].path == path {
        attempts.update(i, Attempt { path, stamp, generation, evidence: attempts[i].evidence })
    } else {
        attempts.insert(i, Attempt { path, stamp, generation, evidence: 0 })
    }
}

/// Whether an attempt belongs to the present incarnation of its path.
pub open spec fn is_current(paths: Seq<Path>, attempt: Attempt) -> bool {
    attempt.path < paths.len() && paths[attempt.path as int].generation == attempt.generation
}

/// Whether the packet has a current attempt on the path.
pub open spec fn current_on(paths: Seq<Path>, attempts: Seq<Attempt>, path: usize) -> bool {
    match attempt_on(attempts, path) {
        Some(attempt) => is_current(paths, attempt),
        None => false,
    }
}

/// Number of current attempts among the first `n`.
pub open spec fn current_count(paths: Seq<Path>, attempts: Seq<Attempt>, n: nat) -> nat
    decreases n,
{
    if n == 0 {
        0
    } else {
        current_count(paths, attempts, (n - 1) as nat) + if is_current(
            paths,
            attempts[n - 1],
        ) {
            1nat
        } else {
            0
        }
    }
}

pub open spec fn attempts_ordered(attempts: Seq<Attempt>) -> bool {
    forall|i: int, j: int|
        0 <= i < j < attempts.len() ==> (#[trigger] attempts[i]).path < (
        #[trigger] attempts[j]).path
}

pub open spec fn attempts_within(attempts: Seq<Attempt>, n: nat) -> bool {
    forall|i: int| 0 <= i < attempts.len() ==> (#[trigger] attempts[i]).path < n
}

pub open spec fn path_within(path: Option<usize>, n: nat) -> bool {
    match path {
        Some(index) => index < n,
        None => true,
    }
}

impl PendingView {
    /// Everything it refers to is one of `n` paths.
    pub open spec fn wf(self, n: nat) -> bool {
        &&& attempts_ordered(self.attempts)
        &&& attempts_within(self.attempts, n)
        &&& path_within(self.protection_path, n)
        &&& path_within(self.fast_repair_path, n)
    }

    /// The packet after a copy was sent on a path.
    pub open spec fn sent(self, path: usize, generation: u64, now: u64) -> PendingView {
        PendingView {
            protection_path: if self.protection_path == Some(path) {
                None
            } else {
                self.protection_path
            },
            attempts: with_attempt(self.attempts, path, now, generation),
            ..self
        }
    }

    pub open spec fn data_frame(self, path: usize, now: u64) -> FrameView {
        FrameView {
            kind: Kind::Data,
            path: path as u8,
            id: self.id,
            stamp: now,
            body: self.body,
        }
    }

    /// Large enough, and of a TCP flow, to take part in rate samples.
    pub open spec fn bulk_tcp(self) -> bool {
        self.body.len() >= 600 && packet::spec_tcp_flow_key(self.body) is Some
    }
}

/// The path after it sent a copy of the packet.
pub open spec fn path_after_send(
    paths: Seq<Path>,
    packet: PendingView,
    path: usize,
    now: u64,
) -> Path {
    paths[path as int].charged(
        current_on(paths, packet.attempts, path),
        packet.bulk_tcp(),
        packet.body.len() as usize,
        now,
    )
}

pub proof fn lemma_attempt_slot(attempts: Seq<Attempt>, path: usize, i: int)
    requires
        0 <= i <= attempts.len(),
    ensures
        i <= attempt_slot(attempts, path, i) <= attempts.len(),
        forall|j: int|
            i <= j < attempt_slot(attempts, path, i) ==> (#[trigger] attempts[j]).path < path,
        attempt_slot(attempts, path, i) < attempts.len() ==> attempts[attempt_slot(
            attempts,
            path,
            i,
        )].path >= path,
    decreases attempts.len() - i,
{
    if i < attempts.len() && attempts[i].path < path {
        lemma_attempt_slot(attempts, path, i + 1);
    }
}

/// Sending keeps the attempts in order and within the paths.
pub proof fn lemma_with_attempt(
    attempts: Seq<Attempt>,
    path: usize,
    stamp: u64,
    generation: u64,
    n: nat,
)
    requires
        attempts_ordered(attempts),
        attempts_within(attempts, n),
        path < n,
    ensures
        attempts_ordered(with_attempt(attempts, path, stamp, generation)),
        attempts_within(with_attempt(attempts, path, stamp, generation), n),
{
    lemma_attempt_slot(attempts, path, 0);
    let at: int = attempt_slot(attempts, path, 0);
    let all: Seq<Attempt> = with_attempt(attempts, path, stamp, generation);
    assert forall|i: int, j: int| 0 <= i < j < all.len() implies (#[trigger] all[i]).path < (
    #[trigger] all[j]).path by {
        if all.len() > attempts.len() {
            let a: int = if i < at {
                i
            } else {
                i - 1
            };
            let b: int = if j < at {
                j
            } else {
                j - 1
            };
            if i != at {
                assert(all[i] == attempts[a]);
            }
            if j != at {
                assert(all[j] == attempts[b]);
            }
            if i == at && b > at {
                assert(attempts[at].path < attempts[b].path);
            }
        }
    }
    assert forall|i: int| 0 <= i < all.len() implies (#[trigger] all[i]).path < n by {
        if all.len() > attempts.len() {
            if i < at {
                assert(all[i] == attempts[i]);
            } else if i > at {
                assert(all[i] == attempts[i - 1]);
            }
        } else if i != at {
            assert(all[i] == attempts[i]);
        }
    }
}

pub fn find_attempt(attempts: &Vec<Attempt>, path: usize) -> (r: Option<Attempt>)
    ensures
        r == attempt_on(attempts@, path),
{
    let i: usize = slot_of(attempts, path);
    if i < attempts.len() && attempts[i].path == path {
        Some(attempts[i])
    } else {
        None
    }
}

fn slot_of(attempts: &Vec<Attempt>, path: usize) -> (r: usize)
    ensures
        r == attempt_slot(attempts@, path, 0),
        r <= attempts@.len(),
{
    let mut i: usize = 0;
    while i < attempts.len() && attempts[i].path < path
        invariant
            i <= attempts@.len(),
            attempt_slot(attempts@, path, i as int) == attempt_slot(attempts@, path, 0),
        decreases attempts@.len() - i,
    {
        i = i + 1;
    }
    i
}

pub fn attempt_is_current(paths: &Vec<Path>, attempt: Attempt) -> (r: bool)
    ensures
        r == is_current(paths@, attempt),
{
    attempt.path < paths.len() && paths[attempt.path].generation == attempt.generation
}

pub fn has_current(paths: &Vec<Path>, attempts: &Vec<Attempt>, path: usize) -> (r: bool)
    ensures
        r == current_on(paths@, attempts@, path),
{
    match find_attempt(attempts, path) {
        Some(attempt) => attempt_is_current(paths, attempt),
        None => false,
    }
}

pub fn count_current(paths: &Vec<Path>, attempts: &Vec<Attempt>) -> (r: usize)
    ensures
        r == current_count(paths@, attempts@, attempts@.len()),
{
    let mut count: usize = 0;
    let mut i: usize = 0;
    while i < attempts.len()
        invariant
            count <= i <= attempts@.len(),
            count == current_count(paths@, attempts@, i as nat),
        decreases attempts@.len() - i,
    {
        if attempt_is_current(paths, attempts[i]) {
            count = count + 1;
        }
        i = i + 1;
    }
    count
}

/// Sends a copy of the packet on a path.
pub fn send_copy(paths: &mut Vec<Path>, packet: &mut Pending, path: usize, now: u64) -> (r: Frame)
    requires
        path < old(paths)@.len(),
    ensures
        final(paths)@ == old(paths)@.update(
            path as int,
            path_after_send(old(paths)@, old(packet)@, path, now),
        ),
        final(packet)@ == old(packet)@.sent(path, old(paths)@[path as int].generation, now),
        r@ == old(packet)@.data_frame(path, now),
{
    match packet.protection_path {
        Some(reserved) => {
            if reserved == path {
                packet.protection_path = None;
            }
        },
        None => {},
    }
    let mut p: Path = paths[path];
    let generation: u64 = p.generation;
    let bytes: usize = packet.body.len();
    let repeated: bool = has_current(paths, &packet.attempts, path);
    let bulk: bool = bytes >= 600 && packet::tcp_flow_key(packet.body.as_slice()).is_some();
    p.charge(repeated, bulk, bytes, now);
    paths[path] = p;
    let i: usize = slot_of(&packet.attempts, path);
    if i < packet.attempts.len() && packet.attempts[i].path == path {
        let evidence: u8 = packet.attempts[i].evidence;
        packet.attempts[i] = Attempt { path, stamp: now, generation, evidence };
    } else {
        packet.attempts.insert(i, Attempt { path, stamp: now, generation, evidence: 0 });
    }
    assert(packet@ =~= old(packet)@.sent(path, generation, now));
    #[verifier::truncate]
    let number: u8 = path as u8;
    Frame {
        kind: Kind::Data,
        path: number,
        id: packet.id,
        stamp: now,
        body: wire::copy_bytes(packet.body.as_slice()),
    }
}

} // verus!
