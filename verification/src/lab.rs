//! A laboratory of two paths: a client sends made-up packets, and a relay
//! acknowledges each and tells the first copy from the others. Encryption and
//! sockets are elsewhere; what is here takes messages that were opened.
use crate::binary64::Binary64;
use crate::egress::Endpoint;
use crate::replay;
use crate::replay::ReplayWindow;
use crate::tunnel::REPLAY_WIDTH;
use crate::wire;
use vstd::prelude::*;

verus! {

/// Most paths of clients that the relay serves at once.
pub const MAX_LAB_PEERS: usize = 256;

/// A path that was silent for longer is forgotten.
pub const LAB_SILENCE_MS: u64 = 120_000;

/// Numbers of a flow within which copies are told apart.
pub const LAB_WINDOW: usize = 4 * REPLAY_WIDTH;

#[derive(Clone, Copy, Debug, PartialEq, Eq, Structural)]
pub enum LabKind {
    Probe,
    Pong,
    Data,
    Ack,
}

/// A message that was opened.
pub struct LabMessage {
    pub kind: LabKind,
    pub flow: u8,
    pub sequence: u64,
    pub echo_micros: u64,
    pub payload: Vec<u8>,
}

#[verifier::ext_equal]
pub struct LabMessageView {
    pub kind: LabKind,
    pub flow: u8,
    pub sequence: u64,
    pub echo_micros: u64,
    pub payload: Seq<u8>,
}

impl View for LabMessage {
    type V = LabMessageView;

    open spec fn view(&self) -> LabMessageView {
        LabMessageView {
            kind: self.kind,
            flow: self.flow,
            sequence: self.sequence,
            echo_micros: self.echo_micros,
            payload: self.payload@,
        }
    }
}

/// What is sent back, without a payload.
#[derive(Clone, Copy, Debug, PartialEq, Eq, Structural)]
pub struct LabReply {
    pub kind: LabKind,
    pub flow: u8,
    pub sequence: u64,
    pub echo_micros: u64,
}

/// A path of a client. Sessions go by their identifier, read as a number.
#[derive(Clone, Copy)]
pub struct LabPeer {
    pub session: u128,
    pub path: u8,
    pub address: Endpoint,
    pub last_seen: u64,
}

/// The numbers that were seen of one flow of a session, on whichever path.
pub struct Delivered {
    pub session: u128,
    pub flow: u8,
    pub window: ReplayWindow,
}

#[verifier::ext_equal]
pub struct DeliveredView {
    pub session: u128,
    pub flow: u8,
    pub seen: Set<u64>,
}

impl View for Delivered {
    type V = DeliveredView;

    open spec fn view(&self) -> DeliveredView {
        DeliveredView { session: self.session, flow: self.flow, seen: self.window.refused() }
    }
}

#[derive(Clone, Copy, Debug, PartialEq, Eq, Structural)]
pub struct LabStats {
    pub authenticated_datagrams: u64,
    pub unique_data_packets: u64,
    pub repaired_or_duplicate_data: u64,
    pub invalid_datagrams: u64,
    pub sessions: usize,
}

pub struct LabRelay {
    pub peers: Vec<LabPeer>,
    pub delivered: Vec<Delivered>,
    pub stats: LabStats,
}

#[verifier::ext_equal]
pub struct LabRelayView {
    pub peers: Seq<LabPeer>,
    pub delivered: Seq<DeliveredView>,
    pub stats: LabStats,
}

pub open spec fn delivered_views(list: Seq<Delivered>) -> Seq<DeliveredView> {
    list.map_values(|d: Delivered| d@)
}

impl View for LabRelay {
    type V = LabRelayView;

    open spec fn view(&self) -> LabRelayView {
        LabRelayView {
            peers: self.peers@,
            delivered: delivered_views(self.delivered@),
            stats: self.stats,
        }
    }
}

/// The place of a path from `i` on, or the number of paths.
pub open spec fn peer_slot(peers: Seq<LabPeer>, session: u128, path: u8, i: int) -> int
    decreases peers.len() - i,
{
    if i < peers.len() && !(peers[i].session == session && peers[i].path == path) {
        peer_slot(peers, session, path, i + 1)
    } else {
        i
    }
}

/// The place of a flow from `i` on, or the number of flows.
pub open spec fn flow_slot(list: Seq<DeliveredView>, session: u128, flow: u8, i: int) -> int
    decreases list.len() - i,
{
    if i < list.len() && !(list[i].session == session && list[i].flow == flow) {
        flow_slot(list, session, flow, i + 1)
    } else {
        i
    }
}

pub open spec fn has_session(peers: Seq<LabPeer>, session: u128, n: nat) -> bool {
    exists|i: int| 0 <= i < n && (#[trigger] peers[i]).session == session
}

/// How many different sessions the first `n` paths belong to.
pub open spec fn session_count(peers: Seq<LabPeer>, n: nat) -> nat
    decreases n,
{
    if n == 0 {
        0
    } else {
        let before: nat = session_count(peers, (n - 1) as nat);
        if has_session(peers, peers[n - 1].session, (n - 1) as nat) {
            before
        } else {
            before + 1
        }
    }
}

pub open spec fn lab_awake(p: LabPeer, now: u64) -> bool {
    now.saturating_sub(p.last_seen) <= LAB_SILENCE_MS
}

impl LabRelayView {
    pub open spec fn rejecting(self) -> LabRelayView {
        LabRelayView {
            stats: LabStats {
                invalid_datagrams: self.stats.invalid_datagrams.wrapping_add(1),
                ..self.stats
            },
            ..self
        }
    }

    /// Whether a message of a path is looked at: it is known, or there is room.
    pub open spec fn admits(self, session: u128, path: u8) -> bool {
        peer_slot(self.peers, session, path, 0) < self.peers.len() || self.peers.len()
            < MAX_LAB_PEERS
    }

    /// The path was heard from an address.
    pub open spec fn heard(self, session: u128, path: u8, address: Endpoint, now: u64) -> LabRelayView {
        let peer: LabPeer = LabPeer { session, path, address, last_seen: now };
        let at: int = peer_slot(self.peers, session, path, 0);
        LabRelayView {
            peers: if at < self.peers.len() {
                self.peers.update(at, peer)
            } else {
                self.peers.push(peer)
            },
            stats: LabStats {
                authenticated_datagrams: self.stats.authenticated_datagrams.wrapping_add(1),
                ..self.stats
            },
            ..self
        }
    }

    /// The numbers of a flow that are no longer new.
    pub open spec fn seen_of(self, session: u128, flow: u8) -> Set<u64> {
        let at: int = flow_slot(self.delivered, session, flow, 0);
        if at < self.delivered.len() {
            self.delivered[at].seen
        } else {
            Set::empty()
        }
    }

    /// A packet was delivered; whether it is new shows in the counters.
    pub open spec fn counted(self, session: u128, flow: u8, sequence: u64) -> LabRelayView {
        let at: int = flow_slot(self.delivered, session, flow, 0);
        let seen: Set<u64> = self.seen_of(session, flow);
        let noted: DeliveredView = DeliveredView {
            session,
            flow,
            seen: replay::refused_after(seen, LAB_WINDOW as nat, sequence),
        };
        LabRelayView {
            delivered: if at < self.delivered.len() {
                self.delivered.update(at, noted)
            } else {
                self.delivered.push(noted)
            },
            stats: if seen.contains(sequence) {
                LabStats {
                    repaired_or_duplicate_data:
                        self.stats.repaired_or_duplicate_data.wrapping_add(1),
                    ..self.stats
                }
            } else {
                LabStats {
                    unique_data_packets: self.stats.unique_data_packets.wrapping_add(1),
                    ..self.stats
                }
            },
            ..self
        }
    }

    /// What an authentic message leads to. Data counts only with the payload
    /// that its number calls for; the flow's numbers are shared by all paths.
    pub open spec fn accepted(
        self,
        session: u128,
        path: u8,
        address: Endpoint,
        m: LabMessageView,
        genuine: Seq<u8>,
        now: u64,
    ) -> (LabRelayView, Option<LabReply>) {
        let here: LabRelayView = self.heard(session, path, address, now);
        match m.kind {
            LabKind::Probe => (
                here,
                Some(
                    LabReply {
                        kind: LabKind::Pong,
                        flow: 0,
                        sequence: m.sequence,
                        echo_micros: m.echo_micros,
                    },
                ),
            ),
            LabKind::Data => if m.payload != genuine {
                (here.rejecting(), None)
            } else {
                (
                    here.counted(session, m.flow, m.sequence),
                    Some(
                        LabReply {
                            kind: LabKind::Ack,
                            flow: m.flow,
                            sequence: m.sequence,
                            echo_micros: m.echo_micros,
                        },
                    ),
                )
            },
            _ => (here, None),
        }
    }

    /// Silent paths are forgotten, and with a session's last path its numbers.
    pub open spec fn without_silent(self, now: u64) -> LabRelayView {
        let peers: Seq<LabPeer> = self.peers.filter(|p: LabPeer| lab_awake(p, now));
        LabRelayView {
            peers,
            delivered: self.delivered.filter(
                |d: DeliveredView| has_session(peers, d.session, peers.len()),
            ),
            stats: LabStats { sessions: session_count(peers, peers.len()) as usize, ..self.stats },
        }
    }
}

proof fn lemma_session_count(peers: Seq<LabPeer>, n: nat)
    ensures
        session_count(peers, n) <= n,
    decreases n,
{
    if n > 0 {
        lemma_session_count(peers, (n - 1) as nat);
    }
}

/// A packet that comes again, on whichever path, counts as a copy, and is
/// acknowledged like the first.
pub proof fn copy_is_told_apart(
    s: LabRelayView,
    session: u128,
    first: (u8, Endpoint, u64),
    again: (u8, Endpoint, u64),
    m: LabMessageView,
)
    requires
        m.kind == LabKind::Data,
    ensures
        ({
            let (after, reply) = s.accepted(session, first.0, first.1, m, m.payload, first.2);
            let (last, copy) = after.accepted(session, again.0, again.1, m, m.payload, again.2);
            &&& reply == copy && reply is Some && reply->0.kind == LabKind::Ack
            &&& last.stats.unique_data_packets == after.stats.unique_data_packets
            &&& last.stats.repaired_or_duplicate_data
                == after.stats.repaired_or_duplicate_data.wrapping_add(1)
        }),
{
    let here: LabRelayView = s.heard(session, first.0, first.1, first.2);
    let (after, reply) = s.accepted(session, first.0, first.1, m, m.payload, first.2);
    lemma_flow_slot(here.delivered, session, m.flow, 0);
    let at: int = flow_slot(here.delivered, session, m.flow, 0);
    lemma_flow_slot(after.delivered, session, m.flow, 0);
    lemma_same_flow_slot(here.delivered, after.delivered, session, m.flow, 0);
    assert(after.delivered[at].seen.contains(m.sequence));
}

proof fn lemma_flow_slot(list: Seq<DeliveredView>, session: u128, flow: u8, i: int)
    requires
        0 <= i <= list.len(),
    ensures
        i <= flow_slot(list, session, flow, i) <= list.len(),
        flow_slot(list, session, flow, i) < list.len() ==> list[flow_slot(
            list,
            session,
            flow,
            i,
        )].session == session && list[flow_slot(list, session, flow, i)].flow == flow,
    decreases list.len() - i,
{
    if i < list.len() && !(list[i].session == session && list[i].flow == flow) {
        lemma_flow_slot(list, session, flow, i + 1);
    }
}

/// A flow that was noted at its place is found there.
proof fn lemma_same_flow_slot(
    before: Seq<DeliveredView>,
    after: Seq<DeliveredView>,
    session: u128,
    flow: u8,
    i: int,
)
    requires
        0 <= i <= flow_slot(before, session, flow, i),
        ({
            let at: int = flow_slot(before, session, flow, i);
            &&& at < after.len()
            &&& after[at].session == session && after[at].flow == flow
            &&& forall|j: int| i <= j < at ==> after[j] == before[j]
        }),
        flow_slot(before, session, flow, i) <= before.len(),
    ensures
        flow_slot(after, session, flow, i) == flow_slot(before, session, flow, i),
    decreases before.len() - i,
{
    if i < before.len() && !(before[i].session == session && before[i].flow == flow) {
        if i == flow_slot(before, session, flow, i) {
        } else {
            lemma_flow_slot(before, session, flow, i + 1);
            assert(after[i] == before[i]);
            lemma_same_flow_slot(before, after, session, flow, i + 1);
        }
    }
}

impl LabRelay {
    /// Every window has the same width.
    pub open spec fn wf(&self) -> bool {
        forall|i: int|
            0 <= i < self.delivered@.len() ==> (#[trigger] self.delivered@[i]).window.wf()
                && self.delivered@[i].window.spec_width() == LAB_WINDOW
    }

    pub fn new() -> (r: Self)
        ensures
            r.wf(),
            r@ == (LabRelayView {
                peers: seq![],
                delivered: seq![],
                stats: LabStats {
                    authenticated_datagrams: 0,
                    unique_data_packets: 0,
                    repaired_or_duplicate_data: 0,
                    invalid_datagrams: 0,
                    sessions: 0,
                },
            }),
    {
        let r: LabRelay = LabRelay {
            peers: Vec::new(),
            delivered: Vec::new(),
            stats: LabStats {
                authenticated_datagrams: 0,
                unique_data_packets: 0,
                repaired_or_duplicate_data: 0,
                invalid_datagrams: 0,
                sessions: 0,
            },
        };
        assert(r@.peers =~= Seq::empty());
        assert(r@.delivered =~= Seq::empty());
        r
    }

    fn find_peer(&self, session: u128, path: u8) -> (r: usize)
        ensures
            r == peer_slot(self.peers@, session, path, 0),
            r <= self.peers@.len(),
    {
        let mut i: usize = 0;
        while i < self.peers.len()
            invariant
                i <= self.peers@.len(),
                peer_slot(self.peers@, session, path, i as int) == peer_slot(
                    self.peers@,
                    session,
                    path,
                    0,
                ),
            decreases self.peers@.len() - i,
        {
            if self.peers[i].session == session && self.peers[i].path == path {
                return i;
            }
            i = i + 1;
        }
        i
    }

    fn find_flow(&self, session: u128, flow: u8) -> (r: usize)
        ensures
            r == flow_slot(self@.delivered, session, flow, 0),
            r <= self.delivered@.len(),
    {
        let mut i: usize = 0;
        while i < self.delivered.len()
            invariant
                i <= self.delivered@.len(),
                flow_slot(self@.delivered, session, flow, i as int) == flow_slot(
                    self@.delivered,
                    session,
                    flow,
                    0,
                ),
            decreases self.delivered@.len() - i,
        {
            assert(self@.delivered[i as int] == self.delivered@[i as int]@);
            if self.delivered[i].session == session && self.delivered[i].flow == flow {
                return i;
            }
            i = i + 1;
        }
        i
    }

    /// A datagram that is malformed or not authentic.
    pub fn reject(&mut self)
        requires
            old(self).wf(),
        ensures
            final(self).wf(),
            final(self)@ == old(self)@.rejecting(),
    {
        self.stats.invalid_datagrams = self.stats.invalid_datagrams.wrapping_add(1);
    }

    /// Whether to open a datagram of a path. One that there is no room for
    /// counts as invalid.
    pub fn lets_in(&mut self, session: u128, path: u8) -> (r: bool)
        requires
            old(self).wf(),
        ensures
            final(self).wf(),
            r == old(self)@.admits(session, path),
            final(self)@ == if r {
                old(self)@
            } else {
                old(self)@.rejecting()
            },
    {
        if self.find_peer(session, path) < self.peers.len() || self.peers.len() < MAX_LAB_PEERS {
            true
        } else {
            self.reject();
            false
        }
    }

    fn hear(&mut self, session: u128, path: u8, address: Endpoint, now: u64)
        requires
            old(self).wf(),
        ensures
            final(self).wf(),
            final(self)@ == old(self)@.heard(session, path, address, now),
    {
        let peer: LabPeer = LabPeer { session, path, address, last_seen: now };
        let at: usize = self.find_peer(session, path);
        if at < self.peers.len() {
            self.peers.set(at, peer);
        } else {
            self.peers.push(peer);
        }
        self.stats.authenticated_datagrams = self.stats.authenticated_datagrams.wrapping_add(1);
        assert(self@ =~= old(self)@.heard(session, path, address, now));
    }

    fn count(&mut self, session: u128, flow: u8, sequence: u64)
        requires
            old(self).wf(),
        ensures
            final(self).wf(),
            final(self)@ == old(self)@.counted(session, flow, sequence),
    {
        let at: usize = self.find_flow(session, flow);
        if at >= self.delivered.len() {
            self.delivered.push(
                Delivered { session, flow, window: ReplayWindow::new(LAB_WINDOW) },
            );
        }
        let ghost mid: Seq<Delivered> = self.delivered@;
        proof {
            lemma_flow_slot(old(self)@.delivered, session, flow, 0);
            if at < old(self).delivered@.len() {
                assert(old(self)@.delivered[at as int] == old(self).delivered@[at as int]@);
            }
        }
        let new: bool = self.delivered[at].window.mark(sequence);
        if new {
            self.stats.unique_data_packets = self.stats.unique_data_packets.wrapping_add(1);
        } else {
            self.stats.repaired_or_duplicate_data =
            self.stats.repaired_or_duplicate_data.wrapping_add(1);
        }
        proof {
            let want: LabRelayView = old(self)@.counted(session, flow, sequence);
            assert(self@.delivered[at as int] == self.delivered@[at as int]@);
            assert(self@.delivered =~= want.delivered);
            assert(self@ =~= want);
        }
    }

    /// Takes an authentic message of a path that was admitted, with the payload
    /// that its number calls for. Returns what to send back.
    pub fn accept(
        &mut self,
        session: u128,
        path: u8,
        address: Endpoint,
        message: &LabMessage,
        genuine: &[u8],
        now: u64,
    ) -> (r: Option<LabReply>)
        requires
            old(self).wf(),
        ensures
            final(self).wf(),
            (final(self)@, r) == old(self)@.accepted(
                session,
                path,
                address,
                message@,
                genuine@,
                now,
            ),
    {
        self.hear(session, path, address, now);
        match message.kind {
            LabKind::Probe => Some(
                LabReply {
                    kind: LabKind::Pong,
                    flow: 0,
                    sequence: message.sequence,
                    echo_micros: message.echo_micros,
                },
            ),
            LabKind::Data => {
                if !wire::same_bytes(message.payload.as_slice(), genuine) {
                    self.reject();
                    return None;
                }
                self.count(session, message.flow, message.sequence);
                Some(
                    LabReply {
                        kind: LabKind::Ack,
                        flow: message.flow,
                        sequence: message.sequence,
                        echo_micros: message.echo_micros,
                    },
                )
            },
            _ => None,
        }
    }

    fn sees_session(&self, session: u128, n: usize) -> (r: bool)
        requires
            n <= self.peers@.len(),
        ensures
            r == has_session(self.peers@, session, n as nat),
    {
        let mut i: usize = 0;
        while i < n
            invariant
                i <= n <= self.peers@.len(),
                forall|j: int| 0 <= j < i ==> (#[trigger] self.peers@[j]).session != session,
            decreases n - i,
        {
            if self.peers[i].session == session {
                return true;
            }
            i = i + 1;
        }
        false
    }

    /// How many sessions have a path.
    pub fn sessions(&self) -> (r: usize)
        ensures
            r == session_count(self.peers@, self.peers@.len()),
    {
        let mut count: usize = 0;
        let mut i: usize = 0;
        while i < self.peers.len()
            invariant
                i <= self.peers@.len(),
                count == session_count(self.peers@, i as nat),
                count <= i,
            decreases self.peers@.len() - i,
        {
            if !self.sees_session(self.peers[i].session, i) {
                count = count + 1;
            }
            i = i + 1;
        }
        count
    }

    fn drop_silent(&mut self, now: u64)
        requires
            old(self).wf(),
        ensures
            final(self).wf(),
            final(self)@ == (LabRelayView {
                peers: old(self)@.peers.filter(|p: LabPeer| lab_awake(p, now)),
                ..old(self)@
            }),
    {
        let ghost all: Seq<LabPeer> = self.peers@;
        let ghost keep = |p: LabPeer| lab_awake(p, now);
        let mut kept: Vec<LabPeer> = Vec::new();
        let mut i: usize = 0;
        proof {
            reveal(Seq::filter);
            assert(all.take(0).filter(keep) =~= Seq::empty());
        }
        while i < self.peers.len()
            invariant
                i <= self.peers@.len(),
                self.peers@ == all,
                keep == |p: LabPeer| lab_awake(p, now),
                kept@ == all.take(i as int).filter(keep),
            decreases self.peers@.len() - i,
        {
            proof {
                reveal(Seq::filter);
                assert(all.take(i + 1).drop_last() =~= all.take(i as int));
                assert(all.take(i + 1).last() == all[i as int]);
            }
            if now.saturating_sub(self.peers[i].last_seen) <= LAB_SILENCE_MS {
                kept.push(self.peers[i]);
            }
            i = i + 1;
        }
        assert(all.take(i as int) =~= all);
        self.peers = kept;
    }

    fn drop_unattended(&mut self)
        requires
            old(self).wf(),
        ensures
            final(self).wf(),
            final(self)@ == (LabRelayView {
                delivered: old(self)@.delivered.filter(
                    |d: DeliveredView|
                        has_session(old(self)@.peers, d.session, old(self)@.peers.len()),
                ),
                ..old(self)@
            }),
    {
        let ghost peers: Seq<LabPeer> = self.peers@;
        let ghost all: Seq<DeliveredView> = self@.delivered;
        let ghost keep = |d: DeliveredView| has_session(peers, d.session, peers.len());
        let ghost mut k: int = 0;
        let mut i: usize = 0;
        proof {
            reveal(Seq::filter);
            assert(all.take(0).filter(keep) + all.skip(0) =~= all);
        }
        while i < self.delivered.len()
            invariant
                i <= self.delivered@.len(),
                0 <= k <= all.len(),
                self.peers@ == peers,
                self.stats == old(self).stats,
                keep == |d: DeliveredView| has_session(peers, d.session, peers.len()),
                i == all.take(k).filter(keep).len(),
                self@.delivered == all.take(k).filter(keep) + all.skip(k),
                self.wf(),
            decreases self.delivered@.len() - i,
        {
            proof {
                reveal(Seq::filter);
                assert(self@.delivered[i as int] == self.delivered@[i as int]@);
                assert(k < all.len());
                assert(self@.delivered[i as int] == all[k]);
                assert(all.take(k + 1).drop_last() =~= all.take(k));
                assert(all.take(k + 1).last() == all[k]);
            }
            let session: u128 = self.delivered[i].session;
            if self.sees_session(session, self.peers.len()) {
                assert(all.take(k + 1).filter(keep) + all.skip(k + 1) =~= self@.delivered);
                i = i + 1;
            } else {
                let ghost before: Seq<Delivered> = self.delivered@;
                let _ = self.delivered.remove(i);
                assert(self.delivered@ =~= before.remove(i as int));
                assert(self@.delivered =~= delivered_views(before).remove(i as int));
                assert(all.take(k + 1).filter(keep) + all.skip(k + 1) =~= self@.delivered);
            }
            proof {
                k = k + 1;
            }
        }
        proof {
            assert(k == all.len());
            assert(all.take(k) =~= all);
            assert(self@.delivered =~= all.filter(keep));
        }
    }

    /// Forgets silent paths, and what only they knew of.
    pub fn expire(&mut self, now: u64)
        requires
            old(self).wf(),
        ensures
            final(self).wf(),
            final(self)@ == old(self)@.without_silent(now),
    {
        self.drop_silent(now);
        self.drop_unattended();
        proof {
            lemma_session_count(self.peers@, self.peers@.len());
        }
        self.stats.sessions = self.sessions();
        assert(self@ =~= old(self)@.without_silent(now));
    }
}

// ---- The client ------------------------------------------------------------------------

/// A packet that was not acknowledged for longer is lost.
pub const LAB_EXPIRY_US: u64 = 100_000;

/// What a packet takes on the wire besides its payload.
pub const LAB_OVERHEAD: u64 = 96;

#[derive(Clone, Copy, Debug, PartialEq, Eq, Structural)]
pub enum LabFault {
    SameInterface,
    Rate,
    Count,
    DataPackets,
}

impl LabFault {
    pub open spec fn text(self) -> Seq<char> {
        match self {
            LabFault::SameInterface => "provide two different interfaces"@,
            LabFault::Rate => "packets-per-second must be between 1 and 1000"@,
            LabFault::Count => "count must be between 1 and 100"@,
            LabFault::DataPackets => "data-packets must be between 1 and 10000"@,
        }
    }

    pub fn message(self) -> (r: &'static str)
        ensures
            r@ == self.text(),
    {
        match self {
            LabFault::SameInterface => "provide two different interfaces",
            LabFault::Rate => "packets-per-second must be between 1 and 1000",
            LabFault::Count => "count must be between 1 and 100",
            LabFault::DataPackets => "data-packets must be between 1 and 10000",
        }
    }
}

/// Checks what a run was asked for.
pub fn check_run(first: &String, second: &String, packets_per_second: u64) -> (r: Result<
    (),
    LabFault,
>)
    ensures
        r == if first@ == second@ {
            Err(LabFault::SameInterface)
        } else if !(1 <= packets_per_second <= 1000) {
            Err(LabFault::Rate)
        } else {
            Ok(())
        },
{
    if *first == *second {
        return Err(LabFault::SameInterface);
    }
    if packets_per_second < 1 || packets_per_second > 1000 {
        return Err(LabFault::Rate);
    }
    Ok(())
}

/// One of the two paths.
#[derive(Clone, Copy, Debug, PartialEq, Eq, Structural)]
pub enum Side {
    First,
    Second,
}

impl Side {
    #[verifier::allow_in_spec]
    pub fn other(self) -> Side
        returns
            (match self {
                Side::First => Side::Second,
                Side::Second => Side::First,
            }),
    {
        match self {
            Side::First => Side::Second,
            Side::Second => Side::First,
        }
    }
}

/// Something that each path has.
#[derive(Clone, Copy, Debug, PartialEq, Eq, Structural)]
pub struct Both<T> {
    pub first: T,
    pub second: T,
}

impl<T: Copy> Both<T> {
    pub open spec fn on(self, side: Side) -> T {
        match side {
            Side::First => self.first,
            Side::Second => self.second,
        }
    }

    pub fn of(&self, side: Side) -> (r: T)
        ensures
            r == self.on(side),
    {
        match side {
            Side::First => self.first,
            Side::Second => self.second,
        }
    }

    pub open spec fn with(self, side: Side, value: T) -> Both<T> {
        match side {
            Side::First => Both { first: value, ..self },
            Side::Second => Both { second: value, ..self },
        }
    }
}

/// A packet that was sent and is not settled yet.
#[derive(Clone, Copy, Debug, PartialEq, Eq, Structural)]
pub struct LabPending {
    pub sequence: u64,
    pub first_sent: u64,
    pub origin_micros: u64,
    pub primary: Side,
    pub sent: Both<bool>,
}

#[derive(Clone, Copy, Debug, PartialEq, Eq, Structural)]
pub struct LabCounters {
    pub sent_original: u64,
    pub sent_protection: u64,
    pub sent_repair: u64,
    pub acknowledged: u64,
    pub expired: u64,
    pub socket_errors: u64,
    pub protect_in_advance_decisions: u64,
    pub reactive_repair_decisions: u64,
}

pub open spec fn no_lab_counters() -> LabCounters {
    LabCounters {
        sent_original: 0,
        sent_protection: 0,
        sent_repair: 0,
        acknowledged: 0,
        expired: 0,
        socket_errors: 0,
        protect_in_advance_decisions: 0,
        reactive_repair_decisions: 0,
    }
}

/// Where a packet should go: its path, the other one if it can be used, and
/// whether to send it on both at once.
#[derive(Clone, Copy, Debug, PartialEq, Eq, Structural)]
pub struct LabDecision {
    pub primary: Side,
    pub alternate: Option<Side>,
    pub protect_in_advance: bool,
}

pub struct LabClient {
    pub pending: Vec<LabPending>,
    pub sequence: u64,
    pub counters: LabCounters,
    pub last_ack: Option<u64>,
    pub maximum_ack_gap: u64,
    pub maximum_recovery: u64,
}

#[verifier::ext_equal]
pub struct LabClientView {
    pub pending: Seq<LabPending>,
    pub sequence: u64,
    pub counters: LabCounters,
    pub last_ack: Option<u64>,
    pub maximum_ack_gap: u64,
    pub maximum_recovery: u64,
}

impl View for LabClient {
    type V = LabClientView;

    open spec fn view(&self) -> LabClientView {
        LabClientView {
            pending: self.pending@,
            sequence: self.sequence,
            counters: self.counters,
            last_ack: self.last_ack,
            maximum_ack_gap: self.maximum_ack_gap,
            maximum_recovery: self.maximum_recovery,
        }
    }
}

/// The place of a packet from `i` on, or the number of packets.
pub open spec fn packet_slot(pending: Seq<LabPending>, sequence: u64, i: int) -> int
    decreases pending.len() - i,
{
    if i < pending.len() && pending[i].sequence != sequence {
        packet_slot(pending, sequence, i + 1)
    } else {
        i
    }
}

/// Whether a packet is to be repeated on the other path: it is older than its
/// path's limit, and the other path is well and has not had it.
pub open spec fn wants_repair(
    item: LabPending,
    limits: Both<u64>,
    healthy: Both<bool>,
    now: u64,
) -> bool {
    let alternate: Side = item.primary.other();
    now.saturating_sub(item.first_sent) >= limits.on(item.primary) && !item.sent.on(alternate)
        && healthy.on(alternate)
}

/// The repairs among the first `n` packets.
pub open spec fn repairs_among(
    pending: Seq<LabPending>,
    limits: Both<u64>,
    healthy: Both<bool>,
    now: u64,
    n: nat,
) -> Seq<(u64, Side)>
    decreases n,
{
    if n == 0 {
        Seq::empty()
    } else {
        let before: Seq<(u64, Side)> = repairs_among(pending, limits, healthy, now, (n - 1) as nat);
        if wants_repair(pending[n - 1], limits, healthy, now) {
            before.push((pending[n - 1].sequence, pending[n - 1].primary.other()))
        } else {
            before
        }
    }
}

pub open spec fn lab_fresh(item: LabPending, now: u64) -> bool {
    now.saturating_sub(item.first_sent) <= LAB_EXPIRY_US
}

pub open spec fn longest(a: u64, b: u64) -> u64 {
    if a >= b {
        a
    } else {
        b
    }
}

impl LabClientView {
    /// A repair was tried.
    pub open spec fn repaired(self, sequence: u64, side: Side, sent: bool) -> LabClientView {
        let at: int = packet_slot(self.pending, sequence, 0);
        if !sent {
            LabClientView {
                counters: LabCounters {
                    socket_errors: self.counters.socket_errors.wrapping_add(1),
                    ..self.counters
                },
                ..self
            }
        } else {
            LabClientView {
                pending: if at < self.pending.len() {
                    self.pending.update(
                        at,
                        LabPending {
                            sent: self.pending[at].sent.with(side, true),
                            ..self.pending[at]
                        },
                    )
                } else {
                    self.pending
                },
                counters: LabCounters {
                    sent_repair: self.counters.sent_repair.wrapping_add(1),
                    ..self.counters
                },
                ..self
            }
        }
    }

    /// Packets that waited too long are lost.
    pub open spec fn without_expired(self, now: u64) -> LabClientView {
        let left: Seq<LabPending> = self.pending.filter(|p: LabPending| lab_fresh(p, now));
        LabClientView {
            pending: left,
            counters: LabCounters {
                expired: self.counters.expired.wrapping_add(
                    (self.pending.len() - left.len()) as u64,
                ),
                ..self.counters
            },
            ..self
        }
    }

    /// A decision was made.
    pub open spec fn decided(self, decision: LabDecision) -> LabClientView {
        LabClientView {
            counters: if decision.protect_in_advance {
                LabCounters {
                    protect_in_advance_decisions:
                        self.counters.protect_in_advance_decisions.wrapping_add(1),
                    ..self.counters
                }
            } else {
                LabCounters {
                    reactive_repair_decisions:
                        self.counters.reactive_repair_decisions.wrapping_add(1),
                    ..self.counters
                }
            },
            ..self
        }
    }

    /// A copy of a new packet was tried.
    pub open spec fn tried(self, original: bool, sent: bool) -> LabClientView {
        let c: LabCounters = self.counters;
        LabClientView {
            counters: if !sent {
                LabCounters { socket_errors: c.socket_errors.wrapping_add(1), ..c }
            } else if original {
                LabCounters { sent_original: c.sent_original.wrapping_add(1), ..c }
            } else {
                LabCounters { sent_protection: c.sent_protection.wrapping_add(1), ..c }
            },
            ..self
        }
    }

    /// The packet has its number; it waits for its acknowledgement if any copy
    /// of it went out.
    pub open spec fn noted(
        self,
        primary: Side,
        sent: Both<bool>,
        origin_micros: u64,
        now: u64,
    ) -> LabClientView {
        LabClientView {
            pending: if sent.first || sent.second {
                self.pending.push(
                    LabPending {
                        sequence: self.sequence,
                        first_sent: now,
                        origin_micros,
                        primary,
                        sent,
                    },
                )
            } else {
                self.pending
            },
            sequence: self.sequence.wrapping_add(1),
            ..self
        }
    }

    /// A packet is settled by its first acknowledgement.
    pub open spec fn acknowledged(self, sequence: u64, now: u64) -> LabClientView {
        let at: int = packet_slot(self.pending, sequence, 0);
        if at >= self.pending.len() {
            self
        } else {
            LabClientView {
                pending: self.pending.remove(at),
                counters: LabCounters {
                    acknowledged: self.counters.acknowledged.wrapping_add(1),
                    ..self.counters
                },
                last_ack: Some(now),
                maximum_ack_gap: match self.last_ack {
                    Some(last) => longest(self.maximum_ack_gap, now.saturating_sub(last)),
                    None => self.maximum_ack_gap,
                },
                maximum_recovery: longest(
                    self.maximum_recovery,
                    now.saturating_sub(self.pending[at].first_sent),
                ),
                ..self
            }
        }
    }

    /// The packets that were sent and are settled or wait.
    pub open spec fn accounted(self) -> int {
        self.counters.acknowledged + self.counters.expired + self.pending.len()
    }
}

/// Where the copies of a packet go: to its path, and to the other one where
/// the decision or the policy wants it there at once.
pub open spec fn copies(decision: LabDecision, duplicate: bool) -> Seq<Side> {
    if (duplicate || decision.protect_in_advance) && decision.alternate is Some {
        seq![decision.primary, decision.alternate->0]
    } else {
        seq![decision.primary]
    }
}

impl LabClient {
    pub fn new() -> (r: Self)
        ensures
            r@ == (LabClientView {
                pending: seq![],
                sequence: 0,
                counters: no_lab_counters(),
                last_ack: None,
                maximum_ack_gap: 0,
                maximum_recovery: 0,
            }),
    {
        let r: LabClient = LabClient {
            pending: Vec::new(),
            sequence: 0,
            counters: LabCounters {
                sent_original: 0,
                sent_protection: 0,
                sent_repair: 0,
                acknowledged: 0,
                expired: 0,
                socket_errors: 0,
                protect_in_advance_decisions: 0,
                reactive_repair_decisions: 0,
            },
            last_ack: None,
            maximum_ack_gap: 0,
            maximum_recovery: 0,
        };
        assert(r@.pending =~= Seq::empty());
        r
    }

    fn find(&self, sequence: u64) -> (r: usize)
        ensures
            r == packet_slot(self.pending@, sequence, 0),
            r <= self.pending@.len(),
    {
        let mut i: usize = 0;
        while i < self.pending.len()
            invariant
                i <= self.pending@.len(),
                packet_slot(self.pending@, sequence, i as int) == packet_slot(
                    self.pending@,
                    sequence,
                    0,
                ),
            decreases self.pending@.len() - i,
        {
            if self.pending[i].sequence == sequence {
                return i;
            }
            i = i + 1;
        }
        i
    }

    /// The repairs that are due, each with the path that it takes. The limits
    /// are the ages at which the paths' packets are repaired.
    pub fn repairs(&self, limits: Both<u64>, healthy: Both<bool>, now: u64) -> (r: Vec<
        (u64, Side),
    >)
        ensures
            r@ == repairs_among(self@.pending, limits, healthy, now, self@.pending.len()),
    {
        let mut out: Vec<(u64, Side)> = Vec::new();
        let mut i: usize = 0;
        while i < self.pending.len()
            invariant
                i <= self.pending@.len(),
                out@ == repairs_among(self.pending@, limits, healthy, now, i as nat),
            decreases self.pending@.len() - i,
        {
            let item: LabPending = self.pending[i];
            let alternate: Side = item.primary.other();
            if now.saturating_sub(item.first_sent) >= limits.of(item.primary) && !item.sent.of(
                alternate,
            ) && healthy.of(alternate) {
                out.push((item.sequence, alternate));
            }
            i = i + 1;
        }
        out
    }

    /// When a packet that is to be repaired was made.
    pub fn origin(&self, sequence: u64) -> (r: Option<u64>)
        ensures
            ({
                let at: int = packet_slot(self@.pending, sequence, 0);
                r == if at < self@.pending.len() {
                    Some(self@.pending[at].origin_micros)
                } else {
                    None
                }
            }),
    {
        let at: usize = self.find(sequence);
        if at < self.pending.len() {
            Some(self.pending[at].origin_micros)
        } else {
            None
        }
    }

    /// A repair was tried.
    pub fn repair_tried(&mut self, sequence: u64, side: Side, sent: bool)
        ensures
            final(self)@ == old(self)@.repaired(sequence, side, sent),
    {
        if !sent {
            self.counters.socket_errors = self.counters.socket_errors.wrapping_add(1);
            return;
        }
        let at: usize = self.find(sequence);
        if at < self.pending.len() {
            let mut item: LabPending = self.pending[at];
            item.sent = match side {
                Side::First => Both { first: true, second: item.sent.second },
                Side::Second => Both { first: item.sent.first, second: true },
            };
            self.pending.set(at, item);
        }
        self.counters.sent_repair = self.counters.sent_repair.wrapping_add(1);
        assert(self@ =~= old(self)@.repaired(sequence, side, sent));
    }

    /// Gives up the packets that waited too long.
    pub fn expire(&mut self, now: u64)
        ensures
            final(self)@ == old(self)@.without_expired(now),
    {
        let ghost all: Seq<LabPending> = self.pending@;
        let ghost keep = |p: LabPending| lab_fresh(p, now);
        let mut left: Vec<LabPending> = Vec::new();
        let mut i: usize = 0;
        proof {
            reveal(Seq::filter);
            assert(all.take(0).filter(keep) =~= Seq::empty());
        }
        while i < self.pending.len()
            invariant
                i <= self.pending@.len(),
                self.pending@ == all,
                keep == |p: LabPending| lab_fresh(p, now),
                left@ == all.take(i as int).filter(keep),
                left@.len() <= i,
            decreases self.pending@.len() - i,
        {
            proof {
                reveal(Seq::filter);
                assert(all.take(i + 1).drop_last() =~= all.take(i as int));
                assert(all.take(i + 1).last() == all[i as int]);
            }
            if now.saturating_sub(self.pending[i].first_sent) <= LAB_EXPIRY_US {
                left.push(self.pending[i]);
            }
            i = i + 1;
        }
        assert(all.take(i as int) =~= all);
        let lost: u64 = (self.pending.len() - left.len()) as u64;
        self.counters.expired = self.counters.expired.wrapping_add(lost);
        self.pending = left;
        assert(self@ =~= old(self)@.without_expired(now));
    }

    /// Bytes that are on their way, for payloads of a length.
    pub fn exposed(&self, payload: u64) -> (r: u64)
        requires
            self@.pending.len() * (payload + LAB_OVERHEAD) <= u64::MAX,
            payload + LAB_OVERHEAD <= u64::MAX,
        ensures
            r == self@.pending.len() * (payload + LAB_OVERHEAD),
    {
        self.pending.len() as u64 * (payload + LAB_OVERHEAD)
    }

    /// Takes a decision for the next packet. Returns where its copies go.
    pub fn decide(&mut self, decision: LabDecision, duplicate: bool) -> (r: Vec<Side>)
        ensures
            r@ == copies(decision, duplicate),
            final(self)@ == old(self)@.decided(decision),
    {
        if decision.protect_in_advance {
            self.counters.protect_in_advance_decisions =
            self.counters.protect_in_advance_decisions.wrapping_add(1);
        } else {
            self.counters.reactive_repair_decisions =
            self.counters.reactive_repair_decisions.wrapping_add(1);
        }
        let mut sides: Vec<Side> = Vec::new();
        sides.push(decision.primary);
        if duplicate || decision.protect_in_advance {
            match decision.alternate {
                Some(side) => {
                    sides.push(side);
                },
                None => {},
            }
        }
        assert(sides@ =~= copies(decision, duplicate));
        sides
    }

    /// A copy of a new packet was tried.
    pub fn copy_tried(&mut self, original: bool, sent: bool)
        ensures
            final(self)@ == old(self)@.tried(original, sent),
    {
        if !sent {
            self.counters.socket_errors = self.counters.socket_errors.wrapping_add(1);
        } else if original {
            self.counters.sent_original = self.counters.sent_original.wrapping_add(1);
        } else {
            self.counters.sent_protection = self.counters.sent_protection.wrapping_add(1);
        }
    }

    /// The copies of a packet were tried.
    pub fn note(&mut self, primary: Side, sent: Both<bool>, origin_micros: u64, now: u64)
        ensures
            final(self)@ == old(self)@.noted(primary, sent, origin_micros, now),
    {
        if sent.first || sent.second {
            self.pending.push(
                LabPending {
                    sequence: self.sequence,
                    first_sent: now,
                    origin_micros,
                    primary,
                    sent,
                },
            );
        }
        self.sequence = self.sequence.wrapping_add(1);
    }

    /// An acknowledgement came.
    pub fn acknowledge(&mut self, sequence: u64, now: u64)
        ensures
            final(self)@ == old(self)@.acknowledged(sequence, now),
    {
        let at: usize = self.find(sequence);
        if at >= self.pending.len() {
            return;
        }
        let item: LabPending = self.pending.remove(at);
        let recovery: u64 = now.saturating_sub(item.first_sent);
        if recovery > self.maximum_recovery {
            self.maximum_recovery = recovery;
        }
        self.counters.acknowledged = self.counters.acknowledged.wrapping_add(1);
        match self.last_ack {
            Some(last) => {
                let gap: u64 = now.saturating_sub(last);
                if gap > self.maximum_ack_gap {
                    self.maximum_ack_gap = gap;
                }
            },
            None => {},
        }
        self.last_ack = Some(now);
    }

    /// Whether nothing was lost, and no gap was too long.
    pub fn passed(&self) -> (r: bool)
        ensures
            r == (self@.counters.expired == 0 && self@.maximum_ack_gap <= LAB_EXPIRY_US),
    {
        self.counters.expired == 0 && self.maximum_ack_gap <= LAB_EXPIRY_US
    }
}

/// The delay that an answer shows, unless it claims to be to something that is
/// still to be sent.
pub fn answer_delay(echo_micros: u64, elapsed_micros: u64) -> (r: Option<u64>)
    ensures
        r == if elapsed_micros >= echo_micros {
            Some((elapsed_micros - echo_micros) as u64)
        } else {
            None
        },
{
    if elapsed_micros >= echo_micros {
        Some(elapsed_micros - echo_micros)
    } else {
        None
    }
}

/// Every packet that went out is acknowledged, lost or still awaited: repairs
/// and late copies change nothing in that account.
pub proof fn packets_are_accounted_for(s: LabClientView, sequence: u64, side: Side, now: u64)
    requires
        s.counters.acknowledged < u64::MAX,
        s.counters.expired + s.pending.len() <= u64::MAX,
    ensures
        s.acknowledged(sequence, now).accounted() == s.accounted(),
        s.without_expired(now).accounted() == s.accounted(),
        s.repaired(sequence, side, true).accounted() == s.accounted(),
        s.repaired(sequence, side, false).accounted() == s.accounted(),
{
    let keep = |p: LabPending| lab_fresh(p, now);
    lemma_filter_shorter(s.pending, keep);
    lemma_packet_slot(s.pending, sequence, 0);
}

/// A packet that was repaired on a path is not repaired there again.
pub proof fn repair_goes_once(
    s: LabClientView,
    sequence: u64,
    limits: Both<u64>,
    healthy: Both<bool>,
    now: u64,
)
    requires
        packet_slot(s.pending, sequence, 0) < s.pending.len(),
    ensures
        ({
            let at: int = packet_slot(s.pending, sequence, 0);
            let side: Side = s.pending[at].primary.other();
            !wants_repair(s.repaired(sequence, side, true).pending[at], limits, healthy, now)
        }),
{
    lemma_packet_slot(s.pending, sequence, 0);
}

proof fn lemma_packet_slot(pending: Seq<LabPending>, sequence: u64, i: int)
    requires
        0 <= i <= pending.len(),
    ensures
        i <= packet_slot(pending, sequence, i) <= pending.len(),
    decreases pending.len() - i,
{
    if i < pending.len() && pending[i].sequence != sequence {
        lemma_packet_slot(pending, sequence, i + 1);
    }
}

proof fn lemma_filter_shorter(list: Seq<LabPending>, keep: spec_fn(LabPending) -> bool)
    ensures
        list.filter(keep).len() <= list.len(),
    decreases list.len(),
{
    reveal(Seq::filter);
    if list.len() > 0 {
        lemma_filter_shorter(list.drop_last(), keep);
    }
}

// ---- The probe of one path ---------------------------------------------------------------

/// Checks what a probe was asked for.
pub fn check_probe(count: u64, data_packets: u64) -> (r: Result<(), LabFault>)
    ensures
        r == if !(1 <= count <= 100) {
            Err(LabFault::Count)
        } else if !(1 <= data_packets <= 10_000) {
            Err(LabFault::DataPackets)
        } else {
            Ok(())
        },
{
    if count < 1 || count > 100 {
        return Err(LabFault::Count);
    }
    if data_packets < 1 || data_packets > 10_000 {
        return Err(LabFault::DataPackets);
    }
    Ok(())
}

/// Whether a message is the answer that is awaited.
pub fn is_awaited(message: &LabMessage, kind: LabKind, sequence: u64) -> (r: bool)
    ensures
        r == (message@.kind == kind && message@.sequence == sequence),
{
    message.kind == kind && message.sequence == sequence
}

pub open spec fn least_of(samples: Seq<Binary64>, n: nat) -> Binary64
    decreases n,
{
    if n <= 1 {
        samples[0]
    } else {
        least_of(samples, (n - 1) as nat).min(samples[n - 1])
    }
}

pub open spec fn greatest_of(samples: Seq<Binary64>, n: nat) -> Binary64
    decreases n,
{
    if n <= 1 {
        samples[0]
    } else {
        greatest_of(samples, (n - 1) as nat).max(samples[n - 1])
    }
}

pub open spec fn sum_of(samples: Seq<Binary64>, n: nat) -> Binary64
    decreases n,
{
    if n == 0 {
        Binary64::whole(0)
    } else {
        sum_of(samples, (n - 1) as nat).plus(samples[n - 1])
    }
}

/// The least, the mean and the greatest of some samples.
pub fn distribution(samples: &[Binary64]) -> (r: Option<(Binary64, Binary64, Binary64)>)
    ensures
        r == if samples@.len() == 0 {
            None
        } else {
            Some(
                (
                    least_of(samples@, samples@.len()),
                    sum_of(samples@, samples@.len()).over(Binary64::whole(samples@.len() as u64)),
                    greatest_of(samples@, samples@.len()),
                ),
            )
        },
{
    if samples.len() == 0 {
        return None;
    }
    let mut least: Binary64 = samples[0];
    let mut greatest: Binary64 = samples[0];
    let mut sum: Binary64 = Binary64::whole(0).plus(samples[0]);
    let mut i: usize = 1;
    proof {
        reveal_with_fuel(sum_of, 2);
    }
    while i < samples.len()
        invariant
            1 <= i <= samples@.len(),
            least == least_of(samples@, i as nat),
            greatest == greatest_of(samples@, i as nat),
            sum == sum_of(samples@, i as nat),
        decreases samples@.len() - i,
    {
        least = least.min(samples[i]);
        greatest = greatest.max(samples[i]);
        sum = sum.plus(samples[i]);
        i = i + 1;
    }
    Some((least, sum.over(Binary64::whole(samples.len() as u64)), greatest))
}

} // verus!
