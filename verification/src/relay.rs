//! The relay of bonds: its clients, their paths, and what it does with each
//! datagram and each packet.
use crate::admission;
use crate::admission::{QueueClosed, Room, BOND_NETWORK};
use crate::bond;
use crate::bond::{BondError, Policy, Scheduler, SchedulerView};
use crate::egress::Endpoint;
use crate::frame;
use crate::frame::{AckBatcher, Frame, FrameView, Kind, MAX_PATHS};
use crate::greeting;
use crate::greeting::Welcome;
use crate::noise;
use crate::path;
use crate::socks;
use crate::tunnel;
use crate::tunnel::{Header, HeaderView, Transport, TransportView, TunnelError, HELLO, IP};
use crate::wire;
use snow::HandshakeState;
use vstd::prelude::*;
use vstd::string::*;

verus! {

/// A client that was silent for so long is forgotten.
pub const CLIENT_SILENCE_MS: u64 = 120_000;

/// The name of a path at the relay.
pub open spec fn path_name(n: nat) -> Seq<char> {
    "path"@ + socks::decimal(n)
}

pub fn path_label(n: u8) -> (r: String)
    ensures
        r@ == path_name(n as nat),
{
    let mut out: String = "path".to_string();
    socks::append_octet(&mut out, n);
    out
}

/// Paths have different names.
proof fn lemma_path_names(a: nat, b: nat)
    requires
        a <= 255,
        b <= 255,
        path_name(a) == path_name(b),
    ensures
        a == b,
{
    socks::lemma_decimal(a);
    socks::lemma_decimal(b);
    let x: Seq<char> = path_name(a);
    assert(x.skip("path"@.len() as int) =~= socks::decimal(a));
    assert(x.skip("path"@.len() as int) =~= socks::decimal(b));
}

/// Where a name of numbered paths stands.
proof fn lemma_named_slot(names: Seq<Seq<char>>, n: nat, i: int)
    requires
        names.len() <= MAX_PATHS,
        n <= 255,
        0 <= i <= n,
        i <= names.len(),
        forall|k: int| 0 <= k < names.len() ==> #[trigger] names[k] == path_name(k as nat),
    ensures
        bond::name_slot(names, path_name(n), i) == if n < names.len() {
            n as int
        } else {
            names.len() as int
        },
    decreases names.len() - i,
{
    if i < names.len() {
        if names[i] == path_name(n) {
            lemma_path_names(i as nat, n);
        } else {
            lemma_named_slot(names, n, i + 1);
        }
    }
}

/// A client.
pub struct RelayPeer {
    pub session: [u8; 16],
    pub transport: Transport,
    pub assigned: [u8; 4],
    /// Where each path was last heard from.
    pub addresses: Vec<Option<Endpoint>>,
    pub scheduler: Scheduler,
    pub hello: Vec<u8>,
    pub welcome: Vec<u8>,
    pub last_seen: u64,
    pub ack_batching: bool,
    pub acks: AckBatcher,
}

#[verifier::ext_equal]
pub struct RelayPeerView {
    pub session: Seq<u8>,
    pub transport: TransportView,
    pub assigned: [u8; 4],
    pub addresses: Seq<Option<Endpoint>>,
    pub scheduler: SchedulerView,
    pub hello: Seq<u8>,
    pub welcome: Seq<u8>,
    pub last_seen: u64,
    pub ack_batching: bool,
    pub acks: spec_fn(u8) -> Seq<FrameView>,
}

impl View for RelayPeer {
    type V = RelayPeerView;

    open spec fn view(&self) -> RelayPeerView {
        RelayPeerView {
            session: self.session@,
            transport: self.transport@,
            assigned: self.assigned,
            addresses: self.addresses@,
            scheduler: self.scheduler@,
            hello: self.hello@,
            welcome: self.welcome@,
            last_seen: self.last_seen,
            ack_batching: self.ack_batching,
            acks: self.acks@,
        }
    }
}

/// A scheduler with one more path, which is not in use yet.
pub open spec fn with_idle_path(s: SchedulerView, name: Seq<char>) -> SchedulerView {
    (SchedulerView {
        paths: s.paths.push(path::fresh_path(s.n() as u8, false)),
        names: s.names.push(name),
        notices: s.notices.push(false),
        ..s
    }).path_removed(s.n() as int)
}

impl RelayPeerView {
    /// Every path has a number for a name, and an address or none.
    pub open spec fn wf(self) -> bool {
        &&& self.scheduler.wf()
        &&& self.addresses.len() == self.scheduler.n()
        &&& forall|i: int|
            0 <= i < self.scheduler.names.len() ==> #[trigger] self.scheduler.names[i] == path_name(
                i as nat,
            )
        &&& self.transport.session == self.session
    }

    /// With paths up to a number, the new ones not in use yet.
    pub open spec fn grown(self, index: int) -> RelayPeerView
        decreases index + 1 - self.addresses.len(),
    {
        if self.addresses.len() <= index {
            (RelayPeerView {
                scheduler: with_idle_path(self.scheduler, path_name(self.addresses.len())),
                addresses: self.addresses.push(None),
                ..self
            }).grown(index)
        } else {
            self
        }
    }

    /// After a path joined: it is in use, at the address that the join came
    /// from, under the policy that it names.
    pub open spec fn joined(self, index: int, id: u64, from: Endpoint) -> RelayPeerView {
        let big: RelayPeerView = self.grown(index);
        let s: SchedulerView = big.scheduler;
        RelayPeerView {
            scheduler: SchedulerView {
                paths: s.paths.update(
                    index,
                    bond::readmitted(s.paths[index], admission::joins_metered(id)),
                ),
                notices: s.notices.update(index, false),
                policy: admission::number_policy(id),
                ..s
            },
            ack_batching: admission::joins_batching(id),
            addresses: big.addresses.update(index, Some(from)),
            ..big
        }
    }

    pub open spec fn heard_at(self, index: int, from: Endpoint) -> bool {
        index < self.addresses.len() && self.addresses[index] == Some(from)
    }

    /// A frame to be sent, after acknowledgements were gathered.
    pub open spec fn batched(self, f: FrameView) -> (RelayPeerView, Option<FrameView>) {
        if !self.ack_batching || f.kind != Kind::Ack {
            (self, Some(f))
        } else {
            let waiting: Seq<FrameView> = (self.acks)(f.path).push(f);
            if waiting.len() >= frame::BATCH_SIZE {
                (
                    RelayPeerView {
                        acks: frame::with_lane(self.acks, f.path, Seq::empty()),
                        ..self
                    },
                    Some(frame::spec_batch(waiting)),
                )
            } else {
                (
                    RelayPeerView { acks: frame::with_lane(self.acks, f.path, waiting), ..self },
                    None,
                )
            }
        }
    }

    /// The datagram for a frame, and where it goes.
    pub open spec fn sends(self, f: FrameView) -> (
        RelayPeerView,
        Result<Option<(u8, Seq<u8>, Endpoint)>, TunnelError>,
    ) {
        let (p, out) = self.batched(f);
        match out {
            None => (p, Ok(None)),
            Some(g) => if g.path < p.addresses.len() && p.addresses[g.path as int] is Some {
                (
                    RelayPeerView {
                        transport: p.transport.after_seal(IP, g.encoded()),
                        ..p
                    },
                    match p.transport.sealed(IP, g.encoded()) {
                        Ok(message) => Ok(
                            Some((g.path, message, p.addresses[g.path as int]->0)),
                        ),
                        Err(error) => Err(error),
                    },
                )
            } else {
                (p, Ok(None))
            },
        }
    }
}

pub proof fn lemma_grown(p: RelayPeerView, index: int)
    requires
        p.wf(),
        0 <= index < MAX_PATHS,
    ensures
        p.grown(index).wf(),
        p.grown(index).addresses.len() == if p.addresses.len() > index {
            p.addresses.len() as int
        } else {
            index + 1
        },
        p.grown(index) == (RelayPeerView {
            scheduler: p.grown(index).scheduler,
            addresses: p.grown(index).addresses,
            ..p
        }),
    decreases index + 1 - p.addresses.len(),
{
    if p.addresses.len() <= index {
        let next: RelayPeerView = RelayPeerView {
            scheduler: with_idle_path(p.scheduler, path_name(p.addresses.len())),
            addresses: p.addresses.push(None),
            ..p
        };
        assert(next.scheduler.names =~= p.scheduler.names.push(path_name(p.addresses.len())));
        lemma_grown(next, index);
    }
}

impl RelayPeer {
    pub open spec fn wf(&self) -> bool {
        &&& self@.wf()
        &&& self.scheduler.wf()
        &&& self.transport.wf()
        &&& self.acks.wf()
    }

    /// Adds the path after the last, not in use.
    fn grow(&mut self)
        requires
            old(self).wf(),
            old(self).addresses@.len() < MAX_PATHS,
        ensures
            final(self).wf(),
            final(self)@ == (RelayPeerView {
                scheduler: with_idle_path(
                    old(self)@.scheduler,
                    path_name(old(self)@.addresses.len()),
                ),
                addresses: old(self)@.addresses.push(None),
                ..old(self)@
            }),
    {
        let n: usize = self.addresses.len();
        let name: String = path_label(n as u8);
        proof {
            lemma_named_slot(self@.scheduler.names, n as nat, 0);
        }
        let ghost s: SchedulerView = self@.scheduler;
        let added: Result<usize, BondError> = self.scheduler.add_path(name, false);
        assert(added == Ok::<usize, BondError>(n));
        self.scheduler.remove_path(n);
        self.addresses.push(None);
        proof {
            let target: RelayPeerView = RelayPeerView {
                scheduler: with_idle_path(s, path_name(n as nat)),
                addresses: old(self)@.addresses.push(None),
                ..old(self)@
            };
            assert(self@ =~= target);
            assert(self@.scheduler.names =~= s.names.push(path_name(n as nat)));
        }
    }

    fn join(&mut self, path: u8, id: u64, from: Endpoint)
        requires
            old(self).wf(),
        ensures
            final(self).wf(),
            final(self)@ == old(self)@.joined(path as int, id, from),
    {
        let index: usize = path as usize;
        let ghost first: RelayPeerView = self@;
        proof {
            lemma_grown(first, index as int);
        }
        while self.addresses.len() <= index
            invariant
                self.wf(),
                index < MAX_PATHS,
                self@.grown(index as int) == first.grown(index as int),
            decreases index + 1 - self.addresses@.len(),
        {
            self.grow();
        }
        assert(self@ == first.grown(index as int));
        let ghost big: RelayPeerView = self@;
        proof {
            lemma_named_slot(big.scheduler.names, index as nat, 0);
        }
        let added: Result<usize, BondError> = self.scheduler.add_path(
            path_label(path),
            admission::joins_metered(id),
        );
        assert(added == Ok::<usize, BondError>(index));
        self.scheduler.policy = admission::number_policy(id);
        self.ack_batching = admission::joins_batching(id);
        self.addresses.set(index, Some(from));
        assert(self@ =~= first.joined(index as int, id, from));
    }

    /// The frames of a turn: the acknowledgements that were gathered, and what
    /// the scheduler sends.
    pub fn turn(&mut self, now: u64) -> (r: Vec<Frame>)
        requires
            old(self).wf(),
        ensures
            final(self).wf(),
            frame::frame_views(r@) == frame::batches_below(old(self)@.acks, MAX_PATHS as nat) + old(
                self,
            )@.scheduler.ticked(now).1,
            forall|path: u8| (#[trigger] (final(self)@.acks)(path)).len() == 0,
            final(self)@ == (RelayPeerView {
                scheduler: old(self)@.scheduler.ticked(now).0,
                acks: final(self)@.acks,
                ..old(self)@
            }),
    {
        let mut frames: Vec<Frame> = self.acks.drain();
        let mut more: Vec<Frame> = self.scheduler.tick(now);
        let ghost a: Seq<Frame> = frames@;
        let ghost b: Seq<Frame> = more@;
        frames.append(&mut more);
        assert(frames@ =~= a + b);
        assert(frame::frame_views(frames@) =~= frame::frame_views(a) + frame::frame_views(b));
        assert(self@ =~= RelayPeerView {
            scheduler: old(self)@.scheduler.ticked(now).0,
            acks: self@.acks,
            ..old(self)@
        });
        frames
    }

    /// The datagram for a frame, with its path and where to send it. None
    /// where the frame waits in a batch, or its path has no address.
    pub fn outgoing(&mut self, frame: Frame) -> (r: Result<
        Option<(u8, Vec<u8>, Endpoint)>,
        TunnelError,
    >)
        requires
            old(self).wf(),
        ensures
            final(self).wf(),
            final(self)@ =~= old(self)@.sends(frame@).0,
            match (r, old(self)@.sends(frame@).1) {
                (Ok(Some((path, message, to))), Ok(Some((index, want, at)))) => path == index
                    && message@ == want && to == at,
                (Ok(None), Ok(None)) => true,
                (Err(error), Err(want)) => error == want,
                _ => false,
            },
    {
        let frame: Frame = if self.ack_batching {
            match self.acks.push(frame) {
                Some(frame) => frame,
                None => {
                    return Ok(None);
                },
            }
        } else {
            frame
        };
        let index: usize = frame.path as usize;
        if index >= self.addresses.len() {
            return Ok(None);
        }
        match self.addresses[index] {
            None => Ok(None),
            Some(to) => {
                let bytes: Vec<u8> = frame.encode();
                match self.transport.seal(IP, bytes.as_slice()) {
                    Ok(message) => Ok(Some((frame.path, message, to))),
                    Err(error) => Err(error),
                }
            },
        }
    }

    /// A datagram was not sent. A full buffer passes; anything else means that
    /// the path failed.
    pub fn send_failed(&mut self, path: u8, would_block: bool)
        requires
            old(self).wf(),
        ensures
            final(self).wf(),
            final(self)@ == (RelayPeerView {
                scheduler: if would_block {
                    old(self)@.scheduler.with_socket_backpressure()
                } else {
                    old(self)@.scheduler.path_failed(path as int, true)
                },
                ..old(self)@
            }),
    {
        if would_block {
            self.scheduler.counters.socket_backpressure =
            self.scheduler.counters.socket_backpressure.wrapping_add(1);
            assert(self@.scheduler =~= old(self)@.scheduler.with_socket_backpressure());
        } else {
            self.scheduler.fail_path(path as usize);
        }
    }
}

/// What came of a datagram of a client.
#[derive(Debug)]
pub enum Taken {
    Nothing,
    /// The client left.
    Left,
    /// The queue before the system is gone.
    NoQueue,
    /// A packet for the system, if any, and frames to answer with.
    Frames(Option<Vec<u8>>, Vec<Frame>),
}

#[verifier::ext_equal]
pub enum TakenView {
    Nothing,
    Left,
    NoQueue,
    Frames(Option<Seq<u8>>, Seq<FrameView>),
}

impl View for Taken {
    type V = TakenView;

    open spec fn view(&self) -> TakenView {
        match *self {
            Taken::Nothing => TakenView::Nothing,
            Taken::Left => TakenView::Left,
            Taken::NoQueue => TakenView::NoQueue,
            Taken::Frames(packet, frames) => TakenView::Frames(
                match packet {
                    Some(packet) => Some(packet@),
                    None => None,
                },
                frame::frame_views(frames@),
            ),
        }
    }
}

/// Answers to a join, for who understands batches.
pub open spec fn as_join_acks(frames: Seq<FrameView>) -> Seq<FrameView> {
    frames.map_values(|f: FrameView| FrameView { kind: Kind::JoinAck, ..f })
}

impl RelayPeerView {
    /// Whether a packet of the client may go where it wants.
    pub open spec fn lets_out(self, f: FrameView) -> bool {
        f.kind != Kind::Data || (tunnel::ipv4_fault(f.body, Some(self.assigned), None) is None
            && admission::destination_open(f.body))
    }

    /// What a frame leads to, once it is known where it came from.
    pub open spec fn accepts(self, f: FrameView, room: Room, now: u64) -> (
        RelayPeerView,
        TakenView,
    ) {
        let seen: RelayPeerView = RelayPeerView { last_seen: now, ..self };
        if f.kind == Kind::Close {
            (seen, TakenView::Left)
        } else if !self.lets_out(f) {
            (seen, TakenView::Nothing)
        } else {
            match self.scheduler.let_in(f, room, now) {
                Err(_) => (seen, TakenView::NoQueue),
                Ok((s, packet, answers)) => (
                    RelayPeerView { scheduler: s, ..seen },
                    TakenView::Frames(
                        packet,
                        if f.kind == Kind::Join && self.ack_batching {
                            as_join_acks(answers)
                        } else {
                            answers
                        },
                    ),
                ),
            }
        }
    }

    /// What a datagram of the client leads to. Only a join may come from an
    /// address that is not the path's.
    #[verifier::opaque]
    pub open spec fn takes(self, packet: Seq<u8>, from: Endpoint, room: Room, now: u64) -> (
        RelayPeerView,
        TakenView,
    ) {
        match self.transport.opened(packet) {
            Err(_) => (self, TakenView::Nothing),
            Ok((kind, body)) => {
                let p: RelayPeerView = RelayPeerView {
                    transport: self.transport.after_open(packet),
                    ..self
                };
                if kind != IP {
                    (p, TakenView::Nothing)
                } else {
                    match frame::spec_decode(body) {
                        Err(_) => (p, TakenView::Nothing),
                        Ok(f) => if f.kind == Kind::Join {
                            p.joined(f.path as int, f.id, from).accepts(f, room, now)
                        } else if p.heard_at(f.path as int, from) {
                            p.accepts(f, room, now)
                        } else {
                            (p, TakenView::Nothing)
                        },
                    }
                }
            },
        }
    }
}

fn mark_join_acks(frames: &mut Vec<Frame>)
    ensures
        frame::frame_views(final(frames)@) == as_join_acks(frame::frame_views(old(frames)@)),
{
    let mut i: usize = 0;
    let ghost first: Seq<FrameView> = frame::frame_views(frames@);
    while i < frames.len()
        invariant
            i <= frames@.len(),
            frames@.len() == first.len(),
            forall|j: int|
                0 <= j < frames@.len() ==> #[trigger] frames@[j]@ == if j < i {
                    FrameView { kind: Kind::JoinAck, ..first[j] }
                } else {
                    first[j]
                },
        decreases frames@.len() - i,
    {
        let ghost before: Seq<Frame> = frames@;
        assert(frames@[i as int]@ == first[i as int]);
        frames[i].kind = Kind::JoinAck;
        assert forall|j: int| 0 <= j < frames@.len() implies #[trigger] frames@[j]@ == if j < i + 1 {
            FrameView { kind: Kind::JoinAck, ..first[j] }
        } else {
            first[j]
        } by {
            if j != i {
                assert(frames@[j] == before[j]);
            }
        }
        i = i + 1;
    }
    assert(frame::frame_views(frames@) =~= as_join_acks(first));
}

impl RelayPeer {
    fn accept(&mut self, f: &Frame, room: Room, now: u64) -> (r: Taken)
        requires
            old(self).wf(),
        ensures
            final(self).wf(),
            final(self)@ == old(self)@.accepts(f@, room, now).0,
            r@ == old(self)@.accepts(f@, room, now).1,
    {
        self.last_seen = now;
        let ghost seen: RelayPeerView = self@;
        if f.kind == Kind::Close {
            return Taken::Left;
        }
        if f.kind == Kind::Data {
            let fits: bool = match tunnel::validate_ipv4(
                f.body.as_slice(),
                Some(self.assigned),
                None,
            ) {
                Ok(()) => admission::destination_allowed(f.body.as_slice()),
                Err(_error) => false,
            };
            if !fits {
                return Taken::Nothing;
            }
        }
        match admission::receive_to_writer(&mut self.scheduler, f, room, now) {
            Err(_closed) => {
                assert(self@ =~= seen);
                Taken::NoQueue
            },
            Ok((packet, mut answers)) => {
                if f.kind == Kind::Join && self.ack_batching {
                    mark_join_acks(&mut answers);
                }
                assert(self@ =~= old(self)@.accepts(f@, room, now).0);
                Taken::Frames(packet, answers)
            },
        }
    }

    fn take(&mut self, packet: &[u8], from: Endpoint, room: Room, now: u64) -> (r: Taken)
        requires
            old(self).wf(),
        ensures
            final(self).wf(),
            final(self)@ == old(self)@.takes(packet@, from, room, now).0,
            r@ == old(self)@.takes(packet@, from, room, now).1,
    {
        proof {
            reveal(RelayPeerView::takes);
        }
        let opened: Result<(u8, Vec<u8>), TunnelError> = self.transport.open(packet);
        let ghost p: RelayPeerView = RelayPeerView {
            transport: old(self)@.transport.after_open(packet@),
            ..old(self)@
        };
        assert(self@ =~= p);
        let (kind, body) = match opened {
            Ok(found) => found,
            Err(_error) => {
                assert(self@ =~= old(self)@);
                return Taken::Nothing;
            },
        };
        if kind != IP {
            return Taken::Nothing;
        }
        let f: Frame = match Frame::decode(body.as_slice()) {
            Ok(f) => f,
            Err(_error) => {
                return Taken::Nothing;
            },
        };
        if f.kind == Kind::Join {
            self.join(f.path, f.id, from);
        } else {
            let index: usize = f.path as usize;
            let known: bool = index < self.addresses.len() && match self.addresses[index] {
                Some(at) => at == from,
                None => false,
            };
            if !known {
                return Taken::Nothing;
            }
        }
        self.accept(&f, room, now)
    }
}

pub open spec fn relay_views(peers: Seq<RelayPeer>) -> Seq<RelayPeerView> {
    peers.map_values(|p: RelayPeer| p@)
}

pub struct Relay {
    pub peers: Vec<RelayPeer>,
    pub max_clients: usize,
    pub secret: [u8; 32],
}

#[verifier::ext_equal]
pub struct RelayView {
    pub peers: Seq<RelayPeerView>,
    pub max_clients: usize,
    pub secret: Seq<u8>,
}

impl View for Relay {
    type V = RelayView;

    open spec fn view(&self) -> RelayView {
        RelayView {
            peers: relay_views(self.peers@),
            max_clients: self.max_clients,
            secret: self.secret@,
        }
    }
}

/// What the relay does with a datagram.
#[derive(Debug)]
pub enum RelayStep {
    Ignore,
    /// Send back to where it came from.
    Answer(Vec<u8>),
    /// A new client: send it the welcome, which grants it the address.
    Welcome(Vec<u8>, [u8; 4]),
    /// The client left.
    Closed,
    /// Of the client of this number: a packet for the system, if any, and
    /// frames to answer with.
    Passed(usize, Option<Vec<u8>>, Vec<Frame>),
}

#[verifier::ext_equal]
pub enum RelayStepView {
    Ignore,
    Answer(Seq<u8>),
    Welcome(Seq<u8>, [u8; 4]),
    Closed,
    Passed(int, Option<Seq<u8>>, Seq<FrameView>),
}

impl View for RelayStep {
    type V = RelayStepView;

    open spec fn view(&self) -> RelayStepView {
        match *self {
            RelayStep::Ignore => RelayStepView::Ignore,
            RelayStep::Answer(bytes) => RelayStepView::Answer(bytes@),
            RelayStep::Welcome(bytes, ip) => RelayStepView::Welcome(bytes@, ip),
            RelayStep::Closed => RelayStepView::Closed,
            RelayStep::Passed(i, packet, frames) => RelayStepView::Passed(
                i as int,
                match packet {
                    Some(packet) => Some(packet@),
                    None => None,
                },
                frame::frame_views(frames@),
            ),
        }
    }
}

/// Why the relay cannot go on.
#[derive(Clone, Copy, Debug, PartialEq, Eq, Structural)]
pub enum RelayError {
    Tunnel(TunnelError),
    Queue,
}

impl RelayError {
    pub open spec fn text(self) -> Seq<char> {
        match self {
            RelayError::Tunnel(error) => error.text(),
            RelayError::Queue => "tunnel admission queue closed"@,
        }
    }

    pub fn message(self) -> (r: &'static str)
        ensures
            r@ == self.text(),
    {
        match self {
            RelayError::Tunnel(error) => error.message(),
            RelayError::Queue => QueueClosed {  }.message(),
        }
    }
}

/// The first client of a session, from `i` on, or the number of clients.
pub open spec fn client_of(peers: Seq<RelayPeerView>, session: Seq<u8>, i: int) -> int
    decreases peers.len() - i,
{
    if i < peers.len() && peers[i].session != session {
        client_of(peers, session, i + 1)
    } else {
        i
    }
}

/// The first client that holds an address, from `i` on, or the number of
/// clients.
pub open spec fn holder_of(peers: Seq<RelayPeerView>, ip: Seq<u8>, i: int) -> int
    decreases peers.len() - i,
{
    if i < peers.len() && peers[i].assigned@ != ip {
        holder_of(peers, ip, i + 1)
    } else {
        i
    }
}

pub open spec fn leases(peers: Seq<RelayPeerView>) -> Seq<[u8; 4]> {
    peers.map_values(|p: RelayPeerView| p.assigned)
}

pub open spec fn awake(p: RelayPeerView, now: u64) -> bool {
    now.saturating_sub(p.last_seen) < CLIENT_SILENCE_MS
}

/// The scheduler of a client that has not joined with any path.
pub open spec fn first_scheduler() -> SchedulerView {
    bond::initial(seq![("path0"@, false)], Policy::Smart).path_removed(0)
}

impl RelayView {
    /// No two clients share a session or an address, and every address is one
    /// that clients are granted.
    pub open spec fn wf(self) -> bool {
        &&& forall|i: int|
            0 <= i < self.peers.len() ==> (#[trigger] self.peers[i]).wf() && greeting::grantable(
                BOND_NETWORK,
                self.peers[i].assigned@,
            )
        &&& forall|i: int, j: int|
            0 <= i < j < self.peers.len() ==> (#[trigger] self.peers[i]).session != (
            #[trigger] self.peers[j]).session && self.peers[i].assigned@ != self.peers[j].assigned@
    }

    pub open spec fn without_silent(self, now: u64) -> RelayView {
        RelayView { peers: self.peers.filter(|p: RelayPeerView| awake(p, now)), ..self }
    }

    /// What a datagram that is no hello leads to.
    pub open spec fn passed(
        self,
        header: HeaderView,
        packet: Seq<u8>,
        from: Endpoint,
        room: Room,
        now: u64,
    ) -> (RelayView, Result<RelayStepView, RelayError>) {
        let i: int = client_of(self.peers, header.session, 0);
        if i >= self.peers.len() {
            (self, Ok(RelayStepView::Ignore))
        } else {
            let (p, taken) = self.peers[i].takes(packet, from, room, now);
            let here: RelayView = RelayView { peers: self.peers.update(i, p), ..self };
            match taken {
                TakenView::Nothing => (here, Ok(RelayStepView::Ignore)),
                TakenView::Left => (
                    RelayView { peers: self.peers.remove(i), ..self },
                    Ok(RelayStepView::Closed),
                ),
                TakenView::NoQueue => (here, Err(RelayError::Queue)),
                TakenView::Frames(delivery, answers) => (
                    here,
                    Ok(RelayStepView::Passed(i, delivery, answers)),
                ),
            }
        }
    }

    /// The keys of a session: the client's to send and to receive.
    pub open spec fn keys_of(self, session: Seq<u8>, hello: Seq<u8>, welcome: Seq<u8>) -> (
        Seq<u8>,
        Seq<u8>,
    ) {
        noise::session_keys(
            self.secret,
            bond::prologue(session),
            seq![greeting::body_of(hello), greeting::body_of(welcome)],
        )
    }

    /// Whether a client is the one that was just welcomed: it has no path yet.
    pub open spec fn is_newcomer(
        self,
        p: RelayPeerView,
        session: Seq<u8>,
        assigned: [u8; 4],
        hello: Seq<u8>,
        welcome: Seq<u8>,
        now: u64,
    ) -> bool {
        &&& p.session == session
        &&& p.transport == tunnel::fresh_transport(
            session,
            noise::own_keys(false, self.keys_of(session, hello, welcome)),
            bond::MAX_FRAME as nat,
        )
        &&& p.assigned == assigned
        &&& p.addresses == seq![None::<Endpoint>]
        &&& p.scheduler == first_scheduler()
        &&& p.hello == hello
        &&& p.welcome == welcome
        &&& p.last_seen == now
        &&& !p.ack_batching
        &&& forall|path: u8| (#[trigger] (p.acks)(path)).len() == 0
    }

    /// A client is taken in, unless no fresh key could be made. The welcome has
    /// its address for who sent the hello.
    pub open spec fn welcomes(
        self,
        header: HeaderView,
        packet: Seq<u8>,
        now: u64,
        last: u8,
        after: RelayView,
        r: Result<RelayStepView, RelayError>,
    ) -> bool {
        match r {
            Ok(step) => match step {
                RelayStepView::Welcome(welcome, assigned) => {
                    &&& assigned@ == seq![10u8, 78, 0, last]
                    &&& greeting::is_greeting(welcome, tunnel::WELCOME, header.session)
                    &&& after.peers.len() == self.peers.len() + 1
                    &&& after == (RelayView { peers: self.peers.push(after.peers.last()), ..self })
                    &&& noise::handshake_reads(
                        self.secret,
                        bond::prologue(header.session),
                        seq![greeting::body_of(packet)],
                        greeting::body_of(welcome),
                    ) == Some(assigned@)
                    &&& self.is_newcomer(
                        after.peers.last(),
                        header.session,
                        assigned,
                        packet,
                        welcome,
                        now,
                    )
                },
                _ => false,
            },
            Err(error) => error == RelayError::Tunnel(TunnelError::Noise) && after == self,
        }
    }

    /// What a hello may lead to. One that is repeated gets the same welcome
    /// again, from wherever it comes. Otherwise, while there is room for more
    /// clients, a free address is granted to who proves to know the secret.
    pub open spec fn greets(
        self,
        header: HeaderView,
        packet: Seq<u8>,
        now: u64,
        after: RelayView,
        r: Result<RelayStepView, RelayError>,
    ) -> bool {
        let i: int = client_of(self.peers, header.session, 0);
        if i < self.peers.len() {
            after == self && r == Ok::<RelayStepView, RelayError>(
                if self.peers[i].hello == packet {
                    RelayStepView::Answer(self.peers[i].welcome)
                } else {
                    RelayStepView::Ignore
                },
            )
        } else if self.peers.len() >= self.max_clients {
            after == self && r == Ok::<RelayStepView, RelayError>(RelayStepView::Ignore)
        } else {
            match tunnel::free_from(leases(self.peers), BOND_NETWORK, 2) {
                None => after == self && r == Ok::<RelayStepView, RelayError>(
                    RelayStepView::Ignore,
                ),
                Some(last) => match noise::handshake_reads(
                    self.secret,
                    bond::prologue(header.session),
                    seq![],
                    greeting::body_of(packet),
                ) {
                    None => after == self && r == Ok::<RelayStepView, RelayError>(
                        RelayStepView::Ignore,
                    ),
                    Some(_) => self.welcomes(header, packet, now, last, after, r),
                },
            }
        }
    }

    /// A packet of the system goes to the scheduler of the client that holds
    /// its destination.
    pub open spec fn forwarded(self, packet: Seq<u8>) -> RelayView {
        if tunnel::ipv4_fault(packet, None, None) is Some {
            self
        } else {
            let i: int = holder_of(self.peers, packet.subrange(16, 20), 0);
            if i >= self.peers.len() {
                self
            } else {
                RelayView {
                    peers: self.peers.update(
                        i,
                        RelayPeerView {
                            scheduler: self.peers[i].scheduler.enqueued(packet),
                            ..self.peers[i]
                        },
                    ),
                    ..self
                }
            }
        }
    }
}

/// Whoever holds the secret and is welcomed can talk: from the welcome they read
/// the address that they were granted, and the keys that they then have are
/// the relay's, the other way round.
pub proof fn welcomed_client_is_understood(
    s: RelayView,
    header: HeaderView,
    hello: Seq<u8>,
    now: u64,
    last: u8,
    after: RelayView,
    welcome: Seq<u8>,
    assigned: [u8; 4],
)
    requires
        s.welcomes(header, hello, now, last, after, Ok(RelayStepView::Welcome(welcome, assigned))),
        2 <= last <= 254,
    ensures
        ({
            let read: Option<Seq<u8>> = noise::handshake_reads(
                s.secret,
                bond::prologue(header.session),
                seq![greeting::body_of(hello)],
                greeting::body_of(welcome),
            );
            let client: TransportView = tunnel::fresh_transport(
                header.session,
                noise::own_keys(true, s.keys_of(header.session, hello, welcome)),
                bond::MAX_FRAME as nat,
            );
            let relay: TransportView = after.peers.last().transport;
            &&& greeting::welcome_read(header.session, welcome, read, BOND_NETWORK)
                == Welcome::Lease(10, 78, 0, last)
            &&& relay.session == client.session
            &&& relay.receiving == client.sending && client.receiving == relay.sending
            &&& relay.refused == Set::<u64>::empty() && client.refused == Set::<u64>::empty()
            &&& relay.max_payload == client.max_payload
        }),
{
}

pub proof fn lemma_client_of(peers: Seq<RelayPeerView>, session: Seq<u8>, i: int)
    requires
        0 <= i <= peers.len(),
    ensures
        i <= client_of(peers, session, i) <= peers.len(),
        client_of(peers, session, i) < peers.len() ==> peers[client_of(peers, session, i)].session
            == session,
        forall|j: int|
            i <= j < client_of(peers, session, i) ==> (#[trigger] peers[j]).session != session,
    decreases peers.len() - i,
{
    if i < peers.len() && peers[i].session != session {
        lemma_client_of(peers, session, i + 1);
    }
}

/// What a client's datagram leaves as it was.
proof fn lemma_takes_keeps(p: RelayPeerView, packet: Seq<u8>, from: Endpoint, room: Room, now: u64)
    requires
        p.wf(),
    ensures
        ({
            let after: RelayPeerView = p.takes(packet, from, room, now).0;
            after.session == p.session && after.assigned == p.assigned
        }),
{
    reveal(RelayPeerView::takes);
    match p.transport.opened(packet) {
        Ok((kind, body)) => {
            let q: RelayPeerView = RelayPeerView {
                transport: p.transport.after_open(packet),
                ..p
            };
            match frame::spec_decode(body) {
                Ok(f) => {
                    lemma_grown(q, f.path as int);
                },
                Err(_) => {},
            }
        },
        Err(_) => {},
    }
}

/// Forgetting clients keeps the others distinct.
proof fn lemma_filter_wf(s: RelayView, now: u64)
    requires
        s.wf(),
    ensures
        s.without_silent(now).wf(),
    decreases s.peers.len(),
{
    reveal(Seq::filter);
    let keep = |p: RelayPeerView| awake(p, now);
    if s.peers.len() > 0 {
        let shorter: RelayView = RelayView { peers: s.peers.drop_last(), ..s };
        assert(shorter.wf());
        lemma_filter_wf(shorter, now);
        let rest: Seq<RelayPeerView> = shorter.peers.filter(keep);
        let last: RelayPeerView = s.peers.last();
        assert(last == s.peers[s.peers.len() - 1]);
        assert forall|i: int| 0 <= i < rest.len() implies (#[trigger] rest[i]).session
            != last.session && rest[i].assigned@ != last.assigned@ by {
            shorter.peers.lemma_filter_contains_rev(keep, rest[i]);
            let k: int = choose|k: int| 0 <= k < shorter.peers.len() && shorter.peers[k] == rest[i];
            assert(s.peers[k] == rest[i]);
        }
    }
}

fn fresh_scheduler() -> (r: Scheduler)
    ensures
        r.wf(),
        r@ == first_scheduler(),
        r@.n() == 1,
        r@.names == seq![path_name(0)],
{
    let mut names: Vec<(String, bool)> = Vec::new();
    names.push(("path0".to_string(), false));
    let ghost listed = names@.map_values(|n: (String, bool)| (n.0@, n.1));
    assert(listed =~= seq![("path0"@, false)]);
    let made: Result<Scheduler, BondError> = Scheduler::new(names, Policy::Smart);
    let mut scheduler: Scheduler = made.unwrap();
    scheduler.remove_path(0);
    proof {
        reveal_strlit("path0");
        reveal_strlit("path");
        assert(path_name(0) =~= "path0"@);
        assert(scheduler@.names =~= seq![path_name(0)]);
    }
    scheduler
}

impl Relay {
    pub open spec fn wf(&self) -> bool {
        &&& self@.wf()
        &&& forall|i: int| 0 <= i < self.peers@.len() ==> (#[trigger] self.peers@[i]).wf()
    }

    pub fn new(secret: [u8; 32], max_clients: usize) -> (r: Self)
        ensures
            r.wf(),
            r@ == (RelayView { peers: seq![], max_clients, secret: secret@ }),
    {
        let r: Relay = Relay { peers: Vec::new(), max_clients, secret };
        assert(r@.peers =~= Seq::empty());
        r
    }

    fn find_client(&self, session: &[u8; 16]) -> (r: usize)
        ensures
            r == client_of(self@.peers, session@, 0),
            r <= self.peers@.len(),
    {
        let mut i: usize = 0;
        while i < self.peers.len()
            invariant
                i <= self.peers@.len(),
                client_of(self@.peers, session@, i as int) == client_of(
                    self@.peers,
                    session@,
                    0,
                ),
            decreases self.peers@.len() - i,
        {
            assert(self@.peers[i as int] == self.peers@[i as int]@);
            if wire::same_bytes(&self.peers[i].session, session) {
                return i;
            }
            i = i + 1;
        }
        i
    }

    fn find_holder(&self, packet: &[u8]) -> (r: usize)
        requires
            packet@.len() >= 20,
        ensures
            r == holder_of(self@.peers, packet@.subrange(16, 20), 0),
            r <= self.peers@.len(),
    {
        let mut i: usize = 0;
        while i < self.peers.len()
            invariant
                packet@.len() >= 20,
                i <= self.peers@.len(),
                holder_of(self@.peers, packet@.subrange(16, 20), i as int) == holder_of(
                    self@.peers,
                    packet@.subrange(16, 20),
                    0,
                ),
            decreases self.peers@.len() - i,
        {
            assert(self@.peers[i as int] == self.peers@[i as int]@);
            if wire::matches_at(packet, 16, &self.peers[i].assigned) {
                return i;
            }
            i = i + 1;
        }
        i
    }

    fn used(&self) -> (r: Vec<[u8; 4]>)
        ensures
            r@ == leases(self@.peers),
    {
        let mut out: Vec<[u8; 4]> = Vec::new();
        let mut i: usize = 0;
        while i < self.peers.len()
            invariant
                i <= self.peers@.len(),
                out@.len() == i,
                forall|j: int| 0 <= j < i ==> #[trigger] out@[j] == self.peers@[j].assigned,
            decreases self.peers@.len() - i,
        {
            out.push(self.peers[i].assigned);
            i = i + 1;
        }
        assert(out@ =~= leases(self@.peers));
        out
    }

    /// Forgets the clients that were silent for too long.
    pub fn expire(&mut self, now: u64)
        requires
            old(self).wf(),
        ensures
            final(self).wf(),
            final(self)@ == old(self)@.without_silent(now),
    {
        let ghost all: Seq<RelayPeerView> = self@.peers;
        let ghost keep = |p: RelayPeerView| awake(p, now);
        let ghost mut k: int = 0;
        let mut i: usize = 0;
        proof {
            reveal(Seq::filter);
            assert(all.take(0).filter(keep) + all.skip(0) =~= all);
        }
        while i < self.peers.len()
            invariant
                i <= self.peers@.len(),
                0 <= k <= all.len(),
                keep == |p: RelayPeerView| awake(p, now),
                i == all.take(k).filter(keep).len(),
                self@.peers == all.take(k).filter(keep) + all.skip(k),
                self@ == (RelayView { peers: self@.peers, ..old(self)@ }),
                forall|j: int| 0 <= j < self.peers@.len() ==> (#[trigger] self.peers@[j]).wf(),
            decreases self.peers@.len() - i,
        {
            proof {
                reveal(Seq::filter);
                assert(self@.peers[i as int] == self.peers@[i as int]@);
                assert(k < all.len());
                assert(self@.peers[i as int] == all[k]);
                assert(all.take(k + 1).drop_last() =~= all.take(k));
                assert(all.take(k + 1).last() == all[k]);
            }
            if now.saturating_sub(self.peers[i].last_seen) < CLIENT_SILENCE_MS {
                assert(all.take(k + 1).filter(keep) + all.skip(k + 1) =~= self@.peers);
                i = i + 1;
            } else {
                let ghost before: Seq<RelayPeer> = self.peers@;
                let _ = self.peers.remove(i);
                assert(self.peers@ =~= before.remove(i as int));
                assert(self@.peers =~= relay_views(before).remove(i as int));
                assert(all.take(k + 1).filter(keep) + all.skip(k + 1) =~= self@.peers);
            }
            proof {
                k = k + 1;
            }
        }
        proof {
            assert(k == all.len());
            assert(all.take(k) =~= all);
            assert(self@.peers =~= all.filter(keep));
            assert(self@ =~= old(self)@.without_silent(now));
            lemma_filter_wf(old(self)@, now);
        }
    }

    /// Takes in a client, at the lowest free address.
    fn greet(&mut self, header: Header, packet: &[u8], now: u64) -> (r: Result<
        RelayStep,
        RelayError,
    >)
        requires
            old(self).wf(),
            packet@.len() >= tunnel::HEADER,
        ensures
            final(self).wf(),
            old(self)@.greets(
                header@,
                packet@,
                now,
                final(self)@,
                match r {
                    Ok(step) => Ok(step@),
                    Err(error) => Err(error),
                },
            ),
    {
        let i: usize = self.find_client(&header.session);
        if i < self.peers.len() {
            assert(self@.peers[i as int] == self.peers@[i as int]@);
            if wire::same_bytes(self.peers[i].hello.as_slice(), packet) {
                return Ok(RelayStep::Answer(wire::copy_bytes(self.peers[i].welcome.as_slice())));
            }
            return Ok(RelayStep::Ignore);
        }
        if self.peers.len() >= self.max_clients {
            return Ok(RelayStep::Ignore);
        }
        let used: Vec<[u8; 4]> = self.used();
        let assigned: [u8; 4] = match tunnel::allocate_in(BOND_NETWORK, used.as_slice()) {
            Some(ip) => ip,
            None => {
                return Ok(RelayStep::Ignore);
            },
        };
        let ghost last: u8 = tunnel::free_from(leases(self@.peers), BOND_NETWORK, 2)->0;
        let state: HandshakeState = match bond::handshake(&self.secret, &header.session, false) {
            Ok(state) => state,
            Err(error) => {
                return Err(RelayError::Tunnel(error));
            },
        };
        let (welcome, done) = match greeting::answer_hello(
            state,
            header.session,
            packet,
            assigned,
        ) {
            Ok(Some(answer)) => answer,
            Ok(None) => {
                return Ok(RelayStep::Ignore);
            },
            Err(error) => {
                return Err(RelayError::Tunnel(error));
            },
        };
        proof {
            let all: Seq<RelayPeerView> = self@.peers;
            tunnel::lease_is_free(leases(all), BOND_NETWORK, 2);
            assert forall|j: int| 0 <= j < all.len() implies (#[trigger] all[j]).assigned@
                != assigned@ by {
                assert(leases(all)[j] == all[j].assigned);
            }
        }
        let ghost text: Seq<u8> = welcome@;
        let step: RelayStep = self.take_in(header, packet, assigned, welcome, done, now);
        assert(old(self)@.welcomes(
            header@,
            packet@,
            now,
            last,
            self@,
            Ok(RelayStepView::Welcome(text, assigned)),
        ));
        Ok(step)
    }

    /// Takes in a client whose hello was answered: with the welcome, at a free
    /// address, over the keys of the finished handshake.
    pub fn take_in(
        &mut self,
        header: Header,
        packet: &[u8],
        assigned: [u8; 4],
        welcome: Vec<u8>,
        done: HandshakeState,
        now: u64,
    ) -> (r: RelayStep)
        requires
            old(self).wf(),
            client_of(old(self)@.peers, header.session@, 0) >= old(self)@.peers.len(),
            greeting::grantable(BOND_NETWORK, assigned@),
            forall|j: int|
                0 <= j < old(self)@.peers.len() ==> (#[trigger] old(self)@.peers[j]).assigned@
                    != assigned@,
            noise::handshake_finished(done),
            noise::handshake_inputs(done) == (
                noise::pattern(),
                false,
                old(self)@.secret,
                bond::prologue(header.session@),
            ),
            greeting::at_turn(
                done,
                seq![greeting::body_of(packet@), greeting::body_of(welcome@)],
                false,
            ),
        ensures
            final(self).wf(),
            r@ == RelayStepView::Welcome(welcome@, assigned),
            final(self)@.peers.len() == old(self)@.peers.len() + 1,
            final(self)@ == (RelayView {
                peers: old(self)@.peers.push(final(self)@.peers.last()),
                ..old(self)@
            }),
            old(self)@.is_newcomer(
                final(self)@.peers.last(),
                header.session@,
                assigned,
                packet@,
                welcome@,
                now,
            ),
    {
        let transport: Transport = match bond::transport(header.session, done) {
            Ok(transport) => transport,
            Err(_error) => {
                assert(false);
                return RelayStep::Ignore;
            },
        };
        let mut addresses: Vec<Option<Endpoint>> = Vec::new();
        addresses.push(None);
        let peer: RelayPeer = RelayPeer {
            session: header.session,
            transport,
            assigned,
            addresses,
            scheduler: fresh_scheduler(),
            hello: wire::copy_bytes(packet),
            welcome: wire::copy_bytes(welcome.as_slice()),
            last_seen: now,
            ack_batching: false,
            acks: AckBatcher::new(),
        };
        proof {
            let all: Seq<RelayPeerView> = self@.peers;
            lemma_client_of(all, header@.session, 0);
            assert(peer@.addresses =~= seq![None::<Endpoint>]);
            assert(peer@.wf());
            assert(old(self)@.is_newcomer(
                peer@,
                header@.session,
                assigned,
                packet@,
                welcome@,
                now,
            ));
        }
        self.peers.push(peer);
        proof {
            assert(self@.peers =~= old(self)@.peers.push(peer@));
            assert(self@.peers.last() == peer@);
            assert(self@ =~= RelayView { peers: old(self)@.peers.push(peer@), ..old(self)@ });
        }
        RelayStep::Welcome(welcome, assigned)
    }

    fn pass(&mut self, header: Header, packet: &[u8], from: Endpoint, room: Room, now: u64) -> (r:
        Result<RelayStep, RelayError>)
        requires
            old(self).wf(),
        ensures
            final(self).wf(),
            ({
                let (after, step) = old(self)@.passed(header@, packet@, from, room, now);
                final(self)@ == after && match r {
                    Ok(found) => step == Ok::<RelayStepView, RelayError>(found@),
                    Err(error) => step == Err::<RelayStepView, RelayError>(error),
                }
            }),
    {
        let i: usize = self.find_client(&header.session);
        if i >= self.peers.len() {
            return Ok(RelayStep::Ignore);
        }
        proof {
            assert(self@.peers[i as int] == self.peers@[i as int]@);
            lemma_takes_keeps(self@.peers[i as int], packet@, from, room, now);
        }
        let taken: Taken = self.peers[i].take(packet, from, room, now);
        let ghost p: RelayPeerView = old(self)@.peers[i as int].takes(
            packet@,
            from,
            room,
            now,
        ).0;
        proof {
            assert(self.peers@[i as int]@ == p);
            assert(self@.peers =~= old(self)@.peers.update(i as int, p));
            assert(self@ =~= RelayView {
                peers: old(self)@.peers.update(i as int, p),
                ..old(self)@
            });
            assert(self.peers@[i as int].wf());
        }
        match taken {
            Taken::Nothing => Ok(RelayStep::Ignore),
            Taken::Left => {
                let ghost before: Seq<RelayPeer> = self.peers@;
                let _ = self.peers.remove(i);
                proof {
                    assert(self.peers@ =~= before.remove(i as int));
                    assert(self@.peers =~= old(self)@.peers.remove(i as int));
                    assert(self@ =~= RelayView {
                        peers: old(self)@.peers.remove(i as int),
                        ..old(self)@
                    });
                }
                Ok(RelayStep::Closed)
            },
            Taken::NoQueue => Err(RelayError::Queue),
            Taken::Frames(packet, frames) => Ok(RelayStep::Passed(i, packet, frames)),
        }
    }

    /// Takes a datagram. An error is one that the relay cannot go on after.
    pub fn receive(&mut self, packet: &[u8], from: Endpoint, room: Room, now: u64) -> (r: Result<
        RelayStep,
        RelayError,
    >)
        requires
            old(self).wf(),
        ensures
            final(self).wf(),
            match tunnel::spec_parse(packet@) {
                Err(_) => r == Ok::<RelayStep, RelayError>(RelayStep::Ignore) && final(self)@
                    == old(self)@,
                Ok(header) => {
                    let found: Result<RelayStepView, RelayError> = match r {
                        Ok(step) => Ok(step@),
                        Err(error) => Err(error),
                    };
                    if header.kind == HELLO {
                        old(self)@.greets(header, packet@, now, final(self)@, found)
                    } else {
                        old(self)@.passed(header, packet@, from, room, now) == (
                            final(self)@,
                            found,
                        )
                    }
                },
            },
    {
        let header: Header = match Header::parse(packet) {
            Ok(header) => header,
            Err(_error) => {
                return Ok(RelayStep::Ignore);
            },
        };
        if header.kind == HELLO {
            self.greet(header, packet, now)
        } else {
            self.pass(header, packet, from, room, now)
        }
    }

    /// Takes a packet of the system, for the client that holds its
    /// destination.
    pub fn forward(&mut self, packet: &[u8])
        requires
            old(self).wf(),
        ensures
            final(self).wf(),
            final(self)@ == old(self)@.forwarded(packet@),
    {
        match tunnel::validate_ipv4(packet, None, None) {
            Ok(()) => {},
            Err(_error) => {
                return;
            },
        }
        let i: usize = self.find_holder(packet);
        if i >= self.peers.len() {
            return;
        }
        assert(self@.peers[i as int] == self.peers@[i as int]@);
        self.peers[i].scheduler.enqueue(wire::copy_bytes(packet));
        proof {
            let p: RelayPeerView = old(self)@.peers[i as int];
            let after: RelayPeerView = RelayPeerView {
                scheduler: p.scheduler.enqueued(packet@),
                ..p
            };
            assert(self.peers@[i as int]@ =~= after);
            assert(self@.peers =~= old(self)@.peers.update(i as int, after));
            assert(self@ =~= old(self)@.forwarded(packet@));
        }
    }
}

/// A packet reaches the system only from the address that its client holds,
/// and only if it may go where it wants.
pub proof fn passed_packet_is_its_holders(
    s: RelayView,
    header: HeaderView,
    packet: Seq<u8>,
    from: Endpoint,
    room: Room,
    now: u64,
    i: int,
    body: Seq<u8>,
    answers: Seq<FrameView>,
)
    requires
        s.wf(),
        s.passed(header, packet, from, room, now).1 == Ok::<RelayStepView, RelayError>(
            RelayStepView::Passed(i, Some(body), answers),
        ),
    ensures
        0 <= i < s.peers.len(),
        s.peers[i].session == header.session,
        body.subrange(12, 16) == s.peers[i].assigned@,
        admission::destination_open(body),
        room == Room::Free,
{
    reveal(RelayPeerView::takes);
    lemma_client_of(s.peers, header.session, 0);
    let p: RelayPeerView = s.peers[i];
    lemma_takes_keeps(p, packet, from, room, now);
    let q: RelayPeerView = RelayPeerView { transport: p.transport.after_open(packet), ..p };
    let f: FrameView = frame::spec_decode(p.transport.opened(packet)->Ok_0.1)->Ok_0;
    lemma_grown(q, f.path as int);
}

/// A path that rebinds is followed: after a join from a new address, frames of
/// that path count from there and no longer from the old one.
pub proof fn join_moves_path(p: RelayPeerView, index: int, id: u64, from: Endpoint, old_place: Endpoint)
    requires
        p.wf(),
        0 <= index < MAX_PATHS,
        old_place != from,
    ensures
        p.joined(index, id, from).heard_at(index, from),
        !p.joined(index, id, from).heard_at(index, old_place),
{
    lemma_grown(p, index);
}

} // verus!
