//! The server of a tunnel: its clients, the addresses they hold, and what it
//! does with each datagram and each packet.
use crate::egress::Endpoint;
use crate::greeting;
use crate::greeting::Welcome;
use crate::noise;
use crate::tunnel;
use crate::tunnel::{Header, HeaderView, Transport, TransportView, TunnelError, CLOSE, HELLO, IP, PING, PONG, SERVER_IP};
use crate::wire;
use snow::HandshakeState;
use vstd::prelude::*;

verus! {

/// A client that was silent for longer is forgotten.
pub const SILENCE_MS: u64 = 15_000;

pub const NETWORK: (u8, u8, u8) = (10, 77, 0);

#[derive(Clone, Copy, Debug, PartialEq, Eq, Structural)]
pub struct Stats {
    pub ip_packets_sent: u64,
    pub ip_packets_received: u64,
    pub ip_bytes_sent: u64,
    pub ip_bytes_received: u64,
    pub rejected_datagrams: u64,
    pub send_errors: u64,
}

impl Stats {
    pub open spec fn zero() -> Stats {
        Stats {
            ip_packets_sent: 0,
            ip_packets_received: 0,
            ip_bytes_sent: 0,
            ip_bytes_received: 0,
            rejected_datagrams: 0,
            send_errors: 0,
        }
    }

    pub open spec fn with_rejected(self) -> Stats {
        Stats { rejected_datagrams: self.rejected_datagrams.wrapping_add(1), ..self }
    }

    pub open spec fn with_received(self, bytes: u64) -> Stats {
        Stats {
            ip_packets_received: self.ip_packets_received.wrapping_add(1),
            ip_bytes_received: self.ip_bytes_received.wrapping_add(bytes),
            ..self
        }
    }

    pub open spec fn with_sent(self, ok: bool, bytes: u64) -> Stats {
        if ok {
            Stats {
                ip_packets_sent: self.ip_packets_sent.wrapping_add(1),
                ip_bytes_sent: self.ip_bytes_sent.wrapping_add(bytes),
                ..self
            }
        } else {
            Stats { send_errors: self.send_errors.wrapping_add(1), ..self }
        }
    }

    pub fn new() -> (r: Self)
        ensures
            r == Stats::zero(),
    {
        Stats {
            ip_packets_sent: 0,
            ip_packets_received: 0,
            ip_bytes_sent: 0,
            ip_bytes_received: 0,
            rejected_datagrams: 0,
            send_errors: 0,
        }
    }

    pub fn rejected(&mut self)
        ensures
            *final(self) == old(self).with_rejected(),
    {
        self.rejected_datagrams = self.rejected_datagrams.wrapping_add(1);
    }

    pub fn received(&mut self, bytes: u64)
        ensures
            *final(self) == old(self).with_received(bytes),
    {
        self.ip_packets_received = self.ip_packets_received.wrapping_add(1);
        self.ip_bytes_received = self.ip_bytes_received.wrapping_add(bytes);
    }

    /// Counts a packet that was handed to the network, or could not be.
    pub fn sent(&mut self, ok: bool, bytes: u64)
        ensures
            *final(self) == old(self).with_sent(ok, bytes),
    {
        if ok {
            self.ip_packets_sent = self.ip_packets_sent.wrapping_add(1);
            self.ip_bytes_sent = self.ip_bytes_sent.wrapping_add(bytes);
        } else {
            self.send_errors = self.send_errors.wrapping_add(1);
        }
    }
}

/// A client.
pub struct Peer {
    pub session: [u8; 16],
    pub assigned: [u8; 4],
    pub transport: Transport,
    pub address: Endpoint,
    pub hello: Vec<u8>,
    pub welcome: Vec<u8>,
    pub last_seen: u64,
}

#[verifier::ext_equal]
pub struct PeerView {
    pub session: Seq<u8>,
    pub assigned: [u8; 4],
    pub transport: TransportView,
    pub address: Endpoint,
    pub hello: Seq<u8>,
    pub welcome: Seq<u8>,
    pub last_seen: u64,
}

impl View for Peer {
    type V = PeerView;

    open spec fn view(&self) -> PeerView {
        PeerView {
            session: self.session@,
            assigned: self.assigned,
            transport: self.transport@,
            address: self.address,
            hello: self.hello@,
            welcome: self.welcome@,
            last_seen: self.last_seen,
        }
    }
}

pub open spec fn peer_views(peers: Seq<Peer>) -> Seq<PeerView> {
    peers.map_values(|p: Peer| p@)
}

pub struct Server {
    pub peers: Vec<Peer>,
    pub stats: Stats,
    /// Whether clients may reach more than the server itself.
    pub internet: bool,
    pub secret: [u8; 32],
}

#[verifier::ext_equal]
pub struct ServerView {
    pub peers: Seq<PeerView>,
    pub stats: Stats,
    pub internet: bool,
    pub secret: Seq<u8>,
}

impl View for Server {
    type V = ServerView;

    open spec fn view(&self) -> ServerView {
        ServerView {
            peers: peer_views(self.peers@),
            stats: self.stats,
            internet: self.internet,
            secret: self.secret@,
        }
    }
}

/// What the server does with a datagram.
#[derive(Debug)]
pub enum ServerStep {
    Ignore,
    /// Send back to where it came from.
    Answer(Vec<u8>),
    /// A new client: send it the welcome, which grants it the address.
    Welcome(Vec<u8>, [u8; 4]),
    /// Hand a packet to the system.
    Deliver(Vec<u8>),
    /// The client left.
    Closed,
}

#[verifier::ext_equal]
pub enum StepView {
    Ignore,
    Answer(Seq<u8>),
    Welcome(Seq<u8>, [u8; 4]),
    Deliver(Seq<u8>),
    Closed,
}

impl View for ServerStep {
    type V = StepView;

    open spec fn view(&self) -> StepView {
        match *self {
            ServerStep::Ignore => StepView::Ignore,
            ServerStep::Answer(bytes) => StepView::Answer(bytes@),
            ServerStep::Welcome(bytes, ip) => StepView::Welcome(bytes@, ip),
            ServerStep::Deliver(bytes) => StepView::Deliver(bytes@),
            ServerStep::Closed => StepView::Closed,
        }
    }
}

/// The first client of a session, from `i` on, or the number of clients.
pub open spec fn client_of(peers: Seq<PeerView>, session: Seq<u8>, i: int) -> int
    decreases peers.len() - i,
{
    if i < peers.len() && peers[i].session != session {
        client_of(peers, session, i + 1)
    } else {
        i
    }
}

/// The first client that holds an address, from `i` on, or the number of
/// clients.
pub open spec fn holder_of(peers: Seq<PeerView>, ip: Seq<u8>, i: int) -> int
    decreases peers.len() - i,
{
    if i < peers.len() && peers[i].assigned@ != ip {
        holder_of(peers, ip, i + 1)
    } else {
        i
    }
}

pub open spec fn leases(peers: Seq<PeerView>) -> Seq<[u8; 4]> {
    peers.map_values(|p: PeerView| p.assigned)
}

pub open spec fn awake(p: PeerView, now: u64) -> bool {
    now.saturating_sub(p.last_seen) <= SILENCE_MS
}

impl ServerView {
    pub open spec fn rejecting(self) -> ServerView {
        ServerView { stats: self.stats.with_rejected(), ..self }
    }

    /// The destination that packets are held to, if to any.
    pub open spec fn only(self) -> Option<[u8; 4]> {
        if self.internet {
            None
        } else {
            Some(SERVER_IP)
        }
    }

    /// Whether a client may send a packet: from its own address, to where
    /// clients may send.
    pub open spec fn lets_in(self, p: PeerView, packet: Seq<u8>) -> bool {
        tunnel::ipv4_fault(packet, Some(p.assigned), self.only()) is None && (self.internet
            ==> tunnel::spec_destination_allowed(packet))
    }

    /// What a message of a client that was opened leads to.
    pub open spec fn handled(self, i: int, p: PeerView, kind: u8, payload: Seq<u8>) -> (
        ServerView,
        Result<StepView, TunnelError>,
    ) {
        let here: ServerView = ServerView { peers: self.peers.update(i, p), ..self };
        if kind == IP {
            if self.lets_in(p, payload) {
                (
                    ServerView { stats: self.stats.with_received(payload.len() as u64), ..here },
                    Ok(StepView::Deliver(payload)),
                )
            } else {
                (here.rejecting(), Ok(StepView::Ignore))
            }
        } else if kind == PING {
            let after: PeerView = PeerView {
                transport: p.transport.after_seal(PONG, seq![]),
                ..p
            };
            (
                ServerView { peers: self.peers.update(i, after), ..self },
                match p.transport.sealed(PONG, seq![]) {
                    Ok(message) => Ok(StepView::Answer(message)),
                    Err(error) => Err(error),
                },
            )
        } else if kind == CLOSE {
            (ServerView { peers: self.peers.remove(i), ..self }, Ok(StepView::Closed))
        } else {
            (here, Ok(StepView::Ignore))
        }
    }

    /// What a datagram that is no hello leads to. It counts only from the
    /// address that the client's session was granted to.
    pub open spec fn passed(self, header: HeaderView, packet: Seq<u8>, from: Endpoint, now: u64) -> (
        ServerView,
        Result<StepView, TunnelError>,
    ) {
        let i: int = client_of(self.peers, header.session, 0);
        if i >= self.peers.len() {
            (self, Ok(StepView::Ignore))
        } else if self.peers[i].address != from {
            (self.rejecting(), Ok(StepView::Ignore))
        } else {
            match self.peers[i].transport.opened(packet) {
                Err(_) => (self.rejecting(), Ok(StepView::Ignore)),
                Ok((kind, payload)) => self.handled(
                    i,
                    PeerView {
                        transport: self.peers[i].transport.after_open(packet),
                        last_seen: now,
                        ..self.peers[i]
                    },
                    kind,
                    payload,
                ),
            }
        }
    }

    /// The keys of a session: the client's to send and to receive.
    pub open spec fn keys_of(self, session: Seq<u8>, hello: Seq<u8>, welcome: Seq<u8>) -> (
        Seq<u8>,
        Seq<u8>,
    ) {
        noise::session_keys(
            self.secret,
            tunnel::prologue(session),
            seq![greeting::body_of(hello), greeting::body_of(welcome)],
        )
    }

    /// A client that was just welcomed.
    pub open spec fn newcomer(
        self,
        session: Seq<u8>,
        assigned: [u8; 4],
        from: Endpoint,
        hello: Seq<u8>,
        welcome: Seq<u8>,
        now: u64,
    ) -> PeerView {
        PeerView {
            session,
            assigned,
            transport: tunnel::fresh_transport(
                session,
                noise::own_keys(false, self.keys_of(session, hello, welcome)),
                tunnel::MTU as nat,
            ),
            address: from,
            hello,
            welcome,
            last_seen: now,
        }
    }

    /// What a hello may lead to. One that a client repeats gets the same
    /// welcome again. Otherwise a free address is granted to who proves to
    /// know the secret.
    pub open spec fn greets(
        self,
        header: HeaderView,
        packet: Seq<u8>,
        from: Endpoint,
        now: u64,
        after: ServerView,
        r: Result<StepView, TunnelError>,
    ) -> bool {
        let i: int = client_of(self.peers, header.session, 0);
        if i < self.peers.len() {
            after == self && r == Ok::<StepView, TunnelError>(
                if self.peers[i].address == from && self.peers[i].hello == packet {
                    StepView::Answer(self.peers[i].welcome)
                } else {
                    StepView::Ignore
                },
            )
        } else {
            match tunnel::free_from(leases(self.peers), NETWORK, 2) {
                None => after == self && r == Ok::<StepView, TunnelError>(StepView::Ignore),
                Some(last) => match noise::handshake_reads(
                    self.secret,
                    tunnel::prologue(header.session),
                    seq![],
                    greeting::body_of(packet),
                ) {
                    None => after == self.rejecting() && r == Ok::<StepView, TunnelError>(
                        StepView::Ignore,
                    ),
                    Some(_) => self.welcomes(header, packet, from, now, last, after, r),
                },
            }
        }
    }

    /// A client is taken in, unless no fresh key could be made. The welcome has
    /// its address for who sent the hello.
    pub open spec fn welcomes(
        self,
        header: HeaderView,
        packet: Seq<u8>,
        from: Endpoint,
        now: u64,
        last: u8,
        after: ServerView,
        r: Result<StepView, TunnelError>,
    ) -> bool {
        match r {
            Ok(step) => match step {
                StepView::Welcome(welcome, assigned) => {
                    &&& assigned@ == seq![10u8, 77, 0, last]
                    &&& greeting::is_greeting(welcome, tunnel::WELCOME, header.session)
                    &&& noise::handshake_reads(
                        self.secret,
                        tunnel::prologue(header.session),
                        seq![greeting::body_of(packet)],
                        greeting::body_of(welcome),
                    ) == Some(assigned@)
                    &&& after == (ServerView {
                        peers: self.peers.push(
                            self.newcomer(header.session, assigned, from, packet, welcome, now),
                        ),
                        ..self
                    })
                },
                _ => false,
            },
            Err(error) => error == TunnelError::Noise && after == self,
        }
    }

    /// The message that carries a packet of the system to the client that
    /// holds its destination.
    pub open spec fn forwarded(self, packet: Seq<u8>) -> (
        ServerView,
        Result<Option<(Seq<u8>, Endpoint)>, TunnelError>,
    ) {
        if tunnel::ipv4_fault(packet, self.only(), None) is Some {
            (self, Ok(None))
        } else {
            let i: int = holder_of(self.peers, packet.subrange(16, 20), 0);
            if i >= self.peers.len() {
                (self, Ok(None))
            } else {
                let p: PeerView = self.peers[i];
                (
                    ServerView {
                        peers: self.peers.update(
                            i,
                            PeerView { transport: p.transport.after_seal(IP, packet), ..p },
                        ),
                        ..self
                    },
                    match p.transport.sealed(IP, packet) {
                        Ok(message) => Ok(Some((message, p.address))),
                        Err(error) => Err(error),
                    },
                )
            }
        }
    }

    pub open spec fn without_silent(self, now: u64) -> ServerView {
        ServerView { peers: self.peers.filter(|p: PeerView| awake(p, now)), ..self }
    }

    /// No two clients share a session or an address, and every address is one
    /// that clients are granted.
    pub open spec fn wf(self) -> bool {
        &&& forall|i: int|
            0 <= i < self.peers.len() ==> greeting::grantable(
                NETWORK,
                (#[trigger] self.peers[i]).assigned@,
            ) && self.peers[i].transport.session == self.peers[i].session
        &&& forall|i: int, j: int|
            0 <= i < j < self.peers.len() ==> (#[trigger] self.peers[i]).session != (
            #[trigger] self.peers[j]).session && self.peers[i].assigned@ != self.peers[j].assigned@
    }
}

/// Whoever holds the secret and is welcomed can talk: from the welcome they read
/// the address that they were granted, and the keys that they then have are
/// the server's, the other way round.
pub proof fn welcomed_client_is_understood(
    s: ServerView,
    header: HeaderView,
    hello: Seq<u8>,
    from: Endpoint,
    now: u64,
    last: u8,
    after: ServerView,
    welcome: Seq<u8>,
    assigned: [u8; 4],
)
    requires
        s.welcomes(
            header,
            hello,
            from,
            now,
            last,
            after,
            Ok(StepView::Welcome(welcome, assigned)),
        ),
        2 <= last <= 254,
    ensures
        ({
            let read: Option<Seq<u8>> = noise::handshake_reads(
                s.secret,
                tunnel::prologue(header.session),
                seq![greeting::body_of(hello)],
                greeting::body_of(welcome),
            );
            let client: TransportView = tunnel::fresh_transport(
                header.session,
                noise::own_keys(true, s.keys_of(header.session, hello, welcome)),
                tunnel::MTU as nat,
            );
            let server: TransportView = after.peers.last().transport;
            &&& greeting::welcome_read(header.session, welcome, read, NETWORK) == Welcome::Lease(
                10,
                77,
                0,
                last,
            )
            &&& server.session == client.session
            &&& server.receiving == client.sending && client.receiving == server.sending
            &&& server.refused == Set::<u64>::empty() && client.refused == Set::<u64>::empty()
            &&& server.max_payload == client.max_payload
        }),
{
}

pub proof fn lemma_client_of(peers: Seq<PeerView>, session: Seq<u8>, i: int)
    requires
        0 <= i <= peers.len(),
    ensures
        i <= client_of(peers, session, i) <= peers.len(),
        client_of(peers, session, i) < peers.len() ==> peers[client_of(peers, session, i)].session
            == session,
        forall|j: int|
            i <= j < client_of(peers, session, i) ==> (#[trigger] peers[j]).session != session,
    decreases peers.len() - i,
{
    if i < peers.len() && peers[i].session != session {
        lemma_client_of(peers, session, i + 1);
    }
}

pub proof fn lemma_holder_of(peers: Seq<PeerView>, ip: Seq<u8>, i: int)
    requires
        0 <= i <= peers.len(),
    ensures
        i <= holder_of(peers, ip, i) <= peers.len(),
        holder_of(peers, ip, i) < peers.len() ==> peers[holder_of(peers, ip, i)].assigned@ == ip,
    decreases peers.len() - i,
{
    if i < peers.len() && peers[i].assigned@ != ip {
        lemma_holder_of(peers, ip, i + 1);
    }
}

/// Forgetting clients keeps the others distinct.
proof fn lemma_filter_wf(s: ServerView, now: u64)
    requires
        s.wf(),
    ensures
        s.without_silent(now).wf(),
    decreases s.peers.len(),
{
    reveal(Seq::filter);
    let keep = |p: PeerView| awake(p, now);
    if s.peers.len() > 0 {
        let shorter: ServerView = ServerView { peers: s.peers.drop_last(), ..s };
        assert(shorter.wf());
        lemma_filter_wf(shorter, now);
        let rest: Seq<PeerView> = shorter.peers.filter(keep);
        let last: PeerView = s.peers.last();
        assert forall|i: int| 0 <= i < rest.len() implies (#[trigger] rest[i]).session
            != last.session && rest[i].assigned@ != last.assigned@ by {
            shorter.peers.lemma_filter_contains_rev(keep, rest[i]);
            let k: int = choose|k: int| 0 <= k < shorter.peers.len() && shorter.peers[k] == rest[i];
            assert(s.peers[k] == rest[i]);
            assert(s.peers[s.peers.len() - 1] == last);
        }
        assert(last == s.peers[s.peers.len() - 1]);
    }
}

impl Server {
    pub open spec fn wf(&self) -> bool {
        &&& self@.wf()
        &&& forall|i: int| 0 <= i < self.peers@.len() ==> (#[trigger] self.peers@[i]).transport.wf()
    }

    pub fn new(secret: [u8; 32], internet: bool) -> (r: Self)
        ensures
            r.wf(),
            r@ == (ServerView { peers: seq![], stats: Stats::zero(), internet, secret: secret@ }),
    {
        let r: Server = Server { peers: Vec::new(), stats: Stats::new(), internet, secret };
        assert(r@.peers =~= Seq::empty());
        r
    }

    fn find_client(&self, session: &[u8; 16]) -> (r: usize)
        ensures
            r == client_of(self@.peers, session@, 0),
            r <= self.peers@.len(),
    {
        let mut i: usize = 0;
        while i < self.peers.len()
            invariant
                i <= self.peers@.len(),
                client_of(self@.peers, session@, i as int) == client_of(
                    self@.peers,
                    session@,
                    0,
                ),
            decreases self.peers@.len() - i,
        {
            assert(self@.peers[i as int] == self.peers@[i as int]@);
            if wire::same_bytes(&self.peers[i].session, session) {
                return i;
            }
            i = i + 1;
        }
        i
    }

    fn find_holder(&self, packet: &[u8]) -> (r: usize)
        requires
            packet@.len() >= 20,
        ensures
            r == holder_of(self@.peers, packet@.subrange(16, 20), 0),
            r <= self.peers@.len(),
    {
        let mut i: usize = 0;
        while i < self.peers.len()
            invariant
                packet@.len() >= 20,
                i <= self.peers@.len(),
                holder_of(self@.peers, packet@.subrange(16, 20), i as int) == holder_of(
                    self@.peers,
                    packet@.subrange(16, 20),
                    0,
                ),
            decreases self.peers@.len() - i,
        {
            assert(self@.peers[i as int] == self.peers@[i as int]@);
            if wire::matches_at(packet, 16, &self.peers[i].assigned) {
                return i;
            }
            i = i + 1;
        }
        i
    }

    fn used(&self) -> (r: Vec<[u8; 4]>)
        ensures
            r@ == leases(self@.peers),
    {
        let mut out: Vec<[u8; 4]> = Vec::new();
        let mut i: usize = 0;
        while i < self.peers.len()
            invariant
                i <= self.peers@.len(),
                out@.len() == i,
                forall|j: int| 0 <= j < i ==> #[trigger] out@[j] == self.peers@[j].assigned,
            decreases self.peers@.len() - i,
        {
            out.push(self.peers[i].assigned);
            i = i + 1;
        }
        assert(out@ =~= leases(self@.peers));
        out
    }

    /// Forgets the clients that were silent for too long.
    pub fn expire(&mut self, now: u64)
        requires
            old(self).wf(),
        ensures
            final(self).wf(),
            final(self)@ == old(self)@.without_silent(now),
    {
        let ghost all: Seq<PeerView> = self@.peers;
        let ghost keep = |p: PeerView| awake(p, now);
        let ghost mut k: int = 0;
        let mut i: usize = 0;
        proof {
            reveal(Seq::filter);
            assert(all.take(0).filter(keep) + all.skip(0) =~= all);
        }
        while i < self.peers.len()
            invariant
                i <= self.peers@.len(),
                0 <= k <= all.len(),
                keep == |p: PeerView| awake(p, now),
                i == all.take(k).filter(keep).len(),
                self@.peers == all.take(k).filter(keep) + all.skip(k),
                self@ == (ServerView { peers: self@.peers, ..old(self)@ }),
                forall|j: int|
                    0 <= j < self.peers@.len() ==> (#[trigger] self.peers@[j]).transport.wf(),
            decreases self.peers@.len() - i,
        {
            proof {
                reveal(Seq::filter);
                assert(self@.peers[i as int] == self.peers@[i as int]@);
                assert(k < all.len());
                assert(self@.peers[i as int] == all[k]);
                assert(all.take(k + 1).drop_last() =~= all.take(k));
                assert(all.take(k + 1).last() == all[k]);
            }
            if now.saturating_sub(self.peers[i].last_seen) <= SILENCE_MS {
                assert(all.take(k + 1).filter(keep) + all.skip(k + 1) =~= self@.peers);
                i = i + 1;
            } else {
                let ghost before: Seq<Peer> = self.peers@;
                let _ = self.peers.remove(i);
                assert(self.peers@ =~= before.remove(i as int));
                assert(self@.peers =~= peer_views(before).remove(i as int));
                assert(all.take(k + 1).filter(keep) + all.skip(k + 1) =~= self@.peers);
            }
            proof {
                k = k + 1;
            }
        }
        proof {
            assert(k == all.len());
            assert(all.take(k) =~= all);
            assert(self@.peers =~= all.filter(keep));
            assert(self@ =~= old(self)@.without_silent(now));
            lemma_filter_wf(old(self)@, now);
        }
    }

    /// Takes in a client, at the lowest free address.
    fn greet(&mut self, header: Header, packet: &[u8], from: Endpoint, now: u64) -> (r: Result<
        ServerStep,
        TunnelError,
    >)
        requires
            old(self).wf(),
            packet@.len() >= tunnel::HEADER,
        ensures
            final(self).wf(),
            old(self)@.greets(
                header@,
                packet@,
                from,
                now,
                final(self)@,
                match r {
                    Ok(step) => Ok(step@),
                    Err(error) => Err(error),
                },
            ),
    {
        let i: usize = self.find_client(&header.session);
        if i < self.peers.len() {
            assert(self@.peers[i as int] == self.peers@[i as int]@);
            if self.peers[i].address == from && wire::same_bytes(
                self.peers[i].hello.as_slice(),
                packet,
            ) {
                return Ok(ServerStep::Answer(wire::copy_bytes(self.peers[i].welcome.as_slice())));
            }
            return Ok(ServerStep::Ignore);
        }
        let used: Vec<[u8; 4]> = self.used();
        let assigned: [u8; 4] = match tunnel::allocate_client_ip(used.as_slice()) {
            Some(ip) => ip,
            None => {
                return Ok(ServerStep::Ignore);
            },
        };
        let ghost last: u8 = tunnel::free_from(leases(self@.peers), NETWORK, 2)->0;
        let state: HandshakeState = match tunnel::handshake(&self.secret, &header.session, false) {
            Ok(state) => state,
            Err(error) => {
                return Err(error);
            },
        };
        let (welcome, done) = match greeting::answer_hello(
            state,
            header.session,
            packet,
            assigned,
        ) {
            Ok(Some(answer)) => answer,
            Ok(None) => {
                self.stats.rejected();
                assert(self@ =~= old(self)@.rejecting());
                return Ok(ServerStep::Ignore);
            },
            Err(error) => {
                return Err(error);
            },
        };
        proof {
            let all: Seq<PeerView> = self@.peers;
            tunnel::lease_is_free(leases(all), NETWORK, 2);
            assert forall|j: int| 0 <= j < all.len() implies (#[trigger] all[j]).assigned@
                != assigned@ by {
                assert(leases(all)[j] == all[j].assigned);
            }
        }
        let ghost text: Seq<u8> = welcome@;
        let step: ServerStep = self.take_in(header, packet, from, assigned, welcome, done, now);
        assert(old(self)@.welcomes(
            header@,
            packet@,
            from,
            now,
            last,
            self@,
            Ok(StepView::Welcome(text, assigned)),
        ));
        Ok(step)
    }

    /// Takes in a client whose hello was answered: with the welcome, at a free
    /// address, over the keys of the finished handshake.
    pub fn take_in(
        &mut self,
        header: Header,
        packet: &[u8],
        from: Endpoint,
        assigned: [u8; 4],
        welcome: Vec<u8>,
        done: HandshakeState,
        now: u64,
    ) -> (r: ServerStep)
        requires
            old(self).wf(),
            client_of(old(self)@.peers, header.session@, 0) >= old(self)@.peers.len(),
            greeting::grantable(NETWORK, assigned@),
            forall|j: int|
                0 <= j < old(self)@.peers.len() ==> (#[trigger] old(self)@.peers[j]).assigned@
                    != assigned@,
            noise::handshake_finished(done),
            noise::handshake_inputs(done) == (
                noise::pattern(),
                false,
                old(self)@.secret,
                tunnel::prologue(header.session@),
            ),
            greeting::at_turn(
                done,
                seq![greeting::body_of(packet@), greeting::body_of(welcome@)],
                false,
            ),
        ensures
            final(self).wf(),
            r@ == StepView::Welcome(welcome@, assigned),
            final(self)@ == (ServerView {
                peers: old(self)@.peers.push(
                    old(self)@.newcomer(
                        header.session@,
                        assigned,
                        from,
                        packet@,
                        welcome@,
                        now,
                    ),
                ),
                ..old(self)@
            }),
    {
        let transport: Transport = match Transport::new(header.session, done) {
            Ok(transport) => transport,
            Err(_error) => {
                assert(false);
                return ServerStep::Ignore;
            },
        };
        let peer: Peer = Peer {
            session: header.session,
            assigned,
            transport,
            address: from,
            hello: wire::copy_bytes(packet),
            welcome: wire::copy_bytes(welcome.as_slice()),
            last_seen: now,
        };
        proof {
            let all: Seq<PeerView> = self@.peers;
            lemma_client_of(all, header@.session, 0);
            assert(peer@ =~= old(self)@.newcomer(
                header@.session,
                assigned,
                from,
                packet@,
                welcome@,
                now,
            ));
        }
        self.peers.push(peer);
        proof {
            assert(self@.peers =~= old(self)@.peers.push(peer@));
            assert(self@ =~= ServerView { peers: old(self)@.peers.push(peer@), ..old(self)@ });
        }
        ServerStep::Welcome(welcome, assigned)
    }

    fn handle(&mut self, i: usize, kind: u8, payload: Vec<u8>) -> (r: Result<
        ServerStep,
        TunnelError,
    >)
        requires
            old(self).wf(),
            i < old(self).peers@.len(),
        ensures
            final(self).wf(),
            ({
                let (after, step) = old(self)@.handled(
                    i as int,
                    old(self)@.peers[i as int],
                    kind,
                    payload@,
                );
                final(self)@ == after && match r {
                    Ok(found) => step == Ok::<StepView, TunnelError>(found@),
                    Err(error) => step == Err::<StepView, TunnelError>(error),
                }
            }),
    {
        assert(self@.peers[i as int] == self.peers@[i as int]@);
        assert(self@.peers.update(i as int, self@.peers[i as int]) =~= self@.peers);
        if kind == IP {
            let only: Option<[u8; 4]> = if self.internet {
                None
            } else {
                Some(SERVER_IP)
            };
            let fits: bool = match tunnel::validate_ipv4(
                payload.as_slice(),
                Some(self.peers[i].assigned),
                only,
            ) {
                Ok(()) => !self.internet || tunnel::internet_destination_allowed(
                    payload.as_slice(),
                ),
                Err(_error) => false,
            };
            if !fits {
                self.stats.rejected();
                assert(self@ =~= old(self)@.rejecting());
                return Ok(ServerStep::Ignore);
            }
            self.stats.received(payload.len() as u64);
            assert(self@ =~= ServerView {
                stats: old(self)@.stats.with_received(payload@.len() as u64),
                ..old(self)@
            });
            Ok(ServerStep::Deliver(payload))
        } else if kind == PING {
            let empty: Vec<u8> = Vec::new();
            let sealed: Result<Vec<u8>, TunnelError> = self.peers[i].transport.seal(
                PONG,
                empty.as_slice(),
            );
            proof {
                assert(empty@ =~= Seq::<u8>::empty());
                let p: PeerView = old(self)@.peers[i as int];
                let after: PeerView = PeerView {
                    transport: p.transport.after_seal(PONG, seq![]),
                    ..p
                };
                assert(self.peers@[i as int]@ =~= after);
                assert(self@.peers =~= old(self)@.peers.update(i as int, after));
                assert(self@ =~= ServerView {
                    peers: old(self)@.peers.update(i as int, after),
                    ..old(self)@
                });
            }
            match sealed {
                Ok(message) => Ok(ServerStep::Answer(message)),
                Err(error) => Err(error),
            }
        } else if kind == CLOSE {
            let ghost before: Seq<Peer> = self.peers@;
            let _ = self.peers.remove(i);
            proof {
                assert(self.peers@ =~= before.remove(i as int));
                assert(self@.peers =~= old(self)@.peers.remove(i as int));
                assert(self@ =~= ServerView {
                    peers: old(self)@.peers.remove(i as int),
                    ..old(self)@
                });
            }
            Ok(ServerStep::Closed)
        } else {
            assert(self@ =~= ServerView {
                peers: old(self)@.peers.update(i as int, old(self)@.peers[i as int]),
                ..old(self)@
            });
            Ok(ServerStep::Ignore)
        }
    }

    fn pass(&mut self, header: Header, packet: &[u8], from: Endpoint, now: u64) -> (r: Result<
        ServerStep,
        TunnelError,
    >)
        requires
            old(self).wf(),
        ensures
            final(self).wf(),
            ({
                let (after, step) = old(self)@.passed(header@, packet@, from, now);
                final(self)@ == after && match r {
                    Ok(found) => step == Ok::<StepView, TunnelError>(found@),
                    Err(error) => step == Err::<StepView, TunnelError>(error),
                }
            }),
    {
        let i: usize = self.find_client(&header.session);
        if i >= self.peers.len() {
            return Ok(ServerStep::Ignore);
        }
        assert(self@.peers[i as int] == self.peers@[i as int]@);
        if self.peers[i].address != from {
            self.stats.rejected();
            assert(self@ =~= old(self)@.rejecting());
            return Ok(ServerStep::Ignore);
        }
        let opened: Result<(u8, Vec<u8>), TunnelError> = self.peers[i].transport.open(packet);
        match opened {
            Err(_error) => {
                self.stats.rejected();
                proof {
                    assert(self.peers@[i as int]@ =~= old(self)@.peers[i as int]);
                    assert(self@.peers =~= old(self)@.peers);
                    assert(self@ =~= old(self)@.rejecting());
                }
                Ok(ServerStep::Ignore)
            },
            Ok((kind, payload)) => {
                self.peers[i].last_seen = now;
                proof {
                    let p: PeerView = PeerView {
                        transport: old(self)@.peers[i as int].transport.after_open(packet@),
                        last_seen: now,
                        ..old(self)@.peers[i as int]
                    };
                    assert(self.peers@[i as int]@ =~= p);
                    assert(self@.peers =~= old(self)@.peers.update(i as int, p));
                    assert(self@ =~= ServerView { peers: self@.peers, ..old(self)@ });
                    lemma_handled_ignores_place(
                        old(self)@,
                        self@,
                        i as int,
                        p,
                        kind,
                        payload@,
                    );
                }
                self.handle(i, kind, payload)
            },
        }
    }

    /// Takes a datagram. An error is one that the server cannot go on after.
    pub fn receive(&mut self, packet: &[u8], from: Endpoint, now: u64) -> (r: Result<
        ServerStep,
        TunnelError,
    >)
        requires
            old(self).wf(),
        ensures
            final(self).wf(),
            match tunnel::spec_parse(packet@) {
                Err(_) => r == Ok::<ServerStep, TunnelError>(ServerStep::Ignore) && final(self)@
                    == old(self)@.rejecting(),
                Ok(header) => {
                    let found: Result<StepView, TunnelError> = match r {
                        Ok(step) => Ok(step@),
                        Err(error) => Err(error),
                    };
                    if header.kind == HELLO {
                        old(self)@.greets(header, packet@, from, now, final(self)@, found)
                    } else {
                        old(self)@.passed(header, packet@, from, now) == (final(self)@, found)
                    }
                },
            },
    {
        let header: Header = match Header::parse(packet) {
            Ok(header) => header,
            Err(_error) => {
                self.stats.rejected();
                assert(self@ =~= old(self)@.rejecting());
                return Ok(ServerStep::Ignore);
            },
        };
        if header.kind == HELLO {
            self.greet(header, packet, from, now)
        } else {
            self.pass(header, packet, from, now)
        }
    }

    /// Takes a packet of the system. Returns the datagram that carries it, and
    /// where to send it.
    pub fn forward(&mut self, packet: &[u8]) -> (r: Result<Option<(Vec<u8>, Endpoint)>, TunnelError>)
        requires
            old(self).wf(),
        ensures
            final(self).wf(),
            final(self)@ == old(self)@.forwarded(packet@).0,
            match (r, old(self)@.forwarded(packet@).1) {
                (Ok(Some((message, to))), Ok(Some((want, at)))) => message@ == want && to == at,
                (Ok(None), Ok(None)) => true,
                (Err(error), Err(want)) => error == want,
                _ => false,
            },
    {
        let only: Option<[u8; 4]> = if self.internet {
            None
        } else {
            Some(SERVER_IP)
        };
        match tunnel::validate_ipv4(packet, only, None) {
            Ok(()) => {},
            Err(_error) => {
                return Ok(None);
            },
        }
        let i: usize = self.find_holder(packet);
        if i >= self.peers.len() {
            return Ok(None);
        }
        assert(self@.peers[i as int] == self.peers@[i as int]@);
        let to: Endpoint = self.peers[i].address;
        let sealed: Result<Vec<u8>, TunnelError> = self.peers[i].transport.seal(IP, packet);
        proof {
            let p: PeerView = old(self)@.peers[i as int];
            let after: PeerView = PeerView {
                transport: p.transport.after_seal(IP, packet@),
                ..p
            };
            assert(self.peers@[i as int]@ =~= after);
            assert(self@.peers =~= old(self)@.peers.update(i as int, after));
            assert(self@ =~= old(self)@.forwarded(packet@).0);
        }
        match sealed {
            Ok(message) => Ok(Some((message, to))),
            Err(error) => Err(error),
        }
    }
}

/// What a message leads to does not depend on what the client's place held.
proof fn lemma_handled_ignores_place(
    a: ServerView,
    b: ServerView,
    i: int,
    p: PeerView,
    kind: u8,
    payload: Seq<u8>,
)
    requires
        0 <= i < a.peers.len(),
        b == (ServerView { peers: a.peers.update(i, p), ..a }),
    ensures
        b.handled(i, p, kind, payload) == a.handled(i, p, kind, payload),
{
    assert(b.peers.update(i, p) =~= a.peers.update(i, p));
    assert(b.peers.remove(i) =~= a.peers.remove(i));
    let after: PeerView = PeerView { transport: p.transport.after_seal(PONG, seq![]), ..p };
    assert(b.peers.update(i, after) =~= a.peers.update(i, after));
}

/// A packet is delivered only in the name of the address that its client
/// holds: who sent it knows that client's key and sits at its address.
pub proof fn delivered_packet_is_its_holders(
    s: ServerView,
    header: HeaderView,
    packet: Seq<u8>,
    from: Endpoint,
    now: u64,
    payload: Seq<u8>,
)
    requires
        s.passed(header, packet, from, now).1 == Ok::<StepView, TunnelError>(
            StepView::Deliver(payload),
        ),
    ensures
        exists|i: int|
            #![trigger s.peers[i]]
            0 <= i < s.peers.len() && s.peers[i].address == from && s.peers[i].transport.opened(
                packet,
            ) == Ok::<(u8, Seq<u8>), TunnelError>((IP, payload)) && payload.subrange(12, 16)
                == s.peers[i].assigned@,
{
    let i: int = client_of(s.peers, header.session, 0);
    lemma_client_of(s.peers, header.session, 0);
    assert(s.peers[i].address == from);
}

/// A datagram that was delivered is not delivered again.
pub proof fn delivered_once(
    s: ServerView,
    header: HeaderView,
    packet: Seq<u8>,
    from: Endpoint,
    now: u64,
    payload: Seq<u8>,
    later: u64,
)
    requires
        s.passed(header, packet, from, now).1 == Ok::<StepView, TunnelError>(
            StepView::Deliver(payload),
        ),
    ensures
        s.passed(header, packet, from, now).0.passed(header, packet, from, later).1 == Ok::<
            StepView,
            TunnelError,
        >(StepView::Ignore),
{
    let i: int = client_of(s.peers, header.session, 0);
    lemma_client_of(s.peers, header.session, 0);
    let t: ServerView = s.passed(header, packet, from, now).0;
    tunnel::accepted_once(s.peers[i].transport, packet);
    lemma_client_of(t.peers, header.session, 0);
    let j: int = client_of(t.peers, header.session, 0);
    assert(t.peers[i].session == header.session);
    if j < i {
        assert(t.peers[j].session == s.peers[j].session);
    }
    assert(j == i);
}

} // verus!
