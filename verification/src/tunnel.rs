//! The tunnel's wire format, its leases, and its encrypted transport. Every
//! connection has fresh keys for each direction and a window against replays.
use crate::noise;
use crate::replay;
use crate::replay::ReplayWindow;
use crate::wire;
use snow::{HandshakeState, StatelessTransportState};
use vstd::arithmetic::power2::lemma2_to64;
use vstd::arithmetic::power2::lemma2_to64_rest;
use vstd::prelude::*;

verus! {

pub const MTU: usize = 1280;

pub const HEADER: usize = 29;

/// A frame wraps a whole inner packet, so this exceeds the MTU.
pub const MAX_PAYLOAD: usize = 1376;

pub const MAX_WIRE: usize = 1422;

pub const HELLO: u8 = 1;

pub const WELCOME: u8 = 2;

pub const TRANSPORT: u8 = 3;

pub const IP: u8 = 1;

pub const PING: u8 = 2;

pub const PONG: u8 = 3;

pub const CLOSE: u8 = 4;

pub const CLIENT_IP: [u8; 4] = [10, 77, 0, 2];

pub const SERVER_IP: [u8; 4] = [10, 77, 0, 1];

pub const REPLAY_WIDTH: usize = 8192;

#[derive(Clone, Copy, Debug, PartialEq, Eq, Structural)]
pub enum TunnelError {
    WireLength,
    Protocol,
    WireType,
    PayloadLimit,
    EncryptedType,
    TooLong,
    ControlPayload,
    NonceExhausted,
    WrongSession,
    Replayed,
    ControlBody,
    Noise,
    Ipv4Length,
    Ipv4Only,
    Ipv4Header,
    Ipv4Mismatch,
    Source,
    Destination,
    Assignment,
}

impl TunnelError {
    pub open spec fn text(self) -> Seq<char> {
        match self {
            TunnelError::WireLength => "invalid wire length"@,
            TunnelError::Protocol => "wrong tunnel protocol"@,
            TunnelError::WireType => "invalid wire type"@,
            TunnelError::PayloadLimit => "invalid payload limit"@,
            TunnelError::EncryptedType => "invalid encrypted type"@,
            TunnelError::TooLong => "payload exceeds transport limit"@,
            TunnelError::ControlPayload => "control payload must be empty"@,
            TunnelError::NonceExhausted => "nonce exhausted"@,
            TunnelError::WrongSession => "wrong transport session"@,
            TunnelError::Replayed => "replayed transport packet"@,
            TunnelError::ControlBody => "invalid control body"@,
            TunnelError::Noise => "encryption failed"@,
            TunnelError::Ipv4Length => "invalid IPv4 length"@,
            TunnelError::Ipv4Only => "IPv4 only"@,
            TunnelError::Ipv4Header => "invalid IPv4 header"@,
            TunnelError::Ipv4Mismatch => "IPv4 length mismatch"@,
            TunnelError::Source => "source address outside authenticated client assignment"@,
            TunnelError::Destination => "destination outside tunnel assignment"@,
            TunnelError::Assignment => "invalid authenticated client assignment"@,
        }
    }

    pub fn message(self) -> (r: &'static str)
        ensures
            r@ == self.text(),
    {
        match self {
            TunnelError::WireLength => "invalid wire length",
            TunnelError::Protocol => "wrong tunnel protocol",
            TunnelError::WireType => "invalid wire type",
            TunnelError::PayloadLimit => "invalid payload limit",
            TunnelError::EncryptedType => "invalid encrypted type",
            TunnelError::TooLong => "payload exceeds transport limit",
            TunnelError::ControlPayload => "control payload must be empty",
            TunnelError::NonceExhausted => "nonce exhausted",
            TunnelError::WrongSession => "wrong transport session",
            TunnelError::Replayed => "replayed transport packet",
            TunnelError::ControlBody => "invalid control body",
            TunnelError::Noise => "encryption failed",
            TunnelError::Ipv4Length => "invalid IPv4 length",
            TunnelError::Ipv4Only => "IPv4 only",
            TunnelError::Ipv4Header => "invalid IPv4 header",
            TunnelError::Ipv4Mismatch => "IPv4 length mismatch",
            TunnelError::Source => "source address outside authenticated client assignment",
            TunnelError::Destination => "destination outside tunnel assignment",
            TunnelError::Assignment => "invalid authenticated client assignment",
        }
    }
}

/// Whether a lease of a network is among some addresses.
pub open spec fn leased(used: Seq<[u8; 4]>, network: (u8, u8, u8), last: u8) -> bool {
    exists|i: int|
        0 <= i < used.len() && (#[trigger] used[i])@ == seq![network.0, network.1, network.2, last]
}

/// First free host number from `last` on.
pub open spec fn free_from(used: Seq<[u8; 4]>, network: (u8, u8, u8), last: int) -> Option<u8>
    decreases 255 - last,
{
    if last > 254 {
        None
    } else if leased(used, network, last as u8) {
        free_from(used, network, last + 1)
    } else {
        Some(last as u8)
    }
}

fn is_leased(used: &[[u8; 4]], network: (u8, u8, u8), last: u8) -> (r: bool)
    ensures
        r == leased(used@, network, last),
{
    let mut i: usize = 0;
    while i < used.len()
        invariant
            i <= used@.len(),
            forall|j: int|
                0 <= j < i ==> (#[trigger] used@[j])@ != seq![
                    network.0,
                    network.1,
                    network.2,
                    last,
                ],
        decreases used@.len() - i,
    {
        let ip: [u8; 4] = used[i];
        let ghost wanted: Seq<u8> = seq![network.0, network.1, network.2, last];
        if ip[0] == network.0 && ip[1] == network.1 && ip[2] == network.2 && ip[3] == last {
            assert(used@[i as int]@ =~= wanted);
            return true;
        }
        assert(used@[i as int]@ != wanted) by {
            assert(wanted[0] == network.0 && wanted[1] == network.1 && wanted[2] == network.2
                && wanted[3] == last);
        }
        i = i + 1;
    }
    false
}

/// The lowest free address of a network of 256, from the second host on.
pub fn allocate_in(network: (u8, u8, u8), used: &[[u8; 4]]) -> (r: Option<[u8; 4]>)
    ensures
        match (r, free_from(used@, network, 2)) {
            (Some(ip), Some(last)) => ip@ == seq![network.0, network.1, network.2, last],
            (None, None) => true,
            _ => false,
        },
{
    let mut last: u8 = 2;
    while last < 255
        invariant
            2 <= last <= 255,
            free_from(used@, network, last as int) == free_from(used@, network, 2),
        decreases 255 - last,
    {
        if !is_leased(used, network, last) {
            let ip: [u8; 4] = [network.0, network.1, network.2, last];
            assert(ip@ =~= seq![network.0, network.1, network.2, last]);
            return Some(ip);
        }
        last = last + 1;
    }
    None
}

/// The lowest free address for a client.
pub fn allocate_client_ip(used: &[[u8; 4]]) -> (r: Option<[u8; 4]>)
    ensures
        match (r, free_from(used@, (10, 77, 0), 2)) {
            (Some(ip), Some(last)) => ip@ == seq![10u8, 77, 0, last],
            (None, None) => true,
            _ => false,
        },
{
    allocate_in((10, 77, 0), used)
}

/// A lease is one that nobody has, from host 2 up to 254, and no lower one is
/// free. There is none exactly when all are taken.
pub proof fn lease_is_free(used: Seq<[u8; 4]>, network: (u8, u8, u8), from: int)
    requires
        2 <= from <= 255,
    ensures
        match free_from(used, network, from) {
            Some(last) => from <= last <= 254 && !leased(used, network, last) && forall|lower: int|
                from <= lower < last ==> leased(used, network, #[trigger] (lower as u8)),
            None => forall|lower: int|
                from <= lower <= 254 ==> leased(used, network, #[trigger] (lower as u8)),
        },
    decreases 255 - from,
{
    if from <= 254 && leased(used, network, from as u8) {
        lease_is_free(used, network, from + 1);
    }
}

/// Addresses of private, shared, special or group use.
pub open spec fn special(a: u8, b: u8, c: u8, d: u8) -> bool {
    ||| a == 10
    ||| a == 172 && 16 <= b <= 31
    ||| a == 192 && b == 168
    ||| a == 127
    ||| a == 169 && b == 254
    ||| a >= 224
    ||| a == 0
    ||| a == 192 && b == 0 && c == 2
    ||| a == 198 && b == 51 && c == 100
    ||| a == 203 && b == 0 && c == 113
    ||| a == 100 && 64 <= b <= 127
    ||| a == 198 && 18 <= b <= 19
}

pub open spec fn spec_destination_allowed(packet: Seq<u8>) -> bool {
    packet.len() >= 20 && (packet.subrange(16, 20) == SERVER_IP@ || !special(
        packet[16],
        packet[17],
        packet[18],
        packet[19],
    ))
}

/// Allows the server's own address and the public internet; denies loopback,
/// link-local, private, group and special addresses.
pub fn internet_destination_allowed(packet: &[u8]) -> (r: bool)
    ensures
        r == spec_destination_allowed(packet@),
{
    if packet.len() < 20 {
        return false;
    }
    if wire::matches_at(packet, 16, &SERVER_IP) {
        return true;
    }
    let a: u8 = packet[16];
    let b: u8 = packet[17];
    let c: u8 = packet[18];
    !(a == 10 || (a == 172 && 16 <= b && b <= 31) || (a == 192 && b == 168) || a == 127 || (a == 169
        && b == 254) || a >= 224 || a == 0 || (a == 192 && b == 0 && c == 2) || (a == 198 && b == 51
        && c == 100) || (a == 203 && b == 0 && c == 113) || (a == 100 && 64 <= b && b <= 127) || (a
        == 198 && 18 <= b && b <= 19))
}

#[derive(Clone, Copy, Debug, PartialEq, Eq)]
pub struct Header {
    pub kind: u8,
    pub session: [u8; 16],
    pub counter: u64,
}

#[verifier::ext_equal]
pub struct HeaderView {
    pub kind: u8,
    pub session: Seq<u8>,
    pub counter: u64,
}

impl View for Header {
    type V = HeaderView;

    open spec fn view(&self) -> HeaderView {
        HeaderView { kind: self.kind, session: self.session@, counter: self.counter }
    }
}

/// What every message begins with.
pub open spec fn magic() -> Seq<u8> {
    vstd::utf8::encode_utf8("VZT2"@)
}

impl HeaderView {
    pub open spec fn wrapped(self, body: Seq<u8>) -> Seq<u8> {
        magic() + seq![self.kind] + self.session + wire::be_bytes(self.counter as nat, 8) + body
    }
}

pub open spec fn spec_parse(packet: Seq<u8>) -> Result<HeaderView, TunnelError> {
    if !(HEADER <= packet.len() <= MAX_WIRE) {
        Err(TunnelError::WireLength)
    } else if packet.take(4) != magic() {
        Err(TunnelError::Protocol)
    } else if !(HELLO <= packet[4] <= TRANSPORT) {
        Err(TunnelError::WireType)
    } else {
        Ok(
            HeaderView {
                kind: packet[4],
                session: packet.subrange(5, 21),
                counter: wire::be_value(packet.subrange(21, 29)) as u64,
            },
        )
    }
}

proof fn lemma_magic()
    ensures
        magic().len() == 4,
{
    reveal_strlit("VZT2");
    vstd::utf8::is_ascii_chars_encode_utf8("VZT2"@);
}

impl Header {
    pub fn parse(packet: &[u8]) -> (r: Result<Self, TunnelError>)
        ensures
            match r {
                Ok(header) => spec_parse(packet@) == Ok::<HeaderView, TunnelError>(header@),
                Err(error) => spec_parse(packet@) == Err::<HeaderView, TunnelError>(error),
            },
    {
        if packet.len() < HEADER || packet.len() > MAX_WIRE {
            return Err(TunnelError::WireLength);
        }
        proof {
            lemma_magic();
            assert(packet@.subrange(0, 4) =~= packet@.take(4));
        }
        if !wire::matches_at(packet, 0, "VZT2".as_bytes()) {
            return Err(TunnelError::Protocol);
        }
        if packet[4] < HELLO || packet[4] > TRANSPORT {
            return Err(TunnelError::WireType);
        }
        let header: Header = Header {
            kind: packet[4],
            session: [
                packet[5],
                packet[6],
                packet[7],
                packet[8],
                packet[9],
                packet[10],
                packet[11],
                packet[12],
                packet[13],
                packet[14],
                packet[15],
                packet[16],
                packet[17],
                packet[18],
                packet[19],
                packet[20],
            ],
            counter: wire::get_be(packet, 21, 8),
        };
        assert(header@.session =~= packet@.subrange(5, 21));
        Ok(header)
    }

    pub fn wrap(self, body: &[u8]) -> (r: Vec<u8>)
        ensures
            r@ == self@.wrapped(body@),
    {
        let mut packet: Vec<u8> = Vec::new();
        wire::put_all(&mut packet, "VZT2".as_bytes());
        packet.push(self.kind);
        wire::put_all(&mut packet, &self.session);
        wire::put_be(&mut packet, self.counter, 8);
        wire::put_all(&mut packet, body);
        assert(packet@ =~= self@.wrapped(body@));
        packet
    }
}

/// A header is read back from what it wraps, and the body follows it.
pub proof fn parse_reads_wrapping(header: HeaderView, body: Seq<u8>)
    requires
        header.session.len() == 16,
        HELLO <= header.kind <= TRANSPORT,
        HEADER + body.len() <= MAX_WIRE,
    ensures
        spec_parse(header.wrapped(body)) == Ok::<HeaderView, TunnelError>(header),
        header.wrapped(body).len() == HEADER + body.len(),
        header.wrapped(body).skip(HEADER as int) == body,
{
    lemma_magic();
    lemma2_to64();
    lemma2_to64_rest();
    wire::lemma_be_bytes_len(header.counter as nat, 8);
    wire::lemma_value_of_bytes(header.counter as nat, 8);
    let w: Seq<u8> = header.wrapped(body);
    assert(w.take(4) =~= magic());
    assert(w.subrange(5, 21) =~= header.session);
    assert(w.subrange(21, 29) =~= wire::be_bytes(header.counter as nat, 8));
    assert(w.skip(HEADER as int) =~= body);
}

/// What parses is its header, wrapped around the rest: no byte of a message is
/// left unread.
pub proof fn parsed_is_wrapped(packet: Seq<u8>)
    requires
        spec_parse(packet) is Ok,
    ensures
        packet == spec_parse(packet)->Ok_0.wrapped(packet.skip(HEADER as int)),
{
    lemma_magic();
    lemma2_to64();
    lemma2_to64_rest();
    let number: Seq<u8> = packet.subrange(21, 29);
    wire::lemma_be_value_bound(number);
    wire::lemma_bytes_of_value(number);
    let header: HeaderView = spec_parse(packet)->Ok_0;
    assert(header.counter as nat == wire::be_value(number));
    let w: Seq<u8> = header.wrapped(packet.skip(HEADER as int));
    assert(packet.take(4) =~= magic());
    assert(w =~= packet.take(4) + seq![packet[4]] + packet.subrange(5, 21) + number + packet.skip(
        HEADER as int,
    ));
    assert(w =~= packet);
}

/// What a handshake binds besides the secret.
pub open spec fn prologue(session: Seq<u8>) -> Seq<u8> {
    vstd::utf8::encode_utf8(
        "VERZ IPv4 tunnel v2 / MTU1280 / authenticated lease 10.77.0.0-24 / "@,
    ) + session
}

/// Begins a handshake for a session under a shared secret.
pub fn handshake(secret: &[u8; 32], session: &[u8; 16], initiator: bool) -> (r: Result<
    HandshakeState,
    TunnelError,
>)
    ensures
        r is Ok,
        noise::handshake_inputs(r->Ok_0) == (
            noise::pattern(),
            initiator,
            secret@,
            prologue(session@),
        ),
        noise::handshake_turn(r->Ok_0) == (Seq::<Seq<u8>>::empty(), initiator),
        !noise::handshake_finished(r->Ok_0),
{
    let mut text: Vec<u8> = Vec::new();
    wire::put_all(
        &mut text,
        "VERZ IPv4 tunnel v2 / MTU1280 / authenticated lease 10.77.0.0-24 / ".as_bytes(),
    );
    wire::put_all(&mut text, session);
    assert(text@ =~= prologue(session@));
    match noise::begin(
        "Noise_NNpsk0_25519_ChaChaPoly_BLAKE2s",
        secret,
        text.as_slice(),
        initiator,
    ) {
        Ok(state) => Ok(state),
        Err(_error) => Err(TunnelError::Noise),
    }
}

pub struct Transport {
    pub session: [u8; 16],
    max_payload: usize,
    noise: StatelessTransportState,
    tx_counter: u64,
    replay: ReplayWindow,
}

#[verifier::ext_equal]
pub struct TransportView {
    pub session: Seq<u8>,
    pub max_payload: nat,
    pub sending: Option<Seq<u8>>,
    pub receiving: Option<Seq<u8>>,
    pub counter: u64,
    pub refused: Set<u64>,
}

impl View for Transport {
    type V = TransportView;

    closed spec fn view(&self) -> TransportView {
        TransportView {
            session: self.session@,
            max_payload: self.max_payload as nat,
            sending: noise::sending_key(self.noise),
            receiving: noise::receiving_key(self.noise),
            counter: self.tx_counter,
            refused: self.replay.refused(),
        }
    }
}

/// A transport that sends under the first of two keys and receives under the
/// second, and has done neither yet.
pub open spec fn fresh_transport(
    session: Seq<u8>,
    keys: (Seq<u8>, Seq<u8>),
    max_payload: nat,
) -> TransportView {
    TransportView {
        session,
        max_payload,
        sending: Some(keys.0),
        receiving: Some(keys.1),
        counter: 0,
        refused: Set::empty(),
    }
}

/// Whether a transport is a fresh one over the keys of a handshake. Of a
/// handshake of another pattern than the common one, the keys are not known.
pub open spec fn is_over(
    t: TransportView,
    session: Seq<u8>,
    noise: HandshakeState,
    max_payload: nat,
) -> bool {
    let fresh: TransportView = fresh_transport(session, noise::agreed_keys(noise), max_payload);
    &&& noise::handshake_inputs(noise).0 == noise::pattern() ==> t == fresh
    &&& t == (TransportView { sending: t.sending, receiving: t.receiving, ..fresh })
}

impl TransportView {
    /// The result of sealing, before encryption decides.
    pub open spec fn seal_check(self, kind: u8, payload: Seq<u8>) -> Option<TunnelError> {
        if !(IP <= kind <= CLOSE) {
            Some(TunnelError::EncryptedType)
        } else if payload.len() > self.max_payload {
            Some(TunnelError::TooLong)
        } else if kind != IP && payload.len() > 0 {
            Some(TunnelError::ControlPayload)
        } else if self.counter == u64::MAX {
            Some(TunnelError::NonceExhausted)
        } else {
            None
        }
    }

    /// The message for a payload: it names the session and its number, and
    /// holds the payload under the sending key.
    pub open spec fn sealed(self, kind: u8, payload: Seq<u8>) -> Result<Seq<u8>, TunnelError> {
        match self.seal_check(kind, payload) {
            Some(error) => Err(error),
            None => match self.sending {
                None => Err(TunnelError::Noise),
                Some(key) => Ok(
                    (HeaderView {
                        kind: TRANSPORT,
                        session: self.session,
                        counter: self.counter,
                    }).wrapped(noise::sealed(key, self.counter, seq![kind] + payload)),
                ),
            },
        }
    }

    /// Every attempt that encryption decides uses up a number.
    pub open spec fn after_seal(self, kind: u8, payload: Seq<u8>) -> TransportView {
        if self.seal_check(kind, payload) is Some {
            self
        } else {
            TransportView { counter: (self.counter + 1) as u64, ..self }
        }
    }

    /// The text of a message's body.
    pub open spec fn read(self, counter: u64, body: Seq<u8>) -> Option<Seq<u8>> {
        if self.receiving is None || counter == u64::MAX || body.len() < noise::TAG {
            None
        } else {
            noise::unsealed(self.receiving->0, counter, body)
        }
    }

    /// The kind and the payload of a message, or why it is refused.
    pub open spec fn opened(self, packet: Seq<u8>) -> Result<(u8, Seq<u8>), TunnelError> {
        match spec_parse(packet) {
            Err(error) => Err(error),
            Ok(header) => if packet.len() > HEADER + 1 + self.max_payload + noise::TAG {
                Err(TunnelError::TooLong)
            } else if header.kind != TRANSPORT || header.session != self.session {
                Err(TunnelError::WrongSession)
            } else if self.refused.contains(header.counter) {
                Err(TunnelError::Replayed)
            } else {
                match self.read(header.counter, packet.skip(HEADER as int)) {
                    None => Err(TunnelError::Noise),
                    Some(text) => if text.len() == 0 || !(IP <= text[0] <= CLOSE) {
                        Err(TunnelError::EncryptedType)
                    } else if text[0] != IP && text.len() != 1 {
                        Err(TunnelError::ControlBody)
                    } else {
                        Ok((text[0], text.skip(1)))
                    },
                }
            },
        }
    }

    /// The one message of this session that carries a payload under a number:
    /// the one that the peer's key makes of it.
    pub open spec fn genuine(self, counter: u64, kind: u8, payload: Seq<u8>) -> Seq<u8> {
        (HeaderView { kind: TRANSPORT, session: self.session, counter }).wrapped(
            noise::sealed(self.receiving->0, counter, seq![kind] + payload),
        )
    }

    /// Only a message that is accepted is marked.
    pub open spec fn after_open(self, packet: Seq<u8>) -> TransportView {
        if self.opened(packet) is Ok {
            TransportView {
                refused: replay::refused_after(
                    self.refused,
                    REPLAY_WIDTH as nat,
                    spec_parse(packet)->Ok_0.counter,
                ),
                ..self
            }
        } else {
            self
        }
    }
}

/// A message is accepted once: its copy is refused as a replay, now and after
/// whatever else was accepted.
pub proof fn accepted_once(t: TransportView, packet: Seq<u8>)
    requires
        t.opened(packet) is Ok,
    ensures
        t.after_open(packet).opened(packet) == Err::<(u8, Seq<u8>), TunnelError>(
            TunnelError::Replayed,
        ),
        t.refused.subset_of(t.after_open(packet).refused),
{
}

/// A message that is refused changes nothing: whatever would have been read
/// before it is read the same after it.
pub proof fn refused_harms_nothing(t: TransportView, refused: Seq<u8>, packet: Seq<u8>)
    requires
        t.opened(refused) is Err,
    ensures
        t.after_open(refused) == t,
        t.after_open(refused).opened(packet) == t.opened(packet),
{
}

/// Messages are read in whatever order they come: one that was read does not
/// stand in the way of another that is not a window behind it.
pub proof fn order_does_not_matter(t: TransportView, packet: Seq<u8>, other: Seq<u8>)
    requires
        t.opened(packet) is Ok,
        t.opened(other) is Ok,
        spec_parse(packet)->Ok_0.counter != spec_parse(other)->Ok_0.counter,
        spec_parse(packet)->Ok_0.counter < spec_parse(other)->Ok_0.counter + REPLAY_WIDTH,
    ensures
        t.after_open(packet).opened(other) == t.opened(other),
{
}

/// What is cut short of a header and a tag, or names another session, is
/// refused, whatever the rest of it holds.
pub proof fn mangled_is_refused(t: TransportView, packet: Seq<u8>)
    requires
        packet.len() < HEADER + noise::TAG || packet.take(4) != magic() || packet[4] != TRANSPORT
            || packet.subrange(5, 21) != t.session,
    ensures
        t.opened(packet) is Err,
        t.after_open(packet) == t,
{
}

impl Transport {
    pub closed spec fn wf(&self) -> bool {
        &&& 1 <= self.max_payload <= MAX_PAYLOAD
        &&& self.replay.wf()
        &&& self.replay.spec_width() == REPLAY_WIDTH
    }

    pub fn new(session: [u8; 16], noise: HandshakeState) -> (r: Result<Self, TunnelError>)
        ensures
            r is Ok == noise::handshake_finished(noise),
            match r {
                Ok(transport) => {
                    &&& transport.wf()
                    &&& is_over(transport@, session@, noise, MTU as nat)
                },
                Err(error) => error == TunnelError::Noise,
            },
    {
        Self::with_payload_limit(session, noise, MTU)
    }

    /// A transport over a finished handshake. Its keys are those that the
    /// handshake agreed on.
    pub fn with_payload_limit(session: [u8; 16], noise: HandshakeState, max_payload: usize) -> (r:
        Result<Self, TunnelError>)
        ensures
            match r {
                Ok(transport) => {
                    &&& 1 <= max_payload <= MAX_PAYLOAD
                    &&& noise::handshake_finished(noise)
                    &&& transport.wf()
                    &&& is_over(transport@, session@, noise, max_payload as nat)
                },
                Err(TunnelError::PayloadLimit) => !(1 <= max_payload <= MAX_PAYLOAD),
                Err(error) => error == TunnelError::Noise && 1 <= max_payload <= MAX_PAYLOAD
                    && !noise::handshake_finished(noise),
            },
    {
        if max_payload < 1 || max_payload > MAX_PAYLOAD {
            return Err(TunnelError::PayloadLimit);
        }
        match noise::into_transport(noise) {
            Ok(state) => {
                let transport: Transport = Transport {
                    session,
                    max_payload,
                    noise: state,
                    tx_counter: 0,
                    replay: ReplayWindow::new(REPLAY_WIDTH),
                };
                Ok(transport)
            },
            Err(_error) => Err(TunnelError::Noise),
        }
    }

    /// Encrypts a payload under the next number. A peer of the same session
    /// that receives under this side's sending key, takes payloads of this
    /// length and has not marked the number, opens the message and has the
    /// payload back.
    pub fn seal(&mut self, kind: u8, payload: &[u8]) -> (r: Result<Vec<u8>, TunnelError>)
        requires
            old(self).wf(),
        ensures
            final(self).wf(),
            final(self)@ == old(self)@.after_seal(kind, payload@),
            match r {
                Ok(message) => {
                    &&& old(self)@.sealed(kind, payload@) == Ok::<Seq<u8>, TunnelError>(message@)
                    &&& message@.len() == HEADER + 1 + payload@.len() + noise::TAG
                    &&& forall|peer: TransportView|
                        peer.session == old(self)@.session && peer.receiving == old(self)@.sending
                            && payload@.len() <= peer.max_payload && !peer.refused.contains(
                            old(self)@.counter,
                        ) ==> #[trigger] peer.opened(message@) == Ok::<
                            (u8, Seq<u8>),
                            TunnelError,
                        >((kind, payload@))
                },
                Err(error) => old(self)@.sealed(kind, payload@) == Err::<Seq<u8>, TunnelError>(
                    error,
                ),
            },
    {
        if kind < IP || kind > CLOSE {
            return Err(TunnelError::EncryptedType);
        }
        if payload.len() > self.max_payload {
            return Err(TunnelError::TooLong);
        }
        if kind != IP && payload.len() > 0 {
            return Err(TunnelError::ControlPayload);
        }
        let counter: u64 = self.tx_counter;
        if counter == u64::MAX {
            return Err(TunnelError::NonceExhausted);
        }
        self.tx_counter = counter + 1;
        let mut text: Vec<u8> = Vec::new();
        text.push(kind);
        wire::put_all(&mut text, payload);
        assert(text@ =~= seq![kind] + payload@);
        let body: Vec<u8> = match noise::seal(&self.noise, counter, text.as_slice()) {
            Ok(body) => body,
            Err(_error) => {
                return Err(TunnelError::Noise);
            },
        };
        let header: Header = Header { kind: TRANSPORT, session: self.session, counter };
        let message: Vec<u8> = header.wrap(body.as_slice());
        proof {
            parse_reads_wrapping(header@, body@);
            assert(text@.skip(1) =~= payload@);
        }
        Ok(message)
    }

    /// Decrypts a message. One that is refused changes nothing. One that is
    /// accepted is, byte for byte, what the peer's key makes of its number, its
    /// kind and its payload: no altered message passes for the one that it was.
    pub fn open(&mut self, packet: &[u8]) -> (r: Result<(u8, Vec<u8>), TunnelError>)
        requires
            old(self).wf(),
        ensures
            final(self).wf(),
            final(self)@ == old(self)@.after_open(packet@),
            match r {
                Ok((kind, payload)) => {
                    &&& old(self)@.opened(packet@) == Ok::<(u8, Seq<u8>), TunnelError>(
                        (kind, payload@),
                    )
                    &&& packet@ == old(self)@.genuine(
                        spec_parse(packet@)->Ok_0.counter,
                        kind,
                        payload@,
                    )
                },
                Err(error) => old(self)@.opened(packet@) == Err::<(u8, Seq<u8>), TunnelError>(
                    error,
                ),
            },
    {
        let header: Header = match Header::parse(packet) {
            Ok(header) => header,
            Err(error) => {
                return Err(error);
            },
        };
        if packet.len() > HEADER + 1 + self.max_payload + noise::TAG {
            return Err(TunnelError::TooLong);
        }
        if header.kind != TRANSPORT || !wire::same_bytes(&header.session, &self.session) {
            return Err(TunnelError::WrongSession);
        }
        if self.replay.contains(header.counter) {
            return Err(TunnelError::Replayed);
        }
        let body: &[u8] = vstd::slice::slice_subrange(packet, HEADER, packet.len());
        assert(body@ =~= packet@.skip(HEADER as int));
        let text: Vec<u8> = match noise::unseal(&self.noise, header.counter, body) {
            Ok(text) => text,
            Err(_error) => {
                return Err(TunnelError::Noise);
            },
        };
        if text.len() < 1 || text[0] < IP || text[0] > CLOSE {
            return Err(TunnelError::EncryptedType);
        }
        if text[0] != IP && text.len() != 1 {
            return Err(TunnelError::ControlBody);
        }
        let _ = self.replay.mark(header.counter);
        let payload: Vec<u8> = wire::copy_range(text.as_slice(), 1, text.len());
        proof {
            assert(payload@ =~= text@.skip(1));
            assert(seq![text@[0]] + payload@ =~= text@);
            parsed_is_wrapped(packet@);
        }
        Ok((text[0], payload))
    }
}

/// The first thing that is wrong with an inner packet.
pub open spec fn ipv4_fault(
    packet: Seq<u8>,
    source: Option<[u8; 4]>,
    destination: Option<[u8; 4]>,
) -> Option<TunnelError> {
    if !(20 <= packet.len() <= MTU) {
        Some(TunnelError::Ipv4Length)
    } else if packet[0] / 16 != 4 {
        Some(TunnelError::Ipv4Only)
    } else if !(20 <= (packet[0] % 16) * 4 <= packet.len()) {
        Some(TunnelError::Ipv4Header)
    } else if packet[2] * 256 + packet[3] != packet.len() {
        Some(TunnelError::Ipv4Mismatch)
    } else if source is Some && packet.subrange(12, 16) != source->0@ {
        Some(TunnelError::Source)
    } else if destination is Some && packet.subrange(16, 20) != destination->0@ {
        Some(TunnelError::Destination)
    } else {
        None
    }
}

/// Checks an inner packet: its form, and the addresses that it may have.
pub fn validate_ipv4(packet: &[u8], source: Option<[u8; 4]>, destination: Option<[u8; 4]>) -> (r:
    Result<(), TunnelError>)
    ensures
        match r {
            Ok(()) => ipv4_fault(packet@, source, destination) is None,
            Err(error) => ipv4_fault(packet@, source, destination) == Some(error),
        },
{
    if packet.len() < 20 || packet.len() > MTU {
        return Err(TunnelError::Ipv4Length);
    }
    if packet[0] / 16 != 4 {
        return Err(TunnelError::Ipv4Only);
    }
    let header: usize = (packet[0] % 16) as usize * 4;
    if header < 20 || header > packet.len() {
        return Err(TunnelError::Ipv4Header);
    }
    if packet[2] as usize * 256 + packet[3] as usize != packet.len() {
        return Err(TunnelError::Ipv4Mismatch);
    }
    match source {
        Some(address) => {
            if !wire::matches_at(packet, 12, &address) {
                return Err(TunnelError::Source);
            }
        },
        None => {},
    }
    match destination {
        Some(address) => {
            if !wire::matches_at(packet, 16, &address) {
                return Err(TunnelError::Destination);
            }
        },
        None => {},
    }
    Ok(())
}

} // verus!
