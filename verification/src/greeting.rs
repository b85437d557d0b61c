//! How a session begins: a hello, and a welcome that grants an address.
use crate::noise;
use crate::tunnel;
use crate::tunnel::{Header, HeaderView, TunnelError};
use crate::wire;
use snow::HandshakeState;
use vstd::prelude::*;

verus! {

/// What a handshake message may be called to be.
pub open spec fn is_greeting(packet: Seq<u8>, kind: u8, session: Seq<u8>) -> bool {
    tunnel::spec_parse(packet) == Ok::<HeaderView, TunnelError>(
        HeaderView { kind, session, counter: 0 },
    )
}

/// Whether an address is one that clients of a network are granted.
pub open spec fn grantable(network: (u8, u8, u8), ip: Seq<u8>) -> bool {
    &&& ip.len() == 4
    &&& ip[0] == network.0
    &&& ip[1] == network.1
    &&& ip[2] == network.2
    &&& 2 <= ip[3] <= 254
}

/// The address that a welcome grants.
pub fn read_lease(payload: &[u8], network: (u8, u8, u8)) -> (r: Option<[u8; 4]>)
    ensures
        match r {
            Some(ip) => grantable(network, payload@) && ip@ == payload@,
            None => !grantable(network, payload@),
        },
{
    if payload.len() == 4 && payload[0] == network.0 && payload[1] == network.1 && payload[2]
        == network.2 && payload[3] >= 2 && payload[3] <= 254 {
        let ip: [u8; 4] = [payload[0], payload[1], payload[2], payload[3]];
        assert(ip@ =~= payload@);
        Some(ip)
    } else {
        None
    }
}

/// Whether a handshake is one of the common pattern that has exchanged some
/// messages, and this side is, or is not, to write next.
pub open spec fn at_turn(state: HandshakeState, exchanged: Seq<Seq<u8>>, own: bool) -> bool {
    &&& noise::handshake_inputs(state).0 == noise::pattern()
    &&& noise::handshake_turn(state) == (exchanged, own)
}

/// The handshake message in a datagram.
pub open spec fn body_of(packet: Seq<u8>) -> Seq<u8> {
    packet.skip(tunnel::HEADER as int)
}

/// The hello of a client. Whoever holds the same secret and prologue, and has
/// exchanged nothing, reads an empty payload from it.
pub fn hello(state: &mut HandshakeState, session: [u8; 16]) -> (r: Result<Vec<u8>, TunnelError>)
    ensures
        noise::handshake_inputs(*final(state)) == noise::handshake_inputs(*old(state)),
        match r {
            Ok(packet) => at_turn(*old(state), seq![], true) ==> {
                &&& at_turn(*final(state), seq![body_of(packet@)], false)
                &&& noise::reads_next(*old(state), body_of(packet@)) == Some(Seq::<u8>::empty())
                &&& is_greeting(packet@, tunnel::HELLO, session@)
                &&& packet@.len() == tunnel::HEADER + noise::HANDSHAKE_OVERHEAD
            },
            Err(error) => error == TunnelError::Noise,
        },
{
    let empty: Vec<u8> = Vec::new();
    match noise::write_handshake(state, empty.as_slice()) {
        Ok(body) => {
            let header: Header = Header { kind: tunnel::HELLO, session, counter: 0 };
            let packet: Vec<u8> = header.wrap(body.as_slice());
            proof {
                assert(empty@ =~= Seq::empty());
                if at_turn(*old(state), seq![], true) {
                    tunnel::parse_reads_wrapping(header@, body@);
                    assert(body_of(packet@) =~= body@);
                    assert(Seq::<Seq<u8>>::empty().push(body@) =~= seq![body@]);
                }
            }
            Ok(packet)
        },
        Err(_error) => Err(TunnelError::Noise),
    }
}

/// What a client makes of a datagram while it waits for its welcome.
#[derive(Clone, Copy, Debug, PartialEq, Eq, Structural)]
pub enum Welcome {
    /// No welcome to this session.
    Other,
    /// A welcome that is not authentic.
    Unauthentic,
    /// A welcome that grants no address of the network.
    NoLease,
    Lease(u8, u8, u8, u8),
}

/// Whether a datagram is called a welcome to a session.
pub open spec fn is_welcome(session: Seq<u8>, packet: Seq<u8>) -> bool {
    match tunnel::spec_parse(packet) {
        Err(_) => false,
        Ok(header) => header.kind == tunnel::WELCOME && header.session == session,
    }
}

/// What a datagram is to who awaits a welcome and reads a payload from it.
pub open spec fn welcome_read(
    session: Seq<u8>,
    packet: Seq<u8>,
    read: Option<Seq<u8>>,
    network: (u8, u8, u8),
) -> Welcome {
    if !is_welcome(session, packet) {
        Welcome::Other
    } else {
        match read {
            None => Welcome::Unauthentic,
            Some(payload) => if grantable(network, payload) {
                Welcome::Lease(payload[0], payload[1], payload[2], payload[3])
            } else {
                Welcome::NoLease
            },
        }
    }
}

/// Reads a datagram while a welcome is awaited. What is no welcome to the
/// session leaves the handshake as it is.
pub fn read_welcome(
    state: &mut HandshakeState,
    session: &[u8; 16],
    packet: &[u8],
    network: (u8, u8, u8),
) -> (r: Welcome)
    ensures
        noise::handshake_inputs(*final(state)) == noise::handshake_inputs(*old(state)),
        (r == Welcome::Other) == !is_welcome(session@, packet@),
        r == Welcome::Other ==> *final(state) == *old(state),
        r == Welcome::Unauthentic ==> noise::handshake_turn(*final(state))
            == noise::handshake_turn(*old(state)),
        forall|hello: Seq<u8>| #[trigger]
            at_turn(*old(state), seq![hello], false) ==> {
                &&& r == welcome_read(
                    session@,
                    packet@,
                    noise::reads_next(*old(state), body_of(packet@)),
                    network,
                )
                &&& r is Lease || r is NoLease ==> noise::handshake_finished(*final(state))
                    && at_turn(*final(state), seq![hello, body_of(packet@)], true)
            },
{
    let header: Header = match Header::parse(packet) {
        Ok(header) => header,
        Err(_error) => {
            return Welcome::Other;
        },
    };
    if header.kind != tunnel::WELCOME || !wire::same_bytes(&header.session, session) {
        return Welcome::Other;
    }
    let body: Vec<u8> = wire::copy_range(packet, tunnel::HEADER, packet.len());
    assert(body@ =~= body_of(packet@));
    assert forall|hello: Seq<u8>| #[trigger]
        at_turn(*old(state), seq![hello], false) implies seq![hello].push(body@) == seq![
        hello,
        body@,
    ] by {
        assert(seq![hello].push(body@) =~= seq![hello, body@]);
    }
    match noise::read_handshake(state, body.as_slice()) {
        Ok(payload) => match read_lease(payload.as_slice(), network) {
            Some(ip) => Welcome::Lease(ip[0], ip[1], ip[2], ip[3]),
            None => Welcome::NoLease,
        },
        Err(_error) => Welcome::Unauthentic,
    }
}

/// How a server answers a hello: with the welcome that grants an address, and
/// the handshake that is then finished. A hello that is not authentic gets no
/// answer. Whoever holds the same secret and prologue, and sent that hello,
/// reads the address from the welcome.
pub fn answer_hello(
    mut state: HandshakeState,
    session: [u8; 16],
    packet: &[u8],
    lease: [u8; 4],
) -> (r: Result<Option<(Vec<u8>, HandshakeState)>, TunnelError>)
    requires
        packet@.len() >= tunnel::HEADER,
    ensures
        r is Err ==> r->Err_0 == TunnelError::Noise,
        at_turn(state, seq![], false) ==> match r {
            Ok(Some((welcome, after))) => {
                &&& noise::reads_next(state, body_of(packet@)) is Some
                &&& noise::handshake_inputs(after) == noise::handshake_inputs(state)
                &&& at_turn(after, seq![body_of(packet@), body_of(welcome@)], false)
                &&& noise::handshake_finished(after)
                &&& noise::handshake_reads(
                    noise::handshake_inputs(state).2,
                    noise::handshake_inputs(state).3,
                    seq![body_of(packet@)],
                    body_of(welcome@),
                ) == Some(lease@)
                &&& is_greeting(welcome@, tunnel::WELCOME, session@)
                &&& welcome@.len() == tunnel::HEADER + 4 + noise::HANDSHAKE_OVERHEAD
            },
            Ok(None) => noise::reads_next(state, body_of(packet@)) is None,
            Err(error) => noise::reads_next(state, body_of(packet@)) is Some,
        },
{
    let ghost first: HandshakeState = state;
    let body: Vec<u8> = wire::copy_range(packet, tunnel::HEADER, packet.len());
    assert(body@ =~= body_of(packet@));
    match noise::read_handshake(&mut state, body.as_slice()) {
        Ok(_payload) => {},
        Err(_error) => {
            return Ok(None);
        },
    }
    match noise::write_handshake(&mut state, lease.as_slice()) {
        Ok(reply) => {
            let header: Header = Header { kind: tunnel::WELCOME, session, counter: 0 };
            let welcome: Vec<u8> = header.wrap(reply.as_slice());
            proof {
                if at_turn(first, seq![], false) {
                    tunnel::parse_reads_wrapping(header@, reply@);
                    assert(body_of(welcome@) =~= reply@);
                    assert(Seq::<Seq<u8>>::empty().push(body@) =~= seq![body@]);
                    assert(seq![body@].push(reply@) =~= seq![body@, reply@]);
                }
            }
            Ok(Some((welcome, state)))
        },
        Err(_error) => Err(TunnelError::Noise),
    }
}

/// The two ends of a handshake have the same keys: what one sends under, the
/// other receives under.
pub proof fn ends_have_matching_keys(caller: HandshakeState, answerer: HandshakeState)
    requires
        noise::handshake_inputs(caller).1,
        !noise::handshake_inputs(answerer).1,
        noise::handshake_inputs(caller).2 == noise::handshake_inputs(answerer).2,
        noise::handshake_inputs(caller).3 == noise::handshake_inputs(answerer).3,
        noise::handshake_turn(caller).0 == noise::handshake_turn(answerer).0,
    ensures
        noise::agreed_keys(caller).0 == noise::agreed_keys(answerer).1,
        noise::agreed_keys(caller).1 == noise::agreed_keys(answerer).0,
{
}

} // verus!
