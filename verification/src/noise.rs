//! The Noise protocol of an outside crate, behind plain values.
use snow::{Builder, Error, HandshakeState, StatelessTransportState};
use vstd::prelude::*;

verus! {

#[verifier::external_type_specification]
#[verifier::external_body]
pub struct ExHandshakeState(snow::HandshakeState);

#[verifier::external_type_specification]
#[verifier::external_body]
pub struct ExTransportState(snow::StatelessTransportState);

#[verifier::external_type_specification]
#[verifier::external_body]
pub struct ExNoiseError(snow::Error);

/// What a handshake was begun with: the protocol's name, whether this side
/// initiates, the shared secret and the prologue.
pub uninterp spec fn handshake_inputs(state: HandshakeState) -> (
    Seq<char>,
    bool,
    Seq<u8>,
    Seq<u8>,
);

/// The messages that a handshake has exchanged, and whether the next is for
/// this side to write.
pub uninterp spec fn handshake_turn(state: HandshakeState) -> (Seq<Seq<u8>>, bool);

/// Whether all messages of a handshake were exchanged.
pub uninterp spec fn handshake_finished(state: HandshakeState) -> bool;

/// The payload that a message of the common pattern has for who holds a secret
/// and a prologue and has exchanged some messages, if it is authentic. The keys
/// follow from the secret and from the public keys that the messages show.
pub uninterp spec fn handshake_reads(
    secret: Seq<u8>,
    prologue: Seq<u8>,
    exchanged: Seq<Seq<u8>>,
    message: Seq<u8>,
) -> Option<Seq<u8>>;

/// The keys that a handshake of the common pattern ends with: the one under
/// which the caller sends, and the one under which it receives.
pub uninterp spec fn session_keys(
    secret: Seq<u8>,
    prologue: Seq<u8>,
    exchanged: Seq<Seq<u8>>,
) -> (Seq<u8>, Seq<u8>);

/// The cipher and the key under which a state sends, or none where its
/// pattern does not let it send.
pub uninterp spec fn sending_key(state: StatelessTransportState) -> Option<Seq<u8>>;

/// The cipher and the key under which a state receives, or none where its
/// pattern does not let it receive.
pub uninterp spec fn receiving_key(state: StatelessTransportState) -> Option<Seq<u8>>;

/// The message that a key and a number make of a text.
pub uninterp spec fn sealed(key: Seq<u8>, number: u64, text: Seq<u8>) -> Seq<u8>;

/// The text that a key and a number read from a message, if it is authentic.
pub uninterp spec fn unsealed(key: Seq<u8>, number: u64, message: Seq<u8>) -> Option<Seq<u8>>;

/// Length of an authentication tag.
pub const TAG: usize = 16;

/// What a handshake message of the common pattern adds to its payload: a
/// public key and a tag.
pub const HANDSHAKE_OVERHEAD: usize = 48;

/// Longest message of the protocol.
pub const MAX_MESSAGE: usize = 65535;

/// The protocol that both ends speak.
pub open spec fn pattern() -> Seq<char> {
    "Noise_NNpsk0_25519_ChaChaPoly_BLAKE2s"@
}

/// Messages of the common pattern: one from each side.
pub const HANDSHAKE_MESSAGES: usize = 2;

/// The keys of a session as one of its sides has them: to send and to receive.
pub open spec fn own_keys(initiator: bool, keys: (Seq<u8>, Seq<u8>)) -> (Seq<u8>, Seq<u8>) {
    if initiator {
        keys
    } else {
        (keys.1, keys.0)
    }
}

/// The keys to send and to receive under that a handshake of the common pattern
/// leads to.
pub open spec fn agreed_keys(state: HandshakeState) -> (Seq<u8>, Seq<u8>) {
    let (name, initiator, secret, prologue) = handshake_inputs(state);
    own_keys(initiator, session_keys(secret, prologue, handshake_turn(state).0))
}

/// What a message is to a handshake of the common pattern.
pub open spec fn reads_next(state: HandshakeState, message: Seq<u8>) -> Option<Seq<u8>> {
    let (name, initiator, secret, prologue) = handshake_inputs(state);
    handshake_reads(secret, prologue, handshake_turn(state).0, message)
}

/// `snow::Builder::build_initiator` with a secret at place zero and a prologue: a
/// handshake that has exchanged nothing yet and writes first. It holds what it was
/// begun with. With the name of the pattern that both ends speak, which needs
/// no other key, this never fails.
#[verifier::external_body]
fn begin_calling(name: &str, secret: &[u8; 32], prologue: &[u8]) -> (r: Result<HandshakeState, Error>)
    ensures
        match r {
            Ok(state) => {
                &&& handshake_inputs(state) == (name@, true, secret@, prologue@)
                &&& handshake_turn(state) == (Seq::<Seq<u8>>::empty(), true)
                &&& !handshake_finished(state)
            },
            Err(error) => name@ != pattern(),
        },
{
    Builder::new(name.parse()?).psk(0, secret)?.prologue(prologue)?.build_initiator()
}

/// `snow::Builder::build_responder` with a secret at place zero and a prologue: a
/// handshake that has exchanged nothing yet and reads first. It holds what it was
/// begun with. With the name of the pattern that both ends speak, which needs
/// no other key, this never fails.
#[verifier::external_body]
fn begin_answering(name: &str, secret: &[u8; 32], prologue: &[u8]) -> (r: Result<HandshakeState, Error>)
    ensures
        match r {
            Ok(state) => {
                &&& handshake_inputs(state) == (name@, false, secret@, prologue@)
                &&& handshake_turn(state) == (Seq::<Seq<u8>>::empty(), false)
                &&& !handshake_finished(state)
            },
            Err(error) => name@ != pattern(),
        },
{
    Builder::new(name.parse()?).psk(0, secret)?.prologue(prologue)?.build_responder()
}

/// A handshake that has exchanged nothing yet, for the side that calls or for
/// the one that answers.
pub(crate) fn begin(name: &str, secret: &[u8; 32], prologue: &[u8], initiator: bool) -> (r: Result<
    HandshakeState,
    Error,
>)
    ensures
        match r {
            Ok(state) => {
                &&& handshake_inputs(state) == (name@, initiator, secret@, prologue@)
                &&& handshake_turn(state) == (Seq::<Seq<u8>>::empty(), initiator)
                &&& !handshake_finished(state)
            },
            Err(error) => name@ != pattern(),
        },
{
    if initiator {
        begin_calling(name, secret, prologue)
    } else {
        begin_answering(name, secret, prologue)
    }
}

/// `snow::HandshakeState::write_message`: the next message of a handshake,
/// with a payload. It fails out of turn and when the handshake is finished,
/// which the common pattern is after two messages; a failure leaves the
/// handshake where it was. Under that pattern a message is longer than its
/// payload by a fixed length, and whoever holds the same secret and prologue
/// and has exchanged the same messages reads the payload from it. What else
/// the message holds depends on fresh keys, and making them may fail, so
/// nothing more is said of it.
#[verifier::external_body]
pub(crate) fn write_handshake(state: &mut HandshakeState, payload: &[u8]) -> (r: Result<
    Vec<u8>,
    Error,
>)
    ensures
        handshake_inputs(*final(state)) == handshake_inputs(*old(state)),
        match r {
            Ok(message) => {
                &&& !handshake_finished(*old(state))
                &&& handshake_turn(*old(state)).1 == true
                &&& handshake_turn(*final(state)) == (
                    handshake_turn(*old(state)).0.push(message@),
                    false,
                )
                &&& handshake_inputs(*old(state)).0 == pattern() ==> {
                    &&& message@.len() == payload@.len() + HANDSHAKE_OVERHEAD
                    &&& handshake_reads(
                        handshake_inputs(*old(state)).2,
                        handshake_inputs(*old(state)).3,
                        handshake_turn(*old(state)).0,
                        message@,
                    ) == Some(payload@)
                    &&& handshake_finished(*final(state)) == (handshake_turn(*final(state)).0.len()
                        == HANDSHAKE_MESSAGES)
                }
            },
            Err(error) => {
                &&& handshake_turn(*final(state)) == handshake_turn(*old(state))
                &&& handshake_finished(*final(state)) == handshake_finished(*old(state))
            },
        },
{
    let mut message = vec![0; MAX_MESSAGE];
    let length = state.write_message(payload, &mut message)?;
    message.truncate(length);
    Ok(message)
}

/// `snow::HandshakeState::read_message`: the payload of the peer's message,
/// if it is authentic. It fails out of turn and when the handshake is
/// finished, which the common pattern is after two messages; a failure leaves
/// the handshake where it was. Under that pattern the payload is shorter by a
/// fixed length, and depends on the secret, the prologue and the messages
/// alone.
#[verifier::external_body]
pub(crate) fn read_handshake(state: &mut HandshakeState, message: &[u8]) -> (r: Result<
    Vec<u8>,
    Error,
>)
    ensures
        handshake_inputs(*final(state)) == handshake_inputs(*old(state)),
        match r {
            Ok(payload) => {
                &&& !handshake_finished(*old(state))
                &&& handshake_turn(*old(state)).1 == false
                &&& handshake_turn(*final(state)) == (
                    handshake_turn(*old(state)).0.push(message@),
                    true,
                )
                &&& handshake_inputs(*old(state)).0 == pattern() ==> {
                    &&& message@.len() == payload@.len() + HANDSHAKE_OVERHEAD
                    &&& handshake_reads(
                        handshake_inputs(*old(state)).2,
                        handshake_inputs(*old(state)).3,
                        handshake_turn(*old(state)).0,
                        message@,
                    ) == Some(payload@)
                    &&& handshake_finished(*final(state)) == (handshake_turn(*final(state)).0.len()
                        == HANDSHAKE_MESSAGES)
                }
            },
            Err(error) => {
                &&& handshake_turn(*final(state)) == handshake_turn(*old(state))
                &&& handshake_finished(*final(state)) == handshake_finished(*old(state))
                &&& handshake_inputs(*old(state)).0 == pattern() && handshake_turn(
                    *old(state),
                ).0.len() < HANDSHAKE_MESSAGES && handshake_turn(*old(state)).1 == false
                    ==> handshake_reads(
                    handshake_inputs(*old(state)).2,
                    handshake_inputs(*old(state)).3,
                    handshake_turn(*old(state)).0,
                    message@,
                ) is None
            },
        },
{
    let mut payload = vec![0; MAX_MESSAGE];
    let length = state.read_message(message, &mut payload)?;
    payload.truncate(length);
    Ok(payload)
}

/// `snow::HandshakeState::into_stateless_transport_mode`: it succeeds when
/// the handshake is finished, and only then. Under the common pattern both
/// sides send, and the keys follow from the secret, the prologue and the
/// messages.
#[verifier::external_body]
pub(crate) fn into_transport(state: HandshakeState) -> (r: Result<StatelessTransportState, Error>)
    ensures
        r is Ok == handshake_finished(state),
        match r {
            Ok(keys) => handshake_inputs(state).0 == pattern() ==> {
                let (first, second) = own_keys(
                    handshake_inputs(state).1,
                    session_keys(
                        handshake_inputs(state).2,
                        handshake_inputs(state).3,
                        handshake_turn(state).0,
                    ),
                );
                sending_key(keys) == Some(first) && receiving_key(keys) == Some(second)
            },
            Err(error) => true,
        },
{
    state.into_stateless_transport_mode()
}

/// `snow::StatelessTransportState::write_message`: the message that the
/// sending key and the number make of a text, longer by a tag. Reading it
/// under the same key and number gives the text back. The last number is
/// reserved, and a message has a greatest length.
#[verifier::external_body]
pub(crate) fn seal(state: &StatelessTransportState, number: u64, text: &[u8]) -> (r: Result<
    Vec<u8>,
    Error,
>)
    requires
        text@.len() <= MAX_MESSAGE,
    ensures
        match r {
            Ok(message) => {
                &&& sending_key(*state) is Some
                &&& number < u64::MAX
                &&& message@ == sealed(sending_key(*state)->0, number, text@)
                &&& message@.len() == text@.len() + TAG
                &&& unsealed(sending_key(*state)->0, number, message@) == Some(text@)
            },
            Err(error) => sending_key(*state) is None || number == u64::MAX || text@.len() + TAG
                > MAX_MESSAGE,
        },
{
    let mut message = vec![0; text.len() + TAG];
    let length = state.write_message(number, text, &mut message)?;
    message.truncate(length);
    Ok(message)
}

/// `snow::StatelessTransportState::read_message`: the text that the receiving
/// key and the number read from a message, shorter by a tag. The message is then
/// the one that they make of the text: another one is never read as that text.
/// The last number is reserved, and a message has a least and a greatest length.
#[verifier::external_body]
pub(crate) fn unseal(state: &StatelessTransportState, number: u64, message: &[u8]) -> (r: Result<
    Vec<u8>,
    Error,
>)
    ensures
        match r {
            Ok(text) => {
                &&& receiving_key(*state) is Some
                &&& number < u64::MAX
                &&& TAG <= message@.len() <= MAX_MESSAGE
                &&& unsealed(receiving_key(*state)->0, number, message@) == Some(text@)
                &&& message@ == sealed(receiving_key(*state)->0, number, text@)
                &&& text@.len() + TAG == message@.len()
            },
            Err(error) => receiving_key(*state) is None || number == u64::MAX || message@.len()
                < TAG || message@.len() > MAX_MESSAGE || unsealed(
                receiving_key(*state)->0,
                number,
                message@,
            ) is None,
        },
{
    let mut text = vec![0; message.len()];
    let length = state.read_message(number, message, &mut text)?;
    text.truncate(length);
    Ok(text)
}

} // verus!
