//! The control connection to the brain: a handshake, then messages that are
//! numbered in each direction.
use crate::binary64::Binary64;
use crate::brain;
use crate::brain::{BrainAdvice, ClientReport, Controller, Decay, MAX_FRAME, MAX_REPORTED, STRATEGY};
use crate::greeting;
use crate::noise;
use crate::wire;
use snow::{HandshakeState, StatelessTransportState};
use vstd::prelude::*;

verus! {

#[derive(Clone, Copy, Debug, PartialEq, Eq, Structural)]
pub enum ChannelError {
    Length,
    Noise,
    TooManyPaths,
}

impl ChannelError {
    pub open spec fn text(self) -> Seq<char> {
        match self {
            ChannelError::Length => "invalid brain frame length"@,
            ChannelError::Noise => "brain channel is not authentic"@,
            ChannelError::TooManyPaths => "too many reported paths"@,
        }
    }

    pub fn message(self) -> (r: &'static str)
        ensures
            r@ == self.text(),
    {
        match self {
            ChannelError::Length => "invalid brain frame length",
            ChannelError::Noise => "brain channel is not authentic",
            ChannelError::TooManyPaths => "too many reported paths",
        }
    }
}

/// A message on the stream: its length, then itself.
pub open spec fn on_stream(payload: Seq<u8>) -> Seq<u8> {
    wire::be_bytes(payload.len(), 4) + payload
}

/// An established control connection.
pub struct Channel {
    noise: StatelessTransportState,
    sent: u64,
    received: u64,
}

#[verifier::ext_equal]
pub struct ChannelView {
    pub sending: Option<Seq<u8>>,
    pub receiving: Option<Seq<u8>>,
    pub sent: u64,
    pub received: u64,
}

impl View for Channel {
    type V = ChannelView;

    closed spec fn view(&self) -> ChannelView {
        ChannelView {
            sending: noise::sending_key(self.noise),
            receiving: noise::receiving_key(self.noise),
            sent: self.sent,
            received: self.received,
        }
    }
}

impl ChannelView {
    /// A channel that sends under the first of two keys and receives under the
    /// second, on which nothing went yet.
    pub open spec fn over(keys: (Seq<u8>, Seq<u8>)) -> ChannelView {
        ChannelView { sending: Some(keys.0), receiving: Some(keys.1), sent: 0, received: 0 }
    }

    /// What goes on the stream for a text: the next number's message.
    pub open spec fn sealed(self, text: Seq<u8>) -> Result<Seq<u8>, ChannelError> {
        if self.sending is None || self.sent == u64::MAX || text.len() + noise::TAG
            > noise::MAX_MESSAGE {
            Err(ChannelError::Noise)
        } else {
            Ok(on_stream(noise::sealed(self.sending->0, self.sent, text)))
        }
    }

    pub open spec fn after_seal(self, text: Seq<u8>) -> ChannelView {
        if self.sealed(text) is Ok {
            ChannelView { sent: (self.sent + 1) as u64, ..self }
        } else {
            self
        }
    }

    /// The text of a message, if it is authentic and the next in line.
    pub open spec fn opened(self, message: Seq<u8>) -> Result<Seq<u8>, ChannelError> {
        if self.receiving is None || self.received == u64::MAX || message.len() < noise::TAG
            || message.len() > noise::MAX_MESSAGE {
            Err(ChannelError::Noise)
        } else {
            match noise::unsealed(self.receiving->0, self.received, message) {
                Some(text) => Ok(text),
                None => Err(ChannelError::Noise),
            }
        }
    }

    pub open spec fn after_open(self, message: Seq<u8>) -> ChannelView {
        if self.opened(message) is Ok {
            ChannelView { received: (self.received + 1) as u64, ..self }
        } else {
            self
        }
    }
}

fn finish(state: HandshakeState) -> (r: Result<Channel, ChannelError>)
    ensures
        match r {
            Ok(channel) => {
                &&& noise::handshake_finished(state)
                &&& channel@.sent == 0 && channel@.received == 0
                &&& noise::handshake_inputs(state).0 == noise::pattern() ==> channel@
                    == ChannelView::over(noise::agreed_keys(state))
            },
            Err(error) => error == ChannelError::Noise && !noise::handshake_finished(state),
        },
{
    match noise::into_transport(state) {
        Ok(keys) => Ok(Channel { noise: keys, sent: 0, received: 0 }),
        Err(_error) => Err(ChannelError::Noise),
    }
}

/// The keys of a control connection: those of who called, and then of who
/// answered, are these the other way round.
pub open spec fn keys_of(secret: Seq<u8>, request: Seq<u8>, reply: Seq<u8>) -> (Seq<u8>, Seq<u8>) {
    noise::session_keys(secret, brain::prologue(), seq![request, reply])
}

/// Begins a control connection: the handshake, and what to send first. A brain
/// that holds the same secret reads it.
pub fn call(secret: &[u8; 32]) -> (r: Result<(HandshakeState, Vec<u8>), ChannelError>)
    ensures
        match r {
            Ok((state, bytes)) => {
                let request: Seq<u8> = bytes@.skip(4);
                &&& bytes@ == on_stream(request)
                &&& request.len() == noise::HANDSHAKE_OVERHEAD
                &&& noise::handshake_reads(secret@, brain::prologue(), seq![], request) == Some(
                    Seq::<u8>::empty(),
                )
                &&& noise::handshake_inputs(state) == (
                    noise::pattern(),
                    true,
                    secret@,
                    brain::prologue(),
                )
                &&& greeting::at_turn(state, seq![request], false)
            },
            Err(error) => error == ChannelError::Noise,
        },
{
    let mut state: HandshakeState = match brain::handshake(secret, true) {
        Ok(state) => state,
        Err(_error) => {
            return Err(ChannelError::Noise);
        },
    };
    let empty: Vec<u8> = Vec::new();
    match noise::write_handshake(&mut state, empty.as_slice()) {
        Ok(body) => match brain::framed(body.as_slice()) {
            Some(bytes) => {
                proof {
                    lemma_after_length(body@);
                    assert(empty@ =~= Seq::empty());
                    assert(Seq::<Seq<u8>>::empty().push(body@) =~= seq![body@]);
                }
                Ok((state, bytes))
            },
            None => Err(ChannelError::Noise),
        },
        Err(_error) => Err(ChannelError::Noise),
    }
}

/// Ends the handshake of who called, with the answer.
pub fn establish(mut state: HandshakeState, answer: &[u8]) -> (r: Result<Channel, ChannelError>)
    ensures
        r is Err ==> r->Err_0 == ChannelError::Noise,
        forall|request: Seq<u8>| #[trigger]
            greeting::at_turn(state, seq![request], false) ==> match r {
            Ok(channel) => {
                let (name, initiator, secret, prologue) = noise::handshake_inputs(state);
                let exchanged: Seq<Seq<u8>> = seq![request, answer@];
                &&& noise::reads_next(state, answer@) is Some
                &&& channel@ == ChannelView::over(
                    noise::own_keys(initiator, noise::session_keys(secret, prologue, exchanged)),
                )
            },
            Err(error) => noise::reads_next(state, answer@) is None,
        },
{
    assert forall|request: Seq<u8>| #[trigger]
        greeting::at_turn(state, seq![request], false) implies seq![request].push(answer@)
        == seq![request, answer@] by {
        assert(seq![request].push(answer@) =~= seq![request, answer@]);
    }
    match noise::read_handshake(&mut state, answer) {
        Ok(_payload) => finish(state),
        Err(_error) => Err(ChannelError::Noise),
    }
}

/// Answers a call: what to send back, and the channel. A call under another
/// secret is refused.
pub fn answer(secret: &[u8; 32], request: &[u8]) -> (r: Result<(Vec<u8>, Channel), ChannelError>)
    ensures
        match r {
            Ok((bytes, channel)) => {
                let reply: Seq<u8> = bytes@.skip(4);
                &&& noise::handshake_reads(secret@, brain::prologue(), seq![], request@) is Some
                &&& bytes@ == on_stream(reply)
                &&& reply.len() == noise::HANDSHAKE_OVERHEAD
                &&& noise::handshake_reads(secret@, brain::prologue(), seq![request@], reply)
                    == Some(Seq::<u8>::empty())
                &&& channel@ == ChannelView::over(
                    noise::own_keys(false, keys_of(secret@, request@, reply)),
                )
            },
            Err(error) => error == ChannelError::Noise,
        },
{
    let mut state: HandshakeState = match brain::handshake(secret, false) {
        Ok(state) => state,
        Err(_error) => {
            return Err(ChannelError::Noise);
        },
    };
    match noise::read_handshake(&mut state, request) {
        Ok(_payload) => {},
        Err(_error) => {
            return Err(ChannelError::Noise);
        },
    }
    let empty: Vec<u8> = Vec::new();
    let body: Vec<u8> = match noise::write_handshake(&mut state, empty.as_slice()) {
        Ok(body) => body,
        Err(_error) => {
            return Err(ChannelError::Noise);
        },
    };
    let channel: Channel = match finish(state) {
        Ok(channel) => channel,
        Err(error) => {
            return Err(error);
        },
    };
    match brain::framed(body.as_slice()) {
        Some(bytes) => {
            proof {
                lemma_after_length(body@);
                assert(empty@ =~= Seq::empty());
                assert(Seq::<Seq<u8>>::empty().push(request@) =~= seq![request@]);
                assert(seq![request@].push(body@) =~= seq![request@, body@]);
            }
            Ok((bytes, channel))
        },
        None => Err(ChannelError::Noise),
    }
}

/// Both ends of a control connection begin in step: each receives under the key,
/// and at the number, that the other sends under.
pub proof fn ends_begin_in_step(secret: Seq<u8>, request: Seq<u8>, reply: Seq<u8>)
    ensures
        ({
            let keys: (Seq<u8>, Seq<u8>) = keys_of(secret, request, reply);
            let caller: ChannelView = ChannelView::over(noise::own_keys(true, keys));
            let answerer: ChannelView = ChannelView::over(noise::own_keys(false, keys));
            &&& caller.receiving == answerer.sending && caller.received == answerer.sent
            &&& answerer.receiving == caller.sending && answerer.received == caller.sent
        }),
{
}

/// A message that is sealed on one end and opened on the other keeps the two in
/// step: the next one is read as well.
pub proof fn ends_stay_in_step(from: ChannelView, to: ChannelView, text: Seq<u8>)
    requires
        to.receiving == from.sending,
        to.received == from.sent,
        from.sealed(text) is Ok,
        to.opened(from.sealed(text)->Ok_0.skip(4)) == Ok::<Seq<u8>, ChannelError>(text),
    ensures
        to.after_open(from.sealed(text)->Ok_0.skip(4)).receiving == from.after_seal(text).sending,
        to.after_open(from.sealed(text)->Ok_0.skip(4)).received == from.after_seal(text).sent,
{
}

proof fn lemma_after_length(payload: Seq<u8>)
    ensures
        on_stream(payload).skip(4) == payload,
{
    wire::lemma_be_bytes_len(payload.len(), 4);
    assert(on_stream(payload).skip(4) =~= payload);
}

impl Channel {
    /// Encrypts a text for the stream. A peer that receives under this side's
    /// key, and stands at the same number, has the text back.
    pub fn seal(&mut self, text: &[u8]) -> (r: Result<Vec<u8>, ChannelError>)
        ensures
            final(self)@ == old(self)@.after_seal(text@),
            match r {
                Ok(bytes) => {
                    &&& old(self)@.sealed(text@) == Ok::<Seq<u8>, ChannelError>(bytes@)
                    &&& forall|peer: ChannelView|
                        peer.receiving == old(self)@.sending && peer.received == old(self)@.sent
                            ==> #[trigger] peer.opened(bytes@.skip(4)) == Ok::<
                            Seq<u8>,
                            ChannelError,
                        >(text@)
                },
                Err(error) => old(self)@.sealed(text@) == Err::<Seq<u8>, ChannelError>(error),
            },
    {
        if text.len() > noise::MAX_MESSAGE - noise::TAG {
            return Err(ChannelError::Noise);
        }
        match noise::seal(&self.noise, self.sent, text) {
            Ok(message) => {
                self.sent = self.sent + 1;
                match brain::framed(message.as_slice()) {
                    Some(bytes) => {
                        proof {
                            wire::lemma_be_bytes_len(message@.len(), 4);
                            assert(bytes@.skip(4) =~= message@);
                        }
                        Ok(bytes)
                    },
                    None => Err(ChannelError::Length),
                }
            },
            Err(_error) => Err(ChannelError::Noise),
        }
    }

    /// Decrypts the next message. One that is not authentic is not counted.
    pub fn open(&mut self, message: &[u8]) -> (r: Result<Vec<u8>, ChannelError>)
        ensures
            final(self)@ == old(self)@.after_open(message@),
            match r {
                Ok(text) => old(self)@.opened(message@) == Ok::<Seq<u8>, ChannelError>(text@),
                Err(error) => old(self)@.opened(message@) == Err::<Seq<u8>, ChannelError>(error),
            },
    {
        match noise::unseal(&self.noise, self.received, message) {
            Ok(text) => {
                self.received = self.received + 1;
                Ok(text)
            },
            Err(_error) => Err(ChannelError::Noise),
        }
    }
}

/// How much a message on the stream announces, if it may.
pub fn announced(head: &[u8; 4]) -> (r: Result<usize, ChannelError>)
    ensures
        r == if 1 <= wire::be_value(head@) <= MAX_FRAME {
            Ok::<usize, ChannelError>(wire::be_value(head@) as usize)
        } else {
            Err(ChannelError::Length)
        },
{
    assert(head@.subrange(0, 4) =~= head@);
    proof {
        wire::lemma_be_value_bound(head@);
        vstd::arithmetic::power2::lemma2_to64();
    }
    let length: u64 = wire::get_be(head, 0, 4);
    if length >= 1 && length <= MAX_FRAME as u64 {
        Ok(length as usize)
    } else {
        Err(ChannelError::Length)
    }
}

/// The length that stands before a message is the one that is read there.
pub proof fn announced_is_sent(payload: Seq<u8>)
    requires
        1 <= payload.len() <= MAX_FRAME,
    ensures
        on_stream(payload).len() == 4 + payload.len(),
        wire::be_value(on_stream(payload).take(4)) == payload.len(),
        on_stream(payload).skip(4) == payload,
{
    vstd::arithmetic::power2::lemma2_to64();
    wire::lemma_be_bytes_len(payload.len(), 4);
    wire::lemma_value_of_bytes(payload.len(), 4);
    assert(on_stream(payload).take(4) =~= wire::be_bytes(payload.len(), 4));
    assert(on_stream(payload).skip(4) =~= payload);
}

/// The brain's answer to a report, which has the next number.
pub fn advise_client(
    controller: &mut Controller,
    report: &ClientReport,
    generations: &mut u64,
    decays: &Vec<Decay>,
) -> (r: Result<BrainAdvice, ChannelError>)
    requires
        decays@.len() == report.paths@.len(),
    ensures
        match r {
            Ok(advice) => {
                &&& report.paths@.len() <= MAX_REPORTED
                &&& *final(generations) == old(generations).wrapping_add(1)
                &&& advice.generation == *final(generations)
                &&& advice.strategy@ == STRATEGY@
                &&& advice.cutoff_ms == Binary64::whole(75)
                &&& advice.recovery_ms == Binary64::whole(65)
                &&& advice.relay_fallback
                &&& advice.valid_for_ms == 5_000
                &&& (final(controller)@, advice@) == old(controller)@.advised(report@, decays@)
            },
            Err(error) => {
                &&& error == ChannelError::TooManyPaths
                &&& report.paths@.len() > MAX_REPORTED
                &&& *final(generations) == *old(generations)
                &&& *final(controller) == *old(controller)
            },
        },
{
    if report.paths.len() > MAX_REPORTED {
        return Err(ChannelError::TooManyPaths);
    }
    *generations = generations.wrapping_add(1);
    Ok(controller.advise(report, *generations, decays))
}

} // verus!
