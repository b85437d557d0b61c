//! The sending side of the UDP lane. Sockets and carrier detection belong to
//! the platform; sessions, sequence numbers and the repair cache outlive them.
use crate::envelope;
use crate::envelope::{Packet, PacketError, PacketView, ACK, FEC, MAX_PAYLOAD, NACK, PRIMARY, RESEND, TUN};
use crate::link;
use crate::link::{Config, Decision, Link, LinkError, LinkSchedulerView, Scheduler};
use crate::recovery;
use crate::recovery::{CacheView, PacketCache};
use crate::table::Table;
use crate::wire;
use vstd::prelude::*;

verus! {

/// Least length of a lane's key.
pub const MIN_KEY: usize = 32;

pub const CACHE_PACKETS: usize = 512;

#[derive(Clone, Copy, Debug, PartialEq, Eq, Structural)]
pub enum SendError {
    InvalidSession,
    NoCarrier,
    NoSocket,
    PayloadTooLarge,
    WrongSession,
    NotControl,
    Schedule(LinkError),
    Codec(PacketError),
    /// A socket refused the packet, for this reason of the system.
    Socket(i32),
}

impl SendError {
    pub open spec fn text(self) -> Seq<char> {
        match self {
            SendError::InvalidSession => "nonzero session and at least 32 key bytes required"@,
            SendError::NoCarrier => "link has no carrier"@,
            SendError::NoSocket => "no usable WAN socket"@,
            SendError::PayloadTooLarge => "payload too large"@,
            SendError::WrongSession => "wrong session"@,
            SendError::NotControl => "not ACK/NACK"@,
            SendError::Schedule(error) => error.text(),
            SendError::Codec(error) => error.text(),
            SendError::Socket(code) => "socket error"@,
        }
    }

    pub fn message(self) -> (r: &'static str)
        ensures
            r@ == self.text(),
    {
        match self {
            SendError::InvalidSession => "nonzero session and at least 32 key bytes required",
            SendError::NoCarrier => "link has no carrier",
            SendError::NoSocket => "no usable WAN socket",
            SendError::PayloadTooLarge => "payload too large",
            SendError::WrongSession => "wrong session",
            SendError::NotControl => "not ACK/NACK",
            SendError::Schedule(error) => error.message(),
            SendError::Codec(error) => error.message(),
            SendError::Socket(_code) => "socket error",
        }
    }
}

/// Something that the platform's links were asked.
pub enum Entry {
    /// Whether a link has a carrier, and the answer.
    Asked { link: u8, up: bool },
    /// To take a message; and the reason of the system if it was refused.
    Handed { link: u8, wire: Seq<u8>, refusal: Option<i32> },
}

/// What links were asked, in order.
pub type History = Seq<Entry>;

/// The platform's links. Their answers may change from one moment to the next,
/// so that each question is on record.
pub trait WanWriter {
    /// Everything that was asked so far.
    spec fn history(&self) -> History;

    /// Whether the link has a carrier at this moment.
    fn carrier(&mut self, id: u8) -> (r: bool)
        ensures
            final(self).history() == old(self).history().push(Entry::Asked { link: id, up: r }),
    ;

    /// Hands a message to a link. The error is the reason of the system.
    fn send(&mut self, id: u8, bytes: &[u8]) -> (r: Result<(), i32>)
        ensures
            final(self).history() == old(self).history().push(
                Entry::Handed {
                    link: id,
                    wire: bytes@,
                    refusal: match r {
                        Ok(_) => None,
                        Err(code) => Some(code),
                    },
                },
            ),
    ;
}

/// What came of one attempt.
#[derive(Clone, Copy, Debug, PartialEq, Eq, Structural)]
pub enum Reply {
    NoCarrier,
    Taken,
    Refused(i32),
}

#[derive(Clone, Copy, Debug, PartialEq, Eq, Structural)]
pub struct Sent {
    pub sequence: u32,
    pub primary: u8,
    pub duplicate: Option<u8>,
}

// ---- One attempt -------------------------------------------------------------------

/// A message for a link, unless the packet is too long for one.
pub struct Attempt {
    pub link: u8,
    pub message: Result<Vec<u8>, PacketError>,
}

#[verifier::ext_equal]
pub struct AttemptView {
    pub link: u8,
    pub message: Result<Seq<u8>, PacketError>,
}

impl View for Attempt {
    type V = AttemptView;

    open spec fn view(&self) -> AttemptView {
        AttemptView {
            link: self.link,
            message: match self.message {
                Ok(bytes) => Ok(bytes@),
                Err(error) => Err(error),
            },
        }
    }
}

pub open spec fn attempt_view(attempt: Option<Attempt>) -> Option<AttemptView> {
    match attempt {
        Some(attempt) => Some(attempt@),
        None => None,
    }
}

/// The message of a packet on a link.
pub open spec fn message_on(packet: PacketView, key: Seq<u8>, id: u8) -> Seq<u8> {
    (PacketView { link: id, ..packet }).encoded(key)
}

/// A packet on a link.
pub open spec fn attempt_on(packet: PacketView, key: Seq<u8>, id: u8) -> AttemptView {
    AttemptView {
        link: id,
        message: if packet.payload.len() > MAX_PAYLOAD {
            Err(PacketError::PayloadTooLarge)
        } else {
            Ok(message_on(packet, key, id))
        },
    }
}

/// How an attempt ends, given the reply of its link.
pub open spec fn outcome(packet: PacketView, reply: Reply) -> Result<(), SendError> {
    match reply {
        Reply::NoCarrier => Err(SendError::NoCarrier),
        Reply::Taken => if packet.payload.len() > MAX_PAYLOAD {
            Err(SendError::Codec(PacketError::PayloadTooLarge))
        } else {
            Ok(())
        },
        Reply::Refused(code) => if packet.payload.len() > MAX_PAYLOAD {
            Err(SendError::Codec(PacketError::PayloadTooLarge))
        } else {
            Err(SendError::Socket(code))
        },
    }
}

/// What the links are asked in an attempt that has a reply.
pub open spec fn entries_of(attempt: AttemptView, reply: Reply) -> Seq<Entry> {
    let link: u8 = attempt.link;
    match reply {
        Reply::NoCarrier => seq![Entry::Asked { link, up: false }],
        Reply::Taken => match attempt.message {
            Ok(wire) => seq![
                Entry::Asked { link, up: true },
                Entry::Handed { link, wire, refusal: None },
            ],
            Err(_) => seq![Entry::Asked { link, up: true }],
        },
        Reply::Refused(code) => match attempt.message {
            Ok(wire) => seq![
                Entry::Asked { link, up: true },
                Entry::Handed { link, wire, refusal: Some(code) },
            ],
            Err(_) => seq![Entry::Asked { link, up: true }],
        },
    }
}

/// How an attempt ends, given the reply of its link.
pub fn outcome_of(packet: &Packet, reply: Reply) -> (r: Result<(), SendError>)
    ensures
        r == outcome(packet@, reply),
{
    match reply {
        Reply::NoCarrier => Err(SendError::NoCarrier),
        Reply::Taken => if packet.payload.len() > MAX_PAYLOAD {
            Err(SendError::Codec(PacketError::PayloadTooLarge))
        } else {
            Ok(())
        },
        Reply::Refused(code) => if packet.payload.len() > MAX_PAYLOAD {
            Err(SendError::Codec(PacketError::PayloadTooLarge))
        } else {
            Err(SendError::Socket(code))
        },
    }
}

/// The attempt to send a packet on a link.
pub fn put_on(packet: &Packet, key: &[u8], id: u8) -> (r: Attempt)
    ensures
        r@ == attempt_on(packet@, key@, id),
{
    let mut copy: Packet = packet.clone();
    copy.link = id;
    assert(copy@ =~= (PacketView { link: id, ..packet@ }));
    Attempt { link: id, message: copy.encode(key) }
}

/// Makes an attempt: the link is asked for a carrier, and if it has one it is
/// handed the message.
pub fn ask<W: WanWriter>(attempt: &Attempt, writer: &mut W) -> (r: Reply)
    ensures
        final(writer).history() == old(writer).history() + entries_of(attempt@, r),
{
    let ghost log: History = writer.history();
    if !writer.carrier(attempt.link) {
        assert(writer.history() =~= log + entries_of(attempt@, Reply::NoCarrier));
        return Reply::NoCarrier;
    }
    match &attempt.message {
        Ok(bytes) => match writer.send(attempt.link, bytes.as_slice()) {
            Ok(_) => {
                assert(writer.history() =~= log + entries_of(attempt@, Reply::Taken));
                Reply::Taken
            },
            Err(code) => {
                assert(writer.history() =~= log + entries_of(attempt@, Reply::Refused(code)));
                Reply::Refused(code)
            },
        },
        Err(_error) => {
            assert(writer.history() =~= log + entries_of(attempt@, Reply::Taken));
            Reply::Taken
        },
    }
}

// ---- One packet, link after link -----------------------------------------------------

/// The links to try: the chosen one, then the other healthy ones among the
/// first `n` of a snapshot.
pub open spec fn attempt_order(primary: u8, snapshot: Seq<Link>, n: nat) -> Seq<u8>
    decreases n,
{
    if n == 0 {
        seq![primary]
    } else {
        let before: Seq<u8> = attempt_order(primary, snapshot, (n - 1) as nat);
        if snapshot[n - 1].healthy() && !before.contains(snapshot[n - 1].id) {
            before.push(snapshot[n - 1].id)
        } else {
            before
        }
    }
}

/// A packet that is offered to links in order until one takes it, with the
/// replies so far.
pub struct Cascade {
    pub packet: Packet,
    pub order: Vec<u8>,
    pub replies: Vec<Reply>,
}

#[verifier::ext_equal]
pub struct CascadeView {
    pub packet: PacketView,
    pub order: Seq<u8>,
    pub replies: Seq<Reply>,
}

impl View for Cascade {
    type V = CascadeView;

    open spec fn view(&self) -> CascadeView {
        CascadeView { packet: self.packet@, order: self.order@, replies: self.replies@ }
    }
}

pub open spec fn cascade_views(list: Seq<Cascade>) -> Seq<CascadeView> {
    list.map_values(|c: Cascade| c@)
}

/// A packet that no link was offered yet.
pub open spec fn fresh_cascade(packet: PacketView, primary: u8, snapshot: Seq<Link>) -> CascadeView {
    CascadeView {
        packet,
        order: attempt_order(primary, snapshot, snapshot.len()),
        replies: Seq::empty(),
    }
}

impl CascadeView {
    /// The replies are those of the first links, and only the last may have
    /// taken the packet.
    pub open spec fn wf(self) -> bool {
        &&& self.replies.len() <= self.order.len()
        &&& forall|i: int|
            0 <= i < self.replies.len() - 1 ==> outcome(self.packet, #[trigger] self.replies[i])
                is Err
    }

    /// The link that took the packet, or why none did.
    pub open spec fn result(self) -> Result<u8, SendError> {
        if self.replies.len() == 0 {
            Err(SendError::NoSocket)
        } else {
            match outcome(self.packet, self.replies.last()) {
                Ok(_) => Ok(self.order[self.replies.len() - 1]),
                Err(error) => Err(error),
            }
        }
    }

    /// Whether a link took the packet, or none is left.
    pub open spec fn settled(self) -> bool {
        self.result() is Ok || self.replies.len() >= self.order.len()
    }

    pub open spec fn next(self, key: Seq<u8>) -> Option<AttemptView> {
        if self.settled() {
            None
        } else {
            Some(attempt_on(self.packet, key, self.order[self.replies.len() as int]))
        }
    }

    pub open spec fn answered(self, reply: Reply) -> CascadeView {
        CascadeView { replies: self.replies.push(reply), ..self }
    }

    pub open spec fn with(self, replies: Seq<Reply>) -> CascadeView {
        CascadeView { replies, ..self }
    }

    /// What the links were asked, up to the first `n` replies.
    pub open spec fn entries(self, key: Seq<u8>, n: nat) -> Seq<Entry>
        decreases n,
    {
        if n == 0 {
            Seq::empty()
        } else {
            self.entries(key, (n - 1) as nat) + entries_of(
                attempt_on(self.packet, key, self.order[n - 1]),
                self.replies[n - 1],
            )
        }
    }

    pub open spec fn log(self, key: Seq<u8>) -> Seq<Entry> {
        self.entries(key, self.replies.len())
    }

    proof fn lemma_log(self, key: Seq<u8>, reply: Reply, n: nat)
        requires
            n <= self.replies.len(),
        ensures
            self.answered(reply).entries(key, n) == self.entries(key, n),
            n == self.replies.len() ==> self.answered(reply).log(key) == self.log(key) + entries_of(
                attempt_on(self.packet, key, self.order[n as int]),
                reply,
            ),
        decreases n,
    {
        if n > 0 {
            self.lemma_log(key, reply, (n - 1) as nat);
        }
    }
}

impl Cascade {
    pub open spec fn wf(&self) -> bool {
        self@.wf()
    }

    pub fn new(packet: Packet, primary: u8, snapshot: &[Link]) -> (r: Self)
        ensures
            r.wf(),
            r@ == fresh_cascade(packet@, primary, snapshot@),
    {
        let r: Cascade = Cascade {
            packet,
            order: order_attempts(primary, snapshot),
            replies: Vec::new(),
        };
        assert(r@.replies =~= Seq::empty());
        r
    }

    /// The link that took the packet, or why none did.
    pub fn result(&self) -> (r: Result<u8, SendError>)
        requires
            self.wf(),
        ensures
            r == self@.result(),
    {
        if self.replies.len() == 0 {
            return Err(SendError::NoSocket);
        }
        let last: usize = self.replies.len() - 1;
        match outcome_of(&self.packet, self.replies[last]) {
            Ok(_) => Ok(self.order[last]),
            Err(error) => Err(error),
        }
    }

    /// The next attempt, unless the packet is settled.
    pub fn next(&self, key: &[u8]) -> (r: Option<Attempt>)
        requires
            self.wf(),
        ensures
            attempt_view(r) == self@.next(key@),
    {
        if self.result().is_ok() || self.replies.len() >= self.order.len() {
            None
        } else {
            Some(put_on(&self.packet, key, self.order[self.replies.len()]))
        }
    }

    /// The reply to the next attempt.
    pub fn reply(&mut self, reply: Reply)
        requires
            old(self).wf(),
            !old(self)@.settled(),
        ensures
            final(self).wf(),
            final(self)@ == old(self)@.answered(reply),
    {
        self.replies.push(reply);
        proof {
            assert(self@ =~= old(self)@.answered(reply));
            let before: CascadeView = old(self)@;
            assert forall|i: int| 0 <= i < self@.replies.len() - 1 implies outcome(
                self@.packet,
                #[trigger] self@.replies[i],
            ) is Err by {
                assert(self@.replies[i] == before.replies[i]);
                if i == before.replies.len() - 1 {
                    assert(before.replies.last() == before.replies[i]);
                }
            }
        }
    }

    /// Makes the attempts that are left.
    pub fn run<W: WanWriter>(&mut self, key: &[u8], writer: &mut W)
        requires
            old(self).wf(),
            old(self)@.replies.len() == 0,
        ensures
            final(self).wf(),
            final(self)@.settled(),
            final(self)@ == old(self)@.with(final(self)@.replies),
            final(writer).history() == old(writer).history() + final(self)@.log(key@),
    {
        let ghost log: History = writer.history();
        assert(log + self@.log(key@) =~= log);
        loop
            invariant
                self.wf(),
                self@ == old(self)@.with(self@.replies),
                writer.history() == log + self@.log(key@),
                log == old(writer).history(),
            ensures
                self@.settled(),
            decreases self@.order.len() - self@.replies.len(),
        {
            match self.next(key) {
                Some(attempt) => {
                    let ghost before: CascadeView = self@;
                    let ghost had: History = writer.history();
                    let reply: Reply = ask(&attempt, writer);
                    self.reply(reply);
                    proof {
                        before.lemma_log(key@, reply, before.replies.len());
                        assert(had + entries_of(attempt@, reply) =~= log + self@.log(key@));
                    }
                },
                None => {
                    break;
                },
            }
        }
    }
}

/// How many packets of a list were taken, among the first `n`.
pub open spec fn taken(list: Seq<CascadeView>, n: nat) -> nat
    decreases n,
{
    if n == 0 {
        0
    } else if list[n - 1].result() is Ok {
        taken(list, (n - 1) as nat) + 1
    } else {
        taken(list, (n - 1) as nat)
    }
}

/// What the links were asked for the first `n` packets of a list.
pub open spec fn all_entries(list: Seq<CascadeView>, key: Seq<u8>, n: nat) -> Seq<Entry>
    decreases n,
{
    if n == 0 {
        Seq::empty()
    } else {
        all_entries(list, key, (n - 1) as nat) + list[n - 1].log(key)
    }
}

/// A list of packets with the replies to each.
pub open spec fn with_replies(list: Seq<CascadeView>, replies: Seq<Seq<Reply>>) -> Seq<CascadeView> {
    Seq::new(list.len(), |i: int| list[i].with(replies[i]))
}

/// Whether every packet of a list is settled.
pub open spec fn all_settled(list: Seq<CascadeView>) -> bool {
    forall|i: int| 0 <= i < list.len() ==> (#[trigger] list[i]).wf() && list[i].settled()
}

/// How many packets of a list were taken.
pub fn count_taken(list: &Vec<Cascade>) -> (r: usize)
    requires
        forall|i: int| 0 <= i < list@.len() ==> (#[trigger] list@[i]).wf(),
    ensures
        r == taken(cascade_views(list@), list@.len()),
{
    let mut count: usize = 0;
    let mut i: usize = 0;
    while i < list.len()
        invariant
            i <= list@.len(),
            forall|j: int| 0 <= j < list@.len() ==> (#[trigger] list@[j]).wf(),
            count == taken(cascade_views(list@), i as nat),
            count <= i,
        decreases list@.len() - i,
    {
        assert(cascade_views(list@)[i as int] == list@[i as int]@);
        if list[i].result().is_ok() {
            count = count + 1;
        }
        i = i + 1;
    }
    count
}

// ---- Forwarding: the packet, and a copy ------------------------------------------------

/// A packet on its way, with the link that gets a copy, or zero.
pub struct Forwarding {
    pub cascade: Cascade,
    pub fec: u8,
    pub copy: Option<Reply>,
}

#[verifier::ext_equal]
pub struct ForwardingView {
    pub cascade: CascadeView,
    pub fec: u8,
    pub copy: Option<Reply>,
}

impl View for Forwarding {
    type V = ForwardingView;

    open spec fn view(&self) -> ForwardingView {
        ForwardingView { cascade: self.cascade@, fec: self.fec, copy: self.copy }
    }
}

impl ForwardingView {
    pub open spec fn wf(self) -> bool {
        &&& self.cascade.wf()
        &&& self.copy is Some ==> self.cascade.settled()
    }

    /// Whether a link other than the one that took the packet gets a copy.
    pub open spec fn wants_copy(self) -> bool {
        match self.cascade.result() {
            Ok(primary) => self.fec != 0 && self.fec != primary,
            Err(_) => false,
        }
    }

    /// The packet as it was taken.
    pub open spec fn kept(self) -> PacketView {
        PacketView { link: self.cascade.result()->Ok_0, ..self.cascade.packet }
    }

    /// The copy that protects it.
    pub open spec fn second(self) -> PacketView {
        PacketView { flags: kept_flags(self.cascade.packet.flags, FEC), ..self.kept() }
    }

    pub open spec fn settled(self) -> bool {
        self.cascade.settled() && (self.wants_copy() ==> self.copy is Some)
    }

    pub open spec fn next(self, key: Seq<u8>) -> Option<AttemptView> {
        if !self.cascade.settled() {
            self.cascade.next(key)
        } else if self.wants_copy() && self.copy is None {
            Some(attempt_on(self.second(), key, self.fec))
        } else {
            None
        }
    }

    pub open spec fn answered(self, reply: Reply) -> ForwardingView {
        if !self.cascade.settled() {
            ForwardingView { cascade: self.cascade.answered(reply), ..self }
        } else {
            ForwardingView { copy: Some(reply), ..self }
        }
    }

    pub open spec fn with(self, replies: Seq<Reply>, copy: Option<Reply>) -> ForwardingView {
        ForwardingView { cascade: self.cascade.with(replies), copy, ..self }
    }

    /// What the links were asked.
    pub open spec fn log(self, key: Seq<u8>) -> Seq<Entry> {
        self.cascade.log(key) + if self.wants_copy() && self.copy is Some {
            entries_of(attempt_on(self.second(), key, self.fec), self.copy->0)
        } else {
            Seq::empty()
        }
    }

    /// The link that took the copy.
    pub open spec fn duplicate(self) -> Option<u8> {
        if self.wants_copy() && self.copy is Some && outcome(self.second(), self.copy->0) is Ok {
            Some(self.fec)
        } else {
            None
        }
    }
}

impl Forwarding {
    pub open spec fn wf(&self) -> bool {
        self@.wf()
    }

    fn copy_for(&self) -> (r: Option<Packet>)
        requires
            self.wf(),
        ensures
            match r {
                Some(packet) => self@.wants_copy() && packet@ == self@.second(),
                None => !self@.wants_copy(),
            },
    {
        match self.cascade.result() {
            Ok(primary) => if self.fec != 0 && self.fec != primary {
                let mut packet: Packet = self.cascade.packet.clone();
                packet.link = primary;
                packet.flags = flags_with(packet.flags, FEC);
                assert(packet@ =~= self@.second());
                Some(packet)
            } else {
                None
            },
            Err(_error) => None,
        }
    }

    /// The next attempt, unless all is settled.
    pub fn next(&self, key: &[u8]) -> (r: Option<Attempt>)
        requires
            self.wf(),
        ensures
            attempt_view(r) == self@.next(key@),
    {
        match self.cascade.next(key) {
            Some(attempt) => Some(attempt),
            None => match self.copy_for() {
                Some(packet) => if self.copy.is_none() {
                    Some(put_on(&packet, key, self.fec))
                } else {
                    None
                },
                None => None,
            },
        }
    }

    /// The reply to the next attempt.
    pub fn reply(&mut self, reply: Reply)
        requires
            old(self).wf(),
            !old(self)@.settled(),
        ensures
            final(self).wf(),
            final(self)@ == old(self)@.answered(reply),
    {
        if self.cascade.result().is_ok() || self.cascade.replies.len() >= self.cascade.order.len() {
            self.copy = Some(reply);
        } else {
            self.cascade.reply(reply);
        }
    }

    /// Makes all attempts.
    pub fn run<W: WanWriter>(&mut self, key: &[u8], writer: &mut W)
        requires
            old(self).wf(),
            old(self)@.cascade.replies.len() == 0,
            old(self)@.copy is None,
        ensures
            final(self).wf(),
            final(self)@.settled(),
            final(self)@ == old(self)@.with(final(self)@.cascade.replies, final(self)@.copy),
            final(writer).history() == old(writer).history() + final(self)@.log(key@),
    {
        let ghost log: History = writer.history();
        self.cascade.run(key, writer);
        match self.next(key) {
            Some(attempt) => {
                let ghost had: History = writer.history();
                let ghost before: ForwardingView = self@;
                let reply: Reply = ask(&attempt, writer);
                self.reply(reply);
                proof {
                    assert(self@.second() == before.second());
                    assert(writer.history() =~= log + self@.log(key@));
                }
            },
            None => {
                assert(writer.history() =~= log + self@.log(key@));
            },
        }
        assert(self@ =~= old(self)@.with(self@.cascade.replies, self@.copy));
    }
}

#[verifier::ext_equal]
pub struct SenderView {
    pub session: u32,
    pub key: Seq<u8>,
    pub scheduler: LinkSchedulerView,
    pub sequences: Map<u128, u32>,
    pub cache: CacheView,
}

/// The flags of a packet's first copy, or of its protection.
pub open spec fn kept_flags(flags: u8, mark: u8) -> u8 {
    if envelope::is_set(flags, TUN) {
        (mark + TUN) as u8
    } else {
        mark
    }
}

pub open spec fn resend_flags(flags: u8) -> u8 {
    if envelope::is_set(flags, RESEND) {
        flags
    } else {
        (flags + RESEND) as u8
    }
}

impl SenderView {
    pub open spec fn next_sequence(self, port: u16) -> u32 {
        if self.sequences.contains_key(port as u128) {
            self.sequences[port as u128]
        } else {
            0
        }
    }

    /// The sender after the decision on a packet, which takes a number.
    pub open spec fn admitted(self, packet: PacketView, snapshot: Seq<Link>) -> SenderView {
        SenderView {
            scheduler: self.scheduler.scheduled(packet.class, snapshot).0,
            sequences: self.sequences.insert(
                packet.local_port as u128,
                self.next_sequence(packet.local_port).wrapping_add(1),
            ),
            ..self
        }
    }

    /// The packet with its number and marks.
    pub open spec fn numbered(self, packet: PacketView) -> PacketView {
        PacketView {
            sequence: self.next_sequence(packet.local_port),
            session: self.session,
            flags: kept_flags(packet.flags, PRIMARY),
            ..packet
        }
    }

    /// The decision on a packet, which takes a number: the sender, and the
    /// packet on its way.
    pub open spec fn begun(self, packet: PacketView, snapshot: Seq<Link>) -> (
        SenderView,
        Result<ForwardingView, SendError>,
    ) {
        if packet.payload.len() > MAX_PAYLOAD {
            (self, Err(SendError::PayloadTooLarge))
        } else {
            match self.scheduler.scheduled(packet.class, snapshot).1 {
                Err(error) => (
                    SenderView {
                        scheduler: self.scheduler.scheduled(packet.class, snapshot).0,
                        ..self
                    },
                    Err(SendError::Schedule(error)),
                ),
                Ok(decision) => (
                    self.admitted(packet, snapshot),
                    Ok(
                        ForwardingView {
                            cascade: fresh_cascade(
                                self.numbered(packet),
                                decision.primary,
                                snapshot,
                            ),
                            fec: decision.fec,
                            copy: None,
                        },
                    ),
                ),
            }
        }
    }

    /// What comes of a packet whose replies are in: it is kept if a link took
    /// it.
    pub open spec fn concluded(self, f: ForwardingView) -> (SenderView, Result<Sent, SendError>) {
        match f.cascade.result() {
            Err(error) => (self, Err(error)),
            Ok(primary) => (
                SenderView { cache: self.cache.stored(f.kept()), ..self },
                Ok(
                    Sent {
                        sequence: f.cascade.packet.sequence,
                        primary,
                        duplicate: f.duplicate(),
                    },
                ),
            ),
        }
    }

    /// What forwarding comes to, given the replies of the links: the state,
    /// what they were asked, and the result.
    pub open spec fn forwarded(
        self,
        packet: PacketView,
        snapshot: Seq<Link>,
        replies: Seq<Reply>,
        copy: Option<Reply>,
    ) -> (SenderView, Seq<Entry>, Result<Sent, SendError>) {
        let (next, begun) = self.begun(packet, snapshot);
        match begun {
            Err(error) => (next, Seq::empty(), Err(error)),
            Ok(f) => {
                let (after, sent) = next.concluded(f.with(replies, copy));
                (after, f.with(replies, copy).log(self.key), sent)
            },
        }
    }

    /// Whether the replies are those of the attempts that forwarding makes.
    pub open spec fn forward_asks(
        self,
        packet: PacketView,
        snapshot: Seq<Link>,
        replies: Seq<Reply>,
        copy: Option<Reply>,
    ) -> bool {
        match self.begun(packet, snapshot).1 {
            Ok(f) => f.with(replies, copy).wf() && f.with(replies, copy).settled(),
            Err(error) => true,
        }
    }

    /// The packet to repeat for a requested number.
    pub open spec fn repeated(self, port: u16, sequence: u32) -> Option<PacketView> {
        match self.cache.found(port, sequence) {
            Some(packet) => Some(
                PacketView { flags: resend_flags(packet.flags), ..packet },
            ),
            None => None,
        }
    }

    /// The packets to repeat for requested numbers, as far as they are kept.
    pub open spec fn repeats(self, port: u16, sequences: Seq<u32>, snapshot: Seq<Link>) -> Seq<
        CascadeView,
    >
        decreases sequences.len(),
    {
        if sequences.len() == 0 {
            Seq::empty()
        } else {
            let before: Seq<CascadeView> = self.repeats(port, sequences.drop_last(), snapshot);
            match self.repeated(port, sequences.last()) {
                None => before,
                Some(packet) => before.push(fresh_cascade(packet, packet.link, snapshot)),
            }
        }
    }

    /// The control packet in a message, if it is one of this session; with the
    /// numbers that it asks for.
    pub open spec fn control_read(self, bytes: Seq<u8>) -> Result<(PacketView, Seq<u32>), SendError> {
        match envelope::spec_decode(bytes, self.key) {
            Err(error) => Err(SendError::Codec(error)),
            Ok(packet) => if packet.session != self.session {
                Err(SendError::WrongSession)
            } else if packet.flags == ACK {
                Ok((packet, Seq::empty()))
            } else if packet.flags != NACK {
                Err(SendError::NotControl)
            } else {
                match envelope::spec_decode_nack(packet.payload) {
                    Err(error) => Err(SendError::Codec(error)),
                    Ok(sequences) => Ok((packet, sequences)),
                }
            },
        }
    }

    /// What a control message asks for: the sender, and the packets to repeat.
    pub open spec fn control_begun(self, bytes: Seq<u8>, snapshot: Seq<Link>) -> (
        SenderView,
        Result<Seq<CascadeView>, SendError>,
    ) {
        match self.control_read(bytes) {
            Err(error) => (self, Err(error)),
            Ok((packet, sequences)) => if packet.flags == ACK {
                (
                    SenderView {
                        cache: self.cache.trimmed(packet.local_port, packet.sequence),
                        ..self
                    },
                    Ok(Seq::empty()),
                )
            } else {
                (self, Ok(self.repeats(packet.local_port, sequences, snapshot)))
            },
        }
    }

    /// What a control message comes to, given the replies for each packet: the
    /// state, what the links were asked, and how many packets were taken.
    pub open spec fn controlled(
        self,
        bytes: Seq<u8>,
        snapshot: Seq<Link>,
        replies: Seq<Seq<Reply>>,
    ) -> (SenderView, Seq<Entry>, Result<nat, SendError>) {
        let (next, begun) = self.control_begun(bytes, snapshot);
        match begun {
            Err(error) => (next, Seq::empty(), Err(error)),
            Ok(list) => {
                let done: Seq<CascadeView> = with_replies(list, replies);
                (next, all_entries(done, self.key, done.len()), Ok(taken(done, done.len())))
            },
        }
    }

    /// Whether the replies are those of the attempts that a control message
    /// leads to.
    pub open spec fn control_asks(
        self,
        bytes: Seq<u8>,
        snapshot: Seq<Link>,
        replies: Seq<Seq<Reply>>,
    ) -> bool {
        match self.control_begun(bytes, snapshot).1 {
            Ok(list) => all_settled(with_replies(list, replies)),
            Err(error) => true,
        }
    }
}

pub struct Sender {
    session: u32,
    key: Vec<u8>,
    scheduler: Scheduler,
    sequences: Table<u32>,
    cache: PacketCache,
}

impl View for Sender {
    type V = SenderView;

    closed spec fn view(&self) -> SenderView {
        SenderView {
            session: self.session,
            key: self.key@,
            scheduler: self.scheduler@,
            sequences: self.sequences@,
            cache: self.cache@,
        }
    }
}

fn holds_id(list: &Vec<u8>, id: u8) -> (r: bool)
    ensures
        r == list@.contains(id),
{
    let mut i: usize = 0;
    while i < list.len()
        invariant
            i <= list@.len(),
            forall|j: int| 0 <= j < i ==> list@[j] != id,
        decreases list@.len() - i,
    {
        if list[i] == id {
            return true;
        }
        i = i + 1;
    }
    false
}

fn order_attempts(primary: u8, snapshot: &[Link]) -> (r: Vec<u8>)
    ensures
        r@ == attempt_order(primary, snapshot@, snapshot@.len()),
{
    let mut order: Vec<u8> = Vec::new();
    order.push(primary);
    let mut i: usize = 0;
    assert(order@ =~= seq![primary]);
    while i < snapshot.len()
        invariant
            i <= snapshot@.len(),
            order@ == attempt_order(primary, snapshot@, i as nat),
        decreases snapshot@.len() - i,
    {
        if snapshot[i].healthy() && !holds_id(&order, snapshot[i].id) {
            order.push(snapshot[i].id);
        }
        i = i + 1;
    }
    order
}

fn flags_with(flags: u8, mark: u8) -> (r: u8)
    requires
        mark < TUN,
    ensures
        r == kept_flags(flags, mark),
{
    if (flags / TUN) % 2 == 1 {
        mark + TUN
    } else {
        mark
    }
}

impl Sender {
    pub closed spec fn wf(&self) -> bool {
        self.sequences.wf() && self.cache.wf()
    }

    pub fn new(session: u32, key: Vec<u8>, config: Config) -> (r: Result<Self, SendError>)
        ensures
            match r {
                Ok(sender) => {
                    &&& session != 0 && key@.len() >= MIN_KEY
                    &&& sender.wf()
                    &&& sender@ == (SenderView {
                        session,
                        key: key@,
                        scheduler: LinkSchedulerView {
                            config: link::completed(config),
                            counter: 0,
                        },
                        sequences: Map::empty(),
                        cache: CacheView {
                            max: CACHE_PACKETS as nat,
                            packets: Seq::empty(),
                            high_ack: Map::empty(),
                        },
                    })
                },
                Err(error) => (session == 0 || key@.len() < MIN_KEY) && error
                    == SendError::InvalidSession,
            },
    {
        if session == 0 || key.len() < MIN_KEY {
            return Err(SendError::InvalidSession);
        }
        Ok(
            Sender {
                session,
                key,
                scheduler: Scheduler::new(config),
                sequences: Table::new(),
                cache: PacketCache::new(CACHE_PACKETS),
            },
        )
    }

    /// Changes the policy. Sequence numbers and the repair cache stay.
    pub fn set_config(&mut self, config: Config)
        requires
            old(self).wf(),
        ensures
            final(self).wf(),
            final(self)@ == (SenderView {
                scheduler: LinkSchedulerView { config: link::completed(config), counter: 0 },
                ..old(self)@
            }),
    {
        self.scheduler = Scheduler::new(config);
    }

    /// Decides on a packet and gives it its number. The attempts that it takes
    /// are then for the caller to make.
    pub fn begin(&mut self, packet: Packet, snapshot: &[Link]) -> (r: Result<
        Forwarding,
        SendError,
    >)
        requires
            old(self).wf(),
        ensures
            final(self).wf(),
            final(self)@ == old(self)@.begun(packet@, snapshot@).0,
            match r {
                Ok(f) => f.wf() && old(self)@.begun(packet@, snapshot@).1 == Ok::<
                    ForwardingView,
                    SendError,
                >(f@),
                Err(error) => old(self)@.begun(packet@, snapshot@).1 == Err::<
                    ForwardingView,
                    SendError,
                >(error),
            },
    {
        let ghost before: SenderView = self@;
        let ghost text: PacketView = packet@;
        if packet.payload.len() > MAX_PAYLOAD {
            return Err(SendError::PayloadTooLarge);
        }
        let decision: Decision = match self.scheduler.schedule(packet.class, snapshot) {
            Ok(decision) => decision,
            Err(error) => {
                assert(self@ =~= before.begun(text, snapshot@).0);
                return Err(SendError::Schedule(error));
            },
        };
        let port: u128 = packet.local_port as u128;
        let sequence: u32 = match self.sequences.get(port) {
            Some(sequence) => sequence,
            None => 0,
        };
        self.sequences.insert(port, sequence.wrapping_add(1));
        assert(self@ =~= before.admitted(text, snapshot@));
        let mut packet: Packet = packet;
        packet.sequence = sequence;
        packet.session = self.session;
        packet.flags = flags_with(packet.flags, PRIMARY);
        assert(packet@ =~= before.numbered(text));
        Ok(
            Forwarding {
                cascade: Cascade::new(packet, decision.primary, snapshot),
                fec: decision.fec,
                copy: None,
            },
        )
    }

    /// The next link to try for a packet, and the message for it.
    pub fn next_attempt(&self, f: &Forwarding) -> (r: Option<Attempt>)
        requires
            f.wf(),
        ensures
            attempt_view(r) == f@.next(self@.key),
    {
        f.next(self.key.as_slice())
    }

    /// Concludes a packet whose replies are in.
    pub fn conclude(&mut self, f: Forwarding) -> (r: Result<Sent, SendError>)
        requires
            old(self).wf(),
            f.wf(),
        ensures
            final(self).wf(),
            (final(self)@, r) == old(self)@.concluded(f@),
    {
        let primary: u8 = match f.cascade.result() {
            Ok(primary) => primary,
            Err(error) => {
                return Err(error);
            },
        };
        let sequence: u32 = f.cascade.packet.sequence;
        let duplicate: Option<u8> = match (f.copy_for(), f.copy) {
            (Some(packet), Some(reply)) => if outcome_of(&packet, reply).is_ok() {
                Some(f.fec)
            } else {
                None
            },
            _ => None,
        };
        let ghost view: ForwardingView = f@;
        let ghost before: SenderView = self@;
        let mut packet: Packet = f.cascade.packet;
        packet.link = primary;
        assert(packet@ =~= view.kept());
        self.cache.store(packet);
        assert(self@ =~= before.concluded(view).0);
        Ok(Sent { sequence, primary, duplicate })
    }

    /// Sends a packet on the links that its class and their health suggest.
    /// The first link that takes it is its primary.
    pub fn forward<W: WanWriter>(
        &mut self,
        packet: Packet,
        snapshot: &[Link],
        writer: &mut W,
    ) -> (r: Result<Sent, SendError>)
        requires
            old(self).wf(),
        ensures
            final(self).wf(),
            exists|replies: Seq<Reply>, copy: Option<Reply>|
                {
                    let run: (SenderView, Seq<Entry>, Result<Sent, SendError>) =
                        #[trigger] old(self)@.forwarded(packet@, snapshot@, replies, copy);
                    &&& old(self)@.forward_asks(packet@, snapshot@, replies, copy)
                    &&& final(self)@ == run.0
                    &&& final(writer).history() == old(writer).history() + run.1
                    &&& r == run.2
                },
    {
        let ghost log: History = writer.history();
        let ghost text: PacketView = packet@;
        let mut f: Forwarding = match self.begin(packet, snapshot) {
            Ok(f) => f,
            Err(error) => {
                proof {
                    let none: Seq<Reply> = Seq::empty();
                    let run: (SenderView, Seq<Entry>, Result<Sent, SendError>) = old(
                        self,
                    )@.forwarded(text, snapshot@, none, None);
                    assert(log + run.1 =~= log);
                }
                return Err(error);
            },
        };
        let ghost start: ForwardingView = f@;
        f.run(self.key.as_slice(), writer);
        proof {
            let run: (SenderView, Seq<Entry>, Result<Sent, SendError>) = old(self)@.forwarded(
                text,
                snapshot@,
                f@.cascade.replies,
                f@.copy,
            );
            assert(f@ == start.with(f@.cascade.replies, f@.copy));
            assert(self@.key == old(self)@.key);
            assert(writer.history() == log + run.1);
        }
        self.conclude(f)
    }

    /// Takes a control message of the peer. Only an authentic one of this
    /// session trims the cache or has packets sent again: these are for the
    /// caller to send.
    pub fn begin_control(&mut self, bytes: &[u8], snapshot: &[Link]) -> (r: Result<
        Vec<Cascade>,
        SendError,
    >)
        requires
            old(self).wf(),
        ensures
            final(self).wf(),
            final(self)@ == old(self)@.control_begun(bytes@, snapshot@).0,
            match r {
                Ok(list) => {
                    &&& forall|i: int| 0 <= i < list@.len() ==> (#[trigger] list@[i]).wf()
                    &&& old(self)@.control_begun(bytes@, snapshot@).1 == Ok::<
                        Seq<CascadeView>,
                        SendError,
                    >(cascade_views(list@))
                },
                Err(error) => old(self)@.control_begun(bytes@, snapshot@).1 == Err::<
                    Seq<CascadeView>,
                    SendError,
                >(error),
            },
    {
        let ghost before: SenderView = self@;
        let control: Packet = match Packet::decode(bytes, self.key.as_slice()) {
            Ok(control) => control,
            Err(error) => {
                return Err(SendError::Codec(error));
            },
        };
        if control.session != self.session {
            return Err(SendError::WrongSession);
        }
        if control.flags == ACK {
            self.cache.trim_through(control.local_port, control.sequence);
            assert(self@ =~= before.control_begun(bytes@, snapshot@).0);
            let none: Vec<Cascade> = Vec::new();
            assert(cascade_views(none@) =~= Seq::empty());
            return Ok(none);
        }
        if control.flags != NACK {
            return Err(SendError::NotControl);
        }
        let sequences: Vec<u32> = match envelope::decode_nack(control.payload.as_slice()) {
            Ok(sequences) => sequences,
            Err(error) => {
                return Err(SendError::Codec(error));
            },
        };
        Ok(self.repeat(control.local_port, &sequences, snapshot))
    }

    fn repeat(&self, port: u16, sequences: &Vec<u32>, snapshot: &[Link]) -> (r: Vec<Cascade>)
        ensures
            forall|i: int| 0 <= i < r@.len() ==> (#[trigger] r@[i]).wf(),
            cascade_views(r@) == self@.repeats(port, sequences@, snapshot@),
    {
        let mut list: Vec<Cascade> = Vec::new();
        let mut i: usize = 0;
        assert(sequences@.take(0) =~= Seq::empty());
        assert(cascade_views(list@) =~= Seq::empty());
        while i < sequences.len()
            invariant
                i <= sequences@.len(),
                forall|j: int| 0 <= j < list@.len() ==> (#[trigger] list@[j]).wf(),
                cascade_views(list@) == self@.repeats(port, sequences@.take(i as int), snapshot@),
            decreases sequences@.len() - i,
        {
            let sequence: u32 = sequences[i];
            proof {
                assert(sequences@.take(i + 1).drop_last() =~= sequences@.take(i as int));
                assert(sequences@.take(i + 1).last() == sequence);
            }
            match self.cache.get(port, sequence) {
                Some(found) => {
                    let mut packet: Packet = found.clone();
                    let link: u8 = packet.link;
                    if (packet.flags / RESEND) % 2 != 1 {
                        packet.flags = packet.flags + RESEND;
                    }
                    assert(packet@ =~= self@.repeated(port, sequence)->0);
                    let ghost had: Seq<Cascade> = list@;
                    list.push(Cascade::new(packet, link, snapshot));
                    assert(cascade_views(list@) =~= cascade_views(had).push(list@.last()@));
                },
                None => {},
            }
            i = i + 1;
        }
        assert(sequences@.take(i as int) =~= sequences@);
        list
    }

    /// The next link to try for a packet that is repeated, and the message for
    /// it.
    pub fn next_repeat(&self, c: &Cascade) -> (r: Option<Attempt>)
        requires
            c.wf(),
        ensures
            attempt_view(r) == c@.next(self@.key),
    {
        c.next(self.key.as_slice())
    }

    /// Sends all packets of a list.
    pub fn send_all<W: WanWriter>(&self, list: &mut Vec<Cascade>, writer: &mut W)
        requires
            forall|i: int|
                0 <= i < old(list)@.len() ==> (#[trigger] old(list)@[i]).wf() && old(
                    list,
                )@[i]@.replies.len() == 0,
        ensures
            forall|i: int| 0 <= i < final(list)@.len() ==> (#[trigger] final(list)@[i]).wf(),
            all_settled(cascade_views(final(list)@)),
            cascade_views(final(list)@) == with_replies(
                cascade_views(old(list)@),
                cascade_views(final(list)@).map_values(|c: CascadeView| c.replies),
            ),
            final(writer).history() == old(writer).history() + all_entries(
                cascade_views(final(list)@),
                self@.key,
                final(list)@.len(),
            ),
    {
        let ghost start: Seq<CascadeView> = cascade_views(list@);
        let ghost log: History = writer.history();
        let mut i: usize = 0;
        assert(log + Seq::<Entry>::empty() =~= log);
        while i < list.len()
            invariant
                i <= list@.len(),
                list@.len() == start.len(),
                log == old(writer).history(),
                forall|j: int| 0 <= j < list@.len() ==> (#[trigger] list@[j]).wf(),
                forall|j: int| 0 <= j < i ==> (#[trigger] list@[j])@.settled(),
                forall|j: int|
                    0 <= j < list@.len() ==> (#[trigger] list@[j])@ == start[j].with(
                        list@[j]@.replies,
                    ),
                forall|j: int| i <= j < list@.len() ==> (#[trigger] list@[j])@.replies.len() == 0,
                writer.history() == log + all_entries(
                    cascade_views(list@),
                    self@.key,
                    i as nat,
                ),
            decreases list@.len() - i,
        {
            let ghost before: Seq<Cascade> = list@;
            let ghost had: Seq<Entry> = all_entries(cascade_views(list@), self@.key, i as nat);
            let mut one: Cascade = Cascade {
                packet: Packet::default(),
                order: Vec::new(),
                replies: Vec::new(),
            };
            std::mem::swap(&mut one, &mut list[i]);
            one.run(self.key.as_slice(), writer);
            std::mem::swap(&mut one, &mut list[i]);
            proof {
                lemma_entries_prefix(
                    cascade_views(before),
                    cascade_views(list@),
                    self@.key,
                    i as nat,
                );
                assert(cascade_views(list@)[i as int] == list@[i as int]@);
                assert(log + had + list@[i as int]@.log(self@.key) =~= log + (had
                    + list@[i as int]@.log(self@.key)));
            }
            i = i + 1;
        }
        proof {
            let done: Seq<CascadeView> = cascade_views(list@);
            assert(done =~= with_replies(start, done.map_values(|c: CascadeView| c.replies)));
        }
    }

    /// Takes a control message of the peer. Only an authentic one of this
    /// session trims the cache or has packets sent again; returns how many.
    pub fn control<W: WanWriter>(
        &mut self,
        bytes: &[u8],
        snapshot: &[Link],
        writer: &mut W,
    ) -> (r: Result<usize, SendError>)
        requires
            old(self).wf(),
        ensures
            final(self).wf(),
            exists|replies: Seq<Seq<Reply>>|
                {
                    let run: (SenderView, Seq<Entry>, Result<nat, SendError>) =
                        #[trigger] old(self)@.controlled(bytes@, snapshot@, replies);
                    &&& old(self)@.control_asks(bytes@, snapshot@, replies)
                    &&& final(self)@ == run.0
                    &&& final(writer).history() == old(writer).history() + run.1
                    &&& match r {
                        Ok(sent) => run.2 == Ok::<nat, SendError>(sent as nat),
                        Err(error) => run.2 == Err::<nat, SendError>(error),
                    }
                },
    {
        let ghost log: History = writer.history();
        let mut list: Vec<Cascade> = match self.begin_control(bytes, snapshot) {
            Ok(list) => list,
            Err(error) => {
                proof {
                    let none: Seq<Seq<Reply>> = Seq::empty();
                    let run: (SenderView, Seq<Entry>, Result<nat, SendError>) = old(
                        self,
                    )@.controlled(bytes@, snapshot@, none);
                    assert(log + run.1 =~= log);
                }
                return Err(error);
            },
        };
        let ghost start: Seq<CascadeView> = cascade_views(list@);
        proof {
            old(self)@.lemma_control_fresh(bytes@, snapshot@);
            assert(old(self)@.control_begun(bytes@, snapshot@).1->Ok_0 == start);
            assert forall|i: int| 0 <= i < list@.len() implies (
            #[trigger] list@[i])@.replies.len() == 0 by {
                assert(start[i] == list@[i]@);
            }
        }
        self.send_all(&mut list, writer);
        proof {
            let done: Seq<CascadeView> = cascade_views(list@);
            let replies: Seq<Seq<Reply>> = done.map_values(|c: CascadeView| c.replies);
            let run: (SenderView, Seq<Entry>, Result<nat, SendError>) = old(self)@.controlled(
                bytes@,
                snapshot@,
                replies,
            );
            assert(self@.key == old(self)@.key);
            assert(with_replies(start, replies) == done);
        }
        Ok(count_taken(&list))
    }
}

proof fn lemma_entries_prefix(a: Seq<CascadeView>, b: Seq<CascadeView>, key: Seq<u8>, n: nat)
    requires
        n <= a.len(),
        n <= b.len(),
        forall|i: int| 0 <= i < n ==> #[trigger] a[i] == b[i],
    ensures
        all_entries(a, key, n) == all_entries(b, key, n),
    decreases n,
{
    if n > 0 {
        lemma_entries_prefix(a, b, key, (n - 1) as nat);
        assert(a[n - 1] == b[n - 1]);
    }
}

impl SenderView {
    proof fn lemma_repeats_fresh(self, port: u16, sequences: Seq<u32>, snapshot: Seq<Link>)
        ensures
            forall|i: int|
                0 <= i < self.repeats(port, sequences, snapshot).len() ==> (
                #[trigger] self.repeats(port, sequences, snapshot)[i]).replies.len() == 0,
        decreases sequences.len(),
    {
        if sequences.len() > 0 {
            let before: Seq<CascadeView> = self.repeats(port, sequences.drop_last(), snapshot);
            let all: Seq<CascadeView> = self.repeats(port, sequences, snapshot);
            self.lemma_repeats_fresh(port, sequences.drop_last(), snapshot);
            assert forall|i: int| 0 <= i < all.len() implies (#[trigger] all[i]).replies.len()
                == 0 by {
                if i < before.len() {
                    assert(all[i] == before[i]);
                }
            }
        }
    }

    /// No packet that a control message asks for was offered yet.
    pub proof fn lemma_control_fresh(self, bytes: Seq<u8>, snapshot: Seq<Link>)
        ensures
            match self.control_begun(bytes, snapshot).1 {
                Ok(list) => forall|i: int|
                    0 <= i < list.len() ==> (#[trigger] list[i]).replies.len() == 0,
                Err(error) => true,
            },
    {
        match self.control_read(bytes) {
            Ok((packet, sequences)) => {
                self.lemma_repeats_fresh(packet.local_port, sequences, snapshot);
            },
            Err(error) => {},
        }
    }
}

/// Every packet of a flow takes the next number, whatever becomes of it, and
/// the numbers of other flows stay.
pub proof fn numbers_advance(
    s: SenderView,
    packet: PacketView,
    snapshot: Seq<Link>,
    replies: Seq<Reply>,
    copy: Option<Reply>,
    port: u16,
)
    requires
        packet.payload.len() <= MAX_PAYLOAD,
        s.scheduler.scheduled(packet.class, snapshot).1 is Ok,
    ensures
        s.forwarded(packet, snapshot, replies, copy).0.next_sequence(port) == if port
            == packet.local_port {
            s.next_sequence(port).wrapping_add(1)
        } else {
            s.next_sequence(port)
        },
        s.forwarded(packet, snapshot, replies, copy).0.session == s.session,
{
}

/// A packet that was taken can be sent again on request, marked as repeated,
/// unless its number was acknowledged before.
pub proof fn sent_packet_can_be_repeated(
    s: SenderView,
    packet: PacketView,
    snapshot: Seq<Link>,
    replies: Seq<Reply>,
    copy: Option<Reply>,
)
    requires
        s.cache.wf(),
        s.forwarded(packet, snapshot, replies, copy).2 is Ok,
        !s.cache.acked(packet.local_port, s.next_sequence(packet.local_port)),
    ensures
        ({
            let run: (SenderView, Seq<Entry>, Result<Sent, SendError>) = s.forwarded(
                packet,
                snapshot,
                replies,
                copy,
            );
            let again: Option<PacketView> = run.0.repeated(
                packet.local_port,
                run.2->Ok_0.sequence,
            );
            again is Some && again->0.payload == packet.payload && again->0.sequence
                == run.2->Ok_0.sequence && envelope::is_set(again->0.flags, RESEND)
        }),
{
    let run: (SenderView, Seq<Entry>, Result<Sent, SendError>) = s.forwarded(
        packet,
        snapshot,
        replies,
        copy,
    );
    let kept: PacketView = PacketView {
        link: run.2->Ok_0.primary,
        ..s.numbered(packet)
    };
    recovery::stored_is_found(s.cache, kept);
}

/// A packet for which a link can be chosen goes out on that link, as its flow's
/// next number, where the link takes it.
pub proof fn chosen_link_is_tried_first(s: SenderView, packet: PacketView, snapshot: Seq<Link>)
    requires
        packet.payload.len() <= MAX_PAYLOAD,
        s.scheduler.scheduled(packet.class, snapshot).1 is Ok,
    ensures
        ({
            let primary: u8 = s.scheduler.scheduled(packet.class, snapshot).1->Ok_0.primary;
            let f: ForwardingView = s.begun(packet, snapshot).1->Ok_0;
            &&& s.begun(packet, snapshot).1 is Ok
            &&& f.next(s.key) == Some(attempt_on(s.numbered(packet), s.key, primary))
            &&& f.answered(Reply::Taken).cascade.result() == Ok::<u8, SendError>(primary)
        }),
{
    let primary: u8 = s.scheduler.scheduled(packet.class, snapshot).1->Ok_0.primary;
    lemma_order_first(primary, snapshot, snapshot.len());
}

/// A refusal, or a link without a carrier, has the next healthy link tried, as
/// long as there is one.
pub proof fn refusal_tries_next_link(c: CascadeView, key: Seq<u8>, reply: Reply)
    requires
        c.wf(),
        !c.settled(),
        reply != Reply::Taken,
        c.replies.len() + 1 < c.order.len(),
    ensures
        c.answered(reply).next(key) == Some(
            attempt_on(c.packet, key, c.order[c.replies.len() as int + 1]),
        ),
{
}

pub proof fn lemma_order_first(primary: u8, snapshot: Seq<Link>, n: nat)
    ensures
        attempt_order(primary, snapshot, n).len() > 0,
        attempt_order(primary, snapshot, n)[0] == primary,
    decreases n,
{
    if n > 0 {
        lemma_order_first(primary, snapshot, (n - 1) as nat);
    }
}

/// A message that is not authentic, or of another session, changes nothing
/// and has nothing sent.
pub proof fn foreign_control_is_ignored(
    s: SenderView,
    bytes: Seq<u8>,
    snapshot: Seq<Link>,
    replies: Seq<Seq<Reply>>,
)
    requires
        match envelope::spec_decode(bytes, s.key) {
            Ok(packet) => packet.session != s.session,
            Err(error) => true,
        },
    ensures
        s.controlled(bytes, snapshot, replies).0 == s,
        s.controlled(bytes, snapshot, replies).1.len() == 0,
        s.controlled(bytes, snapshot, replies).2 is Err,
{
}

} // verus!
