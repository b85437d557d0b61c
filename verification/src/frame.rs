//! Frames of the multipath tunnel, and the batching of acknowledgements.
use crate::wire;
use vstd::arithmetic::power2::*;
use vstd::prelude::*;

verus! {

/// Largest inner IP packet. It leaves room for the smallest datagram that QUIC
/// accepts, with its headers.
pub const BOND_MTU: usize = 1280;

/// Path numbers are one byte on the wire.
pub const MAX_PATHS: usize = 256;

pub const FEATURE_ACK_BATCH: u64 = 512;

pub const FEATURE_UDP_LANE: u64 = 1024;

/// Negotiates authenticated path-loss notifications.
pub const FEATURE_PATH_FAILURE: u64 = 2048;

/// Header and tag that the UDP lane puts round a packet.
pub const UDP_ENVELOPE: usize = 54;

pub const FRAME_HEADER: usize = 18;

/// Acknowledgements that fill a batch.
pub const BATCH_SIZE: usize = 16;

#[derive(Clone, Copy, Debug, PartialEq, Eq, Structural)]
pub enum Kind {
    Join,
    Probe,
    Pong,
    Data,
    Ack,
    Close,
    AckBatch,
    JoinAck,
    Udp,
    UdpReady,
    PathFailureReady,
    PathDown,
}

#[derive(Clone, Copy, Debug, PartialEq, Eq, Structural)]
pub enum FrameError {
    Size,
    Kind,
    Payload,
}

impl FrameError {
    pub fn message(self) -> (r: &'static str)
        ensures
            r@ == match self {
                FrameError::Size => "invalid multipath frame size"@,
                FrameError::Kind => "invalid multipath frame type"@,
                FrameError::Payload => "invalid multipath payload"@,
            },
    {
        match self {
            FrameError::Size => "invalid multipath frame size",
            FrameError::Kind => "invalid multipath frame type",
            FrameError::Payload => "invalid multipath payload",
        }
    }
}

/// The number of a kind on the wire.
pub open spec fn kind_code(kind: Kind) -> u8 {
    match kind {
        Kind::Join => 1,
        Kind::Probe => 2,
        Kind::Pong => 3,
        Kind::Data => 4,
        Kind::Ack => 5,
        Kind::Close => 6,
        Kind::AckBatch => 7,
        Kind::JoinAck => 8,
        Kind::Udp => 9,
        Kind::UdpReady => 10,
        Kind::PathFailureReady => 11,
        Kind::PathDown => 12,
    }
}

pub open spec fn kind_of(code: u8) -> Option<Kind> {
    match code {
        1 => Some(Kind::Join),
        2 => Some(Kind::Probe),
        3 => Some(Kind::Pong),
        4 => Some(Kind::Data),
        5 => Some(Kind::Ack),
        6 => Some(Kind::Close),
        7 => Some(Kind::AckBatch),
        8 => Some(Kind::JoinAck),
        9 => Some(Kind::Udp),
        10 => Some(Kind::UdpReady),
        11 => Some(Kind::PathFailureReady),
        12 => Some(Kind::PathDown),
        _ => None,
    }
}

/// Body lengths that a kind of frame may have.
pub open spec fn body_allowed(kind: Kind, len: nat) -> bool {
    match kind {
        Kind::Udp => UDP_ENVELOPE <= len <= BOND_MTU + UDP_ENVELOPE,
        Kind::Data => 20 <= len <= BOND_MTU,
        Kind::AckBatch => len % 16 == 0 && len <= BOND_MTU + UDP_ENVELOPE,
        _ => len == 0,
    }
}

#[verifier::ext_equal]
pub struct FrameView {
    pub kind: Kind,
    pub path: u8,
    pub id: u64,
    pub stamp: u64,
    pub body: Seq<u8>,
}

pub open spec fn spec_control(kind: Kind, path: u8, id: u64, stamp: u64) -> FrameView {
    FrameView { kind, path, id, stamp, body: Seq::empty() }
}

impl FrameView {
    pub open spec fn valid(self) -> bool {
        body_allowed(self.kind, self.body.len())
    }

    pub open spec fn encoded(self) -> Seq<u8> {
        seq![kind_code(self.kind), self.path] + wire::be_bytes(self.id as nat, 8) + wire::be_bytes(
            self.stamp as nat,
            8,
        ) + self.body
    }
}

/// The frame in a byte string, or why there is none.
pub open spec fn spec_decode(bytes: Seq<u8>) -> Result<FrameView, FrameError> {
    if !(FRAME_HEADER <= bytes.len() <= FRAME_HEADER + BOND_MTU + UDP_ENVELOPE) {
        Err(FrameError::Size)
    } else {
        match kind_of(bytes[0]) {
            None => Err(FrameError::Kind),
            Some(kind) => if !body_allowed(kind, (bytes.len() - FRAME_HEADER) as nat) {
                Err(FrameError::Payload)
            } else {
                Ok(
                    FrameView {
                        kind,
                        path: bytes[1],
                        id: wire::be_value(bytes.subrange(2, 10)) as u64,
                        stamp: wire::be_value(bytes.subrange(10, 18)) as u64,
                        body: bytes.skip(18),
                    },
                )
            },
        }
    }
}

#[derive(Debug)]
pub struct Frame {
    pub kind: Kind,
    pub path: u8,
    pub id: u64,
    pub stamp: u64,
    pub body: Vec<u8>,
}

impl View for Frame {
    type V = FrameView;

    open spec fn view(&self) -> FrameView {
        FrameView {
            kind: self.kind,
            path: self.path,
            id: self.id,
            stamp: self.stamp,
            body: self.body@,
        }
    }
}

impl Clone for Frame {
    fn clone(&self) -> (r: Self)
        ensures
            r@ == self@,
    {
        Frame {
            kind: self.kind,
            path: self.path,
            id: self.id,
            stamp: self.stamp,
            body: wire::copy_bytes(self.body.as_slice()),
        }
    }
}

/// The views of a list of frames.
pub open spec fn frame_views(frames: Seq<Frame>) -> Seq<FrameView> {
    frames.map_values(|f: Frame| f@)
}

impl Kind {
    pub fn code(self) -> (r: u8)
        ensures
            r == kind_code(self),
    {
        match self {
            Kind::Join => 1,
            Kind::Probe => 2,
            Kind::Pong => 3,
            Kind::Data => 4,
            Kind::Ack => 5,
            Kind::Close => 6,
            Kind::AckBatch => 7,
            Kind::JoinAck => 8,
            Kind::Udp => 9,
            Kind::UdpReady => 10,
            Kind::PathFailureReady => 11,
            Kind::PathDown => 12,
        }
    }

    pub fn from_code(code: u8) -> (r: Option<Kind>)
        ensures
            r == kind_of(code),
    {
        match code {
            1 => Some(Kind::Join),
            2 => Some(Kind::Probe),
            3 => Some(Kind::Pong),
            4 => Some(Kind::Data),
            5 => Some(Kind::Ack),
            6 => Some(Kind::Close),
            7 => Some(Kind::AckBatch),
            8 => Some(Kind::JoinAck),
            9 => Some(Kind::Udp),
            10 => Some(Kind::UdpReady),
            11 => Some(Kind::PathFailureReady),
            12 => Some(Kind::PathDown),
            _ => None,
        }
    }
}

impl Frame {
    pub fn control(kind: Kind, path: u8, id: u64, stamp: u64) -> (r: Self)
        ensures
            r@ == spec_control(kind, path, id, stamp),
    {
        let body: Vec<u8> = Vec::new();
        assert(body@ =~= Seq::empty());
        Frame { kind, path, id, stamp, body }
    }

    pub fn encode(&self) -> (r: Vec<u8>)
        ensures
            r@ == self@.encoded(),
    {
        let mut bytes: Vec<u8> = Vec::new();
        bytes.push(self.kind.code());
        bytes.push(self.path);
        wire::put_be(&mut bytes, self.id, 8);
        wire::put_be(&mut bytes, self.stamp, 8);
        wire::put_all(&mut bytes, self.body.as_slice());
        assert(bytes@ =~= self@.encoded());
        bytes
    }

    pub fn decode(bytes: &[u8]) -> (r: Result<Self, FrameError>)
        ensures
            match r {
                Ok(frame) => spec_decode(bytes@) == Ok::<FrameView, FrameError>(frame@),
                Err(error) => spec_decode(bytes@) == Err::<FrameView, FrameError>(error),
            },
    {
        let n: usize = bytes.len();
        if n < FRAME_HEADER || n > FRAME_HEADER + BOND_MTU + UDP_ENVELOPE {
            return Err(FrameError::Size);
        }
        let kind: Kind = match Kind::from_code(bytes[0]) {
            Some(kind) => kind,
            None => {
                return Err(FrameError::Kind);
            },
        };
        let len: usize = n - FRAME_HEADER;
        let allowed: bool = match kind {
            Kind::Udp => len >= UDP_ENVELOPE,
            Kind::Data => 20 <= len && len <= BOND_MTU,
            Kind::AckBatch => len % 16 == 0,
            _ => len == 0,
        };
        if !allowed {
            return Err(FrameError::Payload);
        }
        let frame: Frame = Frame {
            kind,
            path: bytes[1],
            id: wire::get_be(bytes, 2, 8),
            stamp: wire::get_be(bytes, 10, 8),
            body: wire::copy_range(bytes, 18, n),
        };
        assert(frame.body@ =~= bytes@.skip(18));
        Ok(frame)
    }
}

/// A valid frame is read back from its encoding.
pub proof fn decode_reads_encoding(frame: FrameView)
    requires
        frame.valid(),
    ensures
        spec_decode(frame.encoded()) == Ok::<FrameView, FrameError>(frame),
{
    let bytes: Seq<u8> = frame.encoded();
    wire::lemma_be_bytes_len(frame.id as nat, 8);
    wire::lemma_be_bytes_len(frame.stamp as nat, 8);
    lemma2_to64_rest();
    wire::lemma_value_of_bytes(frame.id as nat, 8);
    wire::lemma_value_of_bytes(frame.stamp as nat, 8);
    assert(bytes.subrange(2, 10) =~= wire::be_bytes(frame.id as nat, 8));
    assert(bytes.subrange(10, 18) =~= wire::be_bytes(frame.stamp as nat, 8));
    assert(bytes.skip(18) =~= frame.body);
    assert(kind_of(bytes[0]) == Some(frame.kind));
}

/// What decodes is the encoding of the frame that it decodes to, and that
/// frame is valid.
pub proof fn encoding_of_decoded(bytes: Seq<u8>, frame: FrameView)
    requires
        spec_decode(bytes) == Ok::<FrameView, FrameError>(frame),
    ensures
        frame.valid(),
        frame.encoded() == bytes,
{
    let id: Seq<u8> = bytes.subrange(2, 10);
    let stamp: Seq<u8> = bytes.subrange(10, 18);
    lemma2_to64_rest();
    wire::lemma_be_value_bound(id);
    wire::lemma_be_value_bound(stamp);
    wire::lemma_bytes_of_value(id);
    wire::lemma_bytes_of_value(stamp);
    assert(frame.encoded() =~= bytes);
}

/// Identifier and timestamp of an acknowledgement, as a batch carries them.
pub open spec fn ack_entry(id: u64, stamp: u64) -> Seq<u8> {
    wire::be_bytes(id as nat, 8) + wire::be_bytes(stamp as nat, 8)
}

pub open spec fn ack_entries(frames: Seq<FrameView>) -> Seq<u8>
    decreases frames.len(),
{
    if frames.len() == 0 {
        Seq::empty()
    } else {
        ack_entries(frames.drop_last()) + ack_entry(frames.last().id, frames.last().stamp)
    }
}

/// One frame for several acknowledgements of a path: the first, with the
/// others appended to its body.
pub open spec fn spec_batch(frames: Seq<FrameView>) -> FrameView {
    FrameView {
        kind: Kind::AckBatch,
        body: frames[0].body + ack_entries(frames.drop_first()),
        ..frames[0]
    }
}

/// The acknowledgements after the first that a batch's body lists.
pub open spec fn listed_acks(body: Seq<u8>) -> Seq<(u64, u64)>
    decreases body.len(),
{
    if body.len() < 16 {
        Seq::empty()
    } else {
        seq![(wire::be_value(body.subrange(0, 8)) as u64, wire::be_value(body.subrange(8, 16)) as u64)]
            + listed_acks(body.skip(16))
    }
}

/// All acknowledgements of a batch.
pub open spec fn batch_acks(frame: FrameView) -> Seq<(u64, u64)> {
    seq![(frame.id, frame.stamp)] + listed_acks(frame.body)
}

pub open spec fn acks_of(frames: Seq<FrameView>) -> Seq<(u64, u64)> {
    frames.map_values(|f: FrameView| (f.id, f.stamp))
}

proof fn lemma_listed_step(body: Seq<u8>, id: u64, stamp: u64)
    requires
        body.len() % 16 == 0,
    ensures
        listed_acks(body + ack_entry(id, stamp)) == listed_acks(body).push((id, stamp)),
    decreases body.len(),
{
    wire::lemma_be_bytes_len(id as nat, 8);
    wire::lemma_be_bytes_len(stamp as nat, 8);
    let longer: Seq<u8> = body + ack_entry(id, stamp);
    if body.len() == 0 {
        lemma2_to64_rest();
        wire::lemma_value_of_bytes(id as nat, 8);
        wire::lemma_value_of_bytes(stamp as nat, 8);
        assert(longer.subrange(0, 8) =~= wire::be_bytes(id as nat, 8));
        assert(longer.subrange(8, 16) =~= wire::be_bytes(stamp as nat, 8));
        assert(longer.skip(16) =~= Seq::empty());
        assert(listed_acks(longer.skip(16)) =~= Seq::empty());
        assert(listed_acks(body) =~= Seq::empty());
        assert(listed_acks(longer) =~= seq![(id, stamp)]);
    } else {
        lemma_listed_step(body.skip(16), id, stamp);
        assert(longer.subrange(0, 8) =~= body.subrange(0, 8));
        assert(longer.subrange(8, 16) =~= body.subrange(8, 16));
        assert(longer.skip(16) =~= body.skip(16) + ack_entry(id, stamp));
        assert(listed_acks(longer) =~= listed_acks(body).push((id, stamp)));
    }
}

proof fn lemma_entries_len(frames: Seq<FrameView>)
    ensures
        ack_entries(frames).len() == 16 * frames.len(),
    decreases frames.len(),
{
    if frames.len() > 0 {
        lemma_entries_len(frames.drop_last());
        wire::lemma_be_bytes_len(frames.last().id as nat, 8);
        wire::lemma_be_bytes_len(frames.last().stamp as nat, 8);
    }
}

proof fn lemma_listed_entries(frames: Seq<FrameView>)
    ensures
        listed_acks(ack_entries(frames)) == acks_of(frames),
    decreases frames.len(),
{
    if frames.len() > 0 {
        lemma_listed_entries(frames.drop_last());
        lemma_entries_len(frames.drop_last());
        lemma_listed_step(
            ack_entries(frames.drop_last()),
            frames.last().id,
            frames.last().stamp,
        );
        assert(acks_of(frames) =~= acks_of(frames.drop_last()).push(
            (frames.last().id, frames.last().stamp),
        ));
    } else {
        assert(acks_of(frames) =~= Seq::empty());
    }
}

/// A batch keeps every packet identifier and timestamp, in order.
pub proof fn batch_keeps_acks(frames: Seq<FrameView>)
    requires
        frames.len() > 0,
        frames[0].body.len() == 0,
    ensures
        batch_acks(spec_batch(frames)) == acks_of(frames),
{
    let rest: Seq<FrameView> = frames.drop_first();
    lemma_listed_entries(rest);
    assert(spec_batch(frames).body =~= ack_entries(rest));
    assert(batch_acks(spec_batch(frames)) =~= acks_of(frames));
}

/// Acknowledgements waiting to be sent together, by path.
pub struct AckBatcher {
    lanes: Vec<Vec<Frame>>,
}

impl View for AckBatcher {
    type V = spec_fn(u8) -> Seq<FrameView>;

    closed spec fn view(&self) -> (spec_fn(u8) -> Seq<FrameView>) {
        |path: u8|
            if path < self.lanes@.len() {
                frame_views(self.lanes@[path as int]@)
            } else {
                Seq::empty()
            }
    }
}

/// The waiting lists with that of one path replaced.
pub open spec fn with_lane(
    lanes: spec_fn(u8) -> Seq<FrameView>,
    path: u8,
    frames: Seq<FrameView>,
) -> (spec_fn(u8) -> Seq<FrameView>) {
    |p: u8|
        if p == path {
            frames
        } else {
            lanes(p)
        }
}

/// A frame to be sent: the waiting lists after it, and what is sent at once. An
/// acknowledgement waits until its path has a full batch.
pub open spec fn pushed(lanes: spec_fn(u8) -> Seq<FrameView>, frame: FrameView) -> (
    spec_fn(u8) -> Seq<FrameView>,
    Option<FrameView>,
) {
    let waiting: Seq<FrameView> = lanes(frame.path).push(frame);
    if frame.kind != Kind::Ack {
        (lanes, Some(frame))
    } else if waiting.len() >= BATCH_SIZE {
        (with_lane(lanes, frame.path, Seq::empty()), Some(spec_batch(waiting)))
    } else {
        (with_lane(lanes, frame.path, waiting), None)
    }
}

/// One batch for each path below `n` that has something waiting, in order.
pub open spec fn batches_below(lanes: spec_fn(u8) -> Seq<FrameView>, n: nat) -> Seq<FrameView>
    decreases n,
{
    if n == 0 {
        Seq::empty()
    } else {
        let path: u8 = (n - 1) as u8;
        let before: Seq<FrameView> = batches_below(lanes, (n - 1) as nat);
        if lanes(path).len() == 0 {
            before
        } else {
            before.push(spec_batch(lanes(path)))
        }
    }
}

impl Default for AckBatcher {
    fn default() -> (r: Self)
        ensures
            r.wf(),
            forall|path: u8| (#[trigger] (r@)(path)).len() == 0,
    {
        AckBatcher { lanes: Vec::new() }
    }
}

impl AckBatcher {
    /// Every waiting list belongs to a path number.
    pub closed spec fn wf(&self) -> bool {
        self.lanes@.len() <= MAX_PATHS
    }

    pub fn new() -> (r: Self)
        ensures
            r.wf(),
            forall|path: u8| (#[trigger] (r@)(path)).len() == 0,
    {
        AckBatcher { lanes: Vec::new() }
    }

    /// Takes a frame to be sent. Anything but an acknowledgement is to be sent
    /// at once; an acknowledgement waits until its path has a full batch.
    pub fn push(&mut self, frame: Frame) -> (r: Option<Frame>)
        requires
            old(self).wf(),
        ensures
            final(self).wf(),
            final(self)@ =~= pushed(old(self)@, frame@).0,
            match r {
                Some(out) => pushed(old(self)@, frame@).1 == Some(out@),
                None => pushed(old(self)@, frame@).1 is None,
            },
    {
        if frame.kind != Kind::Ack {
            return Some(frame);
        }
        let path: usize = frame.path as usize;
        let ghost path8: u8 = frame.path;
        let ghost before = self@;
        while self.lanes.len() <= path
            invariant
                path < MAX_PATHS,
                self.wf(),
                self@ =~= before,
            decreases path + 1 - self.lanes@.len(),
        {
            let empty: Vec<Frame> = Vec::new();
            let ghost lanes = self.lanes@;
            self.lanes.push(empty);
            assert(frame_views(empty@) =~= Seq::empty());
            assert forall|p: u8| (self@)(p) == #[trigger] before(p) by {
                if p < lanes.len() {
                    assert(self.lanes@[p as int] == lanes[p as int]);
                }
            }
        }
        let mut waiting: Vec<Frame> = Vec::new();
        let ghost lanes = self.lanes@;
        std::mem::swap(&mut waiting, &mut self.lanes[path]);
        assert(waiting@ == lanes[path as int]@);
        assert(before(path8) == frame_views(waiting@));
        let ghost added: Seq<FrameView> = before(path8).push(frame@);
        waiting.push(frame);
        assert(frame_views(waiting@) =~= added);
        assert(frame_views(Seq::<Frame>::empty()) =~= Seq::empty());
        if waiting.len() >= BATCH_SIZE {
            let batch: Frame = Self::batch(waiting);
            assert forall|p: u8| (self@)(p) == #[trigger] with_lane(before, path8, Seq::empty())(
                p,
            ) by {
                if p != path8 && p < lanes.len() {
                    assert(self.lanes@[p as int] == lanes[p as int]);
                }
            }
            Some(batch)
        } else {
            self.lanes[path] = waiting;
            assert forall|p: u8| (self@)(p) == #[trigger] with_lane(before, path8, added)(p) by {
                if p != path8 && p < lanes.len() {
                    assert(self.lanes@[p as int] == lanes[p as int]);
                }
            }
            None
        }
    }

    /// Hands out everything that waits, a batch for each path.
    pub fn drain(&mut self) -> (r: Vec<Frame>)
        requires
            old(self).wf(),
        ensures
            final(self).wf(),
            frame_views(r@) == batches_below(old(self)@, MAX_PATHS as nat),
            forall|path: u8| (#[trigger] (final(self)@)(path)).len() == 0,
    {
        let ghost lanes = self@;
        let mut out: Vec<Frame> = Vec::new();
        let mut kept: Vec<Vec<Frame>> = Vec::new();
        std::mem::swap(&mut kept, &mut self.lanes);
        let n: usize = kept.len();
        let mut i: usize = n;
        let mut reversed: Vec<Frame> = Vec::new();
        let ghost all: Seq<Vec<Frame>> = kept@;
        assert(frame_views(reversed@) =~= Seq::empty());
        while i > 0
            invariant
                i <= n <= MAX_PATHS,
                all.len() == n,
                kept@ == all.take(i as int),
                forall|p: u8|
                    (#[trigger] lanes(p)) == if p < n {
                        frame_views(all[p as int]@)
                    } else {
                        Seq::empty()
                    },
                batches_below(lanes, i as nat) + frame_views(reversed@).reverse()
                    == batches_below(lanes, n as nat),
            decreases i,
        {
            let lane: Vec<Frame> = kept.pop().unwrap();
            assert(kept@ =~= all.take(i - 1));
            i = i - 1;
            let ghost views: Seq<FrameView> = lanes(i as u8);
            assert(views == frame_views(lane@));
            let ghost tail: Seq<FrameView> = frame_views(reversed@);
            if lane.len() > 0 {
                let frame: Frame = Self::batch(lane);
                reversed.push(frame);
                assert(frame_views(reversed@) =~= tail.push(frame@));
                assert(batches_below(lanes, i as nat) + tail.push(frame@).reverse()
                    =~= batches_below(lanes, (i + 1) as nat) + tail.reverse());
            }
        }
        assert(batches_below(lanes, 0) =~= Seq::empty());
        assert(frame_views(reversed@).reverse() =~= batches_below(lanes, n as nat));
        let ghost total: Seq<FrameView> = frame_views(reversed@);
        assert(frame_views(out@) =~= Seq::empty());
        while reversed.len() > 0
            invariant
                frame_views(out@) + frame_views(reversed@).reverse() == total.reverse(),
            decreases reversed@.len(),
        {
            let ghost rest: Seq<FrameView> = frame_views(reversed@);
            let ghost done: Seq<FrameView> = frame_views(out@);
            let frame: Frame = reversed.pop().unwrap();
            assert(frame_views(reversed@) =~= rest.drop_last());
            out.push(frame);
            assert(frame_views(out@) =~= done.push(frame@));
            assert(done.push(frame@) + rest.drop_last().reverse() =~= done + rest.reverse());
        }
        assert(frame_views(out@) =~= total.reverse());
        proof {
            lemma_no_more_batches(lanes, n as nat, MAX_PATHS as nat);
        }
        out
    }

    fn batch(frames: Vec<Frame>) -> (r: Frame)
        requires
            frames@.len() > 0,
        ensures
            r@ == spec_batch(frame_views(frames@)),
    {
        let ghost views: Seq<FrameView> = frame_views(frames@);
        let mut body: Vec<u8> = wire::copy_bytes(frames[0].body.as_slice());
        let n: usize = frames.len();
        let mut i: usize = 1;
        assert(views.drop_first().take(0) =~= Seq::empty());
        while i < n
            invariant
                1 <= i <= n == frames@.len(),
                views == frame_views(frames@),
                body@ == views[0].body + ack_entries(views.drop_first().take(i - 1)),
            decreases n - i,
        {
            wire::put_be(&mut body, frames[i].id, 8);
            wire::put_be(&mut body, frames[i].stamp, 8);
            proof {
                let listed: Seq<FrameView> = views.drop_first().take(i as int);
                assert(listed.drop_last() =~= views.drop_first().take(i - 1));
                assert(listed.last() == frames[i as int]@);
                assert(body@ =~= views[0].body + ack_entries(listed));
            }
            i = i + 1;
        }
        assert(views.drop_first().take(n - 1) =~= views.drop_first());
        Frame {
            kind: Kind::AckBatch,
            path: frames[0].path,
            id: frames[0].id,
            stamp: frames[0].stamp,
            body,
        }
    }
}

proof fn lemma_no_more_batches(lanes: spec_fn(u8) -> Seq<FrameView>, n: nat, m: nat)
    requires
        n <= m <= MAX_PATHS,
        forall|p: u8| p >= n ==> (#[trigger] lanes(p)).len() == 0,
    ensures
        batches_below(lanes, m) == batches_below(lanes, n),
    decreases m,
{
    if n < m {
        lemma_no_more_batches(lanes, n, (m - 1) as nat);
    }
}

// ---- Runs of a batcher -------------------------------------------------------------

/// Something that is done with a batcher.
pub enum BatchStep {
    Push(FrameView),
    Drain,
}

/// A frame that was handed out: a batch that the batcher made of its own, or a
/// frame that it passed on.
#[verifier::ext_equal]
pub struct Handed {
    pub frame: FrameView,
    pub own: bool,
}

/// Batches of the batcher's own.
pub open spec fn made(frames: Seq<FrameView>) -> Seq<Handed> {
    frames.map_values(|frame: FrameView| Handed { frame, own: true })
}

/// What a batcher comes to after the first `n` steps: what waits, and what was
/// handed out.
pub open spec fn batched(
    lanes: spec_fn(u8) -> Seq<FrameView>,
    steps: Seq<BatchStep>,
    n: nat,
) -> (spec_fn(u8) -> Seq<FrameView>, Seq<Handed>)
    decreases n,
{
    if n == 0 {
        (lanes, Seq::empty())
    } else {
        let (before, out) = batched(lanes, steps, (n - 1) as nat);
        match steps[n - 1] {
            BatchStep::Push(frame) => {
                let (after, more) = pushed(before, frame);
                (
                    after,
                    match more {
                        Some(sent) => out.push(
                            Handed { frame: sent, own: frame.kind == Kind::Ack },
                        ),
                        None => out,
                    },
                )
            },
            BatchStep::Drain => (
                |path: u8| Seq::empty(),
                out + made(batches_below(before, MAX_PATHS as nat)),
            ),
        }
    }
}

/// The acknowledgements of a path that were pushed in the first `n` steps, and,
/// if asked for, those in the ready-made batches of that path.
pub open spec fn acks_in(steps: Seq<BatchStep>, path: u8, ready: bool, n: nat) -> Seq<(u64, u64)>
    decreases n,
{
    if n == 0 {
        Seq::empty()
    } else {
        let before: Seq<(u64, u64)> = acks_in(steps, path, ready, (n - 1) as nat);
        match steps[n - 1] {
            BatchStep::Push(frame) => if frame.kind == Kind::Ack && frame.path == path {
                before.push((frame.id, frame.stamp))
            } else if ready && frame.kind == Kind::AckBatch && frame.path == path {
                before + batch_acks(frame)
            } else {
                before
            },
            BatchStep::Drain => before,
        }
    }
}

/// The acknowledgements in the batches of a path among what was handed out: in
/// the batcher's own, and, if asked for, in the ready-made ones.
pub open spec fn acks_out(handed: Seq<Handed>, path: u8, ready: bool) -> Seq<(u64, u64)>
    decreases handed.len(),
{
    if handed.len() == 0 {
        Seq::empty()
    } else {
        let before: Seq<(u64, u64)> = acks_out(handed.drop_last(), path, ready);
        let last: Handed = handed.last();
        if last.frame.kind == Kind::AckBatch && last.frame.path == path && (last.own || ready) {
            before + batch_acks(last.frame)
        } else {
            before
        }
    }
}

/// The frames other than single acknowledgements that were pushed.
pub open spec fn others_in(steps: Seq<BatchStep>, n: nat) -> Seq<FrameView>
    decreases n,
{
    if n == 0 {
        Seq::empty()
    } else {
        let before: Seq<FrameView> = others_in(steps, (n - 1) as nat);
        match steps[n - 1] {
            BatchStep::Push(frame) => if frame.kind != Kind::Ack {
                before.push(frame)
            } else {
                before
            },
            BatchStep::Drain => before,
        }
    }
}

/// The frames that were passed on.
pub open spec fn passed_on(handed: Seq<Handed>) -> Seq<FrameView>
    decreases handed.len(),
{
    if handed.len() == 0 {
        Seq::empty()
    } else if handed.last().own {
        passed_on(handed.drop_last())
    } else {
        passed_on(handed.drop_last()).push(handed.last().frame)
    }
}

/// Whether what waits are acknowledgements in the lists of their paths.
pub open spec fn sorted_out(lanes: spec_fn(u8) -> Seq<FrameView>) -> bool {
    forall|path: u8, i: int|
        0 <= i < lanes(path).len() ==> (#[trigger] lanes(path)[i]).path == path
            && lanes(path)[i].body.len() == 0
}

proof fn lemma_handed_push(handed: Seq<Handed>, last: Handed, path: u8, ready: bool)
    ensures
        acks_out(handed.push(last), path, ready) == if last.frame.kind == Kind::AckBatch
            && last.frame.path == path && (last.own || ready) {
            acks_out(handed, path, ready) + batch_acks(last.frame)
        } else {
            acks_out(handed, path, ready)
        },
        passed_on(handed.push(last)) == if last.own {
            passed_on(handed)
        } else {
            passed_on(handed).push(last.frame)
        },
{
    assert(handed.push(last).drop_last() =~= handed);
}

proof fn lemma_handed_made(handed: Seq<Handed>, frames: Seq<FrameView>, path: u8, ready: bool)
    ensures
        acks_out(handed + made(frames), path, ready) == acks_out(handed, path, ready) + acks_out(
            made(frames),
            path,
            ready,
        ),
        passed_on(handed + made(frames)) == passed_on(handed),
    decreases frames.len(),
{
    let more: Seq<Handed> = made(frames);
    if frames.len() == 0 {
        assert(handed + more =~= handed);
        assert(acks_out(handed, path, ready) + acks_out(more, path, ready) =~= acks_out(
            handed,
            path,
            ready,
        ));
    } else {
        lemma_handed_made(handed, frames.drop_last(), path, ready);
        assert(more.drop_last() =~= made(frames.drop_last()));
        assert((handed + more).drop_last() =~= handed + more.drop_last());
        assert(acks_out(handed + more, path, ready) =~= acks_out(handed, path, ready) + acks_out(
            more,
            path,
            ready,
        ));
    }
}

proof fn lemma_batches_hand_out(lanes: spec_fn(u8) -> Seq<FrameView>, path: u8, ready: bool, n: nat)
    requires
        sorted_out(lanes),
        n <= MAX_PATHS,
    ensures
        acks_out(made(batches_below(lanes, n)), path, ready) == if path < n {
            acks_of(lanes(path))
        } else {
            Seq::empty()
        },
    decreases n,
{
    if n == 0 {
        assert(made(batches_below(lanes, n)) =~= Seq::empty());
    } else {
        let p: u8 = (n - 1) as u8;
        lemma_batches_hand_out(lanes, path, ready, (n - 1) as nat);
        if lanes(p).len() > 0 {
            assert(lanes(p)[0].path == p);
            let before: Seq<FrameView> = batches_below(lanes, (n - 1) as nat);
            let batch: FrameView = spec_batch(lanes(p));
            assert(made(before.push(batch)) =~= made(before).push(
                Handed { frame: batch, own: true },
            ));
            lemma_handed_push(made(before), Handed { frame: batch, own: true }, path, ready);
            batch_keeps_acks(lanes(p));
            assert(Seq::<(u64, u64)>::empty() + acks_of(lanes(p)) =~= acks_of(lanes(p)));
        } else {
            assert(acks_of(lanes(p)) =~= Seq::empty());
        }
    }
}

/// Whether a run is one that the protocol knows: single acknowledgements carry
/// nothing more.
pub open spec fn bare_acks(steps: Seq<BatchStep>) -> bool {
    forall|i: int|
        0 <= i < steps.len() ==> match #[trigger] steps[i] {
            BatchStep::Push(frame) => frame.kind == Kind::Ack ==> frame.body.len() == 0,
            BatchStep::Drain => true,
        }
}

/// Over any run of a batcher every acknowledgement that was pushed comes out
/// once, in a batch of its own path and in the order in which it came: those in
/// the batches that the batcher made, and those that wait, are, path by path,
/// those that were pushed. Every other frame, a ready-made batch too, is passed
/// on as it is, in the order in which it came.
pub proof fn acks_come_out_once(
    lanes: spec_fn(u8) -> Seq<FrameView>,
    steps: Seq<BatchStep>,
    n: nat,
    path: u8,
)
    requires
        n <= steps.len(),
        forall|p: u8| (#[trigger] lanes(p)).len() == 0,
        bare_acks(steps),
    ensures
        acks_out(batched(lanes, steps, n).1, path, false) + acks_of(
            (batched(lanes, steps, n).0)(path),
        ) == acks_in(steps, path, false, n),
        passed_on(batched(lanes, steps, n).1) == others_in(steps, n),
        sorted_out(batched(lanes, steps, n).0),
    decreases n,
{
    if n == 0 {
        assert(acks_of(lanes(path)) =~= Seq::empty());
        assert(acks_out(Seq::empty(), path, false) + acks_of(lanes(path)) =~= Seq::empty());
    } else {
        acks_come_out_once(lanes, steps, (n - 1) as nat, path);
        let (before, out) = batched(lanes, steps, (n - 1) as nat);
        let (after, all) = batched(lanes, steps, n);
        let had: Seq<(u64, u64)> = acks_in(steps, path, false, (n - 1) as nat);
        match steps[n - 1] {
            BatchStep::Push(frame) => {
                let waiting: Seq<FrameView> = before(frame.path).push(frame);
                let (next, more) = pushed(before, frame);
                if frame.kind == Kind::Ack {
                    assert(acks_of(waiting) =~= acks_of(before(frame.path)).push(
                        (frame.id, frame.stamp),
                    ));
                    assert forall|p: u8, i: int| 0 <= i < next(p).len() implies (
                    #[trigger] next(p)[i]).path == p && next(p)[i].body.len() == 0 by {
                        if p == frame.path && i < before(p).len() {
                            assert(next(p)[i] == before(p)[i]);
                        } else if p != frame.path {
                            assert(next(p)[i] == before(p)[i]);
                        }
                    }
                }
                match more {
                    Some(sent) => {
                        lemma_handed_push(
                            out,
                            Handed { frame: sent, own: frame.kind == Kind::Ack },
                            path,
                            false,
                        );
                        if frame.kind == Kind::Ack {
                            if before(frame.path).len() > 0 {
                                assert(waiting[0] == before(frame.path)[0]);
                            }
                            batch_keeps_acks(waiting);
                            assert(acks_of(Seq::<FrameView>::empty()) =~= Seq::empty());
                        }
                    },
                    None => {},
                }
                assert(acks_out(all, path, false) + acks_of(after(path)) =~= acks_in(
                    steps,
                    path,
                    false,
                    n,
                ));
            },
            BatchStep::Drain => {
                lemma_batches_hand_out(before, path, false, MAX_PATHS as nat);
                lemma_handed_made(out, batches_below(before, MAX_PATHS as nat), path, false);
                assert(acks_of(after(path)) =~= Seq::empty());
                assert(acks_out(all, path, false) + acks_of(after(path)) =~= had);
            },
        }
    }
}

/// Over any run of a batcher no acknowledgement is lost or doubled, whether it
/// was pushed alone or in a ready-made batch: what all the batches of a path
/// carry, and what waits, is what was pushed.
pub proof fn no_ack_is_lost_or_doubled(
    lanes: spec_fn(u8) -> Seq<FrameView>,
    steps: Seq<BatchStep>,
    n: nat,
    path: u8,
)
    requires
        n <= steps.len(),
        forall|p: u8| (#[trigger] lanes(p)).len() == 0,
        bare_acks(steps),
    ensures
        acks_out(batched(lanes, steps, n).1, path, true).to_multiset().add(
            acks_of((batched(lanes, steps, n).0)(path)).to_multiset(),
        ) == acks_in(steps, path, true, n).to_multiset(),
    decreases n,
{
    broadcast use vstd::seq_lib::to_multiset_build;

    if n == 0 {
        assert(acks_of(lanes(path)) =~= Seq::empty());
        assert(Seq::<(u64, u64)>::empty() + Seq::empty() =~= Seq::empty());
        vstd::seq_lib::lemma_multiset_commutative(
            Seq::<(u64, u64)>::empty(),
            Seq::<(u64, u64)>::empty(),
        );
    } else {
        acks_come_out_once(lanes, steps, (n - 1) as nat, path);
        no_ack_is_lost_or_doubled(lanes, steps, (n - 1) as nat, path);
        let (before, out) = batched(lanes, steps, (n - 1) as nat);
        let (after, all) = batched(lanes, steps, n);
        let had: Seq<(u64, u64)> = acks_in(steps, path, true, (n - 1) as nat);
        let sent_before: Seq<(u64, u64)> = acks_out(out, path, true);
        let empty: Seq<(u64, u64)> = Seq::empty();
        vstd::seq_lib::lemma_multiset_commutative(sent_before, empty);
        assert(sent_before + empty =~= sent_before);
        match steps[n - 1] {
            BatchStep::Push(frame) => {
                let waiting: Seq<FrameView> = before(frame.path).push(frame);
                if frame.kind == Kind::Ack {
                    assert(acks_of(waiting) =~= acks_of(before(frame.path)).push(
                        (frame.id, frame.stamp),
                    ));
                }
                match pushed(before, frame).1 {
                    Some(sent) => {
                        lemma_handed_push(
                            out,
                            Handed { frame: sent, own: frame.kind == Kind::Ack },
                            path,
                            true,
                        );
                        if frame.kind == Kind::Ack {
                            if before(frame.path).len() > 0 {
                                assert(waiting[0] == before(frame.path)[0]);
                            }
                            batch_keeps_acks(waiting);
                            assert(acks_of(Seq::<FrameView>::empty()) =~= empty);
                            vstd::seq_lib::lemma_multiset_commutative(
                                sent_before,
                                acks_of(waiting),
                            );
                            vstd::seq_lib::lemma_multiset_commutative(
                                sent_before + acks_of(waiting),
                                empty,
                            );
                            assert(sent_before + acks_of(waiting) + empty =~= sent_before + acks_of(
                                waiting,
                            ));
                        } else if frame.kind == Kind::AckBatch && frame.path == path {
                            vstd::seq_lib::lemma_multiset_commutative(
                                sent_before,
                                batch_acks(frame),
                            );
                            vstd::seq_lib::lemma_multiset_commutative(had, batch_acks(frame));
                        }
                    },
                    None => {},
                }
                assert(acks_out(all, path, true).to_multiset().add(
                    acks_of(after(path)).to_multiset(),
                ) =~= acks_in(steps, path, true, n).to_multiset());
            },
            BatchStep::Drain => {
                lemma_batches_hand_out(before, path, true, MAX_PATHS as nat);
                lemma_handed_made(out, batches_below(before, MAX_PATHS as nat), path, true);
                assert(acks_of(after(path)) =~= empty);
                let waited: Seq<(u64, u64)> = if path < MAX_PATHS {
                    acks_of(before(path))
                } else {
                    empty
                };
                vstd::seq_lib::lemma_multiset_commutative(sent_before, waited);
                vstd::seq_lib::lemma_multiset_commutative(sent_before + waited, empty);
                assert(sent_before + waited + empty =~= sent_before + waited);
            },
        }
    }
}

/// Draining hands out one batch for each path that has something waiting, in
/// the order of the paths, and none for others.
pub proof fn drain_is_by_path(lanes: spec_fn(u8) -> Seq<FrameView>, n: nat)
    requires
        sorted_out(lanes),
        n <= MAX_PATHS,
    ensures
        ({
            let out: Seq<FrameView> = batches_below(lanes, n);
            &&& forall|i: int, j: int|
                0 <= i < j < out.len() ==> (#[trigger] out[i]).path < (#[trigger] out[j]).path
            &&& forall|i: int|
                0 <= i < out.len() ==> (#[trigger] out[i]).path < n && lanes(out[i].path).len() > 0
                    && out[i] == spec_batch(lanes(out[i].path))
            &&& forall|p: u8|
                p < n && (#[trigger] lanes(p)).len() > 0 ==> out.contains(spec_batch(lanes(p)))
        }),
    decreases n,
{
    if n > 0 {
        drain_is_by_path(lanes, (n - 1) as nat);
        let last: u8 = (n - 1) as u8;
        let before: Seq<FrameView> = batches_below(lanes, (n - 1) as nat);
        let out: Seq<FrameView> = batches_below(lanes, n);
        if lanes(last).len() > 0 {
            assert(lanes(last)[0].path == last);
        }
        assert forall|p: u8| p < n && (#[trigger] lanes(p)).len() > 0 implies out.contains(
            spec_batch(lanes(p)),
        ) by {
            if p < last {
                let i: int = choose|i: int|
                    0 <= i < before.len() && before[i] == spec_batch(lanes(p));
                assert(out[i] == before[i]);
            } else {
                assert(out[before.len() as int] == spec_batch(lanes(p)));
            }
        }
    }
}

/// Where nothing waits, nothing is handed out: a batcher that was just drained
/// has nothing more.
pub proof fn drained_batcher_is_empty(lanes: spec_fn(u8) -> Seq<FrameView>, n: nat)
    requires
        forall|p: u8| (#[trigger] lanes(p)).len() == 0,
    ensures
        batches_below(lanes, n) == Seq::<FrameView>::empty(),
    decreases n,
{
    if n > 0 {
        drained_batcher_is_empty(lanes, (n - 1) as nat);
    }
}

} // verus!
