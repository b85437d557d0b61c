//! What both ends of a bond agree on: how a path joins, and how packets are
//! let in while the system is slow to take them.
use crate::bond::{Counters, Policy, Scheduler, SchedulerView};
use crate::frame;
use crate::frame::{Frame, FrameView, Kind, FEATURE_ACK_BATCH};
use crate::tunnel;
use crate::wire;
use vstd::prelude::*;

verus! {

/// The address of the relay inside a bond.
pub const RELAY_IP: [u8; 4] = [10, 78, 0, 1];

pub const BOND_NETWORK: (u8, u8, u8) = (10, 78, 0);

/// The mark of a metered path in a join.
pub const METERED_MARK: u64 = 256;

/// The number by which a join names a policy.
#[verifier::allow_in_spec]
pub fn policy_number(policy: Policy) -> u64
    returns
        (match policy {
            Policy::Smart => 0u64,
            Policy::Performance => 1,
            Policy::Continuity => 2,
            Policy::DataSaver => 3,
        }),
{
    match policy {
        Policy::Smart => 0,
        Policy::Performance => 1,
        Policy::Continuity => 2,
        Policy::DataSaver => 3,
    }
}

/// The policy that a join names, in its two lowest bits.
#[verifier::allow_in_spec]
pub fn number_policy(value: u64) -> Policy
    returns
        (if value & 3 == 1 {
            Policy::Performance
        } else if value & 3 == 2 {
            Policy::Continuity
        } else if value & 3 == 3 {
            Policy::DataSaver
        } else {
            Policy::Smart
        }),
{
    let low: u64 = value & 3;
    if low == 1 {
        Policy::Performance
    } else if low == 2 {
        Policy::Continuity
    } else if low == 3 {
        Policy::DataSaver
    } else {
        Policy::Smart
    }
}

/// The number of a join: the policy, that batches are understood, and whether
/// the path is metered.
#[verifier::allow_in_spec]
pub fn join_number(policy: Policy, metered: bool) -> u64
    returns
        (FEATURE_ACK_BATCH | policy_number(policy) | (if metered {
            METERED_MARK
        } else {
            0
        })),
{
    FEATURE_ACK_BATCH | policy_number(policy) | (if metered {
        METERED_MARK
    } else {
        0
    })
}

/// Whether a join is of a metered path.
#[verifier::allow_in_spec]
pub fn joins_metered(id: u64) -> bool
    returns
        id & METERED_MARK != 0,
{
    id & METERED_MARK != 0
}

/// Whether who joins understands batches of acknowledgements.
#[verifier::allow_in_spec]
pub fn joins_batching(id: u64) -> bool
    returns
        id & FEATURE_ACK_BATCH != 0,
{
    id & FEATURE_ACK_BATCH != 0
}

/// A join tells the relay the policy, the cost of the path, and that batches
/// are understood.
pub proof fn join_is_understood(policy: Policy, metered: bool)
    ensures
        number_policy(join_number(policy, metered)) == policy,
        joins_metered(join_number(policy, metered)) == metered,
        joins_batching(join_number(policy, metered)),
{
    let n: u64 = policy_number(policy);
    let m: u64 = if metered {
        256
    } else {
        0
    };
    assert((512u64 | n | m) & 3 == n) by (bit_vector)
        requires
            n <= 3,
            m == 0 || m == 256,
    ;
    assert((512u64 | n | m) & 256 == m) by (bit_vector)
        requires
            n <= 3,
            m == 0 || m == 256,
    ;
    assert((512u64 | n | m) & 512 == 512) by (bit_vector)
        requires
            n <= 3,
            m == 0 || m == 256,
    ;
}

/// Where packets of clients may go: to the relay itself, or to the internet,
/// but not to the other tunnel's server.
pub open spec fn destination_open(packet: Seq<u8>) -> bool {
    packet.len() >= 20 && (packet.subrange(16, 20) == RELAY_IP@ || (packet.subrange(16, 20) != seq![
        10u8,
        77,
        0,
        1,
    ] && tunnel::spec_destination_allowed(packet)))
}

pub fn destination_allowed(packet: &[u8]) -> (r: bool)
    ensures
        r == destination_open(packet@),
{
    if packet.len() < 20 {
        return false;
    }
    let other: [u8; 4] = [10, 77, 0, 1];
    assert(other@ =~= seq![10u8, 77, 0, 1]);
    wire::matches_at(packet, 16, &RELAY_IP) || (!wire::matches_at(packet, 16, &other)
        && tunnel::internet_destination_allowed(packet))
}

/// The queue before the system.
#[derive(Clone, Copy, Debug, PartialEq, Eq, Structural)]
pub enum Room {
    Free,
    Full,
    Closed,
}

/// The queue before the system is gone.
#[derive(Clone, Copy, Debug, PartialEq, Eq, Structural)]
pub struct QueueClosed {}

impl QueueClosed {
    pub fn message(self) -> (r: &'static str)
        ensures
            r@ == "tunnel admission queue closed"@,
    {
        "tunnel admission queue closed"
    }
}

/// Whether a frame brings a packet that has not come before.
pub open spec fn brings_new(s: SchedulerView, frame: FrameView) -> bool {
    frame.kind == Kind::Data && !s.refused.contains(frame.id)
}

impl SchedulerView {
    pub open spec fn with_backpressure(self) -> SchedulerView {
        SchedulerView {
            counters: Counters {
                receive_backpressure: self.counters.receive_backpressure.wrapping_add(1),
                ..self.counters
            },
            ..self
        }
    }

    pub open spec fn with_socket_backpressure(self) -> SchedulerView {
        SchedulerView {
            counters: Counters {
                socket_backpressure: self.counters.socket_backpressure.wrapping_add(1),
                ..self.counters
            },
            ..self
        }
    }

    /// What a frame leads to, where a new packet needs room before it is let
    /// in. Without room it is neither acknowledged nor marked, so that a
    /// repetition can still bring it.
    pub open spec fn let_in(self, frame: FrameView, room: Room, now: u64) -> Result<
        (SchedulerView, Option<Seq<u8>>, Seq<FrameView>),
        QueueClosed,
    > {
        if brings_new(self, frame) && room == Room::Full {
            Ok((self.with_backpressure(), None, Seq::empty()))
        } else if brings_new(self, frame) && room == Room::Closed {
            Err(QueueClosed {  })
        } else {
            Ok(self.after_frame(frame, now))
        }
    }
}

/// Takes a frame, with regard to the room before the system. What is delivered
/// has its room.
pub fn receive_to_writer(scheduler: &mut Scheduler, frame: &Frame, room: Room, now: u64) -> (r:
    Result<(Option<Vec<u8>>, Vec<Frame>), QueueClosed>)
    requires
        old(scheduler).wf(),
    ensures
        final(scheduler).wf(),
        final(scheduler)@.n() == old(scheduler)@.n(),
        final(scheduler)@.names == old(scheduler)@.names,
        match old(scheduler)@.let_in(frame@, room, now) {
            Ok((after, delivery, answers)) => {
                &&& final(scheduler)@ == after
                &&& match r {
                    Ok((packet, frames)) => {
                        &&& match (packet, delivery) {
                            (Some(packet), Some(want)) => packet@ == want && room == Room::Free,
                            (None, None) => true,
                            _ => false,
                        }
                        &&& frame::frame_views(frames@) == answers
                    },
                    Err(_) => false,
                }
            },
            Err(closed) => r == Err::<(Option<Vec<u8>>, Vec<Frame>), QueueClosed>(closed)
                && final(scheduler)@ == old(scheduler)@,
        },
{
    if frame.kind == Kind::Data && !scheduler.has_received(frame.id) {
        match room {
            Room::Free => {},
            Room::Full => {
                scheduler.counters.receive_backpressure =
                scheduler.counters.receive_backpressure.wrapping_add(1);
                assert(scheduler@ =~= old(scheduler)@.with_backpressure());
                let none: Vec<Frame> = Vec::new();
                assert(frame::frame_views(none@) =~= Seq::empty());
                return Ok((None, none));
            },
            Room::Closed => {
                return Err(QueueClosed {  });
            },
        }
    }
    Ok(scheduler.receive(frame, now))
}

/// A packet that found no room is let in by a repetition that finds it.
pub proof fn repetition_is_let_in(s: SchedulerView, frame: FrameView, now: u64, later: u64)
    requires
        brings_new(s, frame),
        frame.path < s.n(),
    ensures
        ({
            let waiting: SchedulerView = s.let_in(frame, Room::Full, now)->Ok_0.0;
            &&& waiting.refused == s.refused
            &&& waiting.let_in(frame, Room::Free, later)->Ok_0.1 == Some(frame.body)
        }),
{
}

/// Frames other than new packets need no room: acknowledgements and probes
/// pass, and a packet that came before is acknowledged again.
pub proof fn control_needs_no_room(s: SchedulerView, frame: FrameView, room: Room, now: u64)
    requires
        !brings_new(s, frame),
    ensures
        s.let_in(frame, room, now) == Ok::<
            (SchedulerView, Option<Seq<u8>>, Seq<FrameView>),
            QueueClosed,
        >(s.after_frame(frame, now)),
{
}

} // verus!
