//! Joining datagrams of one run into one call of the system. Only a run that
//! is ready anyway is joined: the same path and destination, one length, and
//! TCP data. Nothing waits for more, and the wire shows no difference.
use vstd::prelude::*;

verus! {

pub const MAX_BATCH_PACKETS: usize = 32;

pub const MAX_BATCH_BYTES: usize = 49_152;

/// Where a datagram goes to or comes from.
#[derive(Clone, Copy, Debug, PartialEq, Eq, Structural)]
pub struct Endpoint {
    pub v6: bool,
    pub host: u128,
    pub port: u16,
    /// Flow label and scope, of a version 6 address.
    pub scope: u64,
}

pub struct Datagram {
    pub address: Endpoint,
    pub path: usize,
    pub bytes: Vec<u8>,
    pub tcp_data: bool,
}

#[verifier::ext_equal]
pub struct DatagramView {
    pub address: Endpoint,
    pub path: usize,
    pub bytes: Seq<u8>,
    pub tcp_data: bool,
}

impl View for Datagram {
    type V = DatagramView;

    open spec fn view(&self) -> DatagramView {
        DatagramView {
            address: self.address,
            path: self.path,
            bytes: self.bytes@,
            tcp_data: self.tcp_data,
        }
    }
}

pub open spec fn views(packets: Seq<Datagram>) -> Seq<DatagramView> {
    packets.map_values(|d: Datagram| d@)
}

/// Why datagrams were not sent.
#[derive(Clone, Copy, Debug, PartialEq, Eq, Structural)]
pub enum SendProblem {
    WouldBlock,
    Short,
    System(i32),
}

#[derive(Clone, Copy, Debug, PartialEq, Eq, Structural)]
pub struct SendFailure {
    pub path: usize,
    pub packets: usize,
    pub error: SendProblem,
}

#[derive(Clone, Copy, Debug, PartialEq, Eq, Structural)]
pub struct SendCounters {
    pub sent_datagrams: u64,
    pub sent_bytes: u64,
    pub single_calls: u64,
    pub gso_calls: u64,
    pub gso_batches: u64,
    pub gso_datagrams: u64,
    pub gso_fallbacks: u64,
    pub would_block_datagrams: u64,
    pub failed_datagrams: u64,
}

impl Default for SendCounters {
    fn default() -> (r: Self)
        ensures
            r == (SendCounters {
                sent_datagrams: 0,
                sent_bytes: 0,
                single_calls: 0,
                gso_calls: 0,
                gso_batches: 0,
                gso_datagrams: 0,
                gso_fallbacks: 0,
                would_block_datagrams: 0,
                failed_datagrams: 0,
            }),
    {
        SendCounters {
            sent_datagrams: 0,
            sent_bytes: 0,
            single_calls: 0,
            gso_calls: 0,
            gso_batches: 0,
            gso_datagrams: 0,
            gso_fallbacks: 0,
            would_block_datagrams: 0,
            failed_datagrams: 0,
        }
    }
}

/// What came of a call.
#[derive(Clone, Copy, Debug, PartialEq, Eq, Structural)]
pub enum Outcome {
    /// So many bytes were taken.
    Sent(usize),
    WouldBlock,
    /// The system does not know the request at all.
    Unsupported,
    System(i32),
}

/// A call to make: datagrams from a position on, as one or as a joined batch.
#[derive(Clone, Copy, Debug, PartialEq, Eq, Structural)]
pub struct Call {
    pub start: usize,
    pub count: usize,
    pub joined: bool,
}

/// Datagrams from the second on, up to a limit, that join the first.
pub open spec fn run_len(packets: Seq<DatagramView>, start: int, limit: int, k: int) -> int
    decreases limit - k,
{
    if k < limit && start + k < packets.len() && joins(packets[start], packets[start + k]) {
        run_len(packets, start, limit, k + 1)
    } else {
        k
    }
}

pub open spec fn joins(first: DatagramView, other: DatagramView) -> bool {
    other.tcp_data && other.path == first.path && other.address == first.address
        && other.bytes.len() == first.bytes.len()
}

/// How many datagrams from a position on may go in one call.
pub open spec fn spec_group_len(packets: Seq<DatagramView>, start: int) -> int {
    let first: DatagramView = packets[start];
    let size: int = first.bytes.len() as int;
    if !first.tcp_data || size == 0 || size > MAX_BATCH_BYTES / 2 {
        1
    } else {
        let limit: int = if MAX_BATCH_PACKETS <= MAX_BATCH_BYTES as int / size {
            MAX_BATCH_PACKETS as int
        } else {
            MAX_BATCH_BYTES as int / size
        };
        run_len(packets, start, limit, 1)
    }
}

proof fn lemma_run_len(packets: Seq<DatagramView>, start: int, limit: int, k: int)
    requires
        0 <= start < packets.len(),
        1 <= k <= limit,
        start + k <= packets.len(),
        packets[start].tcp_data,
        forall|j: int| 0 <= j < k ==> joins(packets[start], #[trigger] packets[start + j]),
    ensures
        k <= run_len(packets, start, limit, k) <= limit,
        start + run_len(packets, start, limit, k) <= packets.len(),
        forall|j: int|
            0 <= j < run_len(packets, start, limit, k) ==> joins(
                packets[start],
                #[trigger] packets[start + j],
            ),
    decreases limit - k,
{
    if k < limit && start + k < packets.len() && joins(packets[start], packets[start + k]) {
        lemma_run_len(packets, start, limit, k + 1);
    }
}

pub open spec fn total_bytes(packets: Seq<DatagramView>, start: int, n: nat) -> nat
    decreases n,
{
    if n == 0 {
        0
    } else {
        total_bytes(packets, start, (n - 1) as nat) + packets[start + n - 1].bytes.len()
    }
}

/// A group is a run of TCP data for one path and destination, of one length,
/// within the bounds of a batch.
pub proof fn group_is_bounded(packets: Seq<DatagramView>, start: int)
    requires
        0 <= start < packets.len(),
    ensures
        1 <= spec_group_len(packets, start) <= MAX_BATCH_PACKETS,
        start + spec_group_len(packets, start) <= packets.len(),
        spec_group_len(packets, start) > 1 ==> {
            &&& forall|j: int|
                0 <= j < spec_group_len(packets, start) ==> joins(
                    packets[start],
                    #[trigger] packets[start + j],
                )
            &&& spec_group_len(packets, start) * packets[start].bytes.len() <= MAX_BATCH_BYTES
        },
{
    let first: DatagramView = packets[start];
    let size: int = first.bytes.len() as int;
    if first.tcp_data && 0 < size <= MAX_BATCH_BYTES / 2 {
        let room: int = MAX_BATCH_BYTES as int / size;
        assert(room >= 2 && room * size <= MAX_BATCH_BYTES) by (nonlinear_arith)
            requires
                0 < size <= 24_576,
                room == 49_152int / size,
        ;
        let limit: int = if MAX_BATCH_PACKETS <= room {
            MAX_BATCH_PACKETS as int
        } else {
            room
        };
        assert(joins(packets[start], packets[start + 0]));
        lemma_run_len(packets, start, limit, 1);
        let len: int = run_len(packets, start, limit, 1);
        assert(len * size <= MAX_BATCH_BYTES) by (nonlinear_arith)
            requires
                0 <= len <= room,
                0 < size,
                room * size <= MAX_BATCH_BYTES,
        ;
    }
}

/// How many datagrams from a position on may go in one call.
pub fn group_len(packets: &[Datagram], start: usize) -> (r: usize)
    requires
        start < packets@.len(),
    ensures
        r == spec_group_len(views(packets@), start as int),
        1 <= r <= MAX_BATCH_PACKETS,
        start + r <= packets@.len(),
{
    let ghost all: Seq<DatagramView> = views(packets@);
    proof {
        group_is_bounded(all, start as int);
    }
    assert(packets.len() <= usize::MAX);
    let size: usize = packets[start].bytes.len();
    assert(all[start as int] == packets@[start as int]@);
    if !packets[start].tcp_data || size == 0 || size > MAX_BATCH_BYTES / 2 {
        return 1;
    }
    let room: usize = MAX_BATCH_BYTES / size;
    let limit: usize = if MAX_BATCH_PACKETS <= room {
        MAX_BATCH_PACKETS
    } else {
        room
    };
    let mut k: usize = 1;
    assert(room >= 2) by (nonlinear_arith)
        requires
            0 < size <= 24_576,
            room == 49_152int / size as int,
    ;
    while k < limit && k < packets.len() - start && packets[start + k].tcp_data && packets[start
        + k].path == packets[start].path && packets[start + k].address == packets[start].address
        && packets[start + k].bytes.len() == size
        invariant
            start < packets@.len() <= usize::MAX,
            1 <= k <= limit,
            start + k <= packets@.len(),
            size == packets@[start as int].bytes@.len(),
            all == views(packets@),
            run_len(all, start as int, limit as int, k as int) == run_len(
                all,
                start as int,
                limit as int,
                1,
            ),
        decreases limit - k,
    {
        assert(all[start as int] == packets@[start as int]@);
        assert(all[start + k] == packets@[start + k]@);
        k = k + 1;
    }
    proof {
        assert(all[start as int] == packets@[start as int]@);
        if start + k < packets@.len() {
            assert(all[start + k] == packets@[start + k]@);
        }
    }
    k
}

/// Whether a failed call says that the system cannot join datagrams. Nothing
/// was sent then.
#[verifier::allow_in_spec]
pub fn offload_rejected(outcome: Outcome) -> bool
    returns
        (match outcome {
            Outcome::Unsupported => true,
            Outcome::System(code) => code == 5 || code == 22 || code == 90 || code == 92 || code
                == 95,
            _ => false,
        }),
{
    match outcome {
        Outcome::Unsupported => true,
        Outcome::System(code) => code == 5 || code == 22 || code == 90 || code == 92 || code == 95,
        _ => false,
    }
}

pub struct Egress {
    pub gso_enabled: bool,
    pub counters: SendCounters,
}

#[verifier::ext_equal]
pub struct EgressView {
    pub gso_enabled: bool,
    pub counters: SendCounters,
}

impl View for Egress {
    type V = EgressView;

    open spec fn view(&self) -> EgressView {
        EgressView { gso_enabled: self.gso_enabled, counters: self.counters }
    }
}

/// How a call ended.
pub open spec fn problem(outcome: Outcome, bytes: nat) -> Option<SendProblem> {
    match outcome {
        Outcome::Sent(taken) => if taken == bytes {
            None
        } else {
            Some(SendProblem::Short)
        },
        Outcome::WouldBlock => Some(SendProblem::WouldBlock),
        Outcome::Unsupported => Some(SendProblem::System(0)),
        Outcome::System(code) => Some(SendProblem::System(code)),
    }
}

impl EgressView {
    /// The next call, from a position on.
    pub open spec fn call(self, packets: Seq<DatagramView>, start: usize) -> Call {
        let count: int = if self.gso_enabled {
            spec_group_len(packets, start as int)
        } else {
            1
        };
        Call { start, count: count as usize, joined: count > 1 }
    }

    pub open spec fn called(self, call: Call) -> EgressView {
        EgressView {
            counters: if call.joined {
                SendCounters { gso_calls: self.counters.gso_calls.wrapping_add(1), ..self.counters }
            } else {
                SendCounters {
                    single_calls: self.counters.single_calls.wrapping_add(1),
                    ..self.counters
                }
            },
            ..self
        }
    }

    /// A joined call that the system cannot make is not made again: its
    /// datagrams go one by one, and so do all later ones.
    pub open spec fn settled(self, packets: Seq<DatagramView>, call: Call, outcome: Outcome) -> (
        EgressView,
        usize,
        Option<SendFailure>,
    ) {
        let bytes: nat = total_bytes(packets, call.start as int, call.count as nat);
        let c: SendCounters = self.counters;
        if call.joined && offload_rejected(outcome) {
            (
                EgressView {
                    gso_enabled: false,
                    counters: SendCounters {
                        gso_fallbacks: c.gso_fallbacks.wrapping_add(1),
                        ..c
                    },
                },
                call.start,
                None,
            )
        } else {
            match problem(outcome, bytes) {
                None => (
                    EgressView {
                        counters: SendCounters {
                            sent_datagrams: c.sent_datagrams.wrapping_add(call.count as u64),
                            sent_bytes: c.sent_bytes.wrapping_add(bytes as u64),
                            gso_batches: if call.joined {
                                c.gso_batches.wrapping_add(1)
                            } else {
                                c.gso_batches
                            },
                            gso_datagrams: if call.joined {
                                c.gso_datagrams.wrapping_add(call.count as u64)
                            } else {
                                c.gso_datagrams
                            },
                            ..c
                        },
                        ..self
                    },
                    (call.start + call.count) as usize,
                    None,
                ),
                Some(error) => (
                    EgressView {
                        counters: if error == SendProblem::WouldBlock {
                            SendCounters {
                                would_block_datagrams: c.would_block_datagrams.wrapping_add(
                                    call.count as u64,
                                ),
                                ..c
                            }
                        } else {
                            SendCounters {
                                failed_datagrams: c.failed_datagrams.wrapping_add(
                                    call.count as u64,
                                ),
                                ..c
                            }
                        },
                        ..self
                    },
                    (call.start + call.count) as usize,
                    Some(
                        SendFailure {
                            path: packets[call.start as int].path,
                            packets: call.count,
                            error,
                        },
                    ),
                ),
            }
        }
    }
}

impl Egress {
    pub fn new(gso_enabled: bool) -> (r: Self)
        ensures
            r@ == (EgressView {
                gso_enabled,
                counters: SendCounters {
                    sent_datagrams: 0,
                    sent_bytes: 0,
                    single_calls: 0,
                    gso_calls: 0,
                    gso_batches: 0,
                    gso_datagrams: 0,
                    gso_fallbacks: 0,
                    would_block_datagrams: 0,
                    failed_datagrams: 0,
                },
            }),
    {
        Egress { gso_enabled, counters: SendCounters::default() }
    }

    /// The next call for a list of datagrams, from a position on.
    pub fn next_call(&mut self, packets: &[Datagram], start: usize) -> (r: Option<Call>)
        ensures
            match r {
                Some(call) => {
                    &&& start < packets@.len()
                    &&& call == old(self)@.call(views(packets@), start)
                    &&& call.count >= 1
                    &&& call.start + call.count <= packets@.len()
                    &&& final(self)@ == old(self)@.called(call)
                },
                None => start >= packets@.len() && final(self)@ == old(self)@,
            },
    {
        if start >= packets.len() {
            return None;
        }
        let count: usize = if self.gso_enabled {
            group_len(packets, start)
        } else {
            1
        };
        let call: Call = Call { start, count, joined: count > 1 };
        if call.joined {
            self.counters.gso_calls = self.counters.gso_calls.wrapping_add(1);
        } else {
            self.counters.single_calls = self.counters.single_calls.wrapping_add(1);
        }
        Some(call)
    }

    /// Takes the outcome of a call; returns where to go on, and what failed.
    pub fn settle(&mut self, packets: &[Datagram], call: Call, outcome: Outcome) -> (r: (
        usize,
        Option<SendFailure>,
    ))
        requires
            call.count >= 1,
            call.start + call.count <= packets@.len(),
            total_bytes(views(packets@), call.start as int, call.count as nat) <= usize::MAX,
        ensures
            (final(self)@, r.0, r.1) == old(self)@.settled(views(packets@), call, outcome),
    {
        let ghost all: Seq<DatagramView> = views(packets@);
        if call.joined && offload_rejected(outcome) {
            self.counters.gso_fallbacks = self.counters.gso_fallbacks.wrapping_add(1);
            self.gso_enabled = false;
            return (call.start, None);
        }
        let mut bytes: usize = 0;
        let mut k: usize = 0;
        assert(packets.len() <= usize::MAX);
        while k < call.count
            invariant
                k <= call.count,
                call.start + call.count <= packets@.len(),
                packets@.len() <= usize::MAX,
                all == views(packets@),
                total_bytes(all, call.start as int, call.count as nat) <= usize::MAX,
                bytes == total_bytes(all, call.start as int, k as nat),
            decreases call.count - k,
        {
            assert(all[call.start + k] == packets@[call.start + k]@);
            proof {
                lemma_total_grows(all, call.start as int, (k + 1) as nat, call.count as nat);
            }
            bytes = bytes + packets[call.start + k].bytes.len();
            k = k + 1;
        }
        let error: Option<SendProblem> = match outcome {
            Outcome::Sent(taken) => if taken == bytes {
                None
            } else {
                Some(SendProblem::Short)
            },
            Outcome::WouldBlock => Some(SendProblem::WouldBlock),
            Outcome::Unsupported => Some(SendProblem::System(0)),
            Outcome::System(code) => Some(SendProblem::System(code)),
        };
        let next: usize = call.start + call.count;
        assert(all[call.start as int] == packets@[call.start as int]@);
        match error {
            None => {
                self.counters.sent_datagrams = self.counters.sent_datagrams.wrapping_add(
                    call.count as u64,
                );
                self.counters.sent_bytes = self.counters.sent_bytes.wrapping_add(bytes as u64);
                if call.joined {
                    self.counters.gso_batches = self.counters.gso_batches.wrapping_add(1);
                    self.counters.gso_datagrams = self.counters.gso_datagrams.wrapping_add(
                        call.count as u64,
                    );
                }
                (next, None)
            },
            Some(error) => {
                if error == SendProblem::WouldBlock {
                    self.counters.would_block_datagrams =
                    self.counters.would_block_datagrams.wrapping_add(call.count as u64);
                } else {
                    self.counters.failed_datagrams = self.counters.failed_datagrams.wrapping_add(
                        call.count as u64,
                    );
                }
                let failure: SendFailure = SendFailure {
                    path: packets[call.start].path,
                    packets: call.count,
                    error,
                };
                (next, Some(failure))
            },
        }
    }
}

proof fn lemma_total_grows(packets: Seq<DatagramView>, start: int, a: nat, b: nat)
    requires
        a <= b,
    ensures
        total_bytes(packets, start, a) <= total_bytes(packets, start, b),
    decreases b,
{
    if a < b {
        lemma_total_grows(packets, start, a, (b - 1) as nat);
    }
}

/// Every datagram has one turn, in order: a call begins where the last ended,
/// unless the system refused to join, and then nothing is joined again.
pub proof fn calls_go_on(e: EgressView, packets: Seq<DatagramView>, call: Call, outcome: Outcome)
    requires
        call.count >= 1,
        call.start + call.count <= usize::MAX,
    ensures
        ({
            let done: (EgressView, usize, Option<SendFailure>) = e.settled(packets, call, outcome);
            done.1 == call.start + call.count || (done.1 == call.start && call.joined
                && !done.0.gso_enabled && done.2 is None && done.0.counters.sent_datagrams
                == e.counters.sent_datagrams)
        }),
{
}

/// Where a run of calls for a list of datagrams stands.
#[verifier::ext_equal]
pub struct Run {
    pub egress: EgressView,
    /// The datagram that the next call begins with.
    pub next: usize,
    /// The datagrams of the calls that were not refused, in the order of the
    /// calls, each by its place in the list.
    pub handed: Seq<int>,
}

/// The places of a call's datagrams.
pub open spec fn places(call: Call) -> Seq<int> {
    Seq::new(call.count as nat, |i: int| call.start + i)
}

/// A run after so many calls, each of which had its outcome. It ends with the
/// list.
pub open spec fn run(
    e: EgressView,
    packets: Seq<DatagramView>,
    outcomes: Seq<Outcome>,
    n: nat,
) -> Run
    decreases n,
{
    if n == 0 {
        Run { egress: e, next: 0, handed: Seq::empty() }
    } else {
        let before: Run = run(e, packets, outcomes, (n - 1) as nat);
        if before.next >= packets.len() {
            before
        } else {
            let call: Call = before.egress.call(packets, before.next);
            let done: (EgressView, usize, Option<SendFailure>) = before.egress.called(call).settled(
                packets,
                call,
                outcomes[n - 1],
            );
            Run {
                egress: done.0,
                next: done.1,
                handed: if call.joined && offload_rejected(outcomes[n - 1]) {
                    before.handed
                } else {
                    before.handed + places(call)
                },
            }
        }
    }
}

/// Datagrams that were sent, blocked or failed.
pub open spec fn accounted(e: EgressView) -> int {
    e.counters.sent_datagrams + e.counters.would_block_datagrams + e.counters.failed_datagrams
}

/// Over a whole run, each datagram is handed over once and in order, apart from
/// the joined calls that the system refused: those handed over are the first of
/// the list, one after another. What was sent, blocked or failed grows by their
/// number.
pub proof fn each_is_handed_over_once(
    e: EgressView,
    packets: Seq<DatagramView>,
    outcomes: Seq<Outcome>,
    n: nat,
)
    requires
        packets.len() <= usize::MAX,
        n <= outcomes.len(),
        accounted(e) + packets.len() <= u64::MAX,
    ensures
        ({
            let now: Run = run(e, packets, outcomes, n);
            &&& now.next <= packets.len()
            &&& now.handed == Seq::new(now.next as nat, |i: int| i)
            &&& accounted(now.egress) == accounted(e) + now.next
        }),
    decreases n,
{
    if n > 0 {
        each_is_handed_over_once(e, packets, outcomes, (n - 1) as nat);
        let before: Run = run(e, packets, outcomes, (n - 1) as nat);
        if before.next < packets.len() {
            group_is_bounded(packets, before.next as int);
            let now: Run = run(e, packets, outcomes, n);
            assert(now.handed =~= Seq::new(now.next as nat, |i: int| i));
        }
    }
}

/// A run comes to its end: joining is refused at most once, and every other
/// call goes on by one datagram or more.
pub proof fn run_ends(e: EgressView, packets: Seq<DatagramView>, outcomes: Seq<Outcome>, n: nat)
    requires
        packets.len() <= usize::MAX,
        n <= outcomes.len(),
    ensures
        ({
            let now: Run = run(e, packets, outcomes, n);
            &&& now.next <= packets.len()
            &&& now.next >= packets.len() || now.next + (if now.egress.gso_enabled {
                0int
            } else {
                1
            }) >= n
            &&& n > packets.len() ==> now.next == packets.len()
        }),
    decreases n,
{
    if n > 0 {
        run_ends(e, packets, outcomes, (n - 1) as nat);
        let before: Run = run(e, packets, outcomes, (n - 1) as nat);
        if before.next < packets.len() {
            group_is_bounded(packets, before.next as int);
        }
    }
}

} // verus!
