//! Per-stream reassembly. Time is handed in, so that every outcome follows
//! from the arguments.
use crate::envelope;
use crate::envelope::{Packet, PacketView, FEC};
use crate::recovery;
use vstd::prelude::*;

verus! {

/// A stream that restarts behind this many packets is taken for a new one.
pub const RESTART_DISTANCE: u32 = 256;

pub const RESTART_AFTER: u32 = 16;

pub const MAX_REQUESTS: u8 = 3;

pub const MIN_REQUEST_GAP_US: u64 = 10_000;

/// A packet that waits, and when it came.
pub struct Held {
    pub packet: Packet,
    pub at: u64,
}

#[verifier::ext_equal]
pub struct HeldView {
    pub packet: PacketView,
    pub at: u64,
}

impl View for Held {
    type V = HeldView;

    open spec fn view(&self) -> HeldView {
        HeldView { packet: self.packet@, at: self.at }
    }
}

/// Packets in the order of their numbers, at most one of each number.
pub struct Shelf {
    items: Vec<Held>,
}

pub open spec fn held_views(items: Seq<Held>) -> Seq<HeldView> {
    items.map_values(|h: Held| h@)
}

impl View for Shelf {
    type V = Seq<HeldView>;

    closed spec fn view(&self) -> Seq<HeldView> {
        held_views(self.items@)
    }
}

pub open spec fn sorted(s: Seq<HeldView>) -> bool {
    forall|i: int, j: int|
        0 <= i < j < s.len() ==> (#[trigger] s[i]).packet.sequence < (
        #[trigger] s[j]).packet.sequence
}

/// First position from `i` on that is not below a number.
pub open spec fn slot(s: Seq<HeldView>, key: u32, i: int) -> int
    decreases s.len() - i,
{
    if i < s.len() && s[i].packet.sequence < key {
        slot(s, key, i + 1)
    } else {
        i
    }
}

pub open spec fn place(s: Seq<HeldView>, key: u32) -> int {
    slot(s, key, 0)
}

pub open spec fn holds(s: Seq<HeldView>, key: u32) -> bool {
    place(s, key) < s.len() && s[place(s, key)].packet.sequence == key
}

pub open spec fn held(s: Seq<HeldView>, key: u32) -> PacketView {
    s[place(s, key)].packet
}

pub open spec fn without(s: Seq<HeldView>, key: u32) -> Seq<HeldView> {
    if holds(s, key) {
        s.remove(place(s, key))
    } else {
        s
    }
}

/// With an item, in place of one of its number.
pub open spec fn put(s: Seq<HeldView>, item: HeldView) -> Seq<HeldView> {
    let at: int = place(s, item.packet.sequence);
    if holds(s, item.packet.sequence) {
        s.update(at, item)
    } else {
        s.insert(at, item)
    }
}

/// What is not below a number.
pub open spec fn not_below(s: Seq<HeldView>, key: u32) -> Seq<HeldView> {
    s.skip(place(s, key))
}

/// What is below one number, or not below another.
pub open spec fn outside(s: Seq<HeldView>, low: u32, high: u32) -> Seq<HeldView> {
    s.take(place(s, low)) + s.skip(place(s, high))
}

pub proof fn lemma_slot(s: Seq<HeldView>, key: u32, i: int)
    requires
        0 <= i <= s.len(),
    ensures
        i <= slot(s, key, i) <= s.len(),
        forall|j: int|
            i <= j < slot(s, key, i) ==> (#[trigger] s[j]).packet.sequence < key,
        slot(s, key, i) < s.len() ==> s[slot(s, key, i)].packet.sequence >= key,
    decreases s.len() - i,
{
    if i < s.len() && s[i].packet.sequence < key {
        lemma_slot(s, key, i + 1);
    }
}

proof fn lemma_without(s: Seq<HeldView>, key: u32)
    requires
        sorted(s),
    ensures
        sorted(without(s, key)),
        without(s, key).len() <= s.len(),
        holds(s, key) ==> without(s, key).len() == s.len() - 1,
{
    lemma_slot(s, key, 0);
}

proof fn lemma_put(s: Seq<HeldView>, item: HeldView)
    requires
        sorted(s),
    ensures
        sorted(put(s, item)),
        put(s, item).len() == if holds(s, item.packet.sequence) {
            s.len()
        } else {
            s.len() + 1
        },
{
    lemma_slot(s, item.packet.sequence, 0);
    let t: Seq<HeldView> = put(s, item);
    let at: int = place(s, item.packet.sequence);
    assert forall|i: int, j: int| 0 <= i < j < t.len() implies (#[trigger] t[i]).packet.sequence < (
    #[trigger] t[j]).packet.sequence by {
        if !holds(s, item.packet.sequence) {
            assert(t[i] == if i < at {
                s[i]
            } else if i == at {
                item
            } else {
                s[i - 1]
            });
            assert(t[j] == if j < at {
                s[j]
            } else if j == at {
                item
            } else {
                s[j - 1]
            });
        }
    }
}

proof fn lemma_not_below(s: Seq<HeldView>, key: u32)
    requires
        sorted(s),
    ensures
        sorted(not_below(s, key)),
        not_below(s, key).len() <= s.len(),
{
    lemma_slot(s, key, 0);
}

proof fn lemma_outside(s: Seq<HeldView>, low: u32, high: u32)
    requires
        sorted(s),
        low <= high,
    ensures
        sorted(outside(s, low, high)),
        outside(s, low, high).len() <= s.len(),
{
    lemma_slot(s, low, 0);
    lemma_slot(s, high, 0);
    let a: int = place(s, low);
    let b: int = place(s, high);
    assert(a <= b) by {
        if b < a {
            assert(s[b].packet.sequence < low);
        }
    }
    let t: Seq<HeldView> = outside(s, low, high);
    assert forall|i: int, j: int| 0 <= i < j < t.len() implies (#[trigger] t[i]).packet.sequence < (
    #[trigger] t[j]).packet.sequence by {
        assert(t[i] == if i < a {
            s[i]
        } else {
            s[i - a + b]
        });
        assert(t[j] == if j < a {
            s[j]
        } else {
            s[j - a + b]
        });
    }
}

impl Shelf {
    pub closed spec fn wf(&self) -> bool {
        sorted(self@)
    }

    pub fn new() -> (r: Self)
        ensures
            r.wf(),
            r@ == Seq::<HeldView>::empty(),
    {
        let r: Shelf = Shelf { items: Vec::new() };
        assert(r@ =~= Seq::empty());
        r
    }

    pub fn len(&self) -> (r: usize)
        ensures
            r == self@.len(),
    {
        self.items.len()
    }

    pub fn is_empty(&self) -> (r: bool)
        ensures
            r == (self@.len() == 0),
    {
        self.items.len() == 0
    }

    fn find(&self, key: u32) -> (r: usize)
        ensures
            r == place(self@, key),
            r <= self@.len(),
    {
        let mut i: usize = 0;
        while i < self.items.len() && self.items[i].packet.sequence < key
            invariant
                i <= self.items@.len(),
                slot(self@, key, i as int) == slot(self@, key, 0),
            decreases self.items@.len() - i,
        {
            i = i + 1;
        }
        i
    }

    pub fn contains(&self, key: u32) -> (r: bool)
        ensures
            r == holds(self@, key),
    {
        let i: usize = self.find(key);
        i < self.items.len() && self.items[i].packet.sequence == key
    }

    pub fn take(&mut self, key: u32) -> (r: Option<Packet>)
        requires
            old(self).wf(),
        ensures
            final(self).wf(),
            final(self)@ == without(old(self)@, key),
            match r {
                Some(packet) => holds(old(self)@, key) && packet@ == held(old(self)@, key),
                None => !holds(old(self)@, key),
            },
    {
        proof {
            lemma_without(self@, key);
        }
        let i: usize = self.find(key);
        if i < self.items.len() && self.items[i].packet.sequence == key {
            let ghost before: Seq<HeldView> = self@;
            let item: Held = self.items.remove(i);
            assert(self@ =~= before.remove(i as int));
            Some(item.packet)
        } else {
            None
        }
    }

    pub fn put(&mut self, packet: Packet, at: u64)
        requires
            old(self).wf(),
        ensures
            final(self).wf(),
            final(self)@ == put(old(self)@, HeldView { packet: packet@, at }),
    {
        let ghost before: Seq<HeldView> = self@;
        let item: Held = Held { packet, at };
        proof {
            lemma_put(before, item@);
        }
        let ghost view: HeldView = item@;
        let i: usize = self.find(item.packet.sequence);
        if i < self.items.len() && self.items[i].packet.sequence == item.packet.sequence {
            self.items[i] = item;
            assert(self@ =~= before.update(i as int, view));
        } else {
            self.items.insert(i, item);
            assert(self@ =~= before.insert(i as int, view));
        }
    }

    /// Drops what lies from one number up to another.
    pub fn drop_between(&mut self, low: u32, high: u32)
        requires
            old(self).wf(),
            low <= high,
        ensures
            final(self).wf(),
            final(self)@ == outside(old(self)@, low, high),
    {
        let ghost before: Seq<HeldView> = self@;
        proof {
            lemma_outside(before, low, high);
            lemma_slot(before, low, 0);
            lemma_slot(before, high, 0);
        }
        let from: usize = self.find(low);
        let to: usize = self.find(high);
        assert(from <= to) by {
            if to < from {
                assert(before[to as int].packet.sequence < low);
            }
        }
        let mut i: usize = to;
        assert(before.take(to as int) + before.skip(to as int) =~= before);
        while i > from
            invariant
                from <= i <= to <= before.len(),
                self@ == before.take(i as int) + before.skip(to as int),
            decreases i,
        {
            i = i - 1;
            let ghost now: Seq<HeldView> = self@;
            assert(self.items@.len() == now.len());
            let _ = self.items.remove(i);
            assert(self@ =~= now.remove(i as int));
            assert(self@ =~= before.take(i as int) + before.skip(to as int));
        }
    }

    /// Drops what lies below a number.
    pub fn drop_below(&mut self, key: u32)
        requires
            old(self).wf(),
        ensures
            final(self).wf(),
            final(self)@ == not_below(old(self)@, key),
    {
        let ghost before: Seq<HeldView> = self@;
        self.drop_between(0, key);
        proof {
            lemma_slot(before, 0, 0);
            assert(before.take(0) + before.skip(place(before, key)) =~= not_below(before, key));
        }
    }

    pub fn clear(&mut self)
        ensures
            final(self).wf(),
            final(self)@ == Seq::<HeldView>::empty(),
    {
        self.items = Vec::new();
        assert(self@ =~= Seq::empty());
    }
}

#[derive(Debug)]
pub struct Output {
    pub ready: Vec<Packet>,
    pub ack: Option<u32>,
    pub nack: Vec<u32>,
}

#[verifier::ext_equal]
pub struct OutputView {
    pub ready: Seq<PacketView>,
    pub ack: Option<u32>,
    pub nack: Seq<u32>,
}

impl View for Output {
    type V = OutputView;

    open spec fn view(&self) -> OutputView {
        OutputView {
            ready: recovery::packet_views(self.ready@),
            ack: self.ack,
            nack: self.nack@,
        }
    }
}

pub open spec fn no_output() -> OutputView {
    OutputView { ready: Seq::empty(), ack: None, nack: Seq::empty() }
}

impl Default for Output {
    fn default() -> (r: Self)
        ensures
            r@ == no_output(),
    {
        let r: Output = Output { ready: Vec::new(), ack: None, nack: Vec::new() };
        assert(r@ =~= no_output());
        r
    }
}

#[verifier::ext_equal]
pub struct ReassemblyView {
    pub next: u32,
    pub pending: Seq<HeldView>,
    pub copies: Seq<HeldView>,
    pub gap: Option<u64>,
    pub nack_at: Option<u64>,
    pub retries: u8,
    pub budget: u64,
    pub grace: u64,
    pub latest_sent: i64,
    pub capacity: nat,
}

/// The numbers of overdue packets among the first `n`, but for one.
pub open spec fn overdue(s: Seq<HeldView>, next: u32, budget: u64, now: u64, n: nat) -> Seq<u32>
    decreases n,
{
    if n == 0 {
        Seq::empty()
    } else {
        let rest: Seq<u32> = overdue(s, next, budget, now, (n - 1) as nat);
        if s[n - 1].packet.sequence != next && now.saturating_sub(s[n - 1].at) > budget {
            rest.push(s[n - 1].packet.sequence)
        } else {
            rest
        }
    }
}

impl ReassemblyView {
    pub open spec fn wf(self) -> bool {
        &&& self.capacity >= 1
        &&& sorted(self.pending)
        &&& sorted(self.copies)
        &&& self.pending.len() <= self.capacity
        &&& self.copies.len() <= self.capacity
        &&& self.retries <= MAX_REQUESTS
    }

    pub open spec fn gap_cleared(self) -> ReassemblyView {
        ReassemblyView { gap: None, nack_at: None, retries: 0, ..self }
    }

    /// Expects the next number. Copies of earlier ones go.
    pub open spec fn advanced(self) -> ReassemblyView {
        let next: u32 = self.next.wrapping_add(1);
        ReassemblyView {
            next,
            copies: not_below(self.copies, next),
            ..self.gap_cleared()
        }
    }

    /// Whether the expected packet is at hand.
    pub open spec fn at_hand(self) -> bool {
        holds(self.pending, self.next) || holds(self.copies, self.next)
    }

    pub open spec fn expected(self) -> PacketView {
        if holds(self.pending, self.next) {
            held(self.pending, self.next)
        } else {
            held(self.copies, self.next)
        }
    }

    /// After delivery of the expected packet.
    pub open spec fn after_expected(self) -> ReassemblyView {
        if holds(self.pending, self.next) {
            (ReassemblyView { pending: without(self.pending, self.next), ..self }).advanced()
        } else {
            (ReassemblyView { copies: without(self.copies, self.next), ..self }).advanced()
        }
    }

    /// Delivers the expected packets as long as they are at hand.
    pub open spec fn drained(self) -> (ReassemblyView, Seq<PacketView>)
        decreases self.pending.len() + self.copies.len(),
    {
        if self.at_hand() {
            proof {
                lemma_slot(self.pending, self.next, 0);
                lemma_slot(self.copies, self.next, 0);
                lemma_slot(self.copies, self.next.wrapping_add(1), 0);
                lemma_slot(
                    without(self.copies, self.next),
                    self.next.wrapping_add(1),
                    0,
                );
            }
            let rest: (ReassemblyView, Seq<PacketView>) = self.after_expected().drained();
            (rest.0, seq![self.expected()] + rest.1)
        } else {
            (self, Seq::empty())
        }
    }

    pub open spec fn asks_first(self, now: u64) -> bool {
        match self.gap {
            Some(gap) => !self.at_hand() && now.saturating_sub(gap) >= self.budget
                && self.nack_at is None,
            None => false,
        }
    }

    pub open spec fn request_gap(self) -> u64 {
        if self.grace / 2 < MIN_REQUEST_GAP_US {
            MIN_REQUEST_GAP_US
        } else {
            self.grace / 2
        }
    }

    pub open spec fn asks_again(self, now: u64) -> bool {
        match (self.gap, self.nack_at) {
            (Some(gap), Some(at)) => !self.at_hand() && now.saturating_sub(gap) >= self.budget
                && self.retries < MAX_REQUESTS && now.saturating_sub(at) >= self.request_gap()
                && now.saturating_sub(at) < self.grace,
            _ => false,
        }
    }

    /// The answer to what was delivered: an acknowledgement of it, and a
    /// request for a packet that is overdue.
    pub open spec fn finished(self, ready: Seq<PacketView>, now: u64) -> (
        ReassemblyView,
        OutputView,
    ) {
        let ack: Option<u32> = if ready.len() > 0 && self.next > 0 {
            Some((self.next - 1) as u32)
        } else {
            None
        };
        if self.asks_first(now) {
            (
                ReassemblyView { nack_at: Some(now), retries: 1, ..self },
                OutputView { ready, ack, nack: seq![self.next] },
            )
        } else if self.asks_again(now) {
            (
                ReassemblyView { nack_at: Some(now), retries: (self.retries + 1) as u8, ..self },
                OutputView { ready, ack, nack: seq![self.next] },
            )
        } else {
            (self, OutputView { ready, ack, nack: Seq::empty() })
        }
    }

    /// A gap that was asked for and stayed empty is given up.
    pub open spec fn gap_given_up(self, now: u64) -> ReassemblyView {
        if self.gap is Some && self.nack_at is Some && now.saturating_sub(self.nack_at->0)
            >= self.grace {
            self.advanced()
        } else {
            self
        }
    }

    /// Delivers one overdue packet, over a gap if there is one.
    pub open spec fn forced(self, seq: u32) -> (ReassemblyView, Seq<PacketView>) {
        if !holds(self.pending, seq) {
            (self, Seq::empty())
        } else {
            let packet: PacketView = if holds(self.copies, seq) {
                held(self.copies, seq)
            } else {
                held(self.pending, seq)
            };
            let taken: ReassemblyView = ReassemblyView {
                pending: without(self.pending, seq),
                copies: without(self.copies, seq),
                ..self
            };
            if seq < self.next {
                (taken, Seq::empty())
            } else if seq > self.next {
                (
                    (ReassemblyView {
                        next: seq,
                        pending: outside(taken.pending, self.next, seq),
                        copies: outside(taken.copies, self.next, seq),
                        ..taken.gap_cleared()
                    }).advanced(),
                    seq![packet],
                )
            } else {
                (taken.advanced(), seq![packet])
            }
        }
    }

    /// Delivers the first `n` of some overdue packets.
    pub open spec fn forced_all(self, keys: Seq<u32>, n: nat) -> (ReassemblyView, Seq<PacketView>)
        decreases n,
    {
        if n == 0 {
            (self, Seq::empty())
        } else {
            let before: (ReassemblyView, Seq<PacketView>) = self.forced_all(keys, (n - 1) as nat);
            let step: (ReassemblyView, Seq<PacketView>) = before.0.forced(keys[n - 1]);
            (step.0, before.1 + step.1)
        }
    }

    /// Delivers what is overdue, and then what follows it.
    pub open spec fn aged(self, now: u64) -> (ReassemblyView, Seq<PacketView>) {
        let keys: Seq<u32> = overdue(
            self.pending,
            self.next,
            self.budget,
            now,
            self.pending.len(),
        );
        let run: (ReassemblyView, Seq<PacketView>) = self.forced_all(keys, keys.len());
        let rest: (ReassemblyView, Seq<PacketView>) = run.0.drained();
        (rest.0, run.1 + rest.1)
    }

    /// What time alone delivers.
    pub open spec fn released(self, now: u64) -> (ReassemblyView, Seq<PacketView>) {
        if self.at_hand() {
            self.drained()
        } else {
            let over: ReassemblyView = self.gap_given_up(now);
            if !holds(over.pending, over.next) && holds(over.copies, over.next) {
                over.drained()
            } else {
                over.aged(now)
            }
        }
    }

    pub open spec fn ticked(self, now: u64) -> (ReassemblyView, OutputView) {
        let run: (ReassemblyView, Seq<PacketView>) = self.released(now);
        run.0.finished(run.1, now)
    }

    /// Whether a number behind the expected one starts the stream anew.
    pub open spec fn restarts(self, packet: PacketView) -> bool {
        &&& (packet.sequence == 0 && self.next >= RESTART_AFTER) || self.next - packet.sequence
            > RESTART_DISTANCE
        &&& !envelope::is_set(packet.flags, FEC)
        &&& packet.timestamp_us != 0
        &&& packet.timestamp_us > self.latest_sent
    }

    pub open spec fn noted(self, packet: PacketView) -> ReassemblyView {
        ReassemblyView {
            latest_sent: if packet.timestamp_us > self.latest_sent {
                packet.timestamp_us
            } else {
                self.latest_sent
            },
            ..self
        }
    }

    pub open spec fn restarted(self) -> ReassemblyView {
        ReassemblyView {
            next: 0,
            pending: Seq::empty(),
            copies: Seq::empty(),
            ..self.gap_cleared()
        }
    }

    pub open spec fn gap_noted(self, now: u64) -> ReassemblyView {
        ReassemblyView {
            gap: if self.gap is None {
                Some(now)
            } else {
                self.gap
            },
            ..self
        }
    }

    /// Takes a packet that is not behind.
    pub open spec fn accepted(self, packet: PacketView, now: u64) -> (
        ReassemblyView,
        Result<OutputView, Seq<char>>,
    ) {
        let item: HeldView = HeldView { packet, at: now };
        if packet.sequence == self.next {
            let rest: (ReassemblyView, Seq<PacketView>) = self.advanced().drained();
            let done: (ReassemblyView, OutputView) = rest.0.finished(
                seq![packet] + rest.1,
                now,
            );
            (done.0, Ok(done.1))
        } else if envelope::is_set(packet.flags, FEC) {
            if self.copies.len() >= self.capacity && !holds(self.copies, packet.sequence) {
                (self, Err("FEC buffer capacity reached"@))
            } else {
                let done: (ReassemblyView, OutputView) = (ReassemblyView {
                    copies: put(self.copies, item),
                    ..self
                }).gap_noted(now).ticked(now);
                (done.0, Ok(done.1))
            }
        } else if self.pending.len() >= self.capacity && !holds(self.pending, packet.sequence) {
            (self, Err("reorder buffer capacity reached"@))
        } else {
            let done: (ReassemblyView, OutputView) = (ReassemblyView {
                pending: if holds(self.pending, packet.sequence) {
                    self.pending
                } else {
                    put(self.pending, item)
                },
                ..self
            }).gap_noted(now).ticked(now);
            (done.0, Ok(done.1))
        }
    }

    /// Takes a packet. One that is behind is dropped, unless it starts the
    /// stream anew.
    pub open spec fn inserted(self, packet: PacketView, now: u64) -> (
        ReassemblyView,
        Result<OutputView, Seq<char>>,
    ) {
        if !packet.data() {
            (self, Ok(no_output()))
        } else if packet.sequence < self.next {
            if self.restarts(packet) {
                self.noted(packet).restarted().accepted(packet, now)
            } else {
                (self.noted(packet), Ok(no_output()))
            }
        } else {
            self.noted(packet).accepted(packet, now)
        }
    }
}

pub struct Stream {
    next: u32,
    pending: Shelf,
    pub copies: Shelf,
    gap: Option<u64>,
    nack_at: Option<u64>,
    retries: u8,
    budget: u64,
    grace: u64,
    latest_sent: i64,
    capacity: usize,
}

impl View for Stream {
    type V = ReassemblyView;

    closed spec fn view(&self) -> ReassemblyView {
        ReassemblyView {
            next: self.next,
            pending: self.pending@,
            copies: self.copies@,
            gap: self.gap,
            nack_at: self.nack_at,
            retries: self.retries,
            budget: self.budget,
            grace: self.grace,
            latest_sent: self.latest_sent,
            capacity: self.capacity as nat,
        }
    }
}

fn has_copy_mark(packet: &Packet) -> (r: bool)
    ensures
        r == envelope::is_set(packet.flags, FEC),
{
    (packet.flags / FEC) % 2 == 1
}

impl Stream {
    pub closed spec fn wf(&self) -> bool {
        &&& self@.wf()
        &&& self.pending.wf()
        &&& self.copies.wf()
    }

    /// Durations are microseconds. The caller chooses the budgets.
    pub fn new(budget: u64, grace: u64, capacity: usize) -> (r: Self)
        ensures
            r.wf(),
            r@ == (ReassemblyView {
                next: 0,
                pending: Seq::empty(),
                copies: Seq::empty(),
                gap: None,
                nack_at: None,
                retries: 0,
                budget,
                grace,
                latest_sent: 0,
                capacity: if capacity == 0 {
                    1
                } else {
                    capacity as nat
                },
            }),
    {
        Stream {
            next: 0,
            pending: Shelf::new(),
            copies: Shelf::new(),
            gap: None,
            nack_at: None,
            retries: 0,
            budget,
            grace,
            latest_sent: 0,
            capacity: if capacity == 0 {
                1
            } else {
                capacity
            },
        }
    }

    fn clear_gap(&mut self)
        requires
            old(self).wf(),
        ensures
            final(self).wf(),
            final(self)@ == old(self)@.gap_cleared(),
    {
        self.gap = None;
        self.nack_at = None;
        self.retries = 0;
    }

    fn advance(&mut self)
        requires
            old(self).wf(),
        ensures
            final(self).wf(),
            final(self)@ == old(self)@.advanced(),
    {
        proof {
            lemma_not_below(self@.copies, self.next.wrapping_add(1));
        }
        self.next = self.next.wrapping_add(1);
        self.clear_gap();
        self.copies.drop_below(self.next);
    }

    /// Takes the expected packet, if it is at hand.
    fn take_expected(&mut self) -> (r: Option<Packet>)
        requires
            old(self).wf(),
        ensures
            final(self).wf(),
            match r {
                Some(packet) => {
                    &&& old(self)@.at_hand()
                    &&& packet@ == old(self)@.expected()
                    &&& final(self)@ == old(self)@.after_expected()
                },
                None => !old(self)@.at_hand() && final(self)@ == old(self)@,
            },
    {
        proof {
            lemma_without(self@.pending, self.next);
            lemma_without(self@.copies, self.next);
        }
        match self.pending.take(self.next) {
            Some(packet) => {
                self.advance();
                Some(packet)
            },
            None => match self.copies.take(self.next) {
                Some(packet) => {
                    self.advance();
                    Some(packet)
                },
                None => None,
            },
        }
    }

    /// Delivers the whole contiguous prefix that is at hand: on one surviving
    /// link it may consist of copies alone.
    fn sequential(&mut self, out: &mut Vec<Packet>)
        requires
            old(self).wf(),
        ensures
            final(self).wf(),
            final(self)@ == old(self)@.drained().0,
            recovery::packet_views(final(out)@) == recovery::packet_views(old(out)@)
                + old(self)@.drained().1,
    {
        let ghost start: ReassemblyView = self@;
        let ghost first: Seq<PacketView> = recovery::packet_views(out@);
        let mut more: bool = true;
        while more
            invariant
                self.wf(),
                self@.drained().0 == start.drained().0,
                recovery::packet_views(out@) + self@.drained().1 == first + start.drained().1,
                !more ==> !self@.at_hand(),
            decreases self@.pending.len() + self@.copies.len(), more as int,
        {
            let ghost now: ReassemblyView = self@;
            let ghost sent: Seq<PacketView> = recovery::packet_views(out@);
            proof {
                lemma_without(self@.pending, self.next);
                lemma_without(self@.copies, self.next);
                lemma_not_below(self@.copies, self.next.wrapping_add(1));
                lemma_not_below(without(self@.copies, self.next), self.next.wrapping_add(1));
            }
            match self.take_expected() {
                Some(packet) => {
                    out.push(packet);
                    assert(recovery::packet_views(out@) =~= sent.push(now.expected()));
                    assert(sent.push(now.expected()) + self@.drained().1 =~= sent + now.drained().1);
                },
                None => {
                    more = false;
                },
            }
        }
        assert(recovery::packet_views(out@) + Seq::<PacketView>::empty()
            =~= recovery::packet_views(out@));
    }

    fn finish(&mut self, ready: Vec<Packet>, now: u64) -> (r: Output)
        requires
            old(self).wf(),
        ensures
            final(self).wf(),
            (final(self)@, r@) == old(self)@.finished(recovery::packet_views(ready@), now),
    {
        let ghost before: ReassemblyView = self@;
        let ack: Option<u32> = if ready.len() > 0 && self.next > 0 {
            Some(self.next - 1)
        } else {
            None
        };
        let mut nack: Vec<u32> = Vec::new();
        let absent: bool = !self.pending.contains(self.next) && !self.copies.contains(self.next);
        match self.gap {
            Some(gap) => {
                if absent && now.saturating_sub(gap) >= self.budget {
                    match self.nack_at {
                        None => {
                            self.nack_at = Some(now);
                            self.retries = 1;
                            nack.push(self.next);
                        },
                        Some(at) => {
                            let half: u64 = self.grace / 2;
                            let least: u64 = if half < MIN_REQUEST_GAP_US {
                                MIN_REQUEST_GAP_US
                            } else {
                                half
                            };
                            let waited: u64 = now.saturating_sub(at);
                            if self.retries < MAX_REQUESTS && waited >= least && waited
                                < self.grace {
                                self.nack_at = Some(now);
                                self.retries = self.retries + 1;
                                nack.push(self.next);
                            }
                        },
                    }
                }
            },
            None => {},
        }
        let out: Output = Output { ready, ack, nack };
        proof {
            let done: (ReassemblyView, OutputView) = before.finished(
                recovery::packet_views(ready@),
                now,
            );
            assert(self@ =~= done.0);
            assert(out@ =~= done.1);
        }
        out
    }

    fn list_overdue(&self, now: u64) -> (r: Vec<u32>)
        ensures
            r@ == overdue(self@.pending, self@.next, self@.budget, now, self@.pending.len()),
    {
        let mut list: Vec<u32> = Vec::new();
        let mut i: usize = 0;
        while i < self.pending.items.len()
            invariant
                i <= self.pending.items@.len(),
                self.pending.items@.len() == self@.pending.len(),
                list@ == overdue(self@.pending, self@.next, self@.budget, now, i as nat),
            decreases self.pending.items@.len() - i,
        {
            let seq: u32 = self.pending.items[i].packet.sequence;
            let at: u64 = self.pending.items[i].at;
            assert(self@.pending[i as int] == self.pending.items@[i as int]@);
            if seq != self.next && now.saturating_sub(at) > self.budget {
                list.push(seq);
            }
            i = i + 1;
        }
        list
    }

    fn force(&mut self, seq: u32, out: &mut Vec<Packet>)
        requires
            old(self).wf(),
        ensures
            final(self).wf(),
            final(self)@ == old(self)@.forced(seq).0,
            recovery::packet_views(final(out)@) == recovery::packet_views(old(out)@)
                + old(self)@.forced(seq).1,
    {
        let ghost before: ReassemblyView = self@;
        let ghost sent: Seq<PacketView> = recovery::packet_views(out@);
        assert(sent + Seq::<PacketView>::empty() =~= sent);
        proof {
            lemma_without(self@.pending, seq);
            lemma_without(self@.copies, seq);
        }
        let waiting: Packet = match self.pending.take(seq) {
            Some(packet) => packet,
            None => {
                return;
            },
        };
        let packet: Packet = match self.copies.take(seq) {
            Some(copy) => copy,
            None => waiting,
        };
        if seq < self.next {
            return;
        }
        if seq > self.next {
            proof {
                lemma_outside(self@.pending, self.next, seq);
                lemma_outside(self@.copies, self.next, seq);
            }
            self.pending.drop_between(self.next, seq);
            self.copies.drop_between(self.next, seq);
            self.next = seq;
            self.clear_gap();
        }
        out.push(packet);
        self.advance();
        assert(self@ =~= before.forced(seq).0);
        assert(recovery::packet_views(out@) =~= sent + before.forced(seq).1);
    }

    fn release_aged(&mut self, now: u64, out: &mut Vec<Packet>)
        requires
            old(self).wf(),
        ensures
            final(self).wf(),
            final(self)@ == old(self)@.aged(now).0,
            recovery::packet_views(final(out)@) == recovery::packet_views(old(out)@)
                + old(self)@.aged(now).1,
    {
        let ghost before: ReassemblyView = self@;
        let ghost sent: Seq<PacketView> = recovery::packet_views(out@);
        let keys: Vec<u32> = self.list_overdue(now);
        let mut i: usize = 0;
        assert(sent + Seq::<PacketView>::empty() =~= sent);
        while i < keys.len()
            invariant
                self.wf(),
                i <= keys@.len(),
                self@ == before.forced_all(keys@, i as nat).0,
                recovery::packet_views(out@) == sent + before.forced_all(keys@, i as nat).1,
            decreases keys@.len() - i,
        {
            let ghost now_sent: Seq<PacketView> = before.forced_all(keys@, i as nat).1;
            let ghost step: Seq<PacketView> = self@.forced(keys@[i as int]).1;
            self.force(keys[i], out);
            i = i + 1;
            assert(sent + now_sent + step =~= sent + (now_sent + step));
        }
        let ghost run: (ReassemblyView, Seq<PacketView>) = before.forced_all(keys@, keys@.len());
        self.sequential(out);
        assert(sent + run.1 + run.0.drained().1 =~= sent + before.aged(now).1);
    }

    fn release(&mut self, now: u64) -> (r: Vec<Packet>)
        requires
            old(self).wf(),
        ensures
            final(self).wf(),
            final(self)@ == old(self)@.released(now).0,
            recovery::packet_views(r@) == old(self)@.released(now).1,
    {
        let mut ready: Vec<Packet> = Vec::new();
        let ghost none: Seq<PacketView> = recovery::packet_views(ready@);
        assert(none =~= Seq::empty());
        assert forall|s: Seq<PacketView>| #[trigger] (none + s) == s by {
            assert(none + s =~= s);
        }
        if self.pending.contains(self.next) || self.copies.contains(self.next) {
            self.sequential(&mut ready);
            return ready;
        }
        match (self.gap, self.nack_at) {
            (Some(_gap), Some(at)) => {
                if now.saturating_sub(at) >= self.grace {
                    self.advance();
                }
            },
            _ => {},
        }
        if !self.pending.contains(self.next) && self.copies.contains(self.next) {
            self.sequential(&mut ready);
            return ready;
        }
        self.release_aged(now, &mut ready);
        ready
    }

    pub fn insert(&mut self, packet: Packet, now: u64) -> (r: Result<Output, &'static str>)
        requires
            old(self).wf(),
        ensures
            final(self).wf(),
            final(self)@ == old(self)@.inserted(packet@, now).0,
            match r {
                Ok(out) => {
                    &&& old(self)@.inserted(packet@, now).1 == Ok::<OutputView, Seq<char>>(out@)
                    &&& final(self)@.asks_rightly(out@)
                },
                Err(error) => old(self)@.inserted(packet@, now).1 == Err::<OutputView, Seq<char>>(
                    error@,
                ),
            },
    {
        let ghost before: ReassemblyView = self@;
        proof {
            insert_asks_once(before, packet@, now);
        }
        if !packet.is_data() {
            return Ok(Output::default());
        }
        let previous: i64 = self.latest_sent;
        if packet.timestamp_us > previous {
            self.latest_sent = packet.timestamp_us;
        }
        assert(self@ =~= before.noted(packet@));
        if packet.sequence < self.next {
            let reset: bool = (packet.sequence == 0 && self.next >= RESTART_AFTER) || self.next
                - packet.sequence > RESTART_DISTANCE;
            if has_copy_mark(&packet) || !reset || packet.timestamp_us == 0 || packet.timestamp_us
                <= previous {
                return Ok(Output::default());
            }
            self.next = 0;
            self.pending.clear();
            self.copies.clear();
            self.clear_gap();
            assert(self@ =~= before.noted(packet@).restarted());
        }
        self.accept(packet, now)
    }

    fn accept(&mut self, packet: Packet, now: u64) -> (r: Result<Output, &'static str>)
        requires
            old(self).wf(),
            packet.sequence >= old(self)@.next,
        ensures
            final(self).wf(),
            final(self)@ == old(self)@.accepted(packet@, now).0,
            match r {
                Ok(out) => old(self)@.accepted(packet@, now).1 == Ok::<OutputView, Seq<char>>(out@),
                Err(error) => old(self)@.accepted(packet@, now).1 == Err::<OutputView, Seq<char>>(
                    error@,
                ),
            },
    {
        let ghost text: PacketView = packet@;
        let seq: u32 = packet.sequence;
        if seq == self.next {
            // A packet that fills the gap needs no room, however full the
            // shelves are: refusing it would keep them from draining.
            let mut ready: Vec<Packet> = Vec::new();
            ready.push(packet);
            assert(recovery::packet_views(ready@) =~= seq![text]);
            self.advance();
            self.sequential(&mut ready);
            return Ok(self.finish(ready, now));
        }
        proof {
            lemma_put(self@.copies, HeldView { packet: text, at: now });
            lemma_put(self@.pending, HeldView { packet: text, at: now });
        }
        if has_copy_mark(&packet) {
            if self.copies.len() >= self.capacity && !self.copies.contains(seq) {
                return Err("FEC buffer capacity reached");
            }
            self.copies.put(packet, now);
        } else {
            let known: bool = self.pending.contains(seq);
            if self.pending.len() >= self.capacity && !known {
                return Err("reorder buffer capacity reached");
            }
            if !known {
                self.pending.put(packet, now);
            }
        }
        if self.gap.is_none() {
            self.gap = Some(now);
        }
        Ok(self.tick(now))
    }

    /// What time alone releases. One number at most is asked for, the expected
    /// one, and it waits on neither shelf.
    pub fn tick(&mut self, now: u64) -> (r: Output)
        requires
            old(self).wf(),
        ensures
            final(self).wf(),
            (final(self)@, r@) == old(self)@.ticked(now),
            final(self)@.asks_rightly(r@),
    {
        proof {
            tick_asks_once(self@, now);
        }
        let ready: Vec<Packet> = self.release(now);
        self.finish(ready, now)
    }
}

/// Numbers rise strictly, from one bound up to below another.
pub open spec fn ascending(list: Seq<PacketView>, low: u32, high: u32) -> bool {
    &&& low <= high
    &&& forall|i: int|
        0 <= i < list.len() ==> low <= (#[trigger] list[i]).sequence && list[i].sequence < high
    &&& forall|i: int, j: int|
        0 <= i < j < list.len() ==> (#[trigger] list[i]).sequence < (#[trigger] list[j]).sequence
}

/// The last number of a list is the one before a bound, which an empty list
/// leaves where it was.
pub open spec fn ends_at(list: Seq<PacketView>, low: u32, high: u32) -> bool {
    if list.len() == 0 {
        low == high
    } else {
        list.last().sequence + 1 == high
    }
}

/// No packet has the last number that there is.
pub open spec fn short_of_end(s: Seq<HeldView>) -> bool {
    forall|i: int| 0 <= i < s.len() ==> (#[trigger] s[i]).packet.sequence < u32::MAX
}

impl ReassemblyView {
    pub open spec fn before_end(self) -> bool {
        short_of_end(self.pending) && short_of_end(self.copies)
    }
}

proof fn lemma_joined(a: Seq<PacketView>, b: Seq<PacketView>, low: u32, mid: u32, high: u32)
    requires
        ascending(a, low, mid),
        ascending(b, mid, high),
    ensures
        ascending(a + b, low, high),
        ends_at(a, low, mid) && ends_at(b, mid, high) ==> ends_at(a + b, low, high),
{
    if b.len() == 0 {
        assert(a + b =~= a);
    }
}

proof fn lemma_kept(s: Seq<HeldView>, key: u32, low: u32, high: u32)
    requires
        sorted(s),
        short_of_end(s),
        low <= high,
    ensures
        short_of_end(without(s, key)),
        short_of_end(not_below(s, key)),
        short_of_end(outside(s, low, high)),
{
    lemma_slot(s, key, 0);
    lemma_slot(s, low, 0);
    lemma_slot(s, high, 0);
}

proof fn lemma_advanced(s: ReassemblyView)
    requires
        s.wf(),
        s.before_end(),
    ensures
        s.advanced().wf(),
        s.advanced().before_end(),
{
    let next: u32 = s.next.wrapping_add(1);
    lemma_not_below(s.copies, next);
    lemma_kept(s.copies, next, 0, 0);
}

proof fn lemma_drained(s: ReassemblyView)
    requires
        s.wf(),
        s.before_end(),
    ensures
        s.drained().0.wf(),
        s.drained().0.before_end(),
        ascending(s.drained().1, s.next, s.drained().0.next),
        ends_at(s.drained().1, s.next, s.drained().0.next),
    decreases s.pending.len() + s.copies.len(),
{
    if s.at_hand() {
        lemma_slot(s.pending, s.next, 0);
        lemma_slot(s.copies, s.next, 0);
        lemma_without(s.pending, s.next);
        lemma_without(s.copies, s.next);
        lemma_kept(s.pending, s.next, 0, 0);
        lemma_kept(s.copies, s.next, 0, 0);
        lemma_not_below(s.copies, s.next.wrapping_add(1));
        lemma_not_below(without(s.copies, s.next), s.next.wrapping_add(1));
        let taken: ReassemblyView = if holds(s.pending, s.next) {
            ReassemblyView { pending: without(s.pending, s.next), ..s }
        } else {
            ReassemblyView { copies: without(s.copies, s.next), ..s }
        };
        lemma_advanced(taken);
        let after: ReassemblyView = s.after_expected();
        lemma_drained(after);
        assert(s.expected().sequence == s.next);
        assert(after.next == s.next + 1);
        lemma_joined(
            seq![s.expected()],
            after.drained().1,
            s.next,
            after.next,
            after.drained().0.next,
        );
    }
}

proof fn lemma_forced(s: ReassemblyView, seq: u32)
    requires
        s.wf(),
        s.before_end(),
    ensures
        s.forced(seq).0.wf(),
        s.forced(seq).0.before_end(),
        ascending(s.forced(seq).1, s.next, s.forced(seq).0.next),
        ends_at(s.forced(seq).1, s.next, s.forced(seq).0.next),
{
    if holds(s.pending, seq) {
        lemma_slot(s.pending, seq, 0);
        lemma_slot(s.copies, seq, 0);
        lemma_without(s.pending, seq);
        lemma_without(s.copies, seq);
        lemma_kept(s.pending, seq, 0, 0);
        lemma_kept(s.copies, seq, 0, 0);
        let taken: ReassemblyView = ReassemblyView {
            pending: without(s.pending, seq),
            copies: without(s.copies, seq),
            ..s
        };
        if seq > s.next {
            lemma_outside(taken.pending, s.next, seq);
            lemma_outside(taken.copies, s.next, seq);
            lemma_kept(taken.pending, seq, s.next, seq);
            lemma_kept(taken.copies, seq, s.next, seq);
            lemma_advanced(
                ReassemblyView {
                    next: seq,
                    pending: outside(taken.pending, s.next, seq),
                    copies: outside(taken.copies, s.next, seq),
                    ..taken.gap_cleared()
                },
            );
        } else if seq == s.next {
            lemma_advanced(taken);
        }
    }
}

proof fn lemma_forced_all(s: ReassemblyView, keys: Seq<u32>, n: nat)
    requires
        s.wf(),
        s.before_end(),
    ensures
        s.forced_all(keys, n).0.wf(),
        s.forced_all(keys, n).0.before_end(),
        ascending(s.forced_all(keys, n).1, s.next, s.forced_all(keys, n).0.next),
        ends_at(s.forced_all(keys, n).1, s.next, s.forced_all(keys, n).0.next),
    decreases n,
{
    if n > 0 {
        let before: (ReassemblyView, Seq<PacketView>) = s.forced_all(keys, (n - 1) as nat);
        lemma_forced_all(s, keys, (n - 1) as nat);
        lemma_forced(before.0, keys[n - 1]);
        let step: (ReassemblyView, Seq<PacketView>) = before.0.forced(keys[n - 1]);
        lemma_joined(before.1, step.1, s.next, before.0.next, step.0.next);
    }
}

proof fn lemma_aged(s: ReassemblyView, now: u64)
    requires
        s.wf(),
        s.before_end(),
    ensures
        s.aged(now).0.wf(),
        s.aged(now).0.before_end(),
        ascending(s.aged(now).1, s.next, s.aged(now).0.next),
        ends_at(s.aged(now).1, s.next, s.aged(now).0.next),
{
    let keys: Seq<u32> = overdue(s.pending, s.next, s.budget, now, s.pending.len());
    let run: (ReassemblyView, Seq<PacketView>) = s.forced_all(keys, keys.len());
    lemma_forced_all(s, keys, keys.len());
    lemma_drained(run.0);
    let rest: (ReassemblyView, Seq<PacketView>) = run.0.drained();
    lemma_joined(run.1, rest.1, s.next, run.0.next, rest.0.next);
}

/// Time delivers packets in the order of their numbers, from the expected one
/// on, and expects a later one afterwards: nothing is delivered twice.
pub proof fn tick_delivers_in_order(s: ReassemblyView, now: u64)
    requires
        s.wf(),
        s.before_end(),
        s.next < u32::MAX,
    ensures
        s.ticked(now).0.wf(),
        s.ticked(now).0.before_end(),
        ascending(s.ticked(now).1.ready, s.next, s.ticked(now).0.next),
        s.ticked(now).1.ready.len() > 0 ==> ends_at(
            s.ticked(now).1.ready,
            s.next,
            s.ticked(now).0.next,
        ),
{
    if s.at_hand() {
        lemma_drained(s);
    } else {
        lemma_advanced(s);
        let over: ReassemblyView = s.gap_given_up(now);
        lemma_drained(over);
        lemma_aged(over, now);
        lemma_joined(
            Seq::empty(),
            s.released(now).1,
            s.next,
            over.next,
            s.released(now).0.next,
        );
        assert(Seq::<PacketView>::empty() + s.released(now).1 =~= s.released(now).1);
    }
}

/// A packet and what it releases are delivered in the order of their numbers,
/// from the expected one on, or from the start of a restarted stream. The
/// stream then expects a later one: nothing is delivered twice.
pub proof fn insert_delivers_in_order(s: ReassemblyView, packet: PacketView, now: u64)
    requires
        s.wf(),
        s.before_end(),
        s.next < u32::MAX,
        packet.sequence < u32::MAX,
    ensures
        s.inserted(packet, now).0.wf(),
        s.inserted(packet, now).0.before_end(),
        match s.inserted(packet, now).1 {
            Ok(out) => ascending(
                out.ready,
                if packet.data() && packet.sequence < s.next && s.restarts(packet) {
                    0
                } else {
                    s.next
                },
                s.inserted(packet, now).0.next,
            ) && (out.ready.len() > 0 ==> ends_at(
                out.ready,
                s.next,
                s.inserted(packet, now).0.next,
            )),
            Err(error) => true,
        },
{
    if packet.data() {
        let start: ReassemblyView = if packet.sequence < s.next && s.restarts(packet) {
            s.noted(packet).restarted()
        } else {
            s.noted(packet)
        };
        if packet.sequence >= start.next {
            if packet.sequence == start.next {
                lemma_advanced(start);
                let after: ReassemblyView = start.advanced();
                lemma_drained(after);
                lemma_joined(
                    seq![packet],
                    after.drained().1,
                    start.next,
                    after.next,
                    after.drained().0.next,
                );
            } else {
                let item: HeldView = HeldView { packet, at: now };
                lemma_put(start.copies, item);
                lemma_put(start.pending, item);
                lemma_slot(start.copies, packet.sequence, 0);
                lemma_slot(start.pending, packet.sequence, 0);
                let copied: ReassemblyView = (ReassemblyView {
                    copies: put(start.copies, item),
                    ..start
                }).gap_noted(now);
                let queued: ReassemblyView = (ReassemblyView {
                    pending: put(start.pending, item),
                    ..start
                }).gap_noted(now);
                if envelope::is_set(packet.flags, FEC) {
                    if start.copies.len() < start.capacity || holds(start.copies, packet.sequence) {
                        tick_delivers_in_order(copied, now);
                    }
                } else if holds(start.pending, packet.sequence) {
                    tick_delivers_in_order(start.gap_noted(now), now);
                } else if start.pending.len() < start.capacity {
                    tick_delivers_in_order(queued, now);
                }
            }
        }
    }
}

/// A packet behind the expected one that does not restart the stream is never
/// delivered, and leaves what waits as it was.
pub proof fn late_packet_is_dropped(s: ReassemblyView, packet: PacketView, now: u64)
    requires
        packet.sequence < s.next,
        !s.restarts(packet),
    ensures
        s.inserted(packet, now).1 == Ok::<OutputView, Seq<char>>(no_output()),
        s.inserted(packet, now).0.next == s.next,
        s.inserted(packet, now).0.pending == s.pending,
        s.inserted(packet, now).0.copies == s.copies,
{
}

/// An acknowledgement names the last number that was delivered with it, the one
/// before the expected one, so it covers all of them. It comes if and only if
/// something was delivered.
pub proof fn ack_covers_delivery(s: ReassemblyView, now: u64)
    requires
        s.wf(),
        s.before_end(),
        s.next < u32::MAX,
    ensures
        match s.ticked(now).1.ack {
            Some(ack) => ack == s.ticked(now).0.next - 1 && s.ticked(now).1.ready.len() > 0
                && s.ticked(now).1.ready.last().sequence == ack && forall|i: int|
                0 <= i < s.ticked(now).1.ready.len() ==> (
                #[trigger] s.ticked(now).1.ready[i]).sequence <= ack,
            None => s.ticked(now).1.ready.len() == 0,
        },
{
    tick_delivers_in_order(s, now);
    let done: (ReassemblyView, OutputView) = s.ticked(now);
    if done.1.ready.len() > 0 {
        assert(done.1.ready[0].sequence < done.0.next);
    }
}

/// The same of what a packet releases.
pub proof fn insert_acknowledges_last(s: ReassemblyView, packet: PacketView, now: u64)
    requires
        s.wf(),
        s.before_end(),
        s.next < u32::MAX,
        packet.sequence < u32::MAX,
    ensures
        match s.inserted(packet, now).1 {
            Ok(out) => match out.ack {
                Some(ack) => ack == s.inserted(packet, now).0.next - 1 && out.ready.len() > 0
                    && out.ready.last().sequence == ack,
                None => out.ready.len() == 0,
            },
            Err(error) => true,
        },
{
    insert_delivers_in_order(s, packet, now);
    let done: (ReassemblyView, Result<OutputView, Seq<char>>) = s.inserted(packet, now);
    match done.1 {
        Ok(out) => {
            if out.ready.len() > 0 {
                assert(out.ready[0].sequence < done.0.next);
            }
        },
        Err(error) => {},
    }
}

impl Stream {
    /// A stream never holds more packets than its capacity in either shelf.
    pub proof fn shelves_are_bounded(&self)
        requires
            self.wf(),
        ensures
            self@.wf(),
    {
    }
}

impl ReassemblyView {
    pub open spec fn waiting(self) -> nat {
        self.pending.len() + self.copies.len()
    }
}

proof fn lemma_drained_count(s: ReassemblyView)
    requires
        s.wf(),
    ensures
        s.drained().0.wf(),
        s.drained().1.len() + s.drained().0.waiting() <= s.waiting(),
        s.drained().0.capacity == s.capacity,
    decreases s.waiting(),
{
    if s.at_hand() {
        lemma_without(s.pending, s.next);
        lemma_without(s.copies, s.next);
        lemma_not_below(s.copies, s.next.wrapping_add(1));
        lemma_not_below(without(s.copies, s.next), s.next.wrapping_add(1));
        lemma_drained_count(s.after_expected());
    }
}

proof fn lemma_forced_count(s: ReassemblyView, keys: Seq<u32>, n: nat)
    requires
        s.wf(),
    ensures
        s.forced_all(keys, n).0.wf(),
        s.forced_all(keys, n).1.len() + s.forced_all(keys, n).0.waiting() <= s.waiting(),
        s.forced_all(keys, n).0.capacity == s.capacity,
    decreases n,
{
    if n > 0 {
        lemma_forced_count(s, keys, (n - 1) as nat);
        let t: ReassemblyView = s.forced_all(keys, (n - 1) as nat).0;
        let seq: u32 = keys[n - 1];
        lemma_without(t.pending, seq);
        lemma_without(t.copies, seq);
        let pending: Seq<HeldView> = without(t.pending, seq);
        let copies: Seq<HeldView> = without(t.copies, seq);
        if seq > t.next {
            lemma_outside(pending, t.next, seq);
            lemma_outside(copies, t.next, seq);
            lemma_not_below(outside(copies, t.next, seq), seq.wrapping_add(1));
        } else {
            lemma_not_below(copies, t.next.wrapping_add(1));
        }
    }
}

/// Time never delivers more than what waits.
pub proof fn tick_delivers_what_waits(s: ReassemblyView, now: u64)
    requires
        s.wf(),
    ensures
        s.ticked(now).0.wf(),
        s.ticked(now).1.ready.len() + s.ticked(now).0.waiting() <= s.waiting(),
        s.ticked(now).0.capacity == s.capacity,
{
    if s.at_hand() {
        lemma_drained_count(s);
    } else {
        lemma_not_below(s.copies, s.next.wrapping_add(1));
        let over: ReassemblyView = s.gap_given_up(now);
        lemma_drained_count(over);
        let keys: Seq<u32> = overdue(
            over.pending,
            over.next,
            over.budget,
            now,
            over.pending.len(),
        );
        lemma_forced_count(over, keys, keys.len());
        lemma_drained_count(over.forced_all(keys, keys.len()).0);
    }
}

/// A packet delivers itself and what waits at most, so that twice the capacity
/// and one is always enough room.
pub proof fn insert_delivers_what_waits(s: ReassemblyView, packet: PacketView, now: u64)
    requires
        s.wf(),
    ensures
        s.inserted(packet, now).0.wf(),
        s.inserted(packet, now).0.capacity == s.capacity,
        match s.inserted(packet, now).1 {
            Ok(out) => out.ready.len() <= 2 * s.capacity + 1,
            Err(error) => true,
        },
{
    if packet.data() {
        let start: ReassemblyView = if packet.sequence < s.next && s.restarts(packet) {
            s.noted(packet).restarted()
        } else {
            s.noted(packet)
        };
        lemma_not_below(start.copies, start.next.wrapping_add(1));
        lemma_drained_count(start.advanced());
        let item: HeldView = HeldView { packet, at: now };
        lemma_put(start.copies, item);
        lemma_put(start.pending, item);
        let copied: ReassemblyView = (ReassemblyView {
            copies: put(start.copies, item),
            ..start
        }).gap_noted(now);
        let queued: ReassemblyView = (ReassemblyView {
            pending: put(start.pending, item),
            ..start
        }).gap_noted(now);
        if copied.copies.len() <= copied.capacity {
            tick_delivers_what_waits(copied, now);
        }
        if queued.pending.len() <= queued.capacity {
            tick_delivers_what_waits(queued, now);
        }
        tick_delivers_what_waits(start.gap_noted(now), now);
    }
}

/// No packet of a list has a number.
pub open spec fn lacks(list: Seq<PacketView>, number: u32) -> bool {
    forall|i: int| 0 <= i < list.len() ==> (#[trigger] list[i]).sequence != number
}

impl ReassemblyView {
    /// Whether a number waits on neither shelf.
    pub open spec fn misses(self, number: u32) -> bool {
        &&& forall|i: int|
            0 <= i < self.pending.len() ==> (#[trigger] self.pending[i]).packet.sequence != number
        &&& forall|i: int|
            0 <= i < self.copies.len() ==> (#[trigger] self.copies[i]).packet.sequence != number
    }

    /// What is asked for is one number at most: the expected one, which waits on
    /// neither shelf.
    pub open spec fn asks_rightly(self, out: OutputView) -> bool {
        &&& out.nack.len() <= 1
        &&& out.nack.len() == 1 ==> out.nack[0] == self.next && self.misses(out.nack[0])
    }
}

proof fn lemma_not_at_hand(s: ReassemblyView)
    requires
        sorted(s.pending),
        sorted(s.copies),
        !s.at_hand(),
    ensures
        s.misses(s.next),
{
    lemma_slot(s.pending, s.next, 0);
    lemma_slot(s.copies, s.next, 0);
}

proof fn lemma_finished_asks(s: ReassemblyView, ready: Seq<PacketView>, now: u64)
    requires
        sorted(s.pending),
        sorted(s.copies),
    ensures
        s.finished(ready, now).1.nack.len() <= 1,
        s.finished(ready, now).1.nack.len() == 1 ==> s.finished(ready, now).1.nack[0]
            == s.finished(ready, now).0.next && s.finished(ready, now).0.misses(s.next),
{
    if !s.at_hand() {
        lemma_not_at_hand(s);
    }
}

/// Time asks for one missing packet at most: the expected one, which is neither
/// held nor, short of the last number that there is, released.
pub proof fn tick_asks_once(s: ReassemblyView, now: u64)
    requires
        s.wf(),
    ensures
        s.ticked(now).0.asks_rightly(s.ticked(now).1),
        s.before_end() && s.next < u32::MAX && s.ticked(now).1.nack.len() == 1 ==> lacks(
            s.ticked(now).1.ready,
            s.ticked(now).1.nack[0],
        ),
{
    tick_delivers_what_waits(s, now);
    if s.before_end() && s.next < u32::MAX {
        tick_delivers_in_order(s, now);
    }
    let run: (ReassemblyView, Seq<PacketView>) = s.released(now);
    assert(run.0.pending == s.ticked(now).0.pending);
    assert(run.0.copies == s.ticked(now).0.copies);
    lemma_finished_asks(run.0, run.1, now);
}

/// A packet has one missing packet asked for at most: the expected one, which
/// is neither held nor, short of the last number that there is, released.
pub proof fn insert_asks_once(s: ReassemblyView, packet: PacketView, now: u64)
    requires
        s.wf(),
    ensures
        match s.inserted(packet, now).1 {
            Ok(out) => {
                &&& s.inserted(packet, now).0.asks_rightly(out)
                &&& s.before_end() && s.next < u32::MAX && packet.sequence < u32::MAX
                    && out.nack.len() == 1 ==> lacks(out.ready, out.nack[0])
            },
            Err(error) => true,
        },
{
    if s.before_end() && s.next < u32::MAX && packet.sequence < u32::MAX {
        insert_delivers_in_order(s, packet, now);
    }
    if packet.data() {
        let start: ReassemblyView = if packet.sequence < s.next && s.restarts(packet) {
            s.noted(packet).restarted()
        } else {
            s.noted(packet)
        };
        if packet.sequence == start.next {
            lemma_not_below(start.copies, start.next.wrapping_add(1));
            lemma_drained_count(start.advanced());
            let rest: (ReassemblyView, Seq<PacketView>) = start.advanced().drained();
            lemma_finished_asks(rest.0, seq![packet] + rest.1, now);
        } else if packet.sequence > start.next {
            let item: HeldView = HeldView { packet, at: now };
            lemma_put(start.copies, item);
            lemma_put(start.pending, item);
            let copied: ReassemblyView = (ReassemblyView {
                copies: put(start.copies, item),
                ..start
            }).gap_noted(now);
            let queued: ReassemblyView = (ReassemblyView {
                pending: put(start.pending, item),
                ..start
            }).gap_noted(now);
            if envelope::is_set(packet.flags, FEC) {
                if start.copies.len() < start.capacity || holds(start.copies, packet.sequence) {
                    tick_asks_once(copied, now);
                }
            } else if holds(start.pending, packet.sequence) {
                tick_asks_once(start.gap_noted(now), now);
            } else if start.pending.len() < start.capacity {
                tick_asks_once(queued, now);
            }
        }
    }
}

/// One thing that happens to a stream.
pub enum StreamStep {
    Tick { now: u64 },
    Insert { packet: PacketView, now: u64 },
}

/// A stream, what it has released since it last began, and what it answered
/// last.
#[verifier::ext_equal]
pub struct Course {
    pub stream: ReassemblyView,
    pub released: Seq<PacketView>,
    pub last: OutputView,
}

/// The course of a stream over so many steps.
pub open spec fn course(s: ReassemblyView, steps: Seq<StreamStep>, n: nat) -> Course
    decreases n,
{
    if n == 0 {
        Course { stream: s, released: Seq::empty(), last: no_output() }
    } else {
        let before: Course = course(s, steps, (n - 1) as nat);
        match steps[n - 1] {
            StreamStep::Tick { now } => {
                let done: (ReassemblyView, OutputView) = before.stream.ticked(now);
                Course { stream: done.0, released: before.released + done.1.ready, last: done.1 }
            },
            StreamStep::Insert { packet, now } => {
                let done: (ReassemblyView, Result<OutputView, Seq<char>>) = before.stream.inserted(
                    packet,
                    now,
                );
                let out: OutputView = match done.1 {
                    Ok(out) => out,
                    Err(error) => no_output(),
                };
                let anew: bool = packet.data() && packet.sequence < before.stream.next
                    && before.stream.restarts(packet);
                Course {
                    stream: done.0,
                    released: if anew {
                        out.ready
                    } else {
                        before.released + out.ready
                    },
                    last: out,
                }
            },
        }
    }
}

/// The numbers of a course have not come to their end.
pub open spec fn numbers_left(s: ReassemblyView, steps: Seq<StreamStep>, n: nat) -> bool {
    &&& s.wf()
    &&& s.before_end()
    &&& n <= steps.len()
    &&& forall|i: nat| i < n ==> (#[trigger] course(s, steps, i)).stream.next < u32::MAX
    &&& forall|i: int|
        0 <= i < n ==> ((#[trigger] steps[i]) is Insert ==> steps[i]->packet.sequence < u32::MAX)
}

/// Over whatever course, a number that is asked for was never released since
/// the stream last began, and is not held: it is the expected one, and all that
/// was released lies below it, in rising order and so each once.
pub proof fn asked_was_never_released(s: ReassemblyView, steps: Seq<StreamStep>, n: nat)
    requires
        numbers_left(s, steps, n),
    ensures
        ({
            let now: Course = course(s, steps, n);
            &&& now.stream.wf()
            &&& now.stream.before_end()
            &&& ascending(now.released, 0, now.stream.next)
            &&& now.stream.asks_rightly(now.last)
            &&& now.last.nack.len() == 1 ==> lacks(now.released, now.last.nack[0])
        }),
    decreases n,
{
    if n > 0 {
        let last: nat = (n - 1) as nat;
        assert(course(s, steps, last).stream.next < u32::MAX);
        assert(numbers_left(s, steps, last));
        asked_was_never_released(s, steps, last);
        let before: Course = course(s, steps, last);
        match steps[n - 1] {
            StreamStep::Tick { now } => {
                tick_delivers_in_order(before.stream, now);
                tick_asks_once(before.stream, now);
            },
            StreamStep::Insert { packet, now } => {
                insert_delivers_in_order(before.stream, packet, now);
                insert_asks_once(before.stream, packet, now);
            },
        }
        let now: Course = course(s, steps, n);
        if now.released != now.last.ready {
            assert(now.released =~= before.released + now.last.ready);
            assert(before.stream.next <= now.stream.next);
        }
    }
}

} // verus!
