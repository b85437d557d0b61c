//! What a sender keeps for repairs, and what a receiver remembers of copies.
//! Both outlive the links that packets travel on.
use crate::envelope::{Packet, PacketView};
use crate::table::Table;
use std::collections::VecDeque;
use vstd::prelude::*;

verus! {

/// Whether a sequence number lies before another, in the half of the space
/// behind it.
pub open spec fn spec_before(a: u32, b: u32) -> bool {
    a.wrapping_sub(b) >= 0x8000_0000
}

fn before(a: u32, b: u32) -> (r: bool)
    ensures
        r == spec_before(a, b),
{
    a.wrapping_sub(b) >= 0x8000_0000
}

/// Whether an acknowledgement covers a sequence number.
pub open spec fn covered_by(sequence: u32, ack: u32) -> bool {
    sequence == ack || spec_before(sequence, ack)
}

fn is_covered(sequence: u32, ack: u32) -> (r: bool)
    ensures
        r == covered_by(sequence, ack),
{
    sequence == ack || before(sequence, ack)
}

pub open spec fn packet_views(list: Seq<Packet>) -> Seq<PacketView> {
    list.map_values(|p: Packet| p@)
}

/// Sent packets that may have to be sent again, oldest first.
pub struct PacketCache {
    max: usize,
    packets: Vec<Packet>,
    high_ack: Table<u32>,
}

#[verifier::ext_equal]
pub struct CacheView {
    pub max: nat,
    pub packets: Seq<PacketView>,
    pub high_ack: Map<u128, u32>,
}

impl View for PacketCache {
    type V = CacheView;

    closed spec fn view(&self) -> CacheView {
        CacheView {
            max: self.max as nat,
            packets: packet_views(self.packets@),
            high_ack: self.high_ack@,
        }
    }
}

/// First position from `i` on that holds the packet of a flow.
pub open spec fn cache_slot(packets: Seq<PacketView>, port: u16, sequence: u32, i: int) -> int
    decreases packets.len() - i,
{
    if i < packets.len() && !(packets[i].local_port == port && packets[i].sequence == sequence) {
        cache_slot(packets, port, sequence, i + 1)
    } else {
        i
    }
}

/// The packets among the first `n` that an acknowledgement does not cover.
pub open spec fn uncovered(packets: Seq<PacketView>, port: u16, ack: u32, n: nat) -> Seq<PacketView>
    decreases n,
{
    if n == 0 {
        Seq::empty()
    } else {
        let rest: Seq<PacketView> = uncovered(packets, port, ack, (n - 1) as nat);
        if packets[n - 1].local_port == port && covered_by(packets[n - 1].sequence, ack) {
            rest
        } else {
            rest.push(packets[n - 1])
        }
    }
}

/// The packets among the first `n` of other flows.
pub open spec fn of_others(packets: Seq<PacketView>, port: u16, n: nat) -> Seq<PacketView>
    decreases n,
{
    if n == 0 {
        Seq::empty()
    } else {
        let rest: Seq<PacketView> = of_others(packets, port, (n - 1) as nat);
        if packets[n - 1].local_port == port {
            rest
        } else {
            rest.push(packets[n - 1])
        }
    }
}

impl CacheView {
    pub open spec fn wf(self) -> bool {
        &&& self.max > 0
        &&& self.packets.len() <= self.max
    }

    /// Whether the flow has acknowledged the number.
    pub open spec fn acked(self, port: u16, sequence: u32) -> bool {
        self.high_ack.contains_key(port as u128) && covered_by(
            sequence,
            self.high_ack[port as u128],
        )
    }

    /// Keeps a packet. One that is acknowledged already is not kept; a second
    /// of the same number takes the place of the first; the oldest gives way.
    pub open spec fn stored(self, packet: PacketView) -> CacheView {
        let at: int = cache_slot(self.packets, packet.local_port, packet.sequence, 0);
        if self.acked(packet.local_port, packet.sequence) {
            self
        } else if at < self.packets.len() {
            CacheView { packets: self.packets.update(at, packet), ..self }
        } else if self.packets.len() < self.max {
            CacheView { packets: self.packets.push(packet), ..self }
        } else {
            CacheView { packets: self.packets.push(packet).drop_first(), ..self }
        }
    }

    pub open spec fn found(self, port: u16, sequence: u32) -> Option<PacketView> {
        let at: int = cache_slot(self.packets, port, sequence, 0);
        if at < self.packets.len() {
            Some(self.packets[at])
        } else {
            None
        }
    }

    /// Drops what an acknowledgement covers. One that is not new is ignored.
    pub open spec fn trimmed(self, port: u16, ack: u32) -> CacheView {
        if self.acked(port, ack) {
            self
        } else {
            CacheView {
                high_ack: self.high_ack.insert(port as u128, ack),
                packets: uncovered(self.packets, port, ack, self.packets.len()),
                ..self
            }
        }
    }

    pub open spec fn reset(self, port: u16) -> CacheView {
        CacheView {
            high_ack: self.high_ack.remove(port as u128),
            packets: of_others(self.packets, port, self.packets.len()),
            ..self
        }
    }
}

proof fn lemma_cache_slot(packets: Seq<PacketView>, port: u16, sequence: u32, i: int)
    requires
        0 <= i <= packets.len(),
    ensures
        i <= cache_slot(packets, port, sequence, i) <= packets.len(),
        cache_slot(packets, port, sequence, i) < packets.len() ==> {
            let p: PacketView = packets[cache_slot(packets, port, sequence, i)];
            p.local_port == port && p.sequence == sequence
        },
        forall|j: int|
            i <= j < cache_slot(packets, port, sequence, i) ==> !((
            #[trigger] packets[j]).local_port == port && packets[j].sequence == sequence),
    decreases packets.len() - i,
{
    if i < packets.len() && !(packets[i].local_port == port && packets[i].sequence == sequence) {
        lemma_cache_slot(packets, port, sequence, i + 1);
    }
}

proof fn lemma_uncovered(packets: Seq<PacketView>, port: u16, ack: u32, n: nat)
    requires
        n <= packets.len(),
    ensures
        uncovered(packets, port, ack, n).len() <= n,
        forall|i: int|
            0 <= i < uncovered(packets, port, ack, n).len() ==> {
                let p: PacketView = #[trigger] uncovered(packets, port, ack, n)[i];
                !(p.local_port == port && covered_by(p.sequence, ack))
            },
    decreases n,
{
    if n > 0 {
        lemma_uncovered(packets, port, ack, (n - 1) as nat);
    }
}

/// A packet just kept is found, unless it was acknowledged before.
pub proof fn stored_is_found(cache: CacheView, packet: PacketView)
    requires
        cache.wf(),
    ensures
        !cache.acked(packet.local_port, packet.sequence) ==> cache.stored(packet).found(
            packet.local_port,
            packet.sequence,
        ) == Some(packet),
        cache.stored(packet).packets.len() <= cache.max,
{
    let port: u16 = packet.local_port;
    let sequence: u32 = packet.sequence;
    let at: int = cache_slot(cache.packets, port, sequence, 0);
    lemma_cache_slot(cache.packets, port, sequence, 0);
    let after: CacheView = cache.stored(packet);
    if !cache.acked(port, sequence) {
        lemma_cache_slot(after.packets, port, sequence, 0);
        let found: int = cache_slot(after.packets, port, sequence, 0);
        if at < cache.packets.len() {
            if found < at {
                assert(after.packets[found] == cache.packets[found]);
            }
            assert(after.packets[at] == packet);
        } else {
            let last: int = after.packets.len() - 1;
            assert(after.packets[last] == packet);
            if found < last {
                let old: int = if cache.packets.len() < cache.max {
                    found
                } else {
                    found + 1
                };
                assert(after.packets[found] == cache.packets[old]);
            }
        }
    }
}

/// After an acknowledgement nothing that it covers can be repaired, now or
/// after it is stored again.
pub proof fn acknowledged_stays_dropped(
    cache: CacheView,
    port: u16,
    ack: u32,
    sequence: u32,
)
    requires
        cache.wf(),
        !cache.acked(port, ack),
        covered_by(sequence, ack),
    ensures
        cache.trimmed(port, ack).found(port, sequence) is None,
        forall|packet: PacketView|
            packet.local_port == port && packet.sequence == sequence ==> cache.trimmed(
                port,
                ack,
            ).stored(packet) == cache.trimmed(port, ack),
{
    let after: CacheView = cache.trimmed(port, ack);
    lemma_uncovered(cache.packets, port, ack, cache.packets.len());
    lemma_cache_slot(after.packets, port, sequence, 0);
}

impl PacketCache {
    pub closed spec fn wf(&self) -> bool {
        self@.wf() && self.high_ack.wf()
    }

    pub fn new(max: usize) -> (r: Self)
        ensures
            r.wf(),
            r@ == (CacheView {
                max: if max == 0 {
                    512
                } else {
                    max as nat
                },
                packets: Seq::empty(),
                high_ack: Map::empty(),
            }),
    {
        let r: PacketCache = PacketCache {
            max: if max == 0 {
                512
            } else {
                max
            },
            packets: Vec::new(),
            high_ack: Table::new(),
        };
        assert(r@.packets =~= Seq::empty());
        r
    }

    fn slot(&self, port: u16, sequence: u32) -> (r: usize)
        ensures
            r == cache_slot(self@.packets, port, sequence, 0),
            r <= self@.packets.len(),
    {
        let mut i: usize = 0;
        while i < self.packets.len() && !(self.packets[i].local_port == port
            && self.packets[i].sequence == sequence)
            invariant
                i <= self.packets@.len(),
                cache_slot(self@.packets, port, sequence, i as int) == cache_slot(
                    self@.packets,
                    port,
                    sequence,
                    0,
                ),
            decreases self.packets@.len() - i,
        {
            i = i + 1;
        }
        i
    }

    fn is_acked(&self, port: u16, sequence: u32) -> (r: bool)
        requires
            self.wf(),
        ensures
            r == self@.acked(port, sequence),
    {
        match self.high_ack.get(port as u128) {
            Some(ack) => is_covered(sequence, ack),
            None => false,
        }
    }

    pub fn store(&mut self, packet: Packet)
        requires
            old(self).wf(),
        ensures
            final(self).wf(),
            final(self)@ == old(self)@.stored(packet@),
    {
        let ghost before: CacheView = self@;
        if self.is_acked(packet.local_port, packet.sequence) {
            return;
        }
        let ghost view: PacketView = packet@;
        let at: usize = self.slot(packet.local_port, packet.sequence);
        if at < self.packets.len() {
            self.packets[at] = packet;
            assert(self@.packets =~= before.packets.update(at as int, view));
        } else {
            let full: bool = self.packets.len() >= self.max;
            self.packets.push(packet);
            assert(self@.packets =~= before.packets.push(view));
            if full {
                let _ = self.packets.remove(0);
                assert(self@.packets =~= before.packets.push(view).drop_first());
            }
        }
        assert(self@ =~= before.stored(view));
    }

    pub fn get(&self, port: u16, sequence: u32) -> (r: Option<&Packet>)
        ensures
            match r {
                Some(packet) => self@.found(port, sequence) == Some(packet@),
                None => self@.found(port, sequence) is None,
            },
    {
        let at: usize = self.slot(port, sequence);
        if at < self.packets.len() {
            Some(&self.packets[at])
        } else {
            None
        }
    }

    pub fn trim_through(&mut self, port: u16, ack: u32)
        requires
            old(self).wf(),
        ensures
            final(self).wf(),
            final(self)@ == old(self)@.trimmed(port, ack),
    {
        let ghost before: CacheView = self@;
        if self.is_acked(port, ack) {
            return;
        }
        self.high_ack.insert(port as u128, ack);
        let ghost mut done: int = 0;
        let mut i: usize = 0;
        assert(before.packets.skip(0) =~= before.packets);
        assert(uncovered(before.packets, port, ack, 0) + before.packets =~= before.packets);
        while i < self.packets.len()
            invariant
                0 <= done <= before.packets.len(),
                i == uncovered(before.packets, port, ack, done as nat).len(),
                self@.packets == uncovered(before.packets, port, ack, done as nat)
                    + before.packets.skip(done),
                self@.max == before.max,
                self.high_ack.wf(),
                self.high_ack@ == before.high_ack.insert(port as u128, ack),
            decreases before.packets.len() - done,
        {
            let ghost kept: Seq<PacketView> = uncovered(before.packets, port, ack, done as nat);
            let ghost prior: Seq<PacketView> = self@.packets;
            assert(prior[i as int] == before.packets[done]);
            if self.packets[i].local_port == port && is_covered(self.packets[i].sequence, ack) {
                let _ = self.packets.remove(i);
                assert(self@.packets =~= prior.remove(i as int));
                assert(prior.remove(i as int) =~= kept + before.packets.skip(done + 1));
            } else {
                assert(kept.push(before.packets[done]) + before.packets.skip(done + 1) =~= prior);
                i = i + 1;
            }
            proof {
                done = done + 1;
            }
        }
        proof {
            assert(before.packets.skip(done) =~= Seq::empty());
            lemma_uncovered(before.packets, port, ack, before.packets.len());
            assert(self@ =~= before.trimmed(port, ack));
        }
    }

    /// Forgets a flow that starts over.
    pub fn reset_flow(&mut self, port: u16)
        requires
            old(self).wf(),
        ensures
            final(self).wf(),
            final(self)@ == old(self)@.reset(port),
    {
        let ghost before: CacheView = self@;
        let _ = self.high_ack.take(port as u128);
        let ghost mut done: int = 0;
        let mut i: usize = 0;
        assert(before.packets.skip(0) =~= before.packets);
        assert(of_others(before.packets, port, 0) + before.packets =~= before.packets);
        while i < self.packets.len()
            invariant
                0 <= done <= before.packets.len(),
                i == of_others(before.packets, port, done as nat).len(),
                i <= done,
                self@.packets == of_others(before.packets, port, done as nat)
                    + before.packets.skip(done),
                self@.max == before.max,
                before.wf(),
                self.high_ack.wf(),
                self.high_ack@ == before.high_ack.remove(port as u128),
            decreases before.packets.len() - done,
        {
            let ghost kept: Seq<PacketView> = of_others(before.packets, port, done as nat);
            let ghost prior: Seq<PacketView> = self@.packets;
            assert(prior[i as int] == before.packets[done]);
            if self.packets[i].local_port == port {
                let _ = self.packets.remove(i);
                assert(self@.packets =~= prior.remove(i as int));
                assert(prior.remove(i as int) =~= kept + before.packets.skip(done + 1));
            } else {
                assert(kept.push(before.packets[done]) + before.packets.skip(done + 1) =~= prior);
                i = i + 1;
            }
            proof {
                done = done + 1;
            }
        }
        proof {
            assert(before.packets.skip(done) =~= Seq::empty());
            assert(self@ =~= before.reset(port));
        }
    }

    pub fn len(&self) -> (r: usize)
        ensures
            r == self@.packets.len(),
    {
        self.packets.len()
    }

    pub fn is_empty(&self) -> (r: bool)
        ensures
            r == (self@.packets.len() == 0),
    {
        self.packets.len() == 0
    }
}

// ---- Copies ----------------------------------------------------------------------

/// What tells one packet from another: not the path it came on, but its
/// sender's clock, so that a sender that starts over is told apart.
#[derive(Clone, Copy, Debug, PartialEq, Eq, Hash, Structural)]
pub struct DeliveryKey {
    pub session: u32,
    pub local_port: u16,
    pub sequence: u32,
    pub timestamp_us: i64,
}

pub open spec fn delivery_key(packet: PacketView) -> DeliveryKey {
    DeliveryKey {
        session: packet.session,
        local_port: packet.local_port,
        sequence: packet.sequence,
        timestamp_us: packet.timestamp_us,
    }
}

impl DeliveryKey {
    pub fn of(packet: &Packet) -> (r: Self)
        ensures
            r == delivery_key(packet@),
    {
        DeliveryKey {
            session: packet.session,
            local_port: packet.local_port,
            sequence: packet.sequence,
            timestamp_us: packet.timestamp_us,
        }
    }
}

/// The keys of recent packets, in the order in which they came, and the same
/// keys by the place of their packet in its stream.
pub struct Deduper {
    max: usize,
    ttl_us: u64,
    order: VecDeque<(DeliveryKey, u64)>,
    seen: Table<Vec<i64>>,
}

#[verifier::ext_equal]
pub struct DeduperView {
    pub max: nat,
    pub ttl_us: u64,
    pub order: Seq<(DeliveryKey, u64)>,
}

impl View for Deduper {
    type V = DeduperView;

    closed spec fn view(&self) -> DeduperView {
        DeduperView { max: self.max as nat, ttl_us: self.ttl_us, order: self.order@ }
    }
}

/// What is left of a list after its beginning became too old or too long.
pub open spec fn pruned(
    order: Seq<(DeliveryKey, u64)>,
    max: nat,
    ttl_us: u64,
    now_us: u64,
) -> Seq<(DeliveryKey, u64)>
    decreases order.len(),
{
    if order.len() == 0 || (order.len() <= max && now_us.saturating_sub(order[0].1) <= ttl_us) {
        order
    } else {
        pruned(order.drop_first(), max, ttl_us, now_us)
    }
}

pub open spec fn holds_key(order: Seq<(DeliveryKey, u64)>, key: DeliveryKey) -> bool {
    exists|i: int| 0 <= i < order.len() && (#[trigger] order[i]).0 == key
}

/// A key without its time.
spec fn place(key: DeliveryKey) -> u128 {
    (key.session * 0x1_0000_0000_0000 + key.local_port * 0x1_0000_0000 + key.sequence) as u128
}

/// Whether a key is among those kept by place.
spec fn listed(seen: Map<u128, Vec<i64>>, key: DeliveryKey) -> bool {
    seen.contains_key(place(key)) && seen[place(key)]@.contains(key.timestamp_us)
}

spec fn distinct(order: Seq<(DeliveryKey, u64)>) -> bool {
    forall|i: int, j: int|
        0 <= i < j < order.len() ==> (#[trigger] order[i]).0 != (#[trigger] order[j]).0
}

proof fn lemma_same_place(a: DeliveryKey, b: DeliveryKey)
    requires
        place(a) == place(b),
        a.timestamp_us == b.timestamp_us,
    ensures
        a == b,
{
    assert(a.session == b.session);
    assert(a.local_port == b.local_port);
}

fn place_of(key: &DeliveryKey) -> (r: u128)
    ensures
        r == place(*key),
{
    key.session as u128 * 0x1_0000_0000_0000 + key.local_port as u128 * 0x1_0000_0000
        + key.sequence as u128
}

fn has_time(times: &Vec<i64>, time: i64) -> (r: bool)
    ensures
        r == times@.contains(time),
{
    let mut i: usize = 0;
    while i < times.len()
        invariant
            i <= times@.len(),
            forall|j: int| 0 <= j < i ==> times@[j] != time,
        decreases times@.len() - i,
    {
        if times[i] == time {
            return true;
        }
        i = i + 1;
    }
    false
}

fn without_time(times: &Vec<i64>, time: i64) -> (r: Vec<i64>)
    ensures
        forall|t: i64| #[trigger] r@.contains(t) == (times@.contains(t) && t != time),
{
    let mut rest: Vec<i64> = Vec::new();
    let mut i: usize = 0;
    while i < times.len()
        invariant
            i <= times@.len(),
            forall|t: i64| #[trigger]
                rest@.contains(t) == (times@.take(i as int).contains(t) && t != time),
        decreases times@.len() - i,
    {
        let ghost before: Seq<i64> = rest@;
        let ghost head: Seq<i64> = times@.take(i as int);
        if times[i] != time {
            rest.push(times[i]);
        }
        proof {
            let next: Seq<i64> = times@.take(i + 1);
            let added: i64 = times@[i as int];
            assert(next =~= head.push(added));
            assert forall|t: i64| #[trigger] rest@.contains(t) == (next.contains(t) && t != time) by {
                lemma_pushed(head, added, t);
                lemma_pushed(before, added, t);
                assert(before.contains(t) == (head.contains(t) && t != time));
            }
        }
        i = i + 1;
    }
    assert(times@.take(i as int) =~= times@);
    rest
}

proof fn lemma_pushed(list: Seq<i64>, added: i64, t: i64)
    ensures
        list.push(added).contains(t) == (list.contains(t) || t == added),
{
    let longer: Seq<i64> = list.push(added);
    if list.contains(t) {
        let i: int = choose|i: int| 0 <= i < list.len() && list[i] == t;
        assert(longer[i] == t);
    }
    assert(longer[list.len() as int] == added);
}

fn remember(seen: &mut Table<Vec<i64>>, key: DeliveryKey)
    requires
        old(seen).wf(),
    ensures
        final(seen).wf(),
        forall|k: DeliveryKey| #[trigger]
            listed(final(seen)@, k) == (listed(old(seen)@, k) || k == key),
{
    let ghost before: Map<u128, Vec<i64>> = seen@;
    let at: u128 = place_of(&key);
    let mut times: Vec<i64> = match seen.take(at) {
        Some(times) => times,
        None => Vec::new(),
    };
    let ghost had: Seq<i64> = times@;
    times.push(key.timestamp_us);
    seen.insert(at, times);
    proof {
        assert forall|k: DeliveryKey| #[trigger]
            listed(seen@, k) == (listed(before, k) || k == key) by {
            if place(k) == at {
                lemma_pushed(had, key.timestamp_us, k.timestamp_us);
                if k.timestamp_us == key.timestamp_us {
                    lemma_same_place(k, key);
                }
            }
        }
    }
}

fn forget(seen: &mut Table<Vec<i64>>, key: DeliveryKey)
    requires
        old(seen).wf(),
    ensures
        final(seen).wf(),
        forall|k: DeliveryKey| #[trigger]
            listed(final(seen)@, k) == (listed(old(seen)@, k) && k != key),
{
    let ghost before: Map<u128, Vec<i64>> = seen@;
    let at: u128 = place_of(&key);
    match seen.take(at) {
        Some(times) => {
            let rest: Vec<i64> = without_time(&times, key.timestamp_us);
            let ghost left: Seq<i64> = rest@;
            if rest.len() > 0 {
                seen.insert(at, rest);
            }
            proof {
                assert forall|k: DeliveryKey| #[trigger]
                    listed(seen@, k) == (listed(before, k) && k != key) by {
                    if place(k) == at {
                        assert(left.contains(k.timestamp_us) == (times@.contains(k.timestamp_us)
                            && k.timestamp_us != key.timestamp_us));
                        if k.timestamp_us == key.timestamp_us {
                            lemma_same_place(k, key);
                        }
                    }
                }
            }
        },
        None => {
            assert(seen@ =~= before);
        },
    }
}

impl DeduperView {
    pub open spec fn noted(self, key: DeliveryKey, now_us: u64) -> (DeduperView, bool) {
        let kept: Seq<(DeliveryKey, u64)> = pruned(self.order, self.max, self.ttl_us, now_us);
        if holds_key(kept, key) {
            (DeduperView { order: kept, ..self }, true)
        } else {
            (
                DeduperView {
                    order: pruned(kept.push((key, now_us)), self.max, self.ttl_us, now_us),
                    ..self
                },
                false,
            )
        }
    }
}

/// Pruning keeps the newest, and no more than the bound.
pub proof fn pruning_keeps_newest(
    order: Seq<(DeliveryKey, u64)>,
    max: nat,
    ttl_us: u64,
    now_us: u64,
)
    ensures
        pruned(order, max, ttl_us, now_us).len() <= max,
        exists|k: int|
            0 <= k <= order.len() && pruned(order, max, ttl_us, now_us) == #[trigger] order.skip(k),
    decreases order.len(),
{
    if order.len() == 0 || (order.len() <= max && now_us.saturating_sub(order[0].1) <= ttl_us) {
        assert(order.skip(0) =~= order);
    } else {
        pruning_keeps_newest(order.drop_first(), max, ttl_us, now_us);
        let k: int = choose|k: int|
            0 <= k <= order.drop_first().len() && pruned(
                order.drop_first(),
                max,
                ttl_us,
                now_us,
            ) == #[trigger] order.drop_first().skip(k);
        assert(order.drop_first().skip(k) =~= order.skip(k + 1));
    }
}

/// A key is told apart as a copy at once after it was noted.
pub proof fn noted_key_is_seen(d: DeduperView, key: DeliveryKey, now_us: u64)
    requires
        d.max > 0,
    ensures
        d.noted(key, now_us).0.noted(key, now_us).1,
{
    let kept: Seq<(DeliveryKey, u64)> = pruned(d.order, d.max, d.ttl_us, now_us);
    let after: DeduperView = d.noted(key, now_us).0;
    pruning_keeps_newest(d.order, d.max, d.ttl_us, now_us);
    lemma_pruned_stable(d.order, d.max, d.ttl_us, now_us);
    if !holds_key(kept, key) {
        let longer: Seq<(DeliveryKey, u64)> = kept.push((key, now_us));
        lemma_pruned_stable(longer, d.max, d.ttl_us, now_us);
        lemma_last_kept(longer, d.max, d.ttl_us, now_us);
        assert(after.order.last() == (key, now_us));
        assert(holds_key(after.order, key)) by {
            assert(after.order[after.order.len() - 1].0 == key);
        }
    }
}

proof fn lemma_pruned_stable(
    order: Seq<(DeliveryKey, u64)>,
    max: nat,
    ttl_us: u64,
    now_us: u64,
)
    ensures
        pruned(pruned(order, max, ttl_us, now_us), max, ttl_us, now_us) == pruned(
            order,
            max,
            ttl_us,
            now_us,
        ),
    decreases order.len(),
{
    if !(order.len() == 0 || (order.len() <= max && now_us.saturating_sub(order[0].1)
        <= ttl_us)) {
        lemma_pruned_stable(order.drop_first(), max, ttl_us, now_us);
    }
}

proof fn lemma_last_kept(order: Seq<(DeliveryKey, u64)>, max: nat, ttl_us: u64, now_us: u64)
    requires
        order.len() > 0,
        max > 0,
        order.last().1 == now_us,
    ensures
        pruned(order, max, ttl_us, now_us).len() > 0,
        pruned(order, max, ttl_us, now_us).last() == order.last(),
    decreases order.len(),
{
    if !(order.len() <= max && now_us.saturating_sub(order[0].1) <= ttl_us) {
        assert(order.len() > 1);
        lemma_last_kept(order.drop_first(), max, ttl_us, now_us);
    }
}

impl Deduper {
    /// No key is noted twice, and those kept by place are those in order.
    pub closed spec fn wf(&self) -> bool {
        &&& self.seen.wf()
        &&& distinct(self.order@)
        &&& forall|key: DeliveryKey| #[trigger]
            listed(self.seen@, key) == holds_key(self.order@, key)
    }

    pub fn new(max: usize, ttl_us: u64) -> (r: Self)
        ensures
            r.wf(),
            r@ == (DeduperView { max: max as nat, ttl_us, order: Seq::empty() }),
    {
        let r: Deduper = Deduper { max, ttl_us, order: VecDeque::new(), seen: Table::new() };
        assert(r@.order =~= Seq::empty());
        r
    }

    fn prune(&mut self, now_us: u64)
        requires
            old(self).wf(),
        ensures
            final(self).wf(),
            final(self)@ == (DeduperView {
                order: pruned(
                    old(self)@.order,
                    old(self)@.max,
                    old(self)@.ttl_us,
                    now_us,
                ),
                ..old(self)@
            }),
    {
        let ghost before: DeduperView = self@;
        while self.order.len() > 0 && (self.order.len() > self.max || now_us.saturating_sub(
            self.order[0].1,
        ) > self.ttl_us)
            invariant
                self.wf(),
                self@.max == before.max,
                self@.ttl_us == before.ttl_us,
                pruned(self@.order, before.max, before.ttl_us, now_us) == pruned(
                    before.order,
                    before.max,
                    before.ttl_us,
                    now_us,
                ),
            decreases self.order@.len(),
        {
            let ghost prior: Seq<(DeliveryKey, u64)> = self.order@;
            let key: DeliveryKey = self.order[0].0;
            forget(&mut self.seen, key);
            let _ = self.order.pop_front();
            proof {
                let rest: Seq<(DeliveryKey, u64)> = self.order@;
                assert(rest =~= prior.drop_first());
                assert forall|k: DeliveryKey| #[trigger]
                    listed(self.seen@, k) == holds_key(rest, k) by {
                    if holds_key(rest, k) {
                        let i: int = choose|i: int|
                            0 <= i < rest.len() && (#[trigger] rest[i]).0 == k;
                        assert(prior[i + 1].0 == k);
                        assert(prior[0].0 != prior[i + 1].0);
                    }
                    if holds_key(prior, k) && k != key {
                        let i: int = choose|i: int|
                            0 <= i < prior.len() && (#[trigger] prior[i]).0 == k;
                        assert(rest[i - 1].0 == k);
                    }
                }
            }
        }
    }

    /// Whether the packet was seen lately; it is noted if not.
    pub fn seen_or_add(&mut self, key: DeliveryKey, now_us: u64) -> (r: bool)
        requires
            old(self).wf(),
        ensures
            final(self).wf(),
            final(self)@ == old(self)@.noted(key, now_us).0,
            r == old(self)@.noted(key, now_us).1,
    {
        self.prune(now_us);
        let ghost kept: Seq<(DeliveryKey, u64)> = self@.order;
        let known: bool = match self.seen.peek(place_of(&key)) {
            Some(times) => has_time(times, key.timestamp_us),
            None => false,
        };
        assert(known == listed(self.seen@, key));
        if known {
            return true;
        }
        remember(&mut self.seen, key);
        self.order.push_back((key, now_us));
        proof {
            let longer: Seq<(DeliveryKey, u64)> = self.order@;
            assert(longer =~= kept.push((key, now_us)));
            assert forall|k: DeliveryKey| #[trigger]
                listed(self.seen@, k) == holds_key(longer, k) by {
                if holds_key(kept, k) {
                    let i: int = choose|i: int| 0 <= i < kept.len() && (#[trigger] kept[i]).0 == k;
                    assert(longer[i].0 == k);
                }
                assert(longer[kept.len() as int].0 == key);
                if holds_key(longer, k) && k != key {
                    let i: int = choose|i: int|
                        0 <= i < longer.len() && (#[trigger] longer[i]).0 == k;
                    assert(kept[i].0 == k);
                }
            }
            assert(distinct(longer)) by {
                assert forall|i: int, j: int| 0 <= i < j < longer.len() implies (
                #[trigger] longer[i]).0 != (#[trigger] longer[j]).0 by {
                    if j == kept.len() {
                        assert(kept[i].0 == longer[i].0);
                        if kept[i].0 == key {
                            assert(holds_key(kept, key));
                        }
                    }
                }
            }
        }
        self.prune(now_us);
        false
    }

    pub fn len(&self) -> (r: usize)
        ensures
            r == self@.order.len(),
    {
        self.order.len()
    }
}

} // verus!
