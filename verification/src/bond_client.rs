//! The client of a bond: its paths to the relay, what it sends over them, and
//! how it follows a change of adapters.
use crate::admission;
use crate::admission::Room;
use crate::bond;
use crate::bond::{BondError, Policy, Scheduler, SchedulerView};
use crate::direct;
use crate::frame;
use crate::frame::{AckBatcher, Frame, FrameView, Kind, MAX_PATHS};
use crate::names;
use crate::path;
use crate::relay::{Taken, TakenView};
use crate::runtime;
use crate::runtime::{Control, InterfaceConfig, InterfaceView};
use crate::tunnel;
use crate::tunnel::{Transport, TransportView, TunnelError, IP};
use crate::wire;
use vstd::prelude::*;

verus! {

/// A path that is not ready joins again after so long.
pub const REJOIN_MS: u64 = 500;

/// How an attempt to send ended.
#[derive(Clone, Copy, Debug, PartialEq, Eq, Structural)]
pub enum Sent {
    Done,
    WouldBlock,
    Failed,
}

/// A socket to the relay on one adapter. Its generation tells it from those
/// that the path had before.
pub struct Subflow {
    pub open: bool,
    pub generation: u64,
    /// A join that must leave before anything else does.
    pub pending_join: Option<Vec<u8>>,
    pub ack_batching: bool,
    pub acks: AckBatcher,
}

#[verifier::ext_equal]
pub struct SubflowView {
    pub open: bool,
    pub generation: u64,
    pub pending_join: Option<Seq<u8>>,
    pub ack_batching: bool,
    pub acks: spec_fn(u8) -> Seq<FrameView>,
}

pub open spec fn bytes_of(message: Option<Vec<u8>>) -> Option<Seq<u8>> {
    match message {
        Some(message) => Some(message@),
        None => None,
    }
}

impl View for Subflow {
    type V = SubflowView;

    open spec fn view(&self) -> SubflowView {
        SubflowView {
            open: self.open,
            generation: self.generation,
            pending_join: bytes_of(self.pending_join),
            ack_batching: self.ack_batching,
            acks: self.acks@,
        }
    }
}

pub open spec fn no_acks() -> (spec_fn(u8) -> Seq<FrameView>) {
    |path: u8| Seq::empty()
}

/// A socket that has sent nothing yet; or none, where it is not open.
pub open spec fn fresh_flow(open: bool, generation: u64) -> SubflowView {
    SubflowView { open, generation, pending_join: None, ack_batching: false, acks: no_acks() }
}

pub open spec fn flow_views(flows: Seq<Subflow>) -> Seq<SubflowView> {
    flows.map_values(|f: Subflow| f@)
}

proof fn lemma_no_acks(acks: spec_fn(u8) -> Seq<FrameView>)
    requires
        forall|path: u8| (#[trigger] acks(path)).len() == 0,
    ensures
        acks == no_acks(),
{
    assert forall|path: u8| #[trigger] acks(path) == no_acks()(path) by {
        assert(acks(path) =~= Seq::empty());
    }
    assert(acks =~= no_acks());
}

impl Subflow {
    pub open spec fn wf(&self) -> bool {
        self.acks.wf()
    }

    fn fresh(open: bool, generation: u64) -> (r: Self)
        ensures
            r.wf(),
            r@ == fresh_flow(open, generation),
    {
        let acks: AckBatcher = AckBatcher::new();
        proof {
            lemma_no_acks(acks@);
        }
        Subflow { open, generation, pending_join: None, ack_batching: false, acks }
    }
}

/// The texts of a list with another in its place, unless it is there.
pub open spec fn listed_with(list: Seq<Seq<char>>, name: Seq<char>) -> Seq<Seq<char>> {
    let k: int = place_for(list, name, 0);
    if k < list.len() && list[k] == name {
        list
    } else {
        list.insert(k, name)
    }
}

/// First place from `i` on that does not come before a name.
pub open spec fn place_for(list: Seq<Seq<char>>, name: Seq<char>, i: int) -> int
    decreases list.len() - i,
{
    if i < list.len() && direct::name_before(list[i], name) {
        place_for(list, name, i + 1)
    } else {
        i
    }
}

/// Names in order, each once.
pub open spec fn name_list(given: Seq<Seq<char>>) -> Seq<Seq<char>>
    decreases given.len(),
{
    if given.len() == 0 {
        Seq::empty()
    } else {
        listed_with(name_list(given.drop_last()), given.last())
    }
}

pub open spec fn rising(list: Seq<Seq<char>>) -> bool {
    forall|i: int, j: int|
        0 <= i < j < list.len() ==> direct::name_before(#[trigger] list[i], #[trigger] list[j])
}

proof fn lemma_text_total(a: Seq<u8>, b: Seq<u8>, i: int)
    requires
        0 <= i <= a.len(),
        i <= b.len(),
        a.take(i) == b.take(i),
        !direct::text_before(a, b, i),
        !direct::text_before(b, a, i),
    ensures
        a == b,
    decreases a.len() - i,
{
    if i < a.len() && i < b.len() {
        assert(a[i] == b[i]);
        assert(a.take(i + 1) =~= a.take(i).push(a[i]));
        assert(b.take(i + 1) =~= b.take(i).push(b[i]));
        lemma_text_total(a, b, i + 1);
    } else {
        assert(a.take(i) =~= a);
        assert(b.take(i) =~= b);
    }
}

proof fn lemma_text_transitive(a: Seq<u8>, b: Seq<u8>, c: Seq<u8>, i: int)
    requires
        0 <= i,
        direct::text_before(a, b, i),
        direct::text_before(b, c, i),
    ensures
        direct::text_before(a, c, i),
    decreases c.len() - i,
{
    if i < a.len() && i < b.len() && i < c.len() && a[i] == b[i] && b[i] == c[i] {
        lemma_text_transitive(a, b, c, i + 1);
    }
}

proof fn lemma_text_irreflexive(a: Seq<u8>, i: int)
    requires
        0 <= i,
    ensures
        !direct::text_before(a, a, i),
    decreases a.len() - i,
{
    if i < a.len() {
        lemma_text_irreflexive(a, i + 1);
    }
}

proof fn lemma_names_total(a: Seq<char>, b: Seq<char>)
    requires
        !direct::name_before(a, b),
        !direct::name_before(b, a),
    ensures
        a == b,
{
    let x: Seq<u8> = vstd::utf8::encode_utf8(a);
    let y: Seq<u8> = vstd::utf8::encode_utf8(b);
    assert(x.take(0) =~= y.take(0));
    lemma_text_total(x, y, 0);
    vstd::utf8::encode_utf8_decode_utf8(a);
    vstd::utf8::encode_utf8_decode_utf8(b);
}

proof fn lemma_place_for(list: Seq<Seq<char>>, name: Seq<char>, i: int)
    requires
        0 <= i <= list.len(),
    ensures
        i <= place_for(list, name, i) <= list.len(),
        forall|j: int|
            i <= j < place_for(list, name, i) ==> direct::name_before(#[trigger] list[j], name),
        place_for(list, name, i) < list.len() ==> !direct::name_before(
            list[place_for(list, name, i)],
            name,
        ),
    decreases list.len() - i,
{
    if i < list.len() && direct::name_before(list[i], name) {
        lemma_place_for(list, name, i + 1);
    }
}

proof fn lemma_listed_with(list: Seq<Seq<char>>, name: Seq<char>)
    requires
        rising(list),
    ensures
        rising(listed_with(list, name)),
        forall|x: Seq<char>|
            listed_with(list, name).contains(x) == (list.contains(x) || x == name),
{
    lemma_place_for(list, name, 0);
    let k: int = place_for(list, name, 0);
    let out: Seq<Seq<char>> = listed_with(list, name);
    if k < list.len() && list[k] == name {
        assert(list.contains(name));
    } else {
        assert forall|j: int| k <= j < list.len() implies direct::name_before(
            name,
            #[trigger] list[j],
        ) by {
            if !direct::name_before(name, list[k]) {
                lemma_names_total(name, list[k]);
            }
            if j > k {
                lemma_text_transitive(
                    vstd::utf8::encode_utf8(name),
                    vstd::utf8::encode_utf8(list[k]),
                    vstd::utf8::encode_utf8(list[j]),
                    0,
                );
            }
        }
        assert forall|x: Seq<char>| out.contains(x) == (list.contains(x) || x == name) by {
            if list.contains(x) {
                let i: int = choose|i: int| 0 <= i < list.len() && list[i] == x;
                if i < k {
                    assert(out[i] == x);
                } else {
                    assert(out[i + 1] == x);
                }
            }
            if x == name {
                assert(out[k] == x);
            }
            if out.contains(x) && x != name {
                let i: int = choose|i: int| 0 <= i < out.len() && out[i] == x;
                if i < k {
                    assert(list[i] == x);
                } else {
                    assert(list[i - 1] == x);
                }
            }
        }
    }
}

/// The list holds exactly the names that were given, in order and each once.
pub proof fn name_list_is_sorted(given: Seq<Seq<char>>)
    ensures
        rising(name_list(given)),
        name_list(given).no_duplicates(),
        forall|x: Seq<char>| name_list(given).contains(x) == given.contains(x),
    decreases given.len(),
{
    if given.len() > 0 {
        let shorter: Seq<Seq<char>> = given.drop_last();
        name_list_is_sorted(shorter);
        lemma_listed_with(name_list(shorter), given.last());
        assert forall|x: Seq<char>| name_list(given).contains(x) == given.contains(x) by {
            if given.contains(x) {
                let i: int = choose|i: int| 0 <= i < given.len() && given[i] == x;
                if i < given.len() - 1 {
                    assert(shorter[i] == x);
                }
            }
            if shorter.contains(x) {
                let i: int = choose|i: int| 0 <= i < shorter.len() && shorter[i] == x;
                assert(given[i] == x);
            }
            if x == given.last() {
                assert(given[given.len() - 1] == x);
            }
        }
    } else {
        assert(given =~= Seq::empty());
    }
    let list: Seq<Seq<char>> = name_list(given);
    assert forall|i: int, j: int| 0 <= i < j < list.len() implies list[i] != list[j] by {
        lemma_text_irreflexive(vstd::utf8::encode_utf8(list[i]), 0);
    }
}

/// The adapters that a client starts with, in order and each once.
pub fn starting_interfaces(given: &Vec<String>) -> (r: Result<Vec<String>, &'static str>)
    ensures
        ({
            let fits: bool = given@.len() <= MAX_PATHS && forall|i: int|
                0 <= i < given@.len() ==> names::spec_valid_interface((#[trigger] given@[i])@);
            match r {
                Ok(list) => fits && bond::texts(list@) == name_list(bond::texts(given@)),
                Err(text) => !fits && text@ == "invalid interface list"@,
            }
        }),
{
    if given.len() > MAX_PATHS {
        return Err("invalid interface list");
    }
    let mut list: Vec<String> = Vec::new();
    let mut i: usize = 0;
    let ghost all: Seq<Seq<char>> = bond::texts(given@);
    assert(all.take(0) =~= Seq::empty());
    assert(bond::texts(list@) =~= Seq::empty());
    while i < given.len()
        invariant
            i <= given@.len() <= MAX_PATHS,
            all == bond::texts(given@),
            bond::texts(list@) == name_list(all.take(i as int)),
            list@.len() <= i,
            forall|j: int|
                0 <= j < i ==> names::spec_valid_interface((#[trigger] given@[j])@),
        decreases given@.len() - i,
    {
        if !names::valid_interface(given[i].as_str()) {
            return Err("invalid interface list");
        }
        let ghost before: Seq<Seq<char>> = bond::texts(list@);
        let mut k: usize = 0;
        while k < list.len() && direct::precedes(&list[k], &given[i])
            invariant
                i < given@.len(),
                k <= list@.len(),
                before == bond::texts(list@),
                place_for(before, given@[i as int]@, k as int) == place_for(
                    before,
                    given@[i as int]@,
                    0,
                ),
            decreases list@.len() - k,
        {
            k = k + 1;
        }
        let ghost kept: Seq<String> = list@;
        if k >= list.len() || list[k] != given[i] {
            list.insert(k, given[i].clone());
            assert(bond::texts(list@) =~= before.insert(k as int, given@[i as int]@));
        }
        proof {
            assert(all.take(i + 1).drop_last() =~= all.take(i as int));
            assert(all.take(i + 1).last() == given@[i as int]@);
            assert(bond::texts(list@) =~= listed_with(before, given@[i as int]@));
        }
        i = i + 1;
    }
    assert(all.take(i as int) =~= all);
    Ok(list)
}

pub struct BondClient {
    pub transport: Transport,
    pub assigned: [u8; 4],
    pub scheduler: Scheduler,
    /// One for each path.
    pub flows: Vec<Subflow>,
    /// When each path last joined again.
    pub last_reset: Vec<u64>,
    /// The address that each adapter last had.
    pub addresses: Vec<(String, String)>,
}

#[verifier::ext_equal]
pub struct BondClientView {
    pub transport: TransportView,
    pub assigned: [u8; 4],
    pub scheduler: SchedulerView,
    pub flows: Seq<SubflowView>,
    pub last_reset: Seq<u64>,
    pub addresses: Seq<(Seq<char>, Seq<char>)>,
}

pub open spec fn address_views(list: Seq<(String, String)>) -> Seq<(Seq<char>, Seq<char>)> {
    list.map_values(|a: (String, String)| (a.0@, a.1@))
}

impl View for BondClient {
    type V = BondClientView;

    open spec fn view(&self) -> BondClientView {
        BondClientView {
            transport: self.transport@,
            assigned: self.assigned,
            scheduler: self.scheduler@,
            flows: flow_views(self.flows@),
            last_reset: self.last_reset@,
            addresses: address_views(self.addresses@),
        }
    }
}

/// What a frame goes through before it is sealed.
pub open spec fn gathered(flow: SubflowView, f: FrameView) -> (SubflowView, Option<FrameView>) {
    if !flow.open {
        (flow, None)
    } else if !flow.ack_batching || f.kind != Kind::Ack {
        (flow, Some(f))
    } else {
        let waiting: Seq<FrameView> = (flow.acks)(f.path).push(f);
        if waiting.len() >= frame::BATCH_SIZE {
            (
                SubflowView { acks: frame::with_lane(flow.acks, f.path, Seq::empty()), ..flow },
                Some(frame::spec_batch(waiting)),
            )
        } else {
            (SubflowView { acks: frame::with_lane(flow.acks, f.path, waiting), ..flow }, None)
        }
    }
}

/// The batches that the open sockets below `n` hold.
pub open spec fn held_acks(flows: Seq<SubflowView>, n: nat) -> Seq<FrameView>
    decreases n,
{
    if n == 0 {
        Seq::empty()
    } else {
        let before: Seq<FrameView> = held_acks(flows, (n - 1) as nat);
        let f: SubflowView = flows[n - 1];
        if f.open {
            before + frame::batches_below(f.acks, MAX_PATHS as nat)
        } else {
            before
        }
    }
}

/// The joins of the paths below `n` that are in use.
pub open spec fn joins_below(s: SchedulerView, now: u64, n: nat) -> Seq<FrameView>
    decreases n,
{
    if n == 0 {
        Seq::empty()
    } else {
        let before: Seq<FrameView> = joins_below(s, now, (n - 1) as nat);
        if s.paths[n - 1].enabled {
            before.push(join_of(s, (n - 1) as u8, now))
        } else {
            before
        }
    }
}

/// The join of a path.
pub open spec fn join_of(s: SchedulerView, path: u8, now: u64) -> FrameView {
    frame::spec_control(
        Kind::Join,
        path,
        admission::join_number(s.policy, s.paths[path as int].metered),
        now,
    )
}

impl BondClientView {
    pub open spec fn wf(self) -> bool {
        &&& self.scheduler.wf()
        &&& self.flows.len() == self.scheduler.n()
        &&& self.last_reset.len() == self.scheduler.n()
    }

    pub open spec fn set_flow(self, i: int, flow: SubflowView) -> BondClientView {
        BondClientView { flows: self.flows.update(i, flow), ..self }
    }

    /// After a path's socket failed: the path failed, and the socket is gone.
    pub open spec fn broken(self, i: int) -> BondClientView {
        BondClientView {
            scheduler: self.scheduler.path_failed(i, true),
            flows: self.flows.update(i, fresh_flow(false, 0)),
            ..self
        }
    }

    /// Whether a socket is the one that a path has now.
    pub open spec fn current(self, i: int, generation: u64) -> bool {
        i < self.flows.len() && self.flows[i].open && self.flows[i].generation == generation
    }

    /// Whether a path is to join again.
    pub open spec fn rejoins(self, i: int, now: u64) -> bool {
        &&& self.scheduler.paths[i].enabled
        &&& now.saturating_sub(self.last_reset[i]) >= REJOIN_MS
        &&& !self.flows[i].open || !self.scheduler.paths[i].ready(now)
    }

    /// What a frame of the relay leads to.
    pub open spec fn accepts(self, i: int, f: FrameView, room: Room, now: u64) -> (
        BondClientView,
        TakenView,
    ) {
        let told: BondClientView = if f.kind == Kind::JoinAck && admission::joins_batching(f.id) {
            self.set_flow(i, SubflowView { ack_batching: true, ..self.flows[i] })
        } else {
            self
        };
        if f.kind == Kind::Data && tunnel::ipv4_fault(f.body, None, Some(self.assigned)) is Some {
            (told, TakenView::Nothing)
        } else {
            match told.scheduler.let_in(f, room, now) {
                Err(_) => (told, TakenView::NoQueue),
                Ok((s, packet, answers)) => (
                    BondClientView { scheduler: s, ..told },
                    TakenView::Frames(packet, answers),
                ),
            }
        }
    }

    /// What a datagram on a path leads to. What comes from a socket that the
    /// path no longer has, or speaks of another path, is ignored.
    #[verifier::opaque]
    pub open spec fn takes(
        self,
        i: int,
        generation: u64,
        packet: Seq<u8>,
        room: Room,
        now: u64,
    ) -> (BondClientView, TakenView) {
        if !self.current(i, generation) {
            (self, TakenView::Nothing)
        } else {
            match self.transport.opened(packet) {
                Err(_) => (self, TakenView::Nothing),
                Ok((kind, body)) => {
                    let c: BondClientView = BondClientView {
                        transport: self.transport.after_open(packet),
                        ..self
                    };
                    if kind != IP {
                        (c, TakenView::Nothing)
                    } else {
                        match frame::spec_decode(body) {
                            Err(_) => (c, TakenView::Nothing),
                            Ok(f) => if f.path != i {
                                (c, TakenView::Nothing)
                            } else {
                                c.accepts(i, f, room, now)
                            },
                        }
                    }
                },
            }
        }
    }
}

impl BondClient {
    pub open spec fn wf(&self) -> bool {
        &&& self@.wf()
        &&& self.scheduler.wf()
        &&& self.transport.wf()
        &&& forall|i: int| 0 <= i < self.flows@.len() ==> (#[trigger] self.flows@[i]).wf()
    }

    /// A client with a path for each adapter, and no socket yet.
    pub fn new(
        interfaces: &Vec<String>,
        policy: Policy,
        transport: Transport,
        assigned: [u8; 4],
    ) -> (r: Result<Self, BondError>)
        requires
            transport.wf(),
        ensures
            match r {
                Ok(client) => {
                    &&& 1 <= interfaces@.len() <= MAX_PATHS
                    &&& client.wf()
                    &&& client@ == (BondClientView {
                        transport: transport@,
                        assigned,
                        scheduler: bond::initial(
                            interfaces@.map_values(|name: String| (name@, false)),
                            policy,
                        ),
                        flows: Seq::new(interfaces@.len(), |i: int| fresh_flow(false, 0)),
                        last_reset: Seq::new(interfaces@.len(), |i: int| 0u64),
                        addresses: Seq::empty(),
                    })
                },
                Err(error) => !(1 <= interfaces@.len() <= MAX_PATHS) && error
                    == BondError::PathCount,
            },
    {
        let mut named: Vec<(String, bool)> = Vec::new();
        let mut flows: Vec<Subflow> = Vec::new();
        let mut last_reset: Vec<u64> = Vec::new();
        let mut i: usize = 0;
        while i < interfaces.len()
            invariant
                i <= interfaces@.len(),
                named@.len() == i,
                flows@.len() == i,
                last_reset@.len() == i,
                forall|j: int|
                    0 <= j < i ==> (#[trigger] named@[j]).0@ == interfaces@[j]@ && !named@[j].1,
                forall|j: int|
                    0 <= j < i ==> (#[trigger] flows@[j])@ == fresh_flow(false, 0)
                        && flows@[j].wf(),
                forall|j: int| 0 <= j < i ==> #[trigger] last_reset@[j] == 0,
            decreases interfaces@.len() - i,
        {
            named.push((interfaces[i].clone(), false));
            flows.push(Subflow::fresh(false, 0));
            last_reset.push(0);
            i = i + 1;
        }
        let ghost listed = named@.map_values(|n: (String, bool)| (n.0@, n.1));
        assert(listed =~= interfaces@.map_values(|name: String| (name@, false)));
        let scheduler: Scheduler = match Scheduler::new(named, policy) {
            Ok(scheduler) => scheduler,
            Err(error) => {
                return Err(error);
            },
        };
        let client: BondClient = BondClient {
            transport,
            assigned,
            scheduler,
            flows,
            last_reset,
            addresses: Vec::new(),
        };
        proof {
            assert(client@.flows =~= Seq::new(interfaces@.len(), |i: int| fresh_flow(false, 0)));
            assert(client@.last_reset =~= Seq::new(interfaces@.len(), |i: int| 0u64));
            assert(client@.addresses =~= Seq::empty());
        }
        Ok(client)
    }

    fn put_flow(&mut self, i: usize, flow: Subflow)
        requires
            old(self).wf(),
            i < old(self).flows@.len(),
            flow.wf(),
        ensures
            final(self).wf(),
            final(self)@ == old(self)@.set_flow(i as int, flow@),
    {
        self.flows[i] = flow;
        assert(self@.flows =~= old(self)@.flows.update(i as int, flow@));
        assert(self@ =~= old(self)@.set_flow(i as int, flow@));
    }

    /// A socket was opened for a path.
    pub fn opened(&mut self, i: usize, generation: u64)
        requires
            old(self).wf(),
            i < old(self).flows@.len(),
        ensures
            final(self).wf(),
            final(self)@ == old(self)@.set_flow(i as int, fresh_flow(true, generation)),
    {
        self.put_flow(i, Subflow::fresh(true, generation));
    }

    fn break_path(&mut self, i: usize)
        requires
            old(self).wf(),
            i < old(self).flows@.len(),
        ensures
            final(self).wf(),
            final(self)@ == old(self)@.broken(i as int),
    {
        self.scheduler.fail_path(i);
        self.flows[i] = Subflow::fresh(false, 0);
        assert(self@.flows =~= old(self)@.flows.update(i as int, fresh_flow(false, 0)));
        assert(self@ =~= old(self)@.broken(i as int));
    }

    /// A socket reports that it failed. Only that of the present generation
    /// counts.
    pub fn lost(&mut self, i: usize, generation: u64)
        requires
            old(self).wf(),
        ensures
            final(self).wf(),
            final(self)@ == if old(self)@.current(i as int, generation) {
                old(self)@.broken(i as int)
            } else {
                old(self)@
            },
    {
        if i < self.flows.len() {
            assert(self@.flows[i as int] == self.flows@[i as int]@);
            if self.flows[i].open && self.flows[i].generation == generation {
                self.break_path(i);
            }
        }
    }

    /// Takes a frame that is to be sent. Returns the frame to send now: none
    /// where its path has no socket, or it waits in a batch.
    pub fn gather(&mut self, f: Frame) -> (r: Option<Frame>)
        requires
            old(self).wf(),
        ensures
            final(self).wf(),
            if f.path < old(self)@.flows.len() {
                let (flow, out) = gathered(old(self)@.flows[f.path as int], f@);
                &&& final(self)@ =~= old(self)@.set_flow(f.path as int, flow)
                &&& match (r, out) {
                    (Some(now), Some(want)) => now@ == want,
                    (None, None) => true,
                    _ => false,
                }
            } else {
                r is None && final(self)@ == old(self)@
            },
    {
        let i: usize = f.path as usize;
        if i >= self.flows.len() {
            return None;
        }
        assert(self@.flows[i as int] == self.flows@[i as int]@);
        if !self.flows[i].open {
            assert(self@ =~= self@.set_flow(i as int, self@.flows[i as int]));
            return None;
        }
        if !self.flows[i].ack_batching {
            assert(self@ =~= self@.set_flow(i as int, self@.flows[i as int]));
            return Some(f);
        }
        let ghost flow: SubflowView = gathered(old(self)@.flows[i as int], f@).0;
        let out: Option<Frame> = self.flows[i].acks.push(f);
        proof {
            assert(self.flows@[i as int]@ =~= flow);
            assert(self@.flows =~= old(self)@.flows.update(i as int, flow));
            assert(self@ =~= old(self)@.set_flow(i as int, flow));
        }
        out
    }

    /// The join that a path has to send first, if it has one.
    pub fn pending_join(&self, i: usize) -> (r: Option<Vec<u8>>)
        requires
            i < self.flows@.len(),
        ensures
            bytes_of(r) == self@.flows[i as int].pending_join,
    {
        assert(self@.flows[i as int] == self.flows@[i as int]@);
        match &self.flows[i].pending_join {
            Some(join) => Some(wire::copy_bytes(join.as_slice())),
            None => None,
        }
    }

    /// The pending join was tried. Returns whether other frames may follow it.
    pub fn join_tried(&mut self, i: usize, sent: Sent) -> (r: bool)
        requires
            old(self).wf(),
            i < old(self).flows@.len(),
        ensures
            final(self).wf(),
            r == (sent == Sent::Done),
            final(self)@ == match sent {
                Sent::Done => old(self)@.set_flow(
                    i as int,
                    SubflowView { pending_join: None, ..old(self)@.flows[i as int] },
                ),
                Sent::WouldBlock => old(self)@,
                Sent::Failed => old(self)@.broken(i as int),
            },
    {
        assert(self@.flows[i as int] == self.flows@[i as int]@);
        match sent {
            Sent::Done => {
                let ghost flow: SubflowView = SubflowView {
                    pending_join: None,
                    ..old(self)@.flows[i as int]
                };
                self.flows[i].pending_join = None;
                proof {
                    assert(self.flows@[i as int]@ =~= flow);
                    assert(self@.flows =~= old(self)@.flows.update(i as int, flow));
                    assert(self@ =~= old(self)@.set_flow(i as int, flow));
                }
                true
            },
            Sent::WouldBlock => false,
            Sent::Failed => {
                self.break_path(i);
                false
            },
        }
    }

    /// The message that carries a frame.
    pub fn seal(&mut self, f: &Frame) -> (r: Result<Vec<u8>, TunnelError>)
        requires
            old(self).wf(),
        ensures
            final(self).wf(),
            final(self)@ == (BondClientView {
                transport: old(self)@.transport.after_seal(IP, f@.encoded()),
                ..old(self)@
            }),
            match r {
                Ok(message) => old(self)@.transport.sealed(IP, f@.encoded()) == Ok::<
                    Seq<u8>,
                    TunnelError,
                >(message@),
                Err(error) => old(self)@.transport.sealed(IP, f@.encoded()) == Err::<
                    Seq<u8>,
                    TunnelError,
                >(error),
            },
    {
        let bytes: Vec<u8> = f.encode();
        let r: Result<Vec<u8>, TunnelError> = self.transport.seal(IP, bytes.as_slice());
        assert(self@ =~= BondClientView {
            transport: old(self)@.transport.after_seal(IP, f@.encoded()),
            ..old(self)@
        });
        r
    }

    /// A message was tried. A full buffer is counted, and a join that met one
    /// stays first in line; any other failure ends the socket.
    pub fn frame_tried(&mut self, kind: Kind, i: usize, message: Vec<u8>, sent: Sent)
        requires
            old(self).wf(),
            i < old(self).flows@.len(),
        ensures
            final(self).wf(),
            final(self)@ == match sent {
                Sent::Done => old(self)@,
                Sent::WouldBlock => {
                    let counted: BondClientView = BondClientView {
                        scheduler: old(self)@.scheduler.with_socket_backpressure(),
                        ..old(self)@
                    };
                    if kind == Kind::Join {
                        counted.set_flow(
                            i as int,
                            SubflowView {
                                pending_join: Some(message@),
                                ..old(self)@.flows[i as int]
                            },
                        )
                    } else {
                        counted
                    }
                },
                Sent::Failed => old(self)@.broken(i as int),
            },
    {
        assert(self@.flows[i as int] == self.flows@[i as int]@);
        match sent {
            Sent::Done => {},
            Sent::WouldBlock => {
                self.scheduler.counters.socket_backpressure =
                self.scheduler.counters.socket_backpressure.wrapping_add(1);
                let ghost counted: BondClientView = BondClientView {
                    scheduler: old(self)@.scheduler.with_socket_backpressure(),
                    ..old(self)@
                };
                assert(self@.scheduler =~= counted.scheduler);
                assert(self@ =~= counted);
                if kind == Kind::Join {
                    let ghost flow: SubflowView = SubflowView {
                        pending_join: Some(message@),
                        ..old(self)@.flows[i as int]
                    };
                    self.flows[i].pending_join = Some(message);
                    proof {
                        assert(self.flows@[i as int]@ =~= flow);
                        assert(self@.flows =~= old(self)@.flows.update(i as int, flow));
                        assert(self@ =~= counted.set_flow(i as int, flow));
                    }
                }
            },
            Sent::Failed => {
                self.break_path(i);
            },
        }
    }

    /// The acknowledgements that all open sockets gathered.
    pub fn acknowledgements(&mut self) -> (r: Vec<Frame>)
        requires
            old(self).wf(),
        ensures
            final(self).wf(),
            frame::frame_views(r@) == held_acks(old(self)@.flows, old(self)@.flows.len()),
            final(self)@ == (BondClientView {
                flows: Seq::new(
                    old(self)@.flows.len(),
                    |i: int|
                        if old(self)@.flows[i].open {
                            SubflowView { acks: no_acks(), ..old(self)@.flows[i] }
                        } else {
                            old(self)@.flows[i]
                        },
                ),
                ..old(self)@
            }),
    {
        let ghost first: Seq<SubflowView> = self@.flows;
        let mut out: Vec<Frame> = Vec::new();
        let mut i: usize = 0;
        assert(frame::frame_views(out@) =~= Seq::empty());
        while i < self.flows.len()
            invariant
                self.wf(),
                i <= self.flows@.len() == first.len(),
                first == old(self)@.flows,
                frame::frame_views(out@) == held_acks(first, i as nat),
                self@ == (BondClientView { flows: self@.flows, ..old(self)@ }),
                forall|j: int|
                    0 <= j < first.len() ==> #[trigger] self@.flows[j] == if j < i
                        && first[j].open {
                        SubflowView { acks: no_acks(), ..first[j] }
                    } else {
                        first[j]
                    },
            decreases self.flows@.len() - i,
        {
            assert(self@.flows[i as int] == self.flows@[i as int]@);
            assert(self@.flows[i as int] == first[i as int]);
            if self.flows[i].open {
                let ghost before: Seq<SubflowView> = self@.flows;
                let mut batch: Vec<Frame> = self.flows[i].acks.drain();
                let ghost flow: SubflowView = SubflowView { acks: no_acks(), ..first[i as int] };
                proof {
                    lemma_no_acks(self.flows@[i as int].acks@);
                    assert(self.flows@[i as int]@ =~= flow);
                    assert(self@.flows =~= before.update(i as int, flow));
                    assert(self@ =~= BondClientView { flows: self@.flows, ..old(self)@ });
                }
                let ghost a: Seq<Frame> = out@;
                let ghost b: Seq<Frame> = batch@;
                out.append(&mut batch);
                assert(out@ =~= a + b);
                assert(frame::frame_views(out@) =~= frame::frame_views(a) + frame::frame_views(b));
            }
            i = i + 1;
        }
        assert(self@.flows =~= Seq::new(
            first.len(),
            |i: int|
                if old(self)@.flows[i].open {
                    SubflowView { acks: no_acks(), ..old(self)@.flows[i] }
                } else {
                    old(self)@.flows[i]
                },
        ));
        out
    }

    /// Whether a path is to join again: it has no socket, or is not ready, and
    /// last joined long enough ago. Returns whether a socket is to be opened
    /// first, and the join to send. A socket that is only silent stays, and
    /// with it the place where the relay finds it.
    pub fn rejoin(&mut self, i: usize, now: u64) -> (r: Option<(bool, Frame)>)
        requires
            old(self).wf(),
            i < old(self).flows@.len(),
        ensures
            final(self).wf(),
            match r {
                Some((open, join)) => {
                    &&& old(self)@.rejoins(i as int, now)
                    &&& open == !old(self)@.flows[i as int].open
                    &&& join@ == join_of(old(self)@.scheduler, i as u8, now)
                    &&& final(self)@ == (BondClientView {
                        last_reset: old(self)@.last_reset.update(i as int, now),
                        ..old(self)@
                    })
                },
                None => !old(self)@.rejoins(i as int, now) && final(self)@ == old(self)@,
            },
    {
        assert(self@.flows[i as int] == self.flows@[i as int]@);
        let p: path::Path = self.scheduler.paths[i];
        if !p.enabled || now.saturating_sub(self.last_reset[i]) < REJOIN_MS {
            return None;
        }
        if self.flows[i].open && p.ready(now) {
            return None;
        }
        self.last_reset[i] = now;
        assert(self@ =~= BondClientView {
            last_reset: old(self)@.last_reset.update(i as int, now),
            ..old(self)@
        });
        let join: Frame = Frame::control(
            Kind::Join,
            i as u8,
            admission::join_number(self.scheduler.policy, p.metered),
            now,
        );
        Some((!self.flows[i].open, join))
    }

    /// The joins of all paths in use.
    pub fn joins(&self, now: u64) -> (r: Vec<Frame>)
        requires
            self.wf(),
        ensures
            frame::frame_views(r@) == joins_below(self@.scheduler, now, self@.scheduler.n()),
    {
        let mut out: Vec<Frame> = Vec::new();
        let mut i: usize = 0;
        assert(frame::frame_views(out@) =~= Seq::empty());
        while i < self.scheduler.paths.len()
            invariant
                self.wf(),
                i <= self.scheduler.paths@.len() <= MAX_PATHS,
                frame::frame_views(out@) == joins_below(self@.scheduler, now, i as nat),
            decreases self.scheduler.paths@.len() - i,
        {
            let p: path::Path = self.scheduler.paths[i];
            if p.enabled {
                let ghost before: Seq<Frame> = out@;
                let join: Frame = Frame::control(
                    Kind::Join,
                    i as u8,
                    admission::join_number(self.scheduler.policy, p.metered),
                    now,
                );
                out.push(join);
                assert(frame::frame_views(out@) =~= frame::frame_views(before).push(join@));
            }
            i = i + 1;
        }
        out
    }

    /// The frames that end the session, one on each path.
    pub fn farewells(&self, now: u64) -> (r: Vec<Frame>)
        requires
            self.wf(),
        ensures
            frame::frame_views(r@) == Seq::new(
                self@.scheduler.n(),
                |i: int| frame::spec_control(Kind::Close, i as u8, 0, now),
            ),
    {
        let mut out: Vec<Frame> = Vec::new();
        let mut i: usize = 0;
        while i < self.scheduler.paths.len()
            invariant
                self.wf(),
                i <= self.scheduler.paths@.len() <= MAX_PATHS,
                out@.len() == i,
                forall|j: int|
                    0 <= j < i ==> (#[trigger] out@[j])@ == frame::spec_control(
                        Kind::Close,
                        j as u8,
                        0,
                        now,
                    ),
            decreases self.scheduler.paths@.len() - i,
        {
            out.push(Frame::control(Kind::Close, i as u8, 0, now));
            i = i + 1;
        }
        assert(frame::frame_views(out@) =~= Seq::new(
            self@.scheduler.n(),
            |i: int| frame::spec_control(Kind::Close, i as u8, 0, now),
        ));
        out
    }

    fn accept(&mut self, i: usize, f: &Frame, room: Room, now: u64) -> (r: Taken)
        requires
            old(self).wf(),
            i < old(self).flows@.len(),
        ensures
            final(self).wf(),
            final(self)@ == old(self)@.accepts(i as int, f@, room, now).0,
            r@ == old(self)@.accepts(i as int, f@, room, now).1,
    {
        assert(self@.flows[i as int] == self.flows@[i as int]@);
        if f.kind == Kind::JoinAck && admission::joins_batching(f.id) {
            let ghost flow: SubflowView = SubflowView {
                ack_batching: true,
                ..old(self)@.flows[i as int]
            };
            self.flows[i].ack_batching = true;
            proof {
                assert(self.flows@[i as int]@ =~= flow);
                assert(self@.flows =~= old(self)@.flows.update(i as int, flow));
                assert(self@ =~= old(self)@.set_flow(i as int, flow));
            }
        }
        let ghost told: BondClientView = self@;
        if f.kind == Kind::Data {
            match tunnel::validate_ipv4(f.body.as_slice(), None, Some(self.assigned)) {
                Ok(()) => {},
                Err(_error) => {
                    return Taken::Nothing;
                },
            }
        }
        match admission::receive_to_writer(&mut self.scheduler, f, room, now) {
            Err(_closed) => {
                assert(self@ =~= told);
                Taken::NoQueue
            },
            Ok((packet, answers)) => {
                assert(self@ =~= old(self)@.accepts(i as int, f@, room, now).0);
                Taken::Frames(packet, answers)
            },
        }
    }

    /// Takes a datagram that came in on a path's socket.
    pub fn receive(
        &mut self,
        i: usize,
        generation: u64,
        packet: &[u8],
        room: Room,
        now: u64,
    ) -> (r: Taken)
        requires
            old(self).wf(),
        ensures
            final(self).wf(),
            final(self)@ == old(self)@.takes(i as int, generation, packet@, room, now).0,
            r@ == old(self)@.takes(i as int, generation, packet@, room, now).1,
    {
        proof {
            reveal(BondClientView::takes);
        }
        if i >= self.flows.len() {
            return Taken::Nothing;
        }
        assert(self@.flows[i as int] == self.flows@[i as int]@);
        if !self.flows[i].open || self.flows[i].generation != generation {
            return Taken::Nothing;
        }
        let opened: Result<(u8, Vec<u8>), TunnelError> = self.transport.open(packet);
        assert(self@ =~= BondClientView {
            transport: old(self)@.transport.after_open(packet@),
            ..old(self)@
        });
        let (kind, body) = match opened {
            Ok(found) => found,
            Err(_error) => {
                assert(self@ =~= old(self)@);
                return Taken::Nothing;
            },
        };
        if kind != IP {
            return Taken::Nothing;
        }
        let f: Frame = match Frame::decode(body.as_slice()) {
            Ok(f) => f,
            Err(_error) => {
                return Taken::Nothing;
            },
        };
        if f.path as usize != i {
            return Taken::Nothing;
        }
        self.accept(i, &f, room, now)
    }

    /// Takes a packet of the system. One that is not the client's own is left.
    pub fn forward(&mut self, packet: &[u8])
        requires
            old(self).wf(),
        ensures
            final(self).wf(),
            final(self)@ == if tunnel::ipv4_fault(
                packet@,
                Some(old(self)@.assigned),
                None,
            ) is None {
                BondClientView {
                    scheduler: old(self)@.scheduler.enqueued(packet@),
                    ..old(self)@
                }
            } else {
                old(self)@
            },
    {
        match tunnel::validate_ipv4(packet, Some(self.assigned), None) {
            Ok(()) => {
                self.scheduler.enqueue(wire::copy_bytes(packet));
                assert(self@ =~= BondClientView {
                    scheduler: old(self)@.scheduler.enqueued(packet@),
                    ..old(self)@
                });
            },
            Err(_error) => {},
        }
    }
}

/// Whether an adapter is among those of a configuration.
pub open spec fn listed(interfaces: Seq<InterfaceView>, name: Seq<char>) -> bool {
    exists|i: int| 0 <= i < interfaces.len() && (#[trigger] interfaces[i]).name == name
}

/// Whether a configuration can be used.
pub open spec fn usable(interfaces: Seq<InterfaceView>) -> bool {
    interfaces.len() <= MAX_PATHS && forall|i: int|
        0 <= i < interfaces.len() ==> names::spec_valid_interface((#[trigger] interfaces[i]).name)
}

/// The policy that a configuration names. An unknown name is the usual one.
pub open spec fn named_policy(name: Seq<char>) -> Policy {
    match direct::spec_parse_policy(name) {
        Some(policy) => policy,
        None => Policy::Smart,
    }
}

/// A scheduler that is offered a path, and the number of the path.
pub open spec fn offered(s: SchedulerView, name: Seq<char>, metered: bool) -> (
    SchedulerView,
    Option<int>,
) {
    let at: int = bond::name_slot(s.names, name, 0);
    if at < s.n() {
        (
            SchedulerView {
                paths: s.paths.update(at, bond::readmitted(s.paths[at], metered)),
                notices: s.notices.update(at, false),
                ..s
            },
            Some(at),
        )
    } else if s.n() < MAX_PATHS {
        (
            SchedulerView {
                paths: s.paths.push(path::fresh_path(s.n() as u8, metered)),
                names: s.names.push(name),
                notices: s.notices.push(false),
                ..s
            },
            Some(s.n() as int),
        )
    } else {
        (s, None)
    }
}

/// Where the address of an adapter is kept, from `i` on, or the end.
pub open spec fn address_slot(list: Seq<(Seq<char>, Seq<char>)>, name: Seq<char>, i: int) -> int
    decreases list.len() - i,
{
    if i < list.len() && list[i].0 != name {
        address_slot(list, name, i + 1)
    } else {
        i
    }
}

impl BondClientView {
    /// Without the paths below `n` whose adapters are not listed.
    pub open spec fn without_unlisted(self, interfaces: Seq<InterfaceView>, n: nat) -> BondClientView
        decreases n,
    {
        if n == 0 {
            self
        } else {
            let c: BondClientView = self.without_unlisted(interfaces, (n - 1) as nat);
            if listed(interfaces, c.scheduler.names[n - 1]) {
                c
            } else {
                BondClientView {
                    scheduler: c.scheduler.path_removed(n - 1),
                    flows: c.flows.update(n - 1, fresh_flow(false, 0)),
                    ..c
                }
            }
        }
    }

    /// With the address that an adapter has now. One that changed takes the
    /// path's socket with it, and the path may join at once.
    pub open spec fn placed(self, i: int, name: Seq<char>, address: Seq<char>) -> BondClientView {
        let k: int = address_slot(self.addresses, name, 0);
        if k < self.addresses.len() {
            let noted: BondClientView = BondClientView {
                addresses: self.addresses.update(k, (name, address)),
                ..self
            };
            if self.addresses[k].1 != address {
                BondClientView {
                    last_reset: self.last_reset.update(i, 0),
                    ..noted.broken(i)
                }
            } else {
                noted
            }
        } else {
            BondClientView { addresses: self.addresses.push((name, address)), ..self }
        }
    }

    /// With an adapter of a configuration, and whether it found no place.
    pub open spec fn configured(self, item: InterfaceView) -> (BondClientView, bool) {
        let (s, at) = offered(self.scheduler, item.name, item.metered);
        match at {
            None => (self, true),
            Some(i) => {
                let c: BondClientView = BondClientView {
                    scheduler: s,
                    flows: if i >= self.flows.len() {
                        self.flows.push(fresh_flow(false, 0))
                    } else {
                        self.flows
                    },
                    last_reset: if i >= self.flows.len() {
                        self.last_reset.push(0)
                    } else {
                        self.last_reset
                    },
                    ..self
                };
                match item.address {
                    None => (c, false),
                    Some(address) => (c.placed(i, item.name, address), false),
                }
            },
        }
    }

    /// With the first `n` adapters of a configuration, and the names of those
    /// that found no place.
    pub open spec fn all_configured(self, interfaces: Seq<InterfaceView>, n: nat) -> (
        BondClientView,
        Seq<Seq<char>>,
    )
        decreases n,
    {
        if n == 0 {
            (self, Seq::empty())
        } else {
            let (c, left) = self.all_configured(interfaces, (n - 1) as nat);
            let (after, refused) = c.configured(interfaces[n - 1]);
            (
                after,
                if refused {
                    left.push(interfaces[n - 1].name)
                } else {
                    left
                },
            )
        }
    }

    /// After a configuration that can be used.
    pub open spec fn reconfigured(
        self,
        interfaces: Seq<InterfaceView>,
        policy: Option<Seq<char>>,
    ) -> (BondClientView, Seq<Seq<char>>) {
        let c: BondClientView = match policy {
            Some(name) => BondClientView {
                scheduler: SchedulerView { policy: named_policy(name), ..self.scheduler },
                ..self
            },
            None => self,
        };
        c.without_unlisted(interfaces, self.flows.len()).all_configured(
            interfaces,
            interfaces.len(),
        )
    }
}

fn is_listed(interfaces: &Vec<InterfaceConfig>, name: &String) -> (r: bool)
    ensures
        r == listed(runtime::interface_views(interfaces@), name@),
{
    let ghost views: Seq<InterfaceView> = runtime::interface_views(interfaces@);
    let mut i: usize = 0;
    while i < interfaces.len()
        invariant
            i <= interfaces@.len(),
            views == runtime::interface_views(interfaces@),
            forall|j: int| 0 <= j < i ==> (#[trigger] views[j]).name != name@,
        decreases interfaces@.len() - i,
    {
        assert(views[i as int] == interfaces@[i as int]@);
        if interfaces[i].name == *name {
            return true;
        }
        i = i + 1;
    }
    false
}

impl BondClient {
    fn remove_unlisted(&mut self, interfaces: &Vec<InterfaceConfig>)
        requires
            old(self).wf(),
        ensures
            final(self).wf(),
            final(self)@ == old(self)@.without_unlisted(
                runtime::interface_views(interfaces@),
                old(self)@.flows.len(),
            ),
    {
        let ghost views: Seq<InterfaceView> = runtime::interface_views(interfaces@);
        let ghost first: BondClientView = self@;
        let n: usize = self.flows.len();
        let mut i: usize = 0;
        while i < n
            invariant
                self.wf(),
                i <= n == self.flows@.len(),
                views == runtime::interface_views(interfaces@),
                self@ == first.without_unlisted(views, i as nat),
            decreases n - i,
        {
            let ghost before: BondClientView = self@;
            assert(before.scheduler.names[i as int] == self.scheduler.names@[i as int]@);
            if !is_listed(interfaces, &self.scheduler.names[i]) {
                self.scheduler.remove_path(i);
                self.flows[i] = Subflow::fresh(false, 0);
                proof {
                    assert(self@.flows =~= before.flows.update(i as int, fresh_flow(false, 0)));
                    assert(self@ =~= BondClientView {
                        scheduler: before.scheduler.path_removed(i as int),
                        flows: before.flows.update(i as int, fresh_flow(false, 0)),
                        ..before
                    });
                }
            }
            i = i + 1;
        }
    }

    fn place(&mut self, i: usize, name: &String, address: &String)
        requires
            old(self).wf(),
            i < old(self).flows@.len(),
        ensures
            final(self).wf(),
            final(self)@ == old(self)@.placed(i as int, name@, address@),
    {
        let ghost list: Seq<(Seq<char>, Seq<char>)> = self@.addresses;
        let mut k: usize = 0;
        while k < self.addresses.len() && self.addresses[k].0 != *name
            invariant
                k <= self.addresses@.len(),
                list == address_views(self.addresses@),
                address_slot(list, name@, k as int) == address_slot(list, name@, 0),
            decreases self.addresses@.len() - k,
        {
            k = k + 1;
        }
        if k >= self.addresses.len() {
            self.addresses.push((name.clone(), address.clone()));
            assert(self@.addresses =~= list.push((name@, address@)));
            assert(self@ =~= old(self)@.placed(i as int, name@, address@));
            return;
        }
        assert(list[k as int] == (self.addresses@[k as int].0@, self.addresses@[k as int].1@));
        let changed: bool = self.addresses[k].1 != *address;
        self.addresses[k] = (name.clone(), address.clone());
        assert(self@.addresses =~= list.update(k as int, (name@, address@)));
        let ghost noted: BondClientView = BondClientView {
            addresses: list.update(k as int, (name@, address@)),
            ..old(self)@
        };
        assert(self@ =~= noted);
        if changed {
            self.break_path(i);
            self.last_reset[i] = 0;
            assert(self@ =~= BondClientView {
                last_reset: old(self)@.last_reset.update(i as int, 0),
                ..noted.broken(i as int)
            });
        }
    }

    fn add_interface(&mut self, item: &InterfaceConfig) -> (r: bool)
        requires
            old(self).wf(),
        ensures
            final(self).wf(),
            final(self)@ == old(self)@.configured(item@).0,
            r == !old(self)@.configured(item@).1,
    {
        let ghost s: SchedulerView = self@.scheduler;
        let i: usize = match self.scheduler.add_path(item.name.clone(), item.metered) {
            Ok(i) => i,
            Err(_error) => {
                assert(self@ =~= old(self)@);
                return false;
            },
        };
        proof {
            lemma_name_slot(s.names, item.name@, 0);
        }
        if i >= self.flows.len() {
            let ghost flows: Seq<SubflowView> = self@.flows;
            self.flows.push(Subflow::fresh(false, 0));
            self.last_reset.push(0);
            assert(self@.flows =~= flows.push(fresh_flow(false, 0)));
        }
        let ghost c: BondClientView = BondClientView {
            scheduler: offered(s, item.name@, item.metered).0,
            flows: if i >= old(self)@.flows.len() {
                old(self)@.flows.push(fresh_flow(false, 0))
            } else {
                old(self)@.flows
            },
            last_reset: if i >= old(self)@.flows.len() {
                old(self)@.last_reset.push(0)
            } else {
                old(self)@.last_reset
            },
            ..old(self)@
        };
        assert(self@ =~= c);
        match &item.address {
            Some(address) => {
                self.place(i, &item.name, address);
            },
            None => {},
        }
        true
    }

    /// Follows a change of adapters and policy: paths of adapters that are
    /// gone are removed, those that are there are offered, and one whose
    /// address changed starts anew. Returns the names that found no place, or
    /// nothing where the configuration cannot be used.
    pub fn configure(&mut self, control: &Control) -> (r: Option<Vec<String>>)
        requires
            old(self).wf(),
        ensures
            final(self).wf(),
            match r {
                Some(left) => {
                    &&& usable(runtime::interface_views(control.interfaces@))
                    &&& old(self)@.reconfigured(
                        runtime::interface_views(control.interfaces@),
                        crate::brain::text_of(control.policy),
                    ) == (final(self)@, bond::texts(left@))
                },
                None => !usable(runtime::interface_views(control.interfaces@)) && final(self)@
                    == old(self)@,
            },
    {
        let ghost views: Seq<InterfaceView> = runtime::interface_views(control.interfaces@);
        if control.interfaces.len() > MAX_PATHS {
            return None;
        }
        let mut i: usize = 0;
        while i < control.interfaces.len()
            invariant
                i <= control.interfaces@.len(),
                views == runtime::interface_views(control.interfaces@),
                self.wf(),
                *self == *old(self),
                forall|j: int|
                    0 <= j < i ==> names::spec_valid_interface((#[trigger] views[j]).name),
            decreases control.interfaces@.len() - i,
        {
            assert(views[i as int] == control.interfaces@[i as int]@);
            if !names::valid_interface(control.interfaces[i].name.as_str()) {
                assert(!names::spec_valid_interface(views[i as int].name));
                return None;
            }
            i = i + 1;
        }
        match &control.policy {
            Some(name) => {
                self.scheduler.policy = match direct::parse_policy(name.as_str()) {
                    Some(policy) => policy,
                    None => Policy::Smart,
                };
                assert(self@ =~= BondClientView {
                    scheduler: SchedulerView {
                        policy: named_policy(name@),
                        ..old(self)@.scheduler
                    },
                    ..old(self)@
                });
            },
            None => {},
        }
        self.remove_unlisted(&control.interfaces);
        let ghost base: BondClientView = self@;
        let mut left: Vec<String> = Vec::new();
        let mut k: usize = 0;
        assert(bond::texts(left@) =~= Seq::empty());
        while k < control.interfaces.len()
            invariant
                self.wf(),
                k <= control.interfaces@.len(),
                views == runtime::interface_views(control.interfaces@),
                base.all_configured(views, k as nat) == (self@, bond::texts(left@)),
            decreases control.interfaces@.len() - k,
        {
            let ghost before: Seq<String> = left@;
            assert(views[k as int] == control.interfaces@[k as int]@);
            if !self.add_interface(&control.interfaces[k]) {
                left.push(control.interfaces[k].name.clone());
                assert(bond::texts(left@) =~= bond::texts(before).push(views[k as int].name));
            }
            k = k + 1;
        }
        Some(left)
    }
}

proof fn lemma_name_slot(names: Seq<Seq<char>>, name: Seq<char>, i: int)
    requires
        0 <= i <= names.len(),
    ensures
        i <= bond::name_slot(names, name, i) <= names.len(),
    decreases names.len() - i,
{
    if i < names.len() && names[i] != name {
        lemma_name_slot(names, name, i + 1);
    }
}

/// What comes from a socket that a path no longer has changes nothing.
pub proof fn old_socket_is_ignored(
    c: BondClientView,
    i: int,
    generation: u64,
    packet: Seq<u8>,
    room: Room,
    now: u64,
)
    requires
        0 <= i < c.flows.len(),
        c.flows[i].generation != generation,
    ensures
        c.takes(i, generation, packet, room, now) == (c, TakenView::Nothing),
{
    reveal(BondClientView::takes);
}

/// A packet reaches the system only if it is addressed to the client.
pub proof fn delivered_packet_is_for_client(
    c: BondClientView,
    i: int,
    generation: u64,
    packet: Seq<u8>,
    room: Room,
    now: u64,
    body: Seq<u8>,
    answers: Seq<FrameView>,
)
    requires
        c.takes(i, generation, packet, room, now).1 == TakenView::Frames(Some(body), answers),
    ensures
        body.subrange(16, 20) == c.assigned@,
        room == Room::Free,
{
    reveal(BondClientView::takes);
}

} // verus!
