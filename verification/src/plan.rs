//! The order in which a new flow tries the uplinks.
use crate::binary64::Binary64;
use crate::bond::Policy;
use crate::brain;
use crate::direct;
use crate::direct::{Intent, Path, PathView, Uplink};
use crate::placement;
use vstd::prelude::*;

verus! {

/// Where advice came from.
#[derive(Clone, Copy, Debug, PartialEq, Eq, Structural)]
pub enum Source {
    Cloud,
    Local,
    Unguided,
}

impl Source {
    pub fn name(self) -> (r: &'static str)
        ensures
            r@ == match self {
                Source::Cloud => "cloud"@,
                Source::Local => "local"@,
                Source::Unguided => "none"@,
            },
    {
        match self {
            Source::Cloud => "cloud",
            Source::Local => "local",
            Source::Unguided => "none",
        }
    }
}

/// What a decision is made on.
#[verifier::ext_equal]
pub struct Scene {
    pub paths: Seq<PathView>,
    pub policy: Policy,
    pub cutoff_us: u64,
    pub cursor: usize,
    pub now: u64,
    pub intent: Intent,
    pub weights: Seq<(Seq<char>, u32)>,
    pub champion: Option<Seq<char>>,
}

/// The decision: uplinks in order, the one to rely on and the one on trial.
#[verifier::ext_equal]
pub struct Decision {
    pub order: Seq<usize>,
    pub primary: Option<usize>,
    pub trial: Option<usize>,
}

/// Least delay that is known among some uplinks, or zero.
pub open spec fn least_delay(paths: Seq<PathView>, list: Seq<usize>) -> u64
    decreases list.len(),
{
    if list.len() == 0 {
        0
    } else {
        let rest: u64 = least_delay(paths, list.drop_last());
        let rtt: u64 = paths[list.last() as int].link.rtt_us;
        if rtt > 0 && (rest == 0 || rtt < rest) {
            rtt
        } else {
            rest
        }
    }
}

/// First entry of a list from `i` on that has its flag set.
pub open spec fn first_flagged(list: Seq<usize>, flags: Seq<bool>, i: int) -> Option<usize>
    decreases list.len() - i,
{
    if i >= list.len() {
        None
    } else if flags[list[i] as int] {
        Some(list[i])
    } else {
        first_flagged(list, flags, i + 1)
    }
}

impl Scene {
    pub open spec fn n(self) -> nat {
        self.paths.len()
    }

    pub open spec fn link(self, i: int) -> Uplink {
        self.paths[i].link
    }

    pub open spec fn weight(self, i: int) -> Option<u32> {
        direct::weight_in(self.weights, self.paths[i].name, self.weights.len())
    }

    pub open spec fn same_name(self, i: int, other: Option<usize>) -> bool {
        match other {
            Some(o) => self.paths[o as int].name == self.paths[i].name,
            None => false,
        }
    }

    pub open spec fn healthy_list(self) -> Seq<usize> {
        let good: Seq<usize> = placement::kept(
            placement::up_to(self.n()),
            Seq::new(self.n(), |i: int| self.link(i).healthy),
        );
        if good.len() == 0 {
            placement::up_to(self.n())
        } else {
            good
        }
    }

    pub open spec fn unmetered_flags(self) -> Seq<bool> {
        Seq::new(self.n(), |i: int| !self.link(i).metered)
    }

    /// The uplinks that may be tried: the healthy ones, or all when none is.
    /// The policy that saves data leaves metered ones out while there are
    /// others.
    pub open spec fn eligible(self) -> Seq<usize> {
        let list: Seq<usize> = self.healthy_list();
        let unmetered: Seq<usize> = placement::kept(list, self.unmetered_flags());
        if self.policy == Policy::DataSaver && unmetered.len() > 0 {
            unmetered
        } else {
            list
        }
    }

    pub open spec fn conversational(self) -> bool {
        self.intent == Intent::Realtime || self.policy == Policy::Continuity
    }

    pub open spec fn fast_flags(self) -> Seq<bool> {
        Seq::new(self.n(), |i: int| 0 < self.link(i).rtt_us < self.cutoff_us)
    }

    pub open spec fn has_fast(self) -> bool {
        placement::kept(self.eligible(), self.fast_flags()).len() > 0
    }

    pub open spec fn delayed(self, i: int) -> bool {
        self.has_fast() && self.link(i).rtt_us >= self.cutoff_us
    }

    /// What an uplink costs a conversation, in microseconds.
    pub open spec fn call_delay(self, i: int) -> u64 {
        let link: Uplink = self.link(i);
        if link.rtt_us == 0 {
            (u64::MAX - 1) as u64
        } else {
            link.rtt_us.saturating_add(link.jitter_us.wrapping_mul(4)).saturating_add(
                link.probe_failure_ppm / 2,
            )
        }
    }

    pub open spec fn call_cost(self, i: int) -> Binary64 {
        Binary64::whole(self.call_delay(i)).over(
            Binary64::whole(direct::within_range(self.weight(i), 16) as u64).sqrt(),
        )
    }

    pub open spec fn call_costs(self) -> Seq<Binary64> {
        Seq::new(self.n(), |i: int| self.call_cost(i))
    }

    /// The order for conversations: uplinks within the cutoff first, each
    /// kind by cost.
    pub open spec fn call_order(self) -> Seq<usize> {
        let sorted: Seq<usize> = placement::ordered(self.eligible(), self.call_costs());
        placement::kept(sorted, Seq::new(self.n(), |i: int| !self.delayed(i))) + placement::kept(
            sorted,
            Seq::new(self.n(), |i: int| self.delayed(i)),
        )
    }

    /// The uplinks from the one whose turn it is.
    pub open spec fn rotated(self) -> Seq<usize> {
        let list: Seq<usize> = self.eligible();
        let o: int = self.cursor as int % list.len() as int;
        list.skip(o) + list.take(o)
    }

    /// Whether an uplink has yet to show what it delivers.
    pub open spec fn unproven(self, i: int) -> bool {
        let link: Uplink = self.link(i);
        ||| link.acknowledged < direct::PROOF_BYTES && link.received < direct::PROOF_BYTES
        ||| link.upload_hold_until_ms > 0
        ||| self.champion is Some && self.champion->0 != self.paths[i].name && (match self.weight(
            i,
        ) {
            Some(w) => w,
            None => 1u32,
        }) <= 1
    }

    pub open spec fn free(self, i: int) -> bool {
        !self.link(i).upload_held(self.now)
    }

    pub open spec fn free_flags(self) -> Seq<bool> {
        Seq::new(self.n(), |i: int| self.free(i))
    }

    pub open spec fn champion_flags(self) -> Seq<bool> {
        Seq::new(
            self.n(),
            |i: int|
                self.champion is Some && self.paths[i].name == self.champion->0 && self.free(i),
        )
    }

    pub open spec fn known_delay(self, i: int) -> u64 {
        if self.link(i).rtt_us == 0 {
            u64::MAX
        } else {
            self.link(i).rtt_us
        }
    }

    /// Whether one uplink is rather relied on than another: a proven one, then
    /// one of less delay, then one of a lower name.
    pub open spec fn rather(self, i: int, j: int) -> bool {
        if self.unproven(i) != self.unproven(j) {
            !self.unproven(i)
        } else if self.known_delay(i) != self.known_delay(j) {
            self.known_delay(i) < self.known_delay(j)
        } else {
            direct::name_before(self.paths[i].name, self.paths[j].name)
        }
    }

    /// The first of a list that none other is rather relied on than.
    pub open spec fn safest(self, list: Seq<usize>) -> Option<usize>
        decreases list.len(),
    {
        if list.len() == 0 {
            None
        } else {
            match self.safest(list.drop_last()) {
                None => Some(list.last()),
                Some(best) => if self.rather(list.last() as int, best as int) {
                    Some(list.last())
                } else {
                    Some(best)
                },
            }
        }
    }

    /// The uplink to rely on: the advised champion, unless it is held; else
    /// the safest that is not held; else the one whose turn it is.
    pub open spec fn primary(self) -> Option<usize> {
        match first_flagged(self.rotated(), self.champion_flags(), 0) {
            Some(c) => Some(c),
            None => match self.safest(placement::kept(self.rotated(), self.free_flags())) {
                Some(s) => Some(s),
                None => placement::first_of(self.rotated()),
            },
        }
    }

    pub open spec fn penalty(self, i: int) -> Binary64 {
        direct::latency_factor(
            self.link(i).rtt_us,
            least_delay(self.paths, self.eligible()),
        )
    }

    pub open spec fn named_flags(self, other: Option<usize>) -> Seq<bool> {
        Seq::new(self.n(), |i: int| self.same_name(i, other))
    }

    pub open spec fn primary_load(self) -> u64 {
        match first_flagged(self.rotated(), self.named_flags(self.primary()), 0) {
            Some(p) => self.link(p as int).load(),
            None => 0,
        }
    }

    /// Whether an unproven uplink may have the next flow: it is idle, its last
    /// trial is some time ago, and it is not much slower, unless the primary
    /// carries many flows.
    pub open spec fn on_trial(self, i: int) -> bool {
        &&& !self.same_name(i, self.primary())
        &&& self.unproven(i)
        &&& self.free(i)
        &&& self.link(i).load() == 0
        &&& self.link(i).age(self.now) >= self.link(i).last_trial_ms.saturating_add(
            direct::TRIAL_GAP_MS,
        )
        &&& (Binary64::whole(2).ge(self.penalty(i)) || self.primary_load() >= 8)
    }

    pub open spec fn trial(self) -> Option<usize> {
        if self.primary_load() > 0 {
            first_flagged(
                self.rotated(),
                Seq::new(self.n(), |i: int| self.on_trial(i)),
                0,
            )
        } else {
            None
        }
    }

    /// Trial first, then what is proven, then what is not, then what is held.
    pub open spec fn rank(self, i: int) -> int {
        if self.same_name(i, self.trial()) {
            0
        } else if !self.free(i) {
            3
        } else if !self.same_name(i, self.primary()) && self.unproven(i) {
            2
        } else {
            1
        }
    }

    /// Load against weight. One more flow is counted, so that an idle weak
    /// uplink does not always win.
    pub open spec fn share_cost(self, i: int) -> Binary64 {
        Binary64::whole(self.link(i).load().wrapping_add(1)).over(
            Binary64::whole(direct::within_range(self.weight(i), 4) as u64),
        ).times(self.penalty(i))
    }

    pub open spec fn share_costs(self) -> Seq<Binary64> {
        Seq::new(self.n(), |i: int| self.share_cost(i))
    }

    pub open spec fn rank_flags(self, rank: int) -> Seq<bool> {
        Seq::new(self.n(), |i: int| self.rank(i) == rank)
    }

    pub open spec fn share_order(self) -> Seq<usize> {
        let sorted: Seq<usize> = placement::ordered(self.rotated(), self.share_costs());
        placement::kept(sorted, self.rank_flags(0)) + placement::kept(sorted, self.rank_flags(1))
            + placement::kept(sorted, self.rank_flags(2)) + placement::kept(
            sorted,
            self.rank_flags(3),
        )
    }

    pub open spec fn decided(self) -> Decision {
        if self.conversational() {
            Decision { order: self.call_order(), primary: None, trial: None }
        } else {
            Decision {
                order: self.share_order(),
                primary: self.primary(),
                trial: self.trial(),
            }
        }
    }
}

/// Evidence for a decision, of one uplink.
#[derive(Clone, Copy, Debug, PartialEq, Eq, Structural)]
pub struct Feature {
    pub path: usize,
    pub weight: Option<u32>,
    pub held: bool,
    pub penalty: Option<Binary64>,
    pub unproven: Option<bool>,
}

impl Scene {
    pub open spec fn feature(self, i: usize) -> Feature {
        Feature {
            path: i,
            weight: self.weight(i as int),
            held: !self.free(i as int),
            penalty: if self.conversational() {
                None
            } else {
                Some(self.penalty(i as int))
            },
            unproven: if self.conversational() {
                None
            } else {
                Some(self.unproven(i as int))
            },
        }
    }

    pub open spec fn features(self) -> Seq<Feature> {
        self.eligible().map_values(|i: usize| self.feature(i))
    }
}

pub struct Plan {
    pub order: Vec<usize>,
    pub source: Option<Source>,
    pub champion: Option<String>,
    pub primary: Option<usize>,
    pub trial: Option<usize>,
    pub features: Vec<Feature>,
}

fn list_flagged(list: &Vec<usize>, flags: &Vec<bool>) -> (r: Option<usize>)
    requires
        placement::within(list@, flags@.len()),
    ensures
        r == first_flagged(list@, flags@, 0),
        match r {
            Some(i) => i < flags@.len(),
            None => true,
        },
{
    let mut i: usize = 0;
    while i < list.len()
        invariant
            i <= list@.len(),
            placement::within(list@, flags@.len()),
            first_flagged(list@, flags@, i as int) == first_flagged(list@, flags@, 0),
        decreases list@.len() - i,
    {
        if flags[list[i]] {
            return Some(list[i]);
        }
        i = i + 1;
    }
    None
}

fn best_delay(paths: &Vec<Path>, list: &Vec<usize>) -> (r: u64)
    requires
        placement::within(list@, paths@.len()),
    ensures
        r == least_delay(direct::path_views(paths@), list@),
{
    let mut best: u64 = 0;
    let mut i: usize = 0;
    assert(list@.take(0) =~= Seq::empty());
    while i < list.len()
        invariant
            i <= list@.len(),
            placement::within(list@, paths@.len()),
            best == least_delay(direct::path_views(paths@), list@.take(i as int)),
        decreases list@.len() - i,
    {
        assert(list@.take(i + 1).drop_last() =~= list@.take(i as int));
        let at: usize = list[i];
        assert(direct::path_views(paths@)[at as int] == paths@[at as int]@);
        let rtt: u64 = paths[at].link.rtt_us;
        if rtt > 0 && (best == 0 || rtt < best) {
            best = rtt;
        }
        i = i + 1;
    }
    assert(list@.take(i as int) =~= list@);
    best
}

/// A scene at hand.
struct Desk<'a> {
    paths: &'a Vec<Path>,
    policy: Policy,
    cutoff_us: u64,
    cursor: usize,
    now: u64,
    intent: Intent,
    weights: &'a Vec<(String, u32)>,
    champion: &'a Option<String>,
}

impl<'a> View for Desk<'a> {
    type V = Scene;

    closed spec fn view(&self) -> Scene {
        Scene {
            paths: direct::path_views(self.paths@),
            policy: self.policy,
            cutoff_us: self.cutoff_us,
            cursor: self.cursor,
            now: self.now,
            intent: self.intent,
            weights: brain::weight_views(self.weights@),
            champion: brain::text_of(*self.champion),
        }
    }
}

impl<'a> Desk<'a> {
    fn link(&self, i: usize) -> (r: Uplink)
        requires
            i < self.paths@.len(),
        ensures
            r == self@.link(i as int),
    {
        assert(self@.paths[i as int] == self.paths@[i as int]@);
        self.paths[i].link
    }

    fn weight(&self, i: usize) -> (r: Option<u32>)
        requires
            i < self.paths@.len(),
        ensures
            r == self@.weight(i as int),
    {
        assert(self@.paths[i as int] == self.paths@[i as int]@);
        direct::weight_for(self.weights, &self.paths[i].name)
    }

    fn same_name(&self, i: usize, other: Option<usize>) -> (r: bool)
        requires
            i < self.paths@.len(),
            other is Some ==> other->0 < self.paths@.len(),
        ensures
            r == self@.same_name(i as int, other),
    {
        match other {
            Some(o) => {
                assert(self@.paths[i as int] == self.paths@[i as int]@);
                assert(self@.paths[o as int] == self.paths@[o as int]@);
                self.paths[o].name == self.paths[i].name
            },
            None => false,
        }
    }

    fn is_champion(&self, i: usize) -> (r: bool)
        requires
            i < self.paths@.len(),
        ensures
            r == (self@.champion is Some && self@.paths[i as int].name == self@.champion->0),
    {
        assert(self@.paths[i as int] == self.paths@[i as int]@);
        match self.champion {
            Some(name) => self.paths[i].name == *name,
            None => false,
        }
    }

    fn eligible(&self) -> (r: Vec<usize>)
        ensures
            r@ == self@.eligible(),
            placement::within(r@, self.paths@.len()),
    {
        let mut healthy: Vec<bool> = Vec::new();
        let mut unmetered: Vec<bool> = Vec::new();
        let mut i: usize = 0;
        while i < self.paths.len()
            invariant
                i <= self.paths@.len(),
                healthy@.len() == i,
                unmetered@.len() == i,
                forall|j: int| 0 <= j < i ==> #[trigger] healthy@[j] == self@.link(j).healthy,
                forall|j: int| 0 <= j < i ==> #[trigger] unmetered@[j] == !self@.link(j).metered,
            decreases self.paths@.len() - i,
        {
            let link: Uplink = self.link(i);
            healthy.push(link.healthy);
            unmetered.push(!link.metered);
            i = i + 1;
        }
        assert(healthy@ =~= Seq::new(self@.n(), |i: int| self@.link(i).healthy));
        assert(unmetered@ =~= self@.unmetered_flags());
        let all: Vec<usize> = placement::all_below(self.paths.len());
        let good: Vec<usize> = placement::keep(&all, &healthy);
        let list: Vec<usize> = if good.len() == 0 {
            all
        } else {
            good
        };
        if self.policy == Policy::DataSaver {
            let open: Vec<usize> = placement::keep(&list, &unmetered);
            if open.len() > 0 {
                return open;
            }
        }
        list
    }

    fn call_order(&self, eligible: &Vec<usize>) -> (r: Vec<usize>)
        requires
            eligible@ == self@.eligible(),
            placement::within(eligible@, self.paths@.len()),
        ensures
            r@ == self@.call_order(),
            placement::within(r@, self.paths@.len()),
    {
        let mut fast: Vec<bool> = Vec::new();
        let mut slow: Vec<bool> = Vec::new();
        let mut costs: Vec<Binary64> = Vec::new();
        let mut i: usize = 0;
        while i < self.paths.len()
            invariant
                i <= self.paths@.len(),
                fast@.len() == i,
                slow@.len() == i,
                costs@.len() == i,
                forall|j: int|
                    0 <= j < i ==> #[trigger] fast@[j] == (0 < self@.link(j).rtt_us
                        < self.cutoff_us),
                forall|j: int|
                    0 <= j < i ==> #[trigger] slow@[j] == (self@.link(j).rtt_us >= self.cutoff_us),
                forall|j: int| 0 <= j < i ==> #[trigger] costs@[j] == self@.call_cost(j),
            decreases self.paths@.len() - i,
        {
            let link: Uplink = self.link(i);
            fast.push(link.rtt_us > 0 && link.rtt_us < self.cutoff_us);
            slow.push(link.rtt_us >= self.cutoff_us);
            let delay: u64 = if link.rtt_us == 0 {
                u64::MAX - 1
            } else {
                link.rtt_us.saturating_add(link.jitter_us.wrapping_mul(4)).saturating_add(
                    link.probe_failure_ppm / 2,
                )
            };
            let weight: u32 = direct::within_range(self.weight(i), 16);
            costs.push(Binary64::whole(delay).over(Binary64::whole(weight as u64).sqrt()));
            i = i + 1;
        }
        assert(fast@ =~= self@.fast_flags());
        assert(costs@ =~= self@.call_costs());
        let has_fast: bool = placement::keep(eligible, &fast).len() > 0;
        let mut prompt: Vec<bool> = Vec::new();
        let mut delayed: Vec<bool> = Vec::new();
        let mut k: usize = 0;
        while k < self.paths.len()
            invariant
                k <= self.paths@.len(),
                slow@.len() == self.paths@.len(),
                has_fast == self@.has_fast(),
                prompt@.len() == k,
                delayed@.len() == k,
                forall|j: int|
                    0 <= j < self.paths@.len() ==> #[trigger] slow@[j] == (self@.link(j).rtt_us
                        >= self.cutoff_us),
                forall|j: int| 0 <= j < k ==> #[trigger] prompt@[j] == !self@.delayed(j),
                forall|j: int| 0 <= j < k ==> #[trigger] delayed@[j] == self@.delayed(j),
            decreases self.paths@.len() - k,
        {
            let late: bool = has_fast && slow[k];
            prompt.push(!late);
            delayed.push(late);
            k = k + 1;
        }
        assert(prompt@ =~= Seq::new(self@.n(), |i: int| !self@.delayed(i)));
        assert(delayed@ =~= Seq::new(self@.n(), |i: int| self@.delayed(i)));
        let sorted: Vec<usize> = placement::order(eligible, &costs);
        let mut order: Vec<usize> = placement::keep(&sorted, &prompt);
        let mut rest: Vec<usize> = placement::keep(&sorted, &delayed);
        order.append(&mut rest);
        order
    }

    fn rotated(&self, eligible: &Vec<usize>) -> (r: Vec<usize>)
        requires
            eligible@ == self@.eligible(),
            eligible@.len() > 0,
            placement::within(eligible@, self.paths@.len()),
        ensures
            r@ == self@.rotated(),
            placement::within(r@, self.paths@.len()),
    {
        let offset: usize = self.cursor % eligible.len();
        let mut r: Vec<usize> = Vec::new();
        let mut i: usize = offset;
        while i < eligible.len()
            invariant
                offset <= i <= eligible@.len(),
                r@ == eligible@.subrange(offset as int, i as int),
            decreases eligible@.len() - i,
        {
            r.push(eligible[i]);
            i = i + 1;
            assert(r@ =~= eligible@.subrange(offset as int, i as int));
        }
        let mut k: usize = 0;
        assert(r@ =~= eligible@.skip(offset as int) + eligible@.take(0));
        while k < offset
            invariant
                k <= offset <= eligible@.len(),
                r@ == eligible@.skip(offset as int) + eligible@.take(k as int),
            decreases offset - k,
        {
            r.push(eligible[k]);
            k = k + 1;
            assert(r@ =~= eligible@.skip(offset as int) + eligible@.take(k as int));
        }
        r
    }

    fn unproven(&self, i: usize) -> (r: bool)
        requires
            i < self.paths@.len(),
        ensures
            r == self@.unproven(i as int),
    {
        let link: Uplink = self.link(i);
        let weight: u32 = match self.weight(i) {
            Some(w) => w,
            None => 1,
        };
        (link.acknowledged < direct::PROOF_BYTES && link.received < direct::PROOF_BYTES)
            || link.upload_hold_until_ms > 0 || (self.champion.is_some() && !self.is_champion(i)
            && weight <= 1)
    }

    fn rather(&self, i: usize, j: usize) -> (r: bool)
        requires
            i < self.paths@.len(),
            j < self.paths@.len(),
        ensures
            r == self@.rather(i as int, j as int),
    {
        assert(self@.paths[i as int] == self.paths@[i as int]@);
        assert(self@.paths[j as int] == self.paths@[j as int]@);
        let a: bool = self.unproven(i);
        let b: bool = self.unproven(j);
        if a != b {
            return !a;
        }
        let x: u64 = self.link(i).rtt_us;
        let y: u64 = self.link(j).rtt_us;
        let dx: u64 = if x == 0 {
            u64::MAX
        } else {
            x
        };
        let dy: u64 = if y == 0 {
            u64::MAX
        } else {
            y
        };
        if dx != dy {
            return dx < dy;
        }
        direct::precedes(&self.paths[i].name, &self.paths[j].name)
    }

    fn safest(&self, list: &Vec<usize>) -> (r: Option<usize>)
        requires
            placement::within(list@, self.paths@.len()),
        ensures
            r == self@.safest(list@),
            r is Some ==> r->0 < self.paths@.len(),
    {
        let mut best: Option<usize> = None;
        let mut i: usize = 0;
        assert(list@.take(0) =~= Seq::empty());
        while i < list.len()
            invariant
                i <= list@.len(),
                placement::within(list@, self.paths@.len()),
                best == self@.safest(list@.take(i as int)),
                best is Some ==> best->0 < self.paths@.len(),
            decreases list@.len() - i,
        {
            assert(list@.take(i + 1).drop_last() =~= list@.take(i as int));
            let entry: usize = list[i];
            match best {
                None => {
                    best = Some(entry);
                },
                Some(b) => {
                    if self.rather(entry, b) {
                        best = Some(entry);
                    }
                },
            }
            i = i + 1;
        }
        assert(list@.take(i as int) =~= list@);
        best
    }

    fn primary(&self, rotated: &Vec<usize>) -> (r: Option<usize>)
        requires
            rotated@ == self@.rotated(),
            placement::within(rotated@, self.paths@.len()),
        ensures
            r == self@.primary(),
            r is Some ==> r->0 < self.paths@.len(),
    {
        let mut champions: Vec<bool> = Vec::new();
        let mut free: Vec<bool> = Vec::new();
        let mut i: usize = 0;
        while i < self.paths.len()
            invariant
                i <= self.paths@.len(),
                champions@.len() == i,
                free@.len() == i,
                forall|j: int| 0 <= j < i ==> #[trigger] free@[j] == self@.free(j),
                forall|j: int|
                    0 <= j < i ==> #[trigger] champions@[j] == (self@.champion is Some
                        && self@.paths[j].name == self@.champion->0 && self@.free(j)),
            decreases self.paths@.len() - i,
        {
            let open: bool = !self.link(i).upload_held(self.now);
            free.push(open);
            champions.push(self.is_champion(i) && open);
            i = i + 1;
        }
        assert(champions@ =~= self@.champion_flags());
        assert(free@ =~= self@.free_flags());
        match list_flagged(rotated, &champions) {
            Some(c) => Some(c),
            None => {
                let open: Vec<usize> = placement::keep(rotated, &free);
                match self.safest(&open) {
                    Some(s) => Some(s),
                    None => {
                        let first: Option<usize> = placement::first(rotated);
                        assert(first is Some ==> rotated@[0] < self.paths@.len());
                        first
                    },
                }
            },
        }
    }

    fn primary_load(&self, rotated: &Vec<usize>, primary: Option<usize>) -> (r: u64)
        requires
            rotated@ == self@.rotated(),
            placement::within(rotated@, self.paths@.len()),
            primary == self@.primary(),
            primary is Some ==> primary->0 < self.paths@.len(),
        ensures
            r == self@.primary_load(),
    {
        let mut named: Vec<bool> = Vec::new();
        let mut i: usize = 0;
        while i < self.paths.len()
            invariant
                i <= self.paths@.len(),
                primary is Some ==> primary->0 < self.paths@.len(),
                named@.len() == i,
                forall|j: int| 0 <= j < i ==> #[trigger] named@[j] == self@.same_name(j, primary),
            decreases self.paths@.len() - i,
        {
            named.push(self.same_name(i, primary));
            i = i + 1;
        }
        assert(named@ =~= self@.named_flags(primary));
        match list_flagged(rotated, &named) {
            Some(p) => self.link(p).load(),
            None => 0,
        }
    }

    fn trial(
        &self,
        rotated: &Vec<usize>,
        primary: Option<usize>,
        load: u64,
        best: u64,
    ) -> (r: Option<usize>)
        requires
            rotated@ == self@.rotated(),
            placement::within(rotated@, self.paths@.len()),
            primary == self@.primary(),
            primary is Some ==> primary->0 < self.paths@.len(),
            load == self@.primary_load(),
            best == least_delay(self@.paths, self@.eligible()),
        ensures
            r == self@.trial(),
            r is Some ==> r->0 < self.paths@.len(),
    {
        if load == 0 {
            return None;
        }
        let mut flags: Vec<bool> = Vec::new();
        let mut i: usize = 0;
        while i < self.paths.len()
            invariant
                i <= self.paths@.len(),
                primary == self@.primary(),
                primary is Some ==> primary->0 < self.paths@.len(),
                load == self@.primary_load(),
                best == least_delay(self@.paths, self@.eligible()),
                flags@.len() == i,
                forall|j: int| 0 <= j < i ==> #[trigger] flags@[j] == self@.on_trial(j),
            decreases self.paths@.len() - i,
        {
            let link: Uplink = self.link(i);
            let penalty: Binary64 = direct::latency_factor(link.rtt_us, best);
            let flag: bool = !self.same_name(i, primary) && self.unproven(i) && !link.upload_held(
                self.now,
            ) && link.load() == 0 && link.age(self.now) >= link.last_trial_ms.saturating_add(
                direct::TRIAL_GAP_MS,
            ) && (Binary64::whole(2).ge(penalty) || load >= 8);
            flags.push(flag);
            i = i + 1;
        }
        assert(flags@ =~= Seq::new(self@.n(), |i: int| self@.on_trial(i)));
        list_flagged(rotated, &flags)
    }

    fn share_order(
        &self,
        rotated: &Vec<usize>,
        primary: Option<usize>,
        trial: Option<usize>,
        best: u64,
    ) -> (r: Vec<usize>)
        requires
            rotated@ == self@.rotated(),
            placement::within(rotated@, self.paths@.len()),
            primary == self@.primary(),
            primary is Some ==> primary->0 < self.paths@.len(),
            trial == self@.trial(),
            trial is Some ==> trial->0 < self.paths@.len(),
            best == least_delay(self@.paths, self@.eligible()),
        ensures
            r@ == self@.share_order(),
            placement::within(r@, self.paths@.len()),
    {
        let mut costs: Vec<Binary64> = Vec::new();
        let mut tried: Vec<bool> = Vec::new();
        let mut proven: Vec<bool> = Vec::new();
        let mut doubtful: Vec<bool> = Vec::new();
        let mut held: Vec<bool> = Vec::new();
        let mut i: usize = 0;
        while i < self.paths.len()
            invariant
                i <= self.paths@.len(),
                primary == self@.primary(),
                primary is Some ==> primary->0 < self.paths@.len(),
                trial == self@.trial(),
                trial is Some ==> trial->0 < self.paths@.len(),
                best == least_delay(self@.paths, self@.eligible()),
                costs@.len() == i,
                tried@.len() == i,
                proven@.len() == i,
                doubtful@.len() == i,
                held@.len() == i,
                forall|j: int| 0 <= j < i ==> #[trigger] costs@[j] == self@.share_cost(j),
                forall|j: int| 0 <= j < i ==> #[trigger] tried@[j] == (self@.rank(j) == 0),
                forall|j: int| 0 <= j < i ==> #[trigger] proven@[j] == (self@.rank(j) == 1),
                forall|j: int| 0 <= j < i ==> #[trigger] doubtful@[j] == (self@.rank(j) == 2),
                forall|j: int| 0 <= j < i ==> #[trigger] held@[j] == (self@.rank(j) == 3),
            decreases self.paths@.len() - i,
        {
            let link: Uplink = self.link(i);
            let weight: u32 = direct::within_range(self.weight(i), 4);
            costs.push(
                Binary64::whole(link.load().wrapping_add(1)).over(
                    Binary64::whole(weight as u64),
                ).times(direct::latency_factor(link.rtt_us, best)),
            );
            let rank: u8 = if self.same_name(i, trial) {
                0
            } else if link.upload_held(self.now) {
                3
            } else if !self.same_name(i, primary) && self.unproven(i) {
                2
            } else {
                1
            };
            assert(rank == self@.rank(i as int));
            tried.push(rank == 0);
            proven.push(rank == 1);
            doubtful.push(rank == 2);
            held.push(rank == 3);
            i = i + 1;
        }
        assert(costs@ =~= self@.share_costs());
        assert(tried@ =~= self@.rank_flags(0));
        assert(proven@ =~= self@.rank_flags(1));
        assert(doubtful@ =~= self@.rank_flags(2));
        assert(held@ =~= self@.rank_flags(3));
        let sorted: Vec<usize> = placement::order(rotated, &costs);
        let mut order: Vec<usize> = placement::keep(&sorted, &tried);
        let mut next: Vec<usize> = placement::keep(&sorted, &proven);
        order.append(&mut next);
        let mut next: Vec<usize> = placement::keep(&sorted, &doubtful);
        order.append(&mut next);
        let mut next: Vec<usize> = placement::keep(&sorted, &held);
        order.append(&mut next);
        order
    }

    fn features(&self, eligible: &Vec<usize>, best: u64) -> (r: Vec<Feature>)
        requires
            eligible@ == self@.eligible(),
            placement::within(eligible@, self.paths@.len()),
            best == least_delay(self@.paths, self@.eligible()),
        ensures
            r@ == self@.features(),
    {
        let talks: bool = self.intent == Intent::Realtime || self.policy == Policy::Continuity;
        let mut list: Vec<Feature> = Vec::new();
        let mut k: usize = 0;
        while k < eligible.len()
            invariant
                k <= eligible@.len(),
                talks == self@.conversational(),
                placement::within(eligible@, self.paths@.len()),
                best == least_delay(self@.paths, self@.eligible()),
                list@.len() == k,
                forall|j: int|
                    0 <= j < k ==> #[trigger] list@[j] == self@.feature(eligible@[j]),
            decreases eligible@.len() - k,
        {
            let i: usize = eligible[k];
            let link: Uplink = self.link(i);
            list.push(
                Feature {
                    path: i,
                    weight: self.weight(i),
                    held: link.upload_held(self.now),
                    penalty: if talks {
                        None
                    } else {
                        Some(direct::latency_factor(link.rtt_us, best))
                    },
                    unproven: if talks {
                        None
                    } else {
                        Some(self.unproven(i))
                    },
                },
            );
            k = k + 1;
        }
        assert(list@ =~= self@.features());
        list
    }

    /// Decides. There is at least one uplink.
    fn decide(&self) -> (r: (Vec<usize>, Option<usize>, Option<usize>, Vec<Feature>))
        requires
            self.paths@.len() > 0,
        ensures
            (Decision { order: r.0@, primary: r.1, trial: r.2 }) == self@.decided(),
            r.3@ == self@.features(),
            placement::within(r.0@, self.paths@.len()),
            r.2 is Some ==> r.2->0 < self.paths@.len(),
    {
        let eligible: Vec<usize> = self.eligible();
        proof {
            lemma_some_eligible(self@);
        }
        let best: u64 = best_delay(self.paths, &eligible);
        let features: Vec<Feature> = self.features(&eligible, best);
        if self.intent == Intent::Realtime || self.policy == Policy::Continuity {
            return (self.call_order(&eligible), None, None, features);
        }
        let rotated: Vec<usize> = self.rotated(&eligible);
        let primary: Option<usize> = self.primary(&rotated);
        let load: u64 = self.primary_load(&rotated, primary);
        let trial: Option<usize> = self.trial(&rotated, primary, load, best);
        let order: Vec<usize> = self.share_order(&rotated, primary, trial, best);
        (order, primary, trial, features)
    }
}

/// With an uplink at all, some uplink may be tried.
pub proof fn lemma_some_eligible(s: Scene)
    requires
        s.n() > 0,
    ensures
        s.eligible().len() > 0,
        placement::within(s.eligible(), s.n()),
{
    let all: Seq<usize> = placement::up_to(s.n());
    placement::lemma_kept(all, Seq::new(s.n(), |i: int| s.link(i).healthy), s.n());
    placement::lemma_kept(s.healthy_list(), s.unmetered_flags(), s.n());
}

/// Decides on a scene. There is at least one uplink.
pub(crate) fn decide_on(
    paths: &Vec<Path>,
    policy: Policy,
    cutoff_us: u64,
    cursor: usize,
    now: u64,
    intent: Intent,
    weights: &Vec<(String, u32)>,
    champion: &Option<String>,
    source: Source,
    Ghost(scene): Ghost<Scene>,
) -> (r: Plan)
    requires
        paths@.len() > 0,
        scene == (Scene {
            paths: direct::path_views(paths@),
            policy,
            cutoff_us,
            cursor,
            now,
            intent,
            weights: brain::weight_views(weights@),
            champion: brain::text_of(*champion),
        }),
    ensures
        (Decision { order: r.order@, primary: r.primary, trial: r.trial }) == scene.decided(),
        r.source == Some(source),
        brain::text_of(r.champion) == scene.champion,
        r.features@ == scene.features(),
        placement::within(r.order@, paths@.len()),
        r.trial is Some ==> r.trial->0 < paths@.len(),
{
    let desk: Desk = Desk { paths, policy, cutoff_us, cursor, now, intent, weights, champion };
    let (order, primary, trial, features) = desk.decide();
    let name: Option<String> = match champion {
        Some(name) => Some(name.clone()),
        None => None,
    };
    Plan { order, source: Some(source), champion: name, primary, trial, features }
}

/// Every uplink that may be tried is tried, once for each time that it is
/// listed, and no other: congestion and doubt put an uplink last, but never
/// out.
pub proof fn order_holds_all(s: Scene)
    requires
        s.n() > 0,
    ensures
        s.decided().order.to_multiset() == s.eligible().to_multiset(),
{
    lemma_some_eligible(s);
    if s.conversational() {
        placement::ordered_is_sorted(s.eligible(), s.call_costs());
        placement::lemma_ordered_within(s.eligible(), s.call_costs(), s.n());
        let sorted: Seq<usize> = placement::ordered(s.eligible(), s.call_costs());
        let a: Seq<bool> = Seq::new(s.n(), |i: int| !s.delayed(i));
        let b: Seq<bool> = Seq::new(s.n(), |i: int| s.delayed(i));
        lemma_split(sorted, a, b, s.n());
    } else {
        let list: Seq<usize> = s.eligible();
        let o: int = s.cursor as int % list.len() as int;
        assert(list.take(o) + list.skip(o) =~= list);
        vstd::seq_lib::lemma_multiset_commutative(list.take(o), list.skip(o));
        vstd::seq_lib::lemma_multiset_commutative(list.skip(o), list.take(o));
        assert(s.rotated().to_multiset() == list.to_multiset());
        assert(placement::within(s.rotated(), s.n()));
        placement::ordered_is_sorted(s.rotated(), s.share_costs());
        placement::lemma_ordered_within(s.rotated(), s.share_costs(), s.n());
        let sorted: Seq<usize> = placement::ordered(s.rotated(), s.share_costs());
        lemma_ranks(s, sorted);
    }
}

/// While an uplink within the cutoff is there, a conversation tries those
/// beyond it after all others.
pub proof fn slow_uplinks_come_last(s: Scene, i: int, j: int)
    requires
        s.n() > 0,
        s.conversational(),
        0 <= i < j < s.decided().order.len(),
        s.delayed(s.decided().order[i] as int),
    ensures
        s.delayed(s.decided().order[j] as int),
{
    lemma_some_eligible(s);
    placement::lemma_ordered_within(s.eligible(), s.call_costs(), s.n());
    let sorted: Seq<usize> = placement::ordered(s.eligible(), s.call_costs());
    let a: Seq<bool> = Seq::new(s.n(), |i: int| !s.delayed(i));
    let b: Seq<bool> = Seq::new(s.n(), |i: int| s.delayed(i));
    placement::lemma_kept(sorted, a, s.n());
    placement::lemma_kept(sorted, b, s.n());
    let near: Seq<usize> = placement::kept(sorted, a);
    let far: Seq<usize> = placement::kept(sorted, b);
    if i < near.len() {
        assert(near.contains(near[i]));
        assert(a[near[i] as int]);
    }
    assert(s.decided().order[j] == far[j - near.len()]);
    assert(far.contains(far[j - near.len()]));
    assert(b[far[j - near.len()] as int]);
}

/// Whatever is no conversation tries the uplink on trial first, then those
/// that are relied on, then those that have shown nothing, and last those that
/// are held for congestion.
pub proof fn doubtful_uplinks_come_later(s: Scene, i: int, j: int)
    requires
        s.n() > 0,
        !s.conversational(),
        0 <= i < j < s.decided().order.len(),
    ensures
        s.rank(s.decided().order[i] as int) <= s.rank(s.decided().order[j] as int),
{
    lemma_some_eligible(s);
    assert(placement::within(s.rotated(), s.n()));
    placement::lemma_ordered_within(s.rotated(), s.share_costs(), s.n());
    let sorted: Seq<usize> = placement::ordered(s.rotated(), s.share_costs());
    placement::lemma_kept(sorted, s.rank_flags(0), s.n());
    placement::lemma_kept(sorted, s.rank_flags(1), s.n());
    placement::lemma_kept(sorted, s.rank_flags(2), s.n());
    placement::lemma_kept(sorted, s.rank_flags(3), s.n());
    lemma_rank_at(s, sorted, i);
    lemma_rank_at(s, sorted, j);
}

/// The rank at a place of the order, by which part the place lies in.
pub proof fn lemma_rank_at(s: Scene, sorted: Seq<usize>, i: int)
    requires
        placement::within(sorted, s.n()),
        sorted == placement::ordered(s.rotated(), s.share_costs()),
        0 <= i < s.share_order().len(),
    ensures
        ({
            let a: nat = placement::kept(sorted, s.rank_flags(0)).len();
            let b: nat = placement::kept(sorted, s.rank_flags(1)).len();
            let c: nat = placement::kept(sorted, s.rank_flags(2)).len();
            s.rank(s.share_order()[i] as int) == if i < a {
                0
            } else if i < a + b {
                1
            } else if i < a + b + c {
                2
            } else {
                3int
            }
        }),
{
    let a: Seq<usize> = placement::kept(sorted, s.rank_flags(0));
    let b: Seq<usize> = placement::kept(sorted, s.rank_flags(1));
    let c: Seq<usize> = placement::kept(sorted, s.rank_flags(2));
    let d: Seq<usize> = placement::kept(sorted, s.rank_flags(3));
    placement::lemma_kept(sorted, s.rank_flags(0), s.n());
    placement::lemma_kept(sorted, s.rank_flags(1), s.n());
    placement::lemma_kept(sorted, s.rank_flags(2), s.n());
    placement::lemma_kept(sorted, s.rank_flags(3), s.n());
    let (part, flags, k): (Seq<usize>, Seq<bool>, int) = if i < a.len() {
        (a, s.rank_flags(0), i)
    } else if i < a.len() + b.len() {
        (b, s.rank_flags(1), i - a.len())
    } else if i < a.len() + b.len() + c.len() {
        (c, s.rank_flags(2), i - a.len() - b.len())
    } else {
        (d, s.rank_flags(3), i - a.len() - b.len() - c.len())
    };
    let x: usize = part[k];
    assert(s.share_order()[i] == x);
    assert(part.contains(x));
    assert(x < s.n());
    assert(flags[x as int]);
}

/// To save data, no metered uplink is tried while an unmetered one may be.
pub proof fn saver_spares_metered(s: Scene, free: usize, other: usize)
    requires
        s.n() > 0,
        s.policy == Policy::DataSaver,
        s.eligible().contains(free),
        !s.link(free as int).metered,
        s.eligible().contains(other),
    ensures
        !s.link(other as int).metered,
{
    lemma_some_eligible(s);
    let all: Seq<usize> = placement::up_to(s.n());
    placement::lemma_kept(all, Seq::new(s.n(), |i: int| s.link(i).healthy), s.n());
    let list: Seq<usize> = s.healthy_list();
    placement::lemma_kept(list, s.unmetered_flags(), s.n());
    let unmetered: Seq<usize> = placement::kept(list, s.unmetered_flags());
    assert(free < s.n() && other < s.n()) by {
        let k: int = choose|k: int| 0 <= k < s.eligible().len() && s.eligible()[k] == free;
        let m: int = choose|m: int| 0 <= m < s.eligible().len() && s.eligible()[m] == other;
        assert(s.eligible()[k] < s.n());
        assert(s.eligible()[m] < s.n());
    }
    if unmetered.len() == 0 {
        assert(list.contains(free));
        assert(s.unmetered_flags()[free as int]);
        assert(unmetered.contains(free));
    }
    assert(unmetered.contains(other));
    assert(s.unmetered_flags()[other as int]);
}

proof fn lemma_split(list: Seq<usize>, a: Seq<bool>, b: Seq<bool>, n: nat)
    requires
        placement::within(list, n),
        a.len() == n,
        b.len() == n,
        forall|i: int| 0 <= i < n ==> #[trigger] a[i] == !b[i],
    ensures
        (placement::kept(list, a) + placement::kept(list, b)).to_multiset() == list.to_multiset(),
    decreases list.len(),
{
    broadcast use vstd::seq_lib::group_to_multiset_ensures;

    if list.len() > 0 {
        let rest: Seq<usize> = list.drop_last();
        let x: usize = list.last();
        lemma_split(rest, a, b, n);
        assert(list =~= rest.push(x));
        let ka: Seq<usize> = placement::kept(rest, a);
        let kb: Seq<usize> = placement::kept(rest, b);
        vstd::seq_lib::lemma_multiset_commutative(ka, kb);
        assert(list[list.len() - 1] < n);
        if a[x as int] {
            vstd::seq_lib::lemma_multiset_commutative(ka.push(x), kb);
            assert(placement::kept(list, a) =~= ka.push(x));
            assert(ka.push(x).to_multiset() =~= ka.to_multiset().insert(x));
        } else {
            vstd::seq_lib::lemma_multiset_commutative(ka, kb.push(x));
            assert(placement::kept(list, b) =~= kb.push(x));
            assert(kb.push(x).to_multiset() =~= kb.to_multiset().insert(x));
        }
        assert((placement::kept(list, a) + placement::kept(list, b)).to_multiset()
            =~= list.to_multiset());
    } else {
        assert(placement::kept(list, a) + placement::kept(list, b) =~= list);
    }
}

proof fn lemma_ranks(s: Scene, list: Seq<usize>)
    requires
        placement::within(list, s.n()),
    ensures
        (placement::kept(list, s.rank_flags(0)) + placement::kept(list, s.rank_flags(1))
            + placement::kept(list, s.rank_flags(2)) + placement::kept(
            list,
            s.rank_flags(3),
        )).to_multiset() == list.to_multiset(),
    decreases list.len(),
{
    broadcast use vstd::seq_lib::group_to_multiset_ensures;

    if list.len() > 0 {
        let rest: Seq<usize> = list.drop_last();
        let x: usize = list.last();
        lemma_ranks(s, rest);
        assert(list =~= rest.push(x));
        assert(list[list.len() - 1] < s.n());
        let k0: Seq<usize> = placement::kept(rest, s.rank_flags(0));
        let k1: Seq<usize> = placement::kept(rest, s.rank_flags(1));
        let k2: Seq<usize> = placement::kept(rest, s.rank_flags(2));
        let k3: Seq<usize> = placement::kept(rest, s.rank_flags(3));
        lemma_four(k0, k1, k2, k3);
        let rank: int = s.rank(x as int);
        lemma_four(
            placement::kept(list, s.rank_flags(0)),
            placement::kept(list, s.rank_flags(1)),
            placement::kept(list, s.rank_flags(2)),
            placement::kept(list, s.rank_flags(3)),
        );
        assert(rank == 0 || rank == 1 || rank == 2 || rank == 3);
        assert((placement::kept(list, s.rank_flags(0)) + placement::kept(list, s.rank_flags(1))
            + placement::kept(list, s.rank_flags(2)) + placement::kept(
            list,
            s.rank_flags(3),
        )).to_multiset() =~= list.to_multiset());
    } else {
        assert(placement::kept(list, s.rank_flags(0)) + placement::kept(list, s.rank_flags(1))
            + placement::kept(list, s.rank_flags(2)) + placement::kept(list, s.rank_flags(3))
            =~= list);
    }
}

proof fn lemma_four(a: Seq<usize>, b: Seq<usize>, c: Seq<usize>, d: Seq<usize>)
    ensures
        (a + b + c + d).to_multiset() == a.to_multiset().add(b.to_multiset()).add(
            c.to_multiset(),
        ).add(d.to_multiset()),
{
    vstd::seq_lib::lemma_multiset_commutative(a, b);
    vstd::seq_lib::lemma_multiset_commutative(a + b, c);
    vstd::seq_lib::lemma_multiset_commutative(a + b + c, d);
}

} // verus!
