//! Choice of links for the UDP lane, from a snapshot of their health. The kind
//! of a link is no part of its score.
use crate::binary64::Binary64;
use vstd::prelude::*;

verus! {

#[derive(Clone, Copy, Debug)]
pub struct Link {
    pub id: u8,
    pub status: u8,
    pub disabled: bool,
    pub probed: bool,
    pub rtt: Binary64,
    pub jitter: Binary64,
    pub variance: Binary64,
    pub loss: Binary64,
    pub capacity: Binary64,
    pub uptime: Binary64,
}

#[verifier::allow_in_spec]
fn nought() -> Binary64
    returns
        (Binary64 { bits: 0 }),
{
    Binary64 { bits: 0 }
}

pub open spec fn zero() -> Binary64 {
    Binary64 { bits: 0 }
}

/// Not above zero.
pub open spec fn unset(x: Binary64) -> bool {
    zero().ge(x)
}

fn is_unset(x: Binary64) -> (r: bool)
    ensures
        r == unset(x),
{
    nought().ge(x)
}

/// Encoding of positive infinity.
pub const BOUNDLESS_BITS: u64 = 0x7ff0_0000_0000_0000;

pub open spec fn boundless() -> Binary64 {
    Binary64 { bits: BOUNDLESS_BITS }
}

impl Link {
    #[verifier::allow_in_spec]
    pub fn healthy(&self) -> bool
        returns
            !self.disabled && (self.status == 1 || self.status == 2),
    {
        !self.disabled && (self.status == 1 || self.status == 2)
    }

    #[verifier::allow_in_spec]
    pub fn unstable(&self, threshold: Binary64) -> bool
        returns
            threshold.lt(self.loss) || Binary64::whole(30).lt(self.jitter) || self.status == 2,
    {
        threshold.lt(self.loss) || Binary64::whole(30).lt(self.jitter) || self.status == 2
    }

    pub open spec fn spec_stability(self) -> Binary64 {
        let loss: Binary64 = self.loss.over(Binary64::whole(100)).clamp(
            zero(),
            Binary64::whole(1),
        );
        let uptime: Binary64 = if unset(self.uptime) {
            Binary64::ratio(1, 100)
        } else {
            self.uptime.min(Binary64::whole(1))
        };
        Binary64::whole(1).minus(loss).times(uptime).times(
            Binary64::whole(1).over(
                Binary64::whole(1).plus(self.variance.over(Binary64::whole(50))),
            ),
        ).times(
            Binary64::whole(1).over(Binary64::whole(1).plus(self.jitter.over(Binary64::whole(20)))),
        )
    }

    /// Share of packets that come through in time, as a number up to one.
    #[verifier::allow_in_spec]
    pub fn stability(&self) -> Binary64
        returns
            self.spec_stability(),
    {
        let loss: Binary64 = self.loss.over(Binary64::whole(100)).clamp(
            nought(),
            Binary64::whole(1),
        );
        let uptime: Binary64 = if is_unset(self.uptime) {
            Binary64::ratio(1, 100)
        } else {
            self.uptime.min(Binary64::whole(1))
        };
        Binary64::whole(1).minus(loss).times(uptime).times(
            Binary64::whole(1).over(
                Binary64::whole(1).plus(self.variance.over(Binary64::whole(50))),
            ),
        ).times(
            Binary64::whole(1).over(Binary64::whole(1).plus(self.jitter.over(Binary64::whole(20)))),
        )
    }

    pub open spec fn spec_quality(self, base: Binary64) -> Binary64 {
        if !self.probed {
            zero()
        } else {
            let capacity: Binary64 = if unset(self.capacity) {
                Binary64::whole(10_000_000)
            } else {
                self.capacity
            };
            let wait: Binary64 = self.rtt.plus(self.jitter).plus(
                if unset(base) {
                    Binary64::whole(1)
                } else {
                    base
                },
            );
            capacity.times(self.spec_stability()).over(
                if unset(wait) {
                    Binary64::whole(1)
                } else {
                    wait
                },
            )
        }
    }

    /// Capacity, weighed by stability and delay.
    #[verifier::allow_in_spec]
    pub fn quality(&self, base: Binary64) -> Binary64
        returns
            self.spec_quality(base),
    {
        if !self.probed {
            return nought();
        }
        let capacity: Binary64 = if is_unset(self.capacity) {
            Binary64::whole(10_000_000)
        } else {
            self.capacity
        };
        let floor: Binary64 = if is_unset(base) {
            Binary64::whole(1)
        } else {
            base
        };
        let wait: Binary64 = self.rtt.plus(self.jitter).plus(floor);
        let divisor: Binary64 = if is_unset(wait) {
            Binary64::whole(1)
        } else {
            wait
        };
        capacity.times(self.stability()).over(divisor)
    }
}

#[derive(Clone, Copy, Debug)]
pub struct Config {
    pub bond_all: bool,
    pub base_rtt: Binary64,
    pub voice_max_rtt: Binary64,
    pub fec: bool,
    pub unstable_loss: Binary64,
    pub critical_loss: Binary64,
    pub aggressive_off: bool,
    pub aggressive_spread: Binary64,
    pub quality_ratio: Binary64,
}

pub open spec fn usual() -> Config {
    Config {
        bond_all: false,
        base_rtt: Binary64::whole(10),
        voice_max_rtt: Binary64::whole(300),
        fec: true,
        unstable_loss: Binary64::whole(8),
        critical_loss: Binary64::whole(20),
        aggressive_off: false,
        aggressive_spread: Binary64::whole(150),
        quality_ratio: Binary64::ratio(65, 100),
    }
}

impl Default for Config {
    fn default() -> (r: Self)
        ensures
            r == usual(),
    {
        Config {
            bond_all: false,
            base_rtt: Binary64::whole(10),
            voice_max_rtt: Binary64::whole(300),
            fec: true,
            unstable_loss: Binary64::whole(8),
            critical_loss: Binary64::whole(20),
            aggressive_off: false,
            aggressive_spread: Binary64::whole(150),
            quality_ratio: Binary64::ratio(65, 100),
        }
    }
}

/// Limits that are not set have their usual values.
pub open spec fn completed(config: Config) -> Config {
    Config {
        voice_max_rtt: if unset(config.voice_max_rtt) {
            usual().voice_max_rtt
        } else {
            config.voice_max_rtt
        },
        unstable_loss: if unset(config.unstable_loss) {
            usual().unstable_loss
        } else {
            config.unstable_loss
        },
        critical_loss: if unset(config.critical_loss) {
            usual().critical_loss
        } else {
            config.critical_loss
        },
        aggressive_spread: if unset(config.aggressive_spread) {
            usual().aggressive_spread
        } else {
            config.aggressive_spread
        },
        quality_ratio: if unset(config.quality_ratio) || Binary64::whole(1).lt(
            config.quality_ratio,
        ) {
            usual().quality_ratio
        } else {
            config.quality_ratio
        },
        ..config
    }
}

/// The link of a packet, and the one of its copy; zero for no copy.
#[derive(Clone, Copy, Debug, PartialEq, Eq, Structural)]
pub struct Decision {
    pub primary: u8,
    pub fec: u8,
}

#[derive(Clone, Copy, Debug, PartialEq, Eq, Structural)]
pub enum LinkError {
    NoHealthyLinks,
    NoSchedulableLinks,
}

impl LinkError {
    pub open spec fn text(self) -> Seq<char> {
        match self {
            LinkError::NoHealthyLinks => "no healthy links available"@,
            LinkError::NoSchedulableLinks => "no schedulable links"@,
        }
    }

    pub fn message(self) -> (r: &'static str)
        ensures
            r@ == self.text(),
    {
        match self {
            LinkError::NoHealthyLinks => "no healthy links available",
            LinkError::NoSchedulableLinks => "no schedulable links",
        }
    }
}

/// The healthy links among the first `n`.
pub open spec fn healthy_links(links: Seq<Link>, n: nat) -> Seq<Link>
    decreases n,
{
    if n == 0 {
        Seq::empty()
    } else {
        let rest: Seq<Link> = healthy_links(links, (n - 1) as nat);
        if links[n - 1].healthy() {
            rest.push(links[n - 1])
        } else {
            rest
        }
    }
}

pub open spec fn probed_links(links: Seq<Link>, n: nat) -> Seq<Link>
    decreases n,
{
    if n == 0 {
        Seq::empty()
    } else {
        let rest: Seq<Link> = probed_links(links, (n - 1) as nat);
        if links[n - 1].probed {
            rest.push(links[n - 1])
        } else {
            rest
        }
    }
}

/// The links among the first `n` within a delay.
pub open spec fn fast_links(links: Seq<Link>, limit: Binary64, n: nat) -> Seq<Link>
    decreases n,
{
    if n == 0 {
        Seq::empty()
    } else {
        let rest: Seq<Link> = fast_links(links, limit, (n - 1) as nat);
        if limit.ge(links[n - 1].rtt) {
            rest.push(links[n - 1])
        } else {
            rest
        }
    }
}

/// The first of the best among the first `n`.
pub open spec fn best_of(links: Seq<Link>, base: Binary64, n: nat) -> Link
    decreases n,
{
    if n <= 1 {
        links[0]
    } else {
        let best: Link = best_of(links, base, (n - 1) as nat);
        if best.spec_quality(base).lt(links[n - 1].spec_quality(base)) {
            links[n - 1]
        } else {
            best
        }
    }
}

/// The best link; measured ones go before others.
pub open spec fn spec_best_quality(links: Seq<Link>, base: Binary64) -> Link {
    let probed: Seq<Link> = probed_links(links, links.len());
    if probed.len() == 0 {
        best_of(links, base, links.len())
    } else {
        best_of(probed, base, probed.len())
    }
}

/// The first of the most stable among the first `n`, other than one and
/// within a loss; with its score.
pub open spec fn stable_of(links: Seq<Link>, exclude: u8, max_loss: Binary64, n: nat) -> (
    Option<Link>,
    Binary64,
)
    decreases n,
{
    if n == 0 {
        (None, zero())
    } else {
        let before: (Option<Link>, Binary64) = stable_of(
            links,
            exclude,
            max_loss,
            (n - 1) as nat,
        );
        let link: Link = links[n - 1];
        if link.id == exclude || max_loss.lt(link.loss) || !before.1.lt(link.spec_stability()) {
            before
        } else {
            (Some(link), link.spec_stability())
        }
    }
}

pub open spec fn spec_stable(links: Seq<Link>, exclude: u8, max_loss: Binary64) -> Option<Link> {
    stable_of(links, exclude, max_loss, links.len()).0
}

pub open spec fn id_of(link: Option<Link>) -> u8 {
    match link {
        Some(l) => l.id,
        None => 0,
    }
}

/// Least and greatest delay and quality among the first `n`.
pub struct Spread {
    pub min_rtt: Binary64,
    pub max_rtt: Binary64,
    pub min_quality: Binary64,
    pub max_quality: Binary64,
}

pub open spec fn spread_of(links: Seq<Link>, base: Binary64, n: nat) -> Spread
    decreases n,
{
    if n == 0 {
        Spread {
            min_rtt: links[0].rtt,
            max_rtt: links[0].rtt,
            min_quality: links[0].spec_quality(base),
            max_quality: zero(),
        }
    } else {
        let s: Spread = spread_of(links, base, (n - 1) as nat);
        let link: Link = links[n - 1];
        Spread {
            min_rtt: s.min_rtt.min(link.rtt),
            max_rtt: s.max_rtt.max(link.rtt),
            min_quality: s.min_quality.min(link.spec_quality(base)),
            max_quality: s.max_quality.max(link.spec_quality(base)),
        }
    }
}

/// Links sound and alike enough to take turns.
pub open spec fn spec_can_bond(config: Config, links: Seq<Link>, spread: Binary64) -> bool {
    let s: Spread = spread_of(links, config.base_rtt, links.len());
    links.len() >= 2 && (forall|i: int|
        0 <= i < links.len() ==> {
            let l: Link = #[trigger] links[i];
            l.probed && l.status == 1 && !l.unstable(config.unstable_loss)
        }) && !(zero().lt(spread) && spread.lt(s.max_rtt.minus(s.min_rtt))) && zero().lt(
        s.max_quality,
    ) && s.min_quality.over(s.max_quality).ge(config.quality_ratio)
}

/// The link for voice: the best fast one, unless it loses or wavers too much
/// and a stable one is at hand.
pub open spec fn spec_voice_primary(config: Config, links: Seq<Link>) -> Link {
    let fast: Seq<Link> = fast_links(links, config.voice_max_rtt, links.len());
    if fast.len() == 0 {
        spec_best_quality(links, config.base_rtt)
    } else {
        let best: Link = spec_best_quality(fast, config.base_rtt);
        if config.critical_loss.lt(best.loss) || Binary64::whole(45).lt(best.jitter) {
            let near: Option<Link> = spec_stable(fast, 0, config.unstable_loss);
            let any: Option<Link> = spec_stable(links, 0, config.unstable_loss);
            if near is Some && near->0.id != best.id {
                near->0
            } else if any is Some && best.spec_stability().times(Binary64::ratio(3, 2)).lt(
                any->0.spec_stability(),
            ) {
                any->0
            } else {
                best
            }
        } else {
            best
        }
    }
}

/// Links of some quality among the first `n`, with it.
pub open spec fn weights_of(links: Seq<Link>, base: Binary64, n: nat) -> Seq<(u8, Binary64)>
    decreases n,
{
    if n == 0 {
        Seq::empty()
    } else {
        let rest: Seq<(u8, Binary64)> = weights_of(links, base, (n - 1) as nat);
        let q: Binary64 = links[n - 1].spec_quality(base);
        if zero().lt(q) {
            rest.push((links[n - 1].id, q))
        } else {
            rest
        }
    }
}

pub open spec fn total_of(weights: Seq<(u8, Binary64)>, n: nat) -> Binary64
    decreases n,
{
    if n == 0 {
        zero()
    } else {
        total_of(weights, (n - 1) as nat).plus(weights[n - 1].1)
    }
}

/// The first link from `i` on whose share, added up, passes the fraction; the
/// last one if none does.
pub open spec fn drawn(
    weights: Seq<(u8, Binary64)>,
    total: Binary64,
    fraction: Binary64,
    sum: Binary64,
    i: int,
) -> u8
    decreases weights.len() - i,
{
    if i >= weights.len() {
        weights.last().0
    } else {
        let next: Binary64 = sum.plus(weights[i].1.over(total));
        if fraction.lt(next) {
            weights[i].0
        } else {
            drawn(weights, total, fraction, next, i + 1)
        }
    }
}

/// A fraction below one that a counter spreads evenly.
pub open spec fn spread_fraction(counter: u64) -> Binary64 {
    Binary64::whole(counter.wrapping_mul(0x9E37_79B9_7F4A_7C15) / 0x1_0000_0000).over(
        Binary64::whole(0x1_0000_0000),
    )
}

/// The link numbers of the first `n` in rising order.
pub open spec fn sorted_ids(links: Seq<Link>, n: nat) -> Seq<u8>
    decreases n,
{
    if n == 0 {
        Seq::empty()
    } else {
        let rest: Seq<u8> = sorted_ids(links, (n - 1) as nat);
        rest.insert(id_slot(rest, links[n - 1].id, 0), links[n - 1].id)
    }
}

pub open spec fn id_slot(ids: Seq<u8>, id: u8, i: int) -> int
    decreases ids.len() - i,
{
    if i < ids.len() && ids[i] <= id {
        id_slot(ids, id, i + 1)
    } else {
        i
    }
}

#[verifier::ext_equal]
pub struct LinkSchedulerView {
    pub config: Config,
    pub counter: u64,
}

impl LinkSchedulerView {
    pub open spec fn advanced(self) -> LinkSchedulerView {
        LinkSchedulerView { counter: self.counter.wrapping_add(1), ..self }
    }

    pub open spec fn turn(self, links: Seq<Link>) -> int {
        (self.advanced().counter as usize as int) % (links.len() as int)
    }

    pub open spec fn voice(self, links: Seq<Link>) -> (LinkSchedulerView, Decision) {
        let c: Config = self.config;
        if !c.aggressive_off && spec_can_bond(c, links, c.aggressive_spread) && spec_can_bond(
            c,
            links,
            Binary64::whole(75),
        ) {
            (
                self.advanced(),
                Decision { primary: sorted_ids(links, links.len())[self.turn(links)], fec: 0 },
            )
        } else {
            let primary: u8 = spec_voice_primary(c, links).id;
            (
                self,
                Decision {
                    primary,
                    fec: if c.fec {
                        id_of(spec_stable(links, primary, boundless()))
                    } else {
                        0
                    },
                },
            )
        }
    }

    pub open spec fn bonded(self, class: u16, links: Seq<Link>) -> (LinkSchedulerView, Decision) {
        let ids: Seq<u8> = sorted_ids(links, links.len());
        let at: int = self.turn(links);
        let next: u8 = ids[(at + 1) % (links.len() as int)];
        (
            self.advanced(),
            Decision {
                primary: ids[at],
                fec: if class == 2 && self.config.fec && next != ids[at] {
                    next
                } else {
                    0
                },
            },
        )
    }

    pub open spec fn streamed(self, links: Seq<Link>) -> (LinkSchedulerView, Decision) {
        let best: Link = spec_best_quality(links, self.config.base_rtt);
        (
            self,
            Decision {
                primary: best.id,
                fec: if self.config.fec && best.unstable(self.config.unstable_loss) {
                    id_of(spec_stable(links, best.id, boundless()))
                } else {
                    0
                },
            },
        )
    }

    pub open spec fn weighted(self, links: Seq<Link>) -> (
        LinkSchedulerView,
        Result<u8, LinkError>,
    ) {
        let weights: Seq<(u8, Binary64)> = weights_of(links, self.config.base_rtt, links.len());
        let total: Binary64 = total_of(weights, weights.len());
        if zero().ge(total) || weights.len() == 0 {
            (self, Err(LinkError::NoSchedulableLinks))
        } else {
            let next: LinkSchedulerView = self.advanced();
            (next, Ok(drawn(weights, total, spread_fraction(next.counter), zero(), 0)))
        }
    }

    /// The decision for a packet of a class. Voice takes turns over links that
    /// are alike, or goes by the best with a copy on the most stable other.
    pub open spec fn scheduled(self, class: u16, snapshot: Seq<Link>) -> (
        LinkSchedulerView,
        Result<Decision, LinkError>,
    ) {
        let links: Seq<Link> = healthy_links(snapshot, snapshot.len());
        if links.len() == 0 {
            (self, Err(LinkError::NoHealthyLinks))
        } else if class == 1 || class == 4 {
            (self.voice(links).0, Ok(self.voice(links).1))
        } else if self.config.bond_all {
            (self.bonded(class, links).0, Ok(self.bonded(class, links).1))
        } else if class == 2 {
            (self.streamed(links).0, Ok(self.streamed(links).1))
        } else {
            match self.weighted(links).1 {
                Ok(primary) => (self.weighted(links).0, Ok(Decision { primary, fec: 0 })),
                Err(error) => (self.weighted(links).0, Err(error)),
            }
        }
    }
}

pub struct Scheduler {
    cfg: Config,
    counter: u64,
}

impl View for Scheduler {
    type V = LinkSchedulerView;

    closed spec fn view(&self) -> LinkSchedulerView {
        LinkSchedulerView { config: self.cfg, counter: self.counter }
    }
}

proof fn lemma_id_slot(ids: Seq<u8>, id: u8, i: int)
    requires
        0 <= i <= ids.len(),
    ensures
        i <= id_slot(ids, id, i) <= ids.len(),
    decreases ids.len() - i,
{
    if i < ids.len() && ids[i] <= id {
        lemma_id_slot(ids, id, i + 1);
    }
}

impl Scheduler {
    pub fn new(config: Config) -> (r: Self)
        ensures
            r@ == (LinkSchedulerView { config: completed(config), counter: 0 }),
    {
        let mut cfg: Config = config;
        if is_unset(cfg.voice_max_rtt) {
            cfg.voice_max_rtt = Binary64::whole(300);
        }
        if is_unset(cfg.unstable_loss) {
            cfg.unstable_loss = Binary64::whole(8);
        }
        if is_unset(cfg.critical_loss) {
            cfg.critical_loss = Binary64::whole(20);
        }
        if is_unset(cfg.aggressive_spread) {
            cfg.aggressive_spread = Binary64::whole(150);
        }
        if is_unset(cfg.quality_ratio) || Binary64::whole(1).lt(cfg.quality_ratio) {
            cfg.quality_ratio = Binary64::ratio(65, 100);
        }
        Scheduler { cfg, counter: 0 }
    }

    fn next(&mut self) -> (r: u64)
        ensures
            final(self)@ == old(self)@.advanced(),
            r == old(self)@.advanced().counter,
    {
        self.counter = self.counter.wrapping_add(1);
        self.counter
    }

    fn best_quality(&self, links: &Vec<Link>) -> (r: Link)
        requires
            links@.len() > 0,
        ensures
            r == spec_best_quality(links@, self@.config.base_rtt),
    {
        let mut probed: Vec<Link> = Vec::new();
        let mut i: usize = 0;
        while i < links.len()
            invariant
                i <= links@.len(),
                probed@ == probed_links(links@, i as nat),
            decreases links@.len() - i,
        {
            if links[i].probed {
                probed.push(links[i]);
            }
            i = i + 1;
        }
        let base: Binary64 = self.cfg.base_rtt;
        if probed.len() == 0 {
            best_in(links, base)
        } else {
            best_in(&probed, base)
        }
    }

    fn stable(links: &Vec<Link>, exclude: u8, max_loss: Binary64) -> (r: Option<Link>)
        ensures
            r == spec_stable(links@, exclude, max_loss),
    {
        let mut best: Option<Link> = None;
        let mut score: Binary64 = nought();
        let mut i: usize = 0;
        while i < links.len()
            invariant
                i <= links@.len(),
                best == stable_of(links@, exclude, max_loss, i as nat).0,
                score == stable_of(links@, exclude, max_loss, i as nat).1,
            decreases links@.len() - i,
        {
            let link: Link = links[i];
            if !(link.id == exclude || max_loss.lt(link.loss)) && score.lt(link.stability()) {
                best = Some(link);
                score = link.stability();
            }
            i = i + 1;
        }
        best
    }

    fn can_bond(&self, links: &Vec<Link>, spread: Binary64) -> (r: bool)
        ensures
            r == spec_can_bond(self@.config, links@, spread),
    {
        if links.len() < 2 {
            return false;
        }
        let base: Binary64 = self.cfg.base_rtt;
        let mut min_rtt: Binary64 = links[0].rtt;
        let mut max_rtt: Binary64 = links[0].rtt;
        let mut min_quality: Binary64 = links[0].quality(base);
        let mut max_quality: Binary64 = nought();
        let mut i: usize = 0;
        while i < links.len()
            invariant
                i <= links@.len(),
                base == self@.config.base_rtt,
                min_rtt == spread_of(links@, base, i as nat).min_rtt,
                max_rtt == spread_of(links@, base, i as nat).max_rtt,
                min_quality == spread_of(links@, base, i as nat).min_quality,
                max_quality == spread_of(links@, base, i as nat).max_quality,
                forall|j: int|
                    0 <= j < i ==> {
                        let l: Link = #[trigger] links@[j];
                        l.probed && l.status == 1 && !l.unstable(self@.config.unstable_loss)
                    },
            decreases links@.len() - i,
        {
            let link: Link = links[i];
            if !link.probed || link.status != 1 || link.unstable(self.cfg.unstable_loss) {
                assert(links@[i as int] == link);
                return false;
            }
            min_rtt = min_rtt.min(link.rtt);
            max_rtt = max_rtt.max(link.rtt);
            min_quality = min_quality.min(link.quality(base));
            max_quality = max_quality.max(link.quality(base));
            i = i + 1;
        }
        !(nought().lt(spread) && spread.lt(max_rtt.minus(min_rtt))) && nought().lt(max_quality)
            && min_quality.over(max_quality).ge(self.cfg.quality_ratio)
    }

    fn voice_primary(&self, links: &Vec<Link>) -> (r: Link)
        requires
            links@.len() > 0,
        ensures
            r == spec_voice_primary(self@.config, links@),
    {
        let mut fast: Vec<Link> = Vec::new();
        let mut i: usize = 0;
        while i < links.len()
            invariant
                i <= links@.len(),
                fast@ == fast_links(links@, self@.config.voice_max_rtt, i as nat),
            decreases links@.len() - i,
        {
            if self.cfg.voice_max_rtt.ge(links[i].rtt) {
                fast.push(links[i]);
            }
            i = i + 1;
        }
        if fast.len() == 0 {
            return self.best_quality(links);
        }
        let best: Link = self.best_quality(&fast);
        if self.cfg.critical_loss.lt(best.loss) || Binary64::whole(45).lt(best.jitter) {
            match Self::stable(&fast, 0, self.cfg.unstable_loss) {
                Some(stable) => {
                    if stable.id != best.id {
                        return stable;
                    }
                },
                None => {},
            }
            match Self::stable(links, 0, self.cfg.unstable_loss) {
                Some(stable) => {
                    if best.stability().times(Binary64::ratio(3, 2)).lt(stable.stability()) {
                        return stable;
                    }
                },
                None => {},
            }
        }
        best
    }

    fn weighted(&mut self, links: &Vec<Link>) -> (r: Result<u8, LinkError>)
        ensures
            final(self)@ == old(self)@.weighted(links@).0,
            r == old(self)@.weighted(links@).1,
    {
        let base: Binary64 = self.cfg.base_rtt;
        let mut weights: Vec<(u8, Binary64)> = Vec::new();
        let mut i: usize = 0;
        while i < links.len()
            invariant
                i <= links@.len(),
                weights@ == weights_of(links@, base, i as nat),
            decreases links@.len() - i,
        {
            let q: Binary64 = links[i].quality(base);
            if nought().lt(q) {
                weights.push((links[i].id, q));
            }
            i = i + 1;
        }
        let mut total: Binary64 = nought();
        i = 0;
        while i < weights.len()
            invariant
                i <= weights@.len(),
                total == total_of(weights@, i as nat),
            decreases weights@.len() - i,
        {
            total = total.plus(weights[i].1);
            i = i + 1;
        }
        if nought().ge(total) || weights.len() == 0 {
            return Err(LinkError::NoSchedulableLinks);
        }
        let counter: u64 = self.next();
        let fraction: Binary64 = Binary64::whole(
            counter.wrapping_mul(0x9E37_79B9_7F4A_7C15) / 0x1_0000_0000,
        ).over(Binary64::whole(0x1_0000_0000));
        let mut sum: Binary64 = nought();
        i = 0;
        while i < weights.len()
            invariant
                i <= weights@.len(),
                weights@.len() > 0,
                drawn(weights@, total, fraction, sum, i as int) == drawn(
                    weights@,
                    total,
                    fraction,
                    zero(),
                    0,
                ),
                self@ == old(self)@.weighted(links@).0,
                old(self)@.weighted(links@).1 == Ok::<u8, LinkError>(
                    drawn(weights@, total, fraction, zero(), 0),
                ),
            decreases weights@.len() - i,
        {
            sum = sum.plus(weights[i].1.over(total));
            if fraction.lt(sum) {
                return Ok(weights[i].0);
            }
            i = i + 1;
        }
        Ok(weights[weights.len() - 1].0)
    }

    pub fn schedule(&mut self, class: u16, snapshot: &[Link]) -> (r: Result<Decision, LinkError>)
        ensures
            final(self)@ == old(self)@.scheduled(class, snapshot@).0,
            r == old(self)@.scheduled(class, snapshot@).1,
    {
        let mut links: Vec<Link> = Vec::new();
        let mut i: usize = 0;
        while i < snapshot.len()
            invariant
                i <= snapshot@.len(),
                links@ == healthy_links(snapshot@, i as nat),
            decreases snapshot@.len() - i,
        {
            if snapshot[i].healthy() {
                links.push(snapshot[i]);
            }
            i = i + 1;
        }
        if links.len() == 0 {
            return Err(LinkError::NoHealthyLinks);
        }
        if class == 1 || class == 4 {
            if !self.cfg.aggressive_off && self.can_bond(&links, self.cfg.aggressive_spread)
                && self.can_bond(&links, Binary64::whole(75)) {
                let ids: Vec<u8> = sort_ids(&links);
                #[verifier::truncate]
                let counter: usize = self.next() as usize;
                let primary: u8 = ids[counter % links.len()];
                return Ok(Decision { primary, fec: 0 });
            }
            let primary: u8 = self.voice_primary(&links).id;
            let fec: u8 = if self.cfg.fec {
                match Self::stable(&links, primary, Binary64 { bits: BOUNDLESS_BITS }) {
                    Some(link) => link.id,
                    None => 0,
                }
            } else {
                0
            };
            return Ok(Decision { primary, fec });
        }
        if self.cfg.bond_all {
            let ids: Vec<u8> = sort_ids(&links);
            #[verifier::truncate]
            let counter: usize = self.next() as usize;
            let at: usize = counter % links.len();
            let primary: u8 = ids[at];
            let next: u8 = ids[(at + 1) % links.len()];
            let fec: u8 = if class == 2 && self.cfg.fec && next != primary {
                next
            } else {
                0
            };
            return Ok(Decision { primary, fec });
        }
        if class == 2 {
            let best: Link = self.best_quality(&links);
            let fec: u8 = if self.cfg.fec && best.unstable(self.cfg.unstable_loss) {
                match Self::stable(&links, best.id, Binary64 { bits: BOUNDLESS_BITS }) {
                    Some(link) => link.id,
                    None => 0,
                }
            } else {
                0
            };
            return Ok(Decision { primary: best.id, fec });
        }
        match self.weighted(&links) {
            Ok(primary) => Ok(Decision { primary, fec: 0 }),
            Err(error) => Err(error),
        }
    }
}

fn best_in(links: &Vec<Link>, base: Binary64) -> (r: Link)
    requires
        links@.len() > 0,
    ensures
        r == best_of(links@, base, links@.len()),
{
    let mut best: Link = links[0];
    let mut i: usize = 1;
    while i < links.len()
        invariant
            1 <= i <= links@.len(),
            best == best_of(links@, base, i as nat),
        decreases links@.len() - i,
    {
        if best.quality(base).lt(links[i].quality(base)) {
            best = links[i];
        }
        i = i + 1;
    }
    best
}

fn sort_ids(links: &Vec<Link>) -> (r: Vec<u8>)
    ensures
        r@ == sorted_ids(links@, links@.len()),
        r@.len() == links@.len(),
{
    let mut ids: Vec<u8> = Vec::new();
    let mut i: usize = 0;
    while i < links.len()
        invariant
            i <= links@.len(),
            ids@.len() == i,
            ids@ == sorted_ids(links@, i as nat),
        decreases links@.len() - i,
    {
        let id: u8 = links[i].id;
        let mut at: usize = 0;
        while at < ids.len() && ids[at] <= id
            invariant
                at <= ids@.len(),
                id_slot(ids@, id, at as int) == id_slot(ids@, id, 0),
            decreases ids@.len() - at,
        {
            at = at + 1;
        }
        proof {
            lemma_id_slot(ids@, id, 0);
        }
        ids.insert(at, id);
        i = i + 1;
    }
    ids
}

/// A copy never goes on the link of the packet itself.
pub proof fn copy_takes_another_link(s: LinkSchedulerView, class: u16, snapshot: Seq<Link>)
    ensures
        match s.scheduled(class, snapshot).1 {
            Ok(decision) => decision.fec != 0 ==> decision.fec != decision.primary,
            Err(error) => true,
        },
{
    let links: Seq<Link> = healthy_links(snapshot, snapshot.len());
    if links.len() > 0 {
        lemma_stable_excludes(
            links,
            spec_voice_primary(s.config, links).id,
            boundless(),
            links.len(),
        );
        lemma_stable_excludes(
            links,
            spec_best_quality(links, s.config.base_rtt).id,
            boundless(),
            links.len(),
        );
    }
}

proof fn lemma_stable_excludes(links: Seq<Link>, exclude: u8, max_loss: Binary64, n: nat)
    ensures
        match stable_of(links, exclude, max_loss, n).0 {
            Some(link) => link.id != exclude,
            None => true,
        },
    decreases n,
{
    if n > 0 {
        lemma_stable_excludes(links, exclude, max_loss, (n - 1) as nat);
    }
}

/// Whether one of the links has a number.
pub open spec fn has_id(links: Seq<Link>, id: u8) -> bool {
    exists|i: int| 0 <= i < links.len() && (#[trigger] links[i]).id == id
}

/// Whether one of the healthy links has a number.
pub open spec fn offers(links: Seq<Link>, id: u8) -> bool {
    exists|i: int| 0 <= i < links.len() && (#[trigger] links[i]).id == id && links[i].healthy()
}

proof fn lemma_has_pushed(links: Seq<Link>, link: Link, id: u8)
    requires
        has_id(links.push(link), id),
    ensures
        has_id(links, id) || link.id == id,
{
    let all: Seq<Link> = links.push(link);
    let i: int = choose|i: int| 0 <= i < all.len() && (#[trigger] all[i]).id == id;
    if i < links.len() {
        assert(links[i].id == id);
    }
}

proof fn lemma_healthy(links: Seq<Link>, n: nat, id: u8)
    requires
        n <= links.len(),
        has_id(healthy_links(links, n), id),
    ensures
        offers(links, id),
    decreases n,
{
    if n > 0 {
        let rest: Seq<Link> = healthy_links(links, (n - 1) as nat);
        if links[n - 1].healthy() {
            lemma_has_pushed(rest, links[n - 1], id);
        }
        if has_id(rest, id) {
            lemma_healthy(links, (n - 1) as nat, id);
        } else {
            assert(links[n - 1].id == id);
        }
    }
}

proof fn lemma_probed(links: Seq<Link>, n: nat, id: u8)
    requires
        n <= links.len(),
        has_id(probed_links(links, n), id),
    ensures
        has_id(links, id),
    decreases n,
{
    if n > 0 {
        let rest: Seq<Link> = probed_links(links, (n - 1) as nat);
        if links[n - 1].probed {
            lemma_has_pushed(rest, links[n - 1], id);
        }
        if has_id(rest, id) {
            lemma_probed(links, (n - 1) as nat, id);
        } else {
            assert(links[n - 1].id == id);
        }
    }
}

proof fn lemma_fast(links: Seq<Link>, limit: Binary64, n: nat, id: u8)
    requires
        n <= links.len(),
        has_id(fast_links(links, limit, n), id),
    ensures
        has_id(links, id),
    decreases n,
{
    if n > 0 {
        let rest: Seq<Link> = fast_links(links, limit, (n - 1) as nat);
        if limit.ge(links[n - 1].rtt) {
            lemma_has_pushed(rest, links[n - 1], id);
        }
        if has_id(rest, id) {
            lemma_fast(links, limit, (n - 1) as nat, id);
        } else {
            assert(links[n - 1].id == id);
        }
    }
}

proof fn lemma_best(links: Seq<Link>, base: Binary64, n: nat)
    requires
        n <= links.len(),
        links.len() > 0,
    ensures
        has_id(links, best_of(links, base, n).id),
    decreases n,
{
    if n <= 1 {
        assert(links[0].id == best_of(links, base, n).id);
    } else {
        lemma_best(links, base, (n - 1) as nat);
        assert(has_id(links, links[n - 1].id));
    }
}

proof fn lemma_best_quality(links: Seq<Link>, base: Binary64)
    requires
        links.len() > 0,
    ensures
        has_id(links, spec_best_quality(links, base).id),
{
    let probed: Seq<Link> = probed_links(links, links.len());
    lemma_best(links, base, links.len());
    if probed.len() > 0 {
        lemma_best(probed, base, probed.len());
        lemma_probed(links, links.len(), best_of(probed, base, probed.len()).id);
    }
}

proof fn lemma_stable(links: Seq<Link>, exclude: u8, max_loss: Binary64, n: nat)
    requires
        n <= links.len(),
    ensures
        match stable_of(links, exclude, max_loss, n).0 {
            Some(link) => has_id(links, link.id),
            None => true,
        },
    decreases n,
{
    if n > 0 {
        lemma_stable(links, exclude, max_loss, (n - 1) as nat);
        assert(has_id(links, links[n - 1].id));
    }
}

proof fn lemma_voice_primary(config: Config, links: Seq<Link>)
    requires
        links.len() > 0,
    ensures
        has_id(links, spec_voice_primary(config, links).id),
{
    let fast: Seq<Link> = fast_links(links, config.voice_max_rtt, links.len());
    lemma_best_quality(links, config.base_rtt);
    lemma_stable(links, 0, config.unstable_loss, links.len());
    if fast.len() > 0 {
        lemma_best_quality(fast, config.base_rtt);
        lemma_stable(fast, 0, config.unstable_loss, fast.len());
        lemma_fast(
            links,
            config.voice_max_rtt,
            links.len(),
            spec_best_quality(fast, config.base_rtt).id,
        );
        match spec_stable(fast, 0, config.unstable_loss) {
            Some(near) => {
                lemma_fast(links, config.voice_max_rtt, links.len(), near.id);
            },
            None => {},
        }
    }
}

proof fn lemma_sorted(links: Seq<Link>, n: nat)
    requires
        n <= links.len(),
    ensures
        sorted_ids(links, n).len() == n,
        forall|i: int| 0 <= i < n ==> has_id(links, #[trigger] sorted_ids(links, n)[i]),
    decreases n,
{
    if n > 0 {
        lemma_sorted(links, (n - 1) as nat);
        let rest: Seq<u8> = sorted_ids(links, (n - 1) as nat);
        let id: u8 = links[n - 1].id;
        let at: int = id_slot(rest, id, 0);
        lemma_id_slot(rest, id, 0);
        assert(has_id(links, id));
        let all: Seq<u8> = sorted_ids(links, n);
        assert forall|i: int| 0 <= i < n implies has_id(links, #[trigger] all[i]) by {
            if i < at {
                assert(all[i] == rest[i]);
            } else if i > at {
                assert(all[i] == rest[i - 1]);
            }
        }
    }
}

proof fn lemma_weights(links: Seq<Link>, base: Binary64, n: nat)
    requires
        n <= links.len(),
    ensures
        forall|i: int|
            0 <= i < weights_of(links, base, n).len() ==> has_id(
                links,
                (#[trigger] weights_of(links, base, n)[i]).0,
            ),
    decreases n,
{
    if n > 0 {
        lemma_weights(links, base, (n - 1) as nat);
        assert(has_id(links, links[n - 1].id));
        let rest: Seq<(u8, Binary64)> = weights_of(links, base, (n - 1) as nat);
        let all: Seq<(u8, Binary64)> = weights_of(links, base, n);
        assert forall|i: int| 0 <= i < all.len() implies has_id(links, (#[trigger] all[i]).0) by {
            if i < rest.len() {
                assert(all[i] == rest[i]);
            }
        }
    }
}

proof fn lemma_drawn(
    weights: Seq<(u8, Binary64)>,
    total: Binary64,
    fraction: Binary64,
    sum: Binary64,
    i: int,
)
    requires
        weights.len() > 0,
        0 <= i,
    ensures
        exists|k: int|
            0 <= k < weights.len() && (#[trigger] weights[k]).0 == drawn(
                weights,
                total,
                fraction,
                sum,
                i,
            ),
    decreases weights.len() - i,
{
    if i >= weights.len() {
        assert(weights[weights.len() - 1].0 == drawn(weights, total, fraction, sum, i));
    } else {
        let next: Binary64 = sum.plus(weights[i].1.over(total));
        if fraction.lt(next) {
            assert(weights[i].0 == drawn(weights, total, fraction, sum, i));
        } else {
            lemma_drawn(weights, total, fraction, next, i + 1);
        }
    }
}

/// A packet and its copy go only over healthy links.
pub proof fn only_healthy_links_are_chosen(
    s: LinkSchedulerView,
    class: u16,
    snapshot: Seq<Link>,
)
    ensures
        match s.scheduled(class, snapshot).1 {
            Ok(decision) => offers(snapshot, decision.primary) && (decision.fec != 0 ==> offers(
                snapshot,
                decision.fec,
            )),
            Err(error) => true,
        },
{
    let links: Seq<Link> = healthy_links(snapshot, snapshot.len());
    match s.scheduled(class, snapshot).1 {
        Ok(decision) => {
            let n: nat = links.len();
            let c: Config = s.config;
            lemma_voice_primary(c, links);
            lemma_best_quality(links, c.base_rtt);
            lemma_stable(links, spec_voice_primary(c, links).id, boundless(), n);
            lemma_stable(links, spec_best_quality(links, c.base_rtt).id, boundless(), n);
            lemma_sorted(links, n);
            let at: int = s.turn(links);
            assert(0 <= at < n);
            assert(0 <= (at + 1) % (n as int) < n);
            lemma_weights(links, c.base_rtt, n);
            let weights: Seq<(u8, Binary64)> = weights_of(links, c.base_rtt, n);
            if weights.len() > 0 {
                lemma_drawn(
                    weights,
                    total_of(weights, weights.len()),
                    spread_fraction(s.advanced().counter),
                    zero(),
                    0,
                );
            }
            assert(has_id(links, decision.primary));
            lemma_healthy(snapshot, snapshot.len(), decision.primary);
            if decision.fec != 0 {
                assert(has_id(links, decision.fec));
                lemma_healthy(snapshot, snapshot.len(), decision.fec);
            }
        },
        Err(error) => {},
    }
}

} // verus!
