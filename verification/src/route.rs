//! Routes of a connection: the stages in which they are tried, the race of
//! attempts, and what is told of it.
use crate::binary64::Binary64;
use crate::crypto;
use crate::direct;
use crate::direct::Uplink;
use crate::egress::Endpoint;
use crate::names;
use crate::wire;
use vstd::prelude::*;

verus! {

/// At most so many attempts in one stage.
pub const MAX_ATTEMPTS: usize = 16;

/// At most so many attempts at one time.
pub const LIVE_ATTEMPTS: usize = 2;

/// Time before a second attempt joins one that is slow.
pub const CONNECT_STAGGER_US: u64 = 150_000;

pub const CONNECT_BUDGET_US: u64 = 3_000_000;

pub const RELAY_BUDGET_US: u64 = 2_000_000;

#[derive(Clone, Copy, Debug, PartialEq, Eq, Structural)]
pub enum RouteStage {
    /// The uplink that the plan prefers.
    Preferred,
    /// The other uplinks.
    Failover,
    /// The encrypted route, which the connection must take.
    Relay,
    /// The encrypted route, after the uplinks failed.
    RelayFallback,
}

impl RouteStage {
    pub open spec fn text(self) -> Seq<char> {
        match self {
            RouteStage::Preferred => "preferred"@,
            RouteStage::Failover => "failover"@,
            RouteStage::Relay => "relay"@,
            RouteStage::RelayFallback => "relay_fallback"@,
        }
    }

    pub fn name(self) -> (r: &'static str)
        ensures
            r@ == self.text(),
    {
        match self {
            RouteStage::Preferred => "preferred",
            RouteStage::Failover => "failover",
            RouteStage::Relay => "relay",
            RouteStage::RelayFallback => "relay_fallback",
        }
    }

    /// Whether a stage uses an uplink without encryption.
    pub open spec fn direct(self) -> bool {
        self == RouteStage::Preferred || self == RouteStage::Failover
    }
}

/// Where a connection starts. One that must be relayed does not look at the
/// uplinks.
#[verifier::allow_in_spec]
pub fn first_stage(forced: bool, paths: usize) -> RouteStage
    returns
        (if forced {
            RouteStage::Relay
        } else if paths > 0 {
            RouteStage::Preferred
        } else {
            RouteStage::Failover
        }),
{
    if forced {
        RouteStage::Relay
    } else if paths > 0 {
        RouteStage::Preferred
    } else {
        RouteStage::Failover
    }
}

/// Where it goes after a stage failed, if anywhere.
#[verifier::allow_in_spec]
pub fn next_stage(stage: RouteStage, relay_fallback: bool) -> Option<RouteStage>
    returns
        (match stage {
            RouteStage::Preferred => Some(RouteStage::Failover),
            RouteStage::Failover => if relay_fallback {
                Some(RouteStage::RelayFallback)
            } else {
                None
            },
            _ => None,
        }),
{
    match stage {
        RouteStage::Preferred => Some(RouteStage::Failover),
        RouteStage::Failover => if relay_fallback {
            Some(RouteStage::RelayFallback)
        } else {
            None
        },
        _ => None,
    }
}

/// The stage a connection is in after some failed.
pub open spec fn stage_after(
    forced: bool,
    paths: usize,
    relay_fallback: bool,
    failed: nat,
) -> Option<RouteStage>
    decreases failed,
{
    if failed == 0 {
        Some(first_stage(forced, paths))
    } else {
        match stage_after(forced, paths, relay_fallback, (failed - 1) as nat) {
            Some(stage) => next_stage(stage, relay_fallback),
            None => None,
        }
    }
}

/// A connection that must be relayed never uses an uplink directly, however
/// much fails.
pub proof fn forced_connection_stays_relayed(
    paths: usize,
    relay_fallback: bool,
    failed: nat,
    stage: RouteStage,
)
    requires
        stage_after(true, paths, relay_fallback, failed) == Some(stage),
    ensures
        stage == RouteStage::Relay,
    decreases failed,
{
    if failed > 0 {
        let before: Option<RouteStage> = stage_after(
            true,
            paths,
            relay_fallback,
            (failed - 1) as nat,
        );
        forced_connection_stays_relayed(
            paths,
            relay_fallback,
            (failed - 1) as nat,
            before->0,
        );
    }
}

/// A connection that need not be relayed is relayed only as a fallback that is
/// allowed, and only after the uplinks failed. Three stages are the most.
pub proof fn relay_comes_last(
    paths: usize,
    relay_fallback: bool,
    failed: nat,
    stage: RouteStage,
)
    requires
        stage_after(false, paths, relay_fallback, failed) == Some(stage),
    ensures
        failed <= 2,
        !stage.direct() ==> relay_fallback && failed > 0 && stage == RouteStage::RelayFallback,
    decreases failed,
{
    reveal_with_fuel(stage_after, 4);
    if failed > 2 {
        let before: Option<RouteStage> = stage_after(
            false,
            paths,
            relay_fallback,
            (failed - 1) as nat,
        );
        relay_comes_last(paths, relay_fallback, (failed - 1) as nat, before->0);
    }
}

/// An attempt: the uplink, if any, and the destination.
pub type Attempt = (Option<usize>, usize);

pub open spec fn capped(n: nat) -> nat {
    if n < MAX_ATTEMPTS {
        n
    } else {
        MAX_ATTEMPTS as nat
    }
}

/// The attempts of a stage: every destination, on the preferred uplink or on
/// the encrypted route; or every destination on each of the other uplinks.
pub open spec fn stage_attempts(stage: RouteStage, order: Seq<usize>, destinations: nat) -> Seq<
    Attempt,
> {
    let others: nat = (order.len() - 1) as nat;
    match stage {
        RouteStage::Preferred => Seq::new(
            if order.len() > 0 {
                capped(destinations)
            } else {
                0
            },
            |i: int| (Some(order[0]), i as usize),
        ),
        RouteStage::Failover => Seq::new(
            if order.len() > 0 {
                capped(destinations * others)
            } else {
                0
            },
            |i: int| (Some(order[1 + i % (others as int)]), (i / (others as int)) as usize),
        ),
        _ => Seq::new(capped(destinations), |i: int| (None, i as usize)),
    }
}

fn same_route(path: Option<usize>, destinations: usize) -> (r: Vec<Attempt>)
    ensures
        r@ == Seq::new(capped(destinations as nat), |i: int| (path, i as usize)),
{
    let mut out: Vec<Attempt> = Vec::new();
    let mut i: usize = 0;
    while i < destinations && i < MAX_ATTEMPTS
        invariant
            i <= destinations,
            i <= MAX_ATTEMPTS,
            out@.len() == i,
            forall|j: int| 0 <= j < i ==> #[trigger] out@[j] == (path, j as usize),
        decreases destinations - i,
    {
        out.push((path, i));
        i = i + 1;
    }
    assert(out@ =~= Seq::new(capped(destinations as nat), |i: int| (path, i as usize)));
    out
}

fn other_routes(order: &Vec<usize>, destinations: usize) -> (r: Vec<Attempt>)
    requires
        order@.len() > 0,
    ensures
        r@ == stage_attempts(RouteStage::Failover, order@, destinations as nat),
{
    let mut out: Vec<Attempt> = Vec::new();
    let others: usize = order.len() - 1;
    let ghost all: nat = (destinations * others) as nat;
    if others == 0 {
        assert(destinations * others == 0) by (nonlinear_arith)
            requires
                others == 0,
        ;
        assert(out@ =~= stage_attempts(RouteStage::Failover, order@, destinations as nat));
        return out;
    }
    let mut d: usize = 0;
    let mut k: usize = 0;
    let mut n: usize = 0;
    proof {
        assert(0 * others == 0) by (nonlinear_arith);
        assert(destinations * others >= 0) by (nonlinear_arith);
    }
    while n < MAX_ATTEMPTS && d < destinations
        invariant
            n <= MAX_ATTEMPTS,
            d <= destinations,
            k < others,
            d == destinations ==> k == 0,
            order@.len() == others + 1,
            all == destinations * others,
            n == d * others + k,
            n <= all,
            out@.len() == n,
            forall|j: int|
                0 <= j < n ==> #[trigger] out@[j] == (
                    Some(order@[1 + j % (others as int)]),
                    (j / (others as int)) as usize,
                ),
        decreases MAX_ATTEMPTS - n,
    {
        proof {
            assert(n as int / others as int == d && n as int % others as int == k) by {
                vstd::arithmetic::div_mod::lemma_fundamental_div_mod_converse(
                    n as int,
                    others as int,
                    d as int,
                    k as int,
                );
            }
            assert(d * others + others <= destinations * others) by (nonlinear_arith)
                requires
                    d < destinations,
            ;
            assert((d + 1) * others == d * others + others) by (nonlinear_arith);
        }
        out.push((Some(order[1 + k]), d));
        n = n + 1;
        k = k + 1;
        if k == others {
            k = 0;
            d = d + 1;
        }
    }
    proof {
        if d == destinations {
            assert(n == all);
        } else {
            assert(n == MAX_ATTEMPTS);
        }
    }
    assert(out@ =~= stage_attempts(RouteStage::Failover, order@, destinations as nat));
    out
}

/// Lists the attempts of a stage.
pub fn attempts(stage: RouteStage, order: &Vec<usize>, destinations: usize) -> (r: Vec<Attempt>)
    ensures
        r@ == stage_attempts(stage, order@, destinations as nat),
{
    if order.len() == 0 && (stage == RouteStage::Preferred || stage == RouteStage::Failover) {
        let out: Vec<Attempt> = Vec::new();
        assert(out@ =~= stage_attempts(stage, order@, destinations as nat));
        return out;
    }
    match stage {
        RouteStage::Preferred => {
            let out: Vec<Attempt> = same_route(Some(order[0]), destinations);
            assert(out@ =~= stage_attempts(stage, order@, destinations as nat));
            out
        },
        RouteStage::Failover => other_routes(order, destinations),
        _ => {
            let out: Vec<Attempt> = same_route(None, destinations);
            assert(out@ =~= stage_attempts(stage, order@, destinations as nat));
            out
        },
    }
}

/// The time that a stage has. The preferred uplink's goes by how long its
/// connections took before.
pub fn stage_budget(stage: RouteStage, connect_us: u64) -> (r: u64)
    ensures
        r == match stage {
            RouteStage::Preferred => direct::spec_preferred_budget(connect_us),
            RouteStage::Failover => CONNECT_BUDGET_US,
            _ => RELAY_BUDGET_US,
        },
{
    match stage {
        RouteStage::Preferred => direct::preferred_budget(connect_us),
        RouteStage::Failover => CONNECT_BUDGET_US,
        _ => RELAY_BUDGET_US,
    }
}

/// What a race of attempts does next.
#[derive(Clone, Copy, Debug, PartialEq, Eq, Structural)]
pub enum RaceMove {
    GiveUp,
    /// Start the attempt of this number.
    Launch(usize),
    /// Wait for an attempt to end, but not past this time.
    Wait(u64),
}

/// A race of connection attempts, in microseconds. It ends with the first
/// that is established, and the others are dropped.
#[derive(Clone, Copy, Debug, PartialEq, Eq, Structural)]
pub struct Race {
    pub deadline: u64,
    pub next_launch: u64,
    pub total: usize,
    pub waiting: usize,
    pub live: usize,
}

impl Race {
    pub open spec fn wf(self) -> bool {
        &&& self.waiting <= self.total
        &&& self.live <= LIVE_ATTEMPTS
        &&& self.live + self.waiting <= self.total
    }

    pub open spec fn may_launch(self, now: u64) -> bool {
        self.live < LIVE_ATTEMPTS && (self.live == 0 || now >= self.next_launch) && self.waiting > 0
    }

    pub open spec fn moves(self, now: u64) -> RaceMove {
        if now >= self.deadline {
            RaceMove::GiveUp
        } else if self.may_launch(now) {
            RaceMove::Launch((self.total - self.waiting) as usize)
        } else if self.live == 0 {
            RaceMove::GiveUp
        } else if self.live < LIVE_ATTEMPTS && self.waiting > 0 && self.next_launch
            < self.deadline {
            RaceMove::Wait(self.next_launch)
        } else {
            RaceMove::Wait(self.deadline)
        }
    }

    pub open spec fn moved(self, now: u64) -> Race {
        if now < self.deadline && self.may_launch(now) {
            Race {
                waiting: (self.waiting - 1) as usize,
                live: (self.live + 1) as usize,
                next_launch: now.saturating_add(CONNECT_STAGGER_US),
                ..self
            }
        } else {
            self
        }
    }

    pub open spec fn after_failure(self, now: u64) -> Race {
        Race { live: (self.live - 1) as usize, next_launch: now, ..self }
    }

    pub fn new(attempts: usize, budget_us: u64, now: u64) -> (r: Self)
        ensures
            r == (Race {
                deadline: now.saturating_add(budget_us),
                next_launch: now,
                total: capped(attempts as nat) as usize,
                waiting: capped(attempts as nat) as usize,
                live: 0,
            }),
            r.wf(),
    {
        let total: usize = if attempts < MAX_ATTEMPTS {
            attempts
        } else {
            MAX_ATTEMPTS
        };
        Race {
            deadline: now.saturating_add(budget_us),
            next_launch: now,
            total,
            waiting: total,
            live: 0,
        }
    }

    pub fn turn(&mut self, now: u64) -> (r: RaceMove)
        requires
            old(self).wf(),
        ensures
            r == old(self).moves(now),
            *final(self) == old(self).moved(now),
            final(self).wf(),
    {
        if now >= self.deadline {
            return RaceMove::GiveUp;
        }
        if self.live < LIVE_ATTEMPTS && (self.live == 0 || now >= self.next_launch) && self.waiting
            > 0 {
            let index: usize = self.total - self.waiting;
            self.waiting = self.waiting - 1;
            self.live = self.live + 1;
            self.next_launch = now.saturating_add(CONNECT_STAGGER_US);
            return RaceMove::Launch(index);
        }
        if self.live == 0 {
            return RaceMove::GiveUp;
        }
        if self.live < LIVE_ATTEMPTS && self.waiting > 0 && self.next_launch < self.deadline {
            RaceMove::Wait(self.next_launch)
        } else {
            RaceMove::Wait(self.deadline)
        }
    }

    /// An attempt failed: the next need not wait.
    pub fn failed(&mut self, now: u64)
        requires
            old(self).wf(),
            old(self).live > 0,
        ensures
            *final(self) == old(self).after_failure(now),
            final(self).wf(),
    {
        self.live = self.live - 1;
        self.next_launch = now;
    }
}

/// One attempt alone is given its head start: right after it began, the race
/// waits, and the second begins no earlier than the stagger.
pub proof fn backup_waits(race: Race, now: u64, later: u64)
    requires
        race.wf(),
        race.live == 0,
        race.moves(now) is Launch,
        now <= later < now + CONNECT_STAGGER_US,
        now + CONNECT_STAGGER_US <= u64::MAX,
    ensures
        race.moved(now).moves(later) !is Launch,
{
}

/// A refusal starts the next attempt at once, while there is one and time.
pub proof fn refusal_adds_no_delay(race: Race, now: u64)
    requires
        race.wf(),
        race.live > 0,
        race.waiting > 0,
        now < race.deadline,
    ensures
        race.after_failure(now).moves(now) == RaceMove::Launch(
            (race.total - race.waiting) as usize,
        ),
{
}

/// The race is over at its deadline, whatever is still going on.
pub proof fn race_ends(race: Race, now: u64)
    requires
        now >= race.deadline,
    ensures
        race.moves(now) == RaceMove::GiveUp,
{
}

impl Uplink {
    /// After an attempt on it failed.
    pub fn attempt_failed(&mut self)
        ensures
            *final(self) == (Uplink {
                failures: old(self).failures.wrapping_add(1),
                active: old(self).active.wrapping_sub(1),
                connecting: old(self).connecting.wrapping_sub(1),
                ..*old(self)
            }),
    {
        self.failures = self.failures.wrapping_add(1);
        self.end(true);
    }

    /// After an attempt on it was established.
    pub fn attempt_succeeded(&mut self)
        ensures
            *final(self) == (Uplink {
                healthy: true,
                connecting: old(self).connecting.wrapping_sub(1),
                ..*old(self)
            }),
    {
        self.healthy = true;
        self.connected();
    }
}

/// The answer to a client whose connection stands: the local address, or none
/// where it is not of version 4.
pub open spec fn granted_bytes(local: Option<Seq<u8>>, port: u16) -> Seq<u8> {
    match local {
        Some(ip) => seq![5u8, 0, 0, 1] + ip + wire::be_bytes(port as nat, 2),
        None => seq![5u8, 0, 0, 1, 0, 0, 0, 0, 0, 0],
    }
}

pub fn granted(local: Option<[u8; 4]>, port: u16) -> (r: Vec<u8>)
    ensures
        r@ == granted_bytes(
            match local {
                Some(ip) => Some(ip@),
                None => None,
            },
            port,
        ),
{
    match local {
        Some(ip) => {
            let mut out: Vec<u8> = vec![5, 0, 0, 1, ip[0], ip[1], ip[2], ip[3]];
            assert(out@ =~= seq![5u8, 0, 0, 1] + ip@);
            wire::put_be(&mut out, port as u64, 2);
            out
        },
        None => {
            let out: Vec<u8> = vec![5, 0, 0, 1, 0, 0, 0, 0, 0, 0];
            assert(out@ =~= seq![5u8, 0, 0, 1, 0, 0, 0, 0, 0, 0]);
            out
        },
    }
}

/// The answer to a client that gets no connection.
pub fn denied() -> (r: Vec<u8>)
    ensures
        r@ == seq![5u8, 4, 0, 1, 0, 0, 0, 0, 0, 0],
{
    let out: Vec<u8> = vec![5, 4, 0, 1, 0, 0, 0, 0, 0, 0];
    assert(out@ =~= seq![5u8, 4, 0, 1, 0, 0, 0, 0, 0, 0]);
    out
}

/// The addresses of version 4, in their order.
pub open spec fn version4(found: Seq<Endpoint>) -> Seq<Endpoint> {
    found.filter(|e: Endpoint| !e.v6)
}

/// The destinations that a lookup gives: an error where none is of version 4.
pub fn usable_destinations(found: &Vec<Endpoint>) -> (r: Result<Vec<Endpoint>, &'static str>)
    ensures
        match r {
            Ok(list) => list@ == version4(found@) && list@.len() > 0,
            Err(text) => version4(found@).len() == 0 && text@ == "destination has no IPv4 address"@,
        },
{
    let mut out: Vec<Endpoint> = Vec::new();
    let mut i: usize = 0;
    assert(found@.take(0) =~= Seq::empty());
    proof {
        reveal(Seq::filter);
    }
    while i < found.len()
        invariant
            i <= found@.len(),
            out@ == version4(found@.take(i as int)),
        decreases found@.len() - i,
    {
        let e: Endpoint = found[i];
        proof {
            reveal(Seq::filter);
            assert(found@.take(i + 1).drop_last() =~= found@.take(i as int));
            assert(found@.take(i + 1).last() == e);
        }
        if !e.v6 {
            out.push(e);
        }
        i = i + 1;
    }
    assert(found@.take(i as int) =~= found@);
    if out.len() == 0 {
        Err("destination has no IPv4 address")
    } else {
        Ok(out)
    }
}

/// The tag of a destination in a record: it tells repeated destinations of one
/// run, and depends on a salt that no record holds.
pub open spec fn tag_of(salt: Seq<u8>, host: Seq<char>, port: u16) -> Seq<char> {
    crypto::hex_digits(
        crypto::sha256_of(
            salt + vstd::utf8::encode_utf8(names::lowered(host)) + wire::be_bytes(port as nat, 2),
        ).take(8),
    )
}

pub fn destination_tag(salt: &[u8; 16], host: &str, port: u16) -> (r: String)
    ensures
        r@ == tag_of(salt@, host@, port),
        r@.len() == 16,
{
    let lower: String = names::lowercase(host);
    let mut message: Vec<u8> = Vec::new();
    wire::put_all(&mut message, salt);
    wire::put_all(&mut message, lower.as_str().as_bytes());
    wire::put_be(&mut message, port as u64, 2);
    assert(message@ =~= salt@ + vstd::utf8::encode_utf8(names::lowered(host@)) + wire::be_bytes(
        port as nat,
        2,
    ));
    let digest: Vec<u8> = crypto::sha256(&message);
    let head: Vec<u8> = wire::copy_range(&digest, 0, 8);
    assert(head@ =~= digest@.take(8));
    crypto::hex_text(&head)
}

/// The case of a host's letters does not change its tag.
pub proof fn tag_ignores_case(salt: Seq<u8>, a: Seq<char>, b: Seq<char>, port: u16)
    requires
        names::lowered(a) == names::lowered(b),
    ensures
        tag_of(salt, a, port) == tag_of(salt, b, port),
{
}

/// Connections, as they are counted.
#[derive(Clone, Copy, Debug, PartialEq, Eq, Structural)]
pub struct Tally {
    pub active: u64,
    pub accepted: u64,
    pub over_uplinks: u64,
    pub relayed: u64,
}

impl Tally {
    pub fn new() -> (r: Self)
        ensures
            r == (Tally { active: 0, accepted: 0, over_uplinks: 0, relayed: 0 }),
    {
        Tally { active: 0, accepted: 0, over_uplinks: 0, relayed: 0 }
    }

    pub fn opened(&mut self, over_uplink: bool)
        ensures
            *final(self) == (Tally {
                active: old(self).active.wrapping_add(1),
                accepted: old(self).accepted.wrapping_add(1),
                over_uplinks: if over_uplink {
                    old(self).over_uplinks.wrapping_add(1)
                } else {
                    old(self).over_uplinks
                },
                relayed: if over_uplink {
                    old(self).relayed
                } else {
                    old(self).relayed.wrapping_add(1)
                },
            }),
    {
        self.active = self.active.wrapping_add(1);
        self.accepted = self.accepted.wrapping_add(1);
        if over_uplink {
            self.over_uplinks = self.over_uplinks.wrapping_add(1);
        } else {
            self.relayed = self.relayed.wrapping_add(1);
        }
    }

    pub fn closed(&mut self)
        ensures
            *final(self) == (Tally { active: old(self).active.wrapping_sub(1), ..*old(self) }),
    {
        self.active = self.active.wrapping_sub(1);
    }
}

/// The bits of one thousandth, the least time that a rate is taken over.
pub const LEAST_SECONDS: u64 = 0x3F50_624D_D2F1_A9FC;

/// Bits in a second, from a counter of bytes at two times.
#[verifier::allow_in_spec]
pub fn bit_rate(before: u64, after: u64, seconds: Binary64) -> Binary64
    returns
        Binary64::whole(after.saturating_sub(before)).times(Binary64::whole(8)).over(
            seconds.max((Binary64 { bits: LEAST_SECONDS })),
        ),
{
    Binary64::whole(after.saturating_sub(before)).times(Binary64::whole(8)).over(
        seconds.max((Binary64 { bits: LEAST_SECONDS })),
    )
}

#[derive(Clone, Copy, Debug, PartialEq, Eq, Structural)]
pub enum Shape {
    Balanced,
    Download,
    Upload,
}

/// Which direction the traffic has: one that carries a megabit, and more than
/// twice the other.
#[verifier::allow_in_spec]
pub fn traffic_shape(up: Binary64, down: Binary64) -> Shape
    returns
        (if down.ge(Binary64::whole(1_000_000)) && up.times(Binary64::whole(2)).lt(down) {
            Shape::Download
        } else if up.ge(Binary64::whole(1_000_000)) && down.times(Binary64::whole(2)).lt(up) {
            Shape::Upload
        } else {
            Shape::Balanced
        }),
{
    if down.ge(Binary64::whole(1_000_000)) && up.times(Binary64::whole(2)).lt(down) {
        Shape::Download
    } else if up.ge(Binary64::whole(1_000_000)) && down.times(Binary64::whole(2)).lt(up) {
        Shape::Upload
    } else {
        Shape::Balanced
    }
}

} // verus!
