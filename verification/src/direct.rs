//! Direct mode: every connection goes out on one uplink of this machine, and
//! stays on it. This module decides which uplink to try, and in which order.
use crate::binary64::Binary64;
use crate::bond::Policy;
use crate::brain;
use vstd::prelude::*;

verus! {

pub const DEFAULT_LATENCY_CUTOFF_US: u64 = 75_000;

/// Delay that a path may carry beyond the best before it counts against it.
pub const LATENCY_DEAD_ZONE_US: u64 = 50_000;

pub const LATENCY_PENALTY_STEP_US: u64 = 100_000;

pub const CONNECT_ATTEMPT_US: u64 = 1_200_000;

pub const PREFERRED_MINIMUM_US: u64 = 300_000;

/// Bytes that prove a path.
pub const PROOF_BYTES: u64 = 65_536;

/// Least time between two trials of a path.
pub const TRIAL_GAP_MS: u64 = 5_000;

pub const HOLD_MS: u64 = 3_000;

/// Longest life of advice.
pub const ADVICE_MS: u64 = 5_000;

/// What a new flow is for, as far as that is known.
#[derive(Clone, Copy, Debug, PartialEq, Eq, Structural)]
pub enum Intent {
    Balanced,
    Download,
    Upload,
    Realtime,
}

impl Default for Intent {
    fn default() -> (r: Self)
        ensures
            r == Intent::Balanced,
    {
        Intent::Balanced
    }
}

/// Ports that are known to carry conversations. The port of web traffic tells
/// nothing.
#[verifier::allow_in_spec]
pub fn known_realtime_port(port: u16) -> bool
    returns
        port == 554 || port == 1935 || port == 3478 || port == 5349 || port == 5060 || port == 5061,
{
    port == 554 || port == 1935 || port == 3478 || port == 5349 || port == 5060 || port == 5061
}

/// Only a flow's own port says something about it.
#[verifier::allow_in_spec]
pub fn intent_for(port: u16) -> Intent
    returns
        (if known_realtime_port(port) {
            Intent::Realtime
        } else {
            Intent::Balanced
        }),
{
    if known_realtime_port(port) {
        Intent::Realtime
    } else {
        Intent::Balanced
    }
}

/// How long a flow waits for the preferred path, in microseconds: three
/// handshakes and a tenth of a second, within bounds.
pub open spec fn spec_preferred_budget(connect_us: u64) -> u64 {
    let wanted: int = 3 * connect_us + 100_000;
    if connect_us == 0 || wanted >= CONNECT_ATTEMPT_US {
        CONNECT_ATTEMPT_US
    } else if wanted < PREFERRED_MINIMUM_US {
        PREFERRED_MINIMUM_US
    } else {
        wanted as u64
    }
}

pub fn preferred_budget(connect_us: u64) -> (r: u64)
    ensures
        r == spec_preferred_budget(connect_us),
{
    if connect_us == 0 || connect_us >= CONNECT_ATTEMPT_US {
        return CONNECT_ATTEMPT_US;
    }
    let wanted: u64 = 3 * connect_us + 100_000;
    if wanted >= CONNECT_ATTEMPT_US {
        CONNECT_ATTEMPT_US
    } else if wanted < PREFERRED_MINIMUM_US {
        PREFERRED_MINIMUM_US
    } else {
        wanted
    }
}

/// The factor by which more delay than the best path has counts against a
/// path. Delay that is not known does not count.
#[verifier::allow_in_spec]
pub fn latency_factor(rtt_us: u64, best_rtt_us: u64) -> Binary64
    returns
        (if rtt_us == 0 || best_rtt_us == 0 {
            Binary64::whole(1)
        } else {
            Binary64::whole(1).plus(
                Binary64::whole(
                    rtt_us.saturating_sub(best_rtt_us).saturating_sub(LATENCY_DEAD_ZONE_US),
                ).over(Binary64::whole(LATENCY_PENALTY_STEP_US)),
            ).min(Binary64::whole(16))
        }),
{
    if rtt_us == 0 || best_rtt_us == 0 {
        return Binary64::whole(1);
    }
    let excess: u64 = rtt_us.saturating_sub(best_rtt_us).saturating_sub(LATENCY_DEAD_ZONE_US);
    Binary64::whole(1).plus(
        Binary64::whole(excess).over(Binary64::whole(LATENCY_PENALTY_STEP_US)),
    ).min(Binary64::whole(16))
}

#[verifier::allow_in_spec]
pub fn policy_number(policy: Policy) -> usize
    returns
        (match policy {
            Policy::Smart => 0usize,
            Policy::Performance => 1,
            Policy::Continuity => 2,
            Policy::DataSaver => 3,
        }),
{
    match policy {
        Policy::Smart => 0,
        Policy::Performance => 1,
        Policy::Continuity => 2,
        Policy::DataSaver => 3,
    }
}

#[verifier::allow_in_spec]
pub fn number_policy(value: usize) -> Policy
    returns
        (if value == 1 {
            Policy::Performance
        } else if value == 2 {
            Policy::Continuity
        } else if value == 3 {
            Policy::DataSaver
        } else {
            Policy::Smart
        }),
{
    if value == 1 {
        Policy::Performance
    } else if value == 2 {
        Policy::Continuity
    } else if value == 3 {
        Policy::DataSaver
    } else {
        Policy::Smart
    }
}

/// A policy is read back from its number.
pub proof fn policy_round_trip(policy: Policy)
    ensures
        number_policy(policy_number(policy)) == policy,
{
}

pub open spec fn spec_parse_policy(value: Seq<char>) -> Option<Policy> {
    if value == "smart"@ {
        Some(Policy::Smart)
    } else if value == "performance"@ {
        Some(Policy::Performance)
    } else if value == "continuity"@ {
        Some(Policy::Continuity)
    } else if value == "data-saver"@ {
        Some(Policy::DataSaver)
    } else {
        None
    }
}

fn same_text(a: &str, b: &str) -> (r: bool)
    ensures
        r == (a@ == b@),
{
    a.to_string() == b.to_string()
}

pub fn parse_policy(value: &str) -> (r: Option<Policy>)
    ensures
        r == spec_parse_policy(value@),
{
    if same_text(value, "smart") {
        Some(Policy::Smart)
    } else if same_text(value, "performance") {
        Some(Policy::Performance)
    } else if same_text(value, "continuity") {
        Some(Policy::Continuity)
    } else if same_text(value, "data-saver") {
        Some(Policy::DataSaver)
    } else {
        None
    }
}

/// Whether an upload is stuck: enough was written, a backlog stands, and
/// either delay grew under load, or nothing moves, or much is repeated.
pub open spec fn spec_upload_congested(
    written: u64,
    queued: u64,
    excess_rtt_us: u64,
    acknowledged: u64,
    retransmitted: u64,
    stalled_us: u64,
) -> bool {
    let sum: u64 = acknowledged.wrapping_add(retransmitted);
    let all: u64 = if sum < 1 {
        1
    } else {
        sum
    };
    written >= 65_536 && queued >= 16_384 && (excess_rtt_us >= 50_000 || stalled_us >= 500_000 || (
    retransmitted >= 4_096 && Binary64::whole(retransmitted).over(Binary64::whole(all)).ge(
        Binary64::ratio(5, 100),
    )))
}

pub fn upload_congested(
    written: u64,
    queued: u64,
    excess_rtt_us: u64,
    acknowledged: u64,
    retransmitted: u64,
    stalled_us: u64,
) -> (r: bool)
    ensures
        r == spec_upload_congested(
            written,
            queued,
            excess_rtt_us,
            acknowledged,
            retransmitted,
            stalled_us,
        ),
{
    let sum: u64 = acknowledged.wrapping_add(retransmitted);
    let all: u64 = if sum < 1 {
        1
    } else {
        sum
    };
    written >= 65_536 && queued >= 16_384 && (excess_rtt_us >= 50_000 || stalled_us >= 500_000 || (
    retransmitted >= 4_096 && Binary64::whole(retransmitted).over(Binary64::whole(all)).ge(
        Binary64::ratio(5, 100),
    )))
}

/// A total in which one part changes.
#[verifier::allow_in_spec]
pub fn replace_contribution(total: u64, old_part: u64, new_part: u64) -> u64
    returns
        (if new_part >= old_part {
            total.wrapping_add((new_part - old_part) as u64)
        } else {
            total.wrapping_sub((old_part - new_part) as u64)
        }),
{
    if new_part >= old_part {
        total.wrapping_add(new_part - old_part)
    } else {
        total.wrapping_sub(old_part - new_part)
    }
}

/// A smoothed measurement after another one.
pub open spec fn smoothed(prior: u64, observed: u64) -> u64 {
    if prior == 0 {
        observed
    } else {
        ((prior * 7 + observed) / 8) as u64
    }
}

pub fn smooth(prior: u64, observed: u64) -> (r: u64)
    ensures
        r == smoothed(prior, observed),
{
    if prior == 0 {
        observed
    } else {
        ((prior as u128 * 7 + observed as u128) / 8) as u64
    }
}

/// What is measured of an uplink.
#[derive(Clone, Copy, Debug, PartialEq, Eq, Structural)]
pub struct Uplink {
    pub metered: bool,
    pub healthy: bool,
    /// Smoothed time from a request to its answer, not of a handshake.
    pub rtt_us: u64,
    /// Smoothed time of a handshake. It only sizes the wait for a failover.
    pub connect_us: u64,
    pub sent: u64,
    pub received: u64,
    pub failures: u64,
    pub active: u64,
    pub jitter_us: u64,
    pub probe_failure_ppm: u64,
    pub acknowledged: u64,
    pub retransmitted: u64,
    pub queued: u64,
    pub busy: u64,
    pub connecting: u64,
    pub tcp_observed: bool,
    /// Times since the uplink came into being.
    pub upload_hold_until_ms: u64,
    pub recovery_acknowledged: u64,
    pub last_trial_ms: u64,
    pub created_ms: u64,
    pub incarnation: u64,
}

pub open spec fn fresh_uplink(metered: bool, created_ms: u64, incarnation: u64) -> Uplink {
    Uplink {
        metered,
        healthy: true,
        rtt_us: 0,
        connect_us: 0,
        sent: 0,
        received: 0,
        failures: 0,
        active: 0,
        jitter_us: 0,
        probe_failure_ppm: 0,
        acknowledged: 0,
        retransmitted: 0,
        queued: 0,
        busy: 0,
        connecting: 0,
        tcp_observed: false,
        upload_hold_until_ms: 0,
        recovery_acknowledged: 0,
        last_trial_ms: 0,
        created_ms,
        incarnation,
    }
}

impl Uplink {
    pub fn new(metered: bool, created_ms: u64, incarnation: u64) -> (r: Self)
        ensures
            r == fresh_uplink(metered, created_ms, incarnation),
    {
        Uplink {
            metered,
            healthy: true,
            rtt_us: 0,
            connect_us: 0,
            sent: 0,
            received: 0,
            failures: 0,
            active: 0,
            jitter_us: 0,
            probe_failure_ppm: 0,
            acknowledged: 0,
            retransmitted: 0,
            queued: 0,
            busy: 0,
            connecting: 0,
            tcp_observed: false,
            upload_hold_until_ms: 0,
            recovery_acknowledged: 0,
            last_trial_ms: 0,
            created_ms,
            incarnation,
        }
    }

    #[verifier::allow_in_spec]
    pub fn age(&self, now: u64) -> u64
        returns
            now.saturating_sub(self.created_ms),
    {
        now.saturating_sub(self.created_ms)
    }

    #[verifier::allow_in_spec]
    pub fn upload_held(&self, now: u64) -> bool
        returns
            self.age(now) < self.upload_hold_until_ms,
    {
        self.age(now) < self.upload_hold_until_ms
    }

    /// Work that is under way. Idle connections do not count.
    #[verifier::allow_in_spec]
    pub fn load(&self) -> u64
        returns
            self.busy.wrapping_add(self.connecting),
    {
        self.busy.wrapping_add(self.connecting)
    }

    /// Keeps new uploads off for a while, and until more is acknowledged.
    pub open spec fn held(self, now: u64) -> Uplink {
        let until: u64 = self.age(now).saturating_add(HOLD_MS);
        Uplink {
            upload_hold_until_ms: if until > self.upload_hold_until_ms {
                until
            } else {
                self.upload_hold_until_ms
            },
            recovery_acknowledged: self.acknowledged.saturating_add(PROOF_BYTES),
            ..self
        }
    }

    pub fn hold_uploads(&mut self, now: u64)
        ensures
            *final(self) == old(self).held(now),
    {
        let until: u64 = self.age(now).saturating_add(HOLD_MS);
        if until > self.upload_hold_until_ms {
            self.upload_hold_until_ms = until;
        }
        self.recovery_acknowledged = self.acknowledged.saturating_add(PROOF_BYTES);
    }

    /// After a probe that was answered.
    pub open spec fn probed(self, connect_us: u64, response_us: u64) -> Uplink {
        let change: int = if self.rtt_us == 0 {
            0
        } else if self.rtt_us >= response_us {
            self.rtt_us - response_us
        } else {
            response_us - self.rtt_us
        };
        Uplink {
            connect_us: smoothed(self.connect_us, connect_us),
            rtt_us: smoothed(self.rtt_us, response_us),
            jitter_us: ((self.jitter_us * 3 + change) / 4) as u64,
            healthy: true,
            probe_failure_ppm: (self.probe_failure_ppm * 7 / 8) as u64,
            ..self
        }
    }

    pub fn probe_answered(&mut self, connect_us: u64, response_us: u64)
        ensures
            *final(self) == old(self).probed(connect_us, response_us),
    {
        let prior: u64 = self.rtt_us;
        let change: u64 = if prior == 0 {
            0
        } else if prior >= response_us {
            prior - response_us
        } else {
            response_us - prior
        };
        self.connect_us = smooth(self.connect_us, connect_us);
        self.rtt_us = smooth(prior, response_us);
        self.jitter_us = ((self.jitter_us as u128 * 3 + change as u128) / 4) as u64;
        self.healthy = true;
        self.probe_failure_ppm = (self.probe_failure_ppm as u128 * 7 / 8) as u64;
    }

    /// After a probe that failed. Only an uplink on which nothing can be
    /// reached is offline.
    pub open spec fn probe_missed(self, reachable: bool) -> Uplink {
        Uplink {
            failures: self.failures.wrapping_add(1),
            probe_failure_ppm: ((self.probe_failure_ppm * 7 / 8) as u64).wrapping_add(125_000),
            healthy: reachable,
            ..self
        }
    }

    pub fn probe_failed(&mut self, reachable: bool)
        ensures
            *final(self) == old(self).probe_missed(reachable),
    {
        self.failures = self.failures.wrapping_add(1);
        let kept: u64 = (self.probe_failure_ppm as u128 * 7 / 8) as u64;
        self.probe_failure_ppm = kept.wrapping_add(125_000);
        self.healthy = reachable;
    }

    /// The preferred uplink of a connection that did not get it in time is not
    /// relied on until a probe succeeds.
    pub fn lost_race(&mut self)
        ensures
            *final(self) == (Uplink { healthy: false, ..*old(self) }),
    {
        self.healthy = false;
    }

    /// A connection begins on the uplink.
    pub fn begin(&mut self)
        ensures
            *final(self) == (Uplink {
                active: old(self).active.wrapping_add(1),
                connecting: old(self).connecting.wrapping_add(1),
                ..*old(self)
            }),
    {
        self.active = self.active.wrapping_add(1);
        self.connecting = self.connecting.wrapping_add(1);
    }

    /// It is established.
    pub fn connected(&mut self)
        ensures
            *final(self) == (Uplink {
                connecting: old(self).connecting.wrapping_sub(1),
                ..*old(self)
            }),
    {
        self.connecting = self.connecting.wrapping_sub(1);
    }

    /// It ends.
    pub fn end(&mut self, connecting: bool)
        ensures
            *final(self) == (Uplink {
                active: old(self).active.wrapping_sub(1),
                connecting: if connecting {
                    old(self).connecting.wrapping_sub(1)
                } else {
                    old(self).connecting
                },
                ..*old(self)
            }),
    {
        self.active = self.active.wrapping_sub(1);
        if connecting {
            self.connecting = self.connecting.wrapping_sub(1);
        }
    }
}

/// The share of probes that fail, in parts per million, never exceeds all of
/// them.
pub proof fn failure_share_is_bounded(u: Uplink, reachable: bool)
    requires
        u.probe_failure_ppm <= 1_000_000,
    ensures
        u.probe_missed(reachable).probe_failure_ppm <= 1_000_000,
{
}

pub struct Path {
    pub name: String,
    pub address: [u8; 4],
    pub link: Uplink,
}

#[verifier::ext_equal]
pub struct PathView {
    pub name: Seq<char>,
    pub address: Seq<u8>,
    pub link: Uplink,
}

impl View for Path {
    type V = PathView;

    open spec fn view(&self) -> PathView {
        PathView { name: self.name@, address: self.address@, link: self.link }
    }
}

pub open spec fn path_views(paths: Seq<Path>) -> Seq<PathView> {
    paths.map_values(|p: Path| p@)
}

/// The weight of a name in a list; a later entry replaces an earlier one.
pub open spec fn weight_in(list: Seq<(Seq<char>, u32)>, name: Seq<char>, n: nat) -> Option<u32>
    decreases n,
{
    if n == 0 {
        None
    } else if list[n - 1].0 == name {
        Some(list[n - 1].1)
    } else {
        weight_in(list, name, (n - 1) as nat)
    }
}

/// Looks up a weight.
pub fn weight_for(list: &Vec<(String, u32)>, name: &String) -> (r: Option<u32>)
    ensures
        r == weight_in(brain::weight_views(list@), name@, list@.len()),
{
    let mut i: usize = list.len();
    while i > 0
        invariant
            i <= list@.len(),
            weight_in(brain::weight_views(list@), name@, i as nat) == weight_in(
                brain::weight_views(list@),
                name@,
                list@.len(),
            ),
        decreases i,
    {
        i = i - 1;
        assert(brain::weight_views(list@)[i as int] == (list@[i as int].0@, list@[i as int].1));
        if list[i].0 == *name {
            return Some(list[i].1);
        }
    }
    None
}

/// A weight within its range.
#[verifier::allow_in_spec]
pub fn within_range(weight: Option<u32>, usual: u32) -> u32
    returns
        (match weight {
            Some(w) => if w < 1 {
                1u32
            } else if w > 64 {
                64u32
            } else {
                w
            },
            None => usual,
        }),
{
    match weight {
        Some(w) => if w < 1 {
            1
        } else if w > 64 {
            64
        } else {
            w
        },
        None => usual,
    }
}

/// Whether a text comes before another, byte by byte.
pub open spec fn text_before(a: Seq<u8>, b: Seq<u8>, i: int) -> bool
    decreases b.len() - i,
{
    if i >= b.len() {
        false
    } else if i >= a.len() {
        true
    } else if a[i] != b[i] {
        a[i] < b[i]
    } else {
        text_before(a, b, i + 1)
    }
}

pub open spec fn name_before(a: Seq<char>, b: Seq<char>) -> bool {
    text_before(vstd::utf8::encode_utf8(a), vstd::utf8::encode_utf8(b), 0)
}

pub fn precedes(a: &String, b: &String) -> (r: bool)
    ensures
        r == name_before(a@, b@),
{
    let x: &[u8] = a.as_str().as_bytes();
    let y: &[u8] = b.as_str().as_bytes();
    let mut i: usize = 0;
    while i < y.len()
        invariant
            i <= y@.len(),
            i <= x@.len(),
            x@ == vstd::utf8::encode_utf8(a@),
            y@ == vstd::utf8::encode_utf8(b@),
            text_before(x@, y@, i as int) == text_before(x@, y@, 0),
        decreases y@.len() - i,
    {
        if i >= x.len() {
            return true;
        }
        if x[i] != y[i] {
            return x[i] < y[i];
        }
        i = i + 1;
    }
    false
}

} // verus!
