//! The state of direct mode: its uplinks, the advice that it has, and the
//! rules under which a change of configuration applies.
use crate::binary64::Binary64;
use crate::bond::Policy;
use crate::brain;
use crate::brain::{AdviceView, BrainAdvice, ClientReport, PathReport, PathReportView, ReportView, TcpReport};
use crate::direct;
use crate::direct::{Intent, Path, PathView, Uplink};
use crate::names;
use crate::plan;
use crate::plan::{Plan, Scene, Source};
use crate::route;
use crate::route::RouteStage;
use vstd::prelude::*;

verus! {

pub struct InterfaceConfig {
    pub name: String,
    pub address: Option<String>,
    pub metered: bool,
}

#[verifier::ext_equal]
pub struct InterfaceView {
    pub name: Seq<char>,
    pub address: Option<Seq<char>>,
    pub metered: bool,
}

impl View for InterfaceConfig {
    type V = InterfaceView;

    open spec fn view(&self) -> InterfaceView {
        InterfaceView {
            name: self.name@,
            address: brain::text_of(self.address),
            metered: self.metered,
        }
    }
}

pub struct Control {
    pub interfaces: Vec<InterfaceConfig>,
    pub policy: Option<String>,
    pub secure_domains: Option<Vec<String>>,
}

pub open spec fn interface_views(list: Seq<InterfaceConfig>) -> Seq<InterfaceView> {
    list.map_values(|c: InterfaceConfig| c@)
}

pub struct Runtime {
    pub paths: Vec<Path>,
    pub policy: Policy,
    pub cursor: usize,
    pub cutoff_us: u64,
    pub relay_fallback: bool,
    /// Advice of the server, and when it came.
    pub brain_advice: Option<(u64, BrainAdvice)>,
    pub local_advice: Option<BrainAdvice>,
    pub secure_domains: Vec<String>,
    pub next_incarnation: u64,
}

#[verifier::ext_equal]
pub struct RemoteView {
    pub at: u64,
    pub advice: AdviceView,
    pub valid_for_ms: u64,
}

#[verifier::ext_equal]
pub struct RuntimeView {
    pub paths: Seq<PathView>,
    pub policy: Policy,
    pub cursor: usize,
    pub cutoff_us: u64,
    pub relay_fallback: bool,
    pub brain_advice: Option<RemoteView>,
    pub local_advice: Option<AdviceView>,
    pub secure_domains: Seq<Seq<char>>,
    pub next_incarnation: u64,
}

pub open spec fn remote_view(advice: Option<(u64, BrainAdvice)>) -> Option<RemoteView> {
    match advice {
        Some((at, advice)) => Some(
            RemoteView { at, advice: advice@, valid_for_ms: advice.valid_for_ms },
        ),
        None => None,
    }
}

pub open spec fn local_view(advice: Option<BrainAdvice>) -> Option<AdviceView> {
    match advice {
        Some(advice) => Some(advice@),
        None => None,
    }
}

impl View for Runtime {
    type V = RuntimeView;

    open spec fn view(&self) -> RuntimeView {
        RuntimeView {
            paths: direct::path_views(self.paths@),
            policy: self.policy,
            cursor: self.cursor,
            cutoff_us: self.cutoff_us,
            relay_fallback: self.relay_fallback,
            brain_advice: remote_view(self.brain_advice),
            local_advice: local_view(self.local_advice),
            secure_domains: names::texts(self.secure_domains@),
            next_incarnation: self.next_incarnation,
        }
    }
}

pub open spec fn weights_for(advice: AdviceView, intent: Intent) -> Seq<(Seq<char>, u32)> {
    match intent {
        Intent::Realtime => advice.realtime_weights,
        Intent::Download => advice.download_weights,
        Intent::Upload => advice.upload_weights,
        Intent::Balanced => advice.weights,
    }
}

pub open spec fn champion_for(advice: AdviceView, intent: Intent) -> Option<Seq<char>> {
    match intent {
        Intent::Realtime => None,
        Intent::Download => advice.download_champion,
        Intent::Upload => advice.upload_champion,
        Intent::Balanced => advice.balanced_champion,
    }
}

impl RemoteView {
    /// Advice counts while it is fresh, and only with evidence behind it.
    pub open spec fn counts(self, now: u64) -> bool {
        let life: u64 = if self.valid_for_ms < direct::ADVICE_MS {
            self.valid_for_ms
        } else {
            direct::ADVICE_MS
        };
        self.valid_for_ms > 0 && self.advice.learned_paths > 0 && now.saturating_sub(self.at)
            < life
    }
}

/// The uplinks that a configuration keeps or adds, of the first `n` entries:
/// one that is the same keeps what is known of it.
pub open spec fn configured(
    existing: Seq<PathView>,
    list: Seq<InterfaceView>,
    now: u64,
    next: u64,
    n: nat,
) -> (Seq<PathView>, u64)
    decreases n,
{
    if n == 0 {
        (Seq::empty(), next)
    } else {
        let (rest, count) = configured(existing, list, now, next, (n - 1) as nat);
        let item: InterfaceView = list[n - 1];
        let ip: Option<Seq<u8>> = match item.address {
            Some(text) => names::spec_parse_ipv4(text),
            None => None,
        };
        match ip {
            None => (rest, count),
            Some(ip) => {
                let at: int = same_uplink(existing, item, ip, 0);
                if at < existing.len() {
                    (rest.push(existing[at]), count)
                } else {
                    match names::checked_path(
                        item.name,
                        ip,
                        direct::fresh_uplink(item.metered, now, count),
                    ) {
                        Ok(path) => (rest.push(path), count.wrapping_add(1)),
                        Err(error) => (rest, count),
                    }
                }
            },
        }
    }
}

/// First position from `i` on of an uplink that an entry describes.
pub open spec fn same_uplink(
    existing: Seq<PathView>,
    item: InterfaceView,
    ip: Seq<u8>,
    i: int,
) -> int
    decreases existing.len() - i,
{
    if i < existing.len() && !(existing[i].name == item.name && existing[i].address == ip
        && existing[i].link.metered == item.metered) {
        same_uplink(existing, item, ip, i + 1)
    } else {
        i
    }
}

/// Whether two lists have different uplinks.
pub open spec fn differ(a: Seq<PathView>, b: Seq<PathView>) -> bool {
    a.len() != b.len() || exists|i: int|
        0 <= i < a.len() && (#[trigger] a[i]).link.incarnation != b[i].link.incarnation
}

pub open spec fn wanted_policy(text: Option<Seq<char>>) -> Option<Policy> {
    match text {
        Some(text) => direct::spec_parse_policy(text),
        None => None,
    }
}

impl RuntimeView {
    /// Whether a report was made under the policy and of the uplinks that are
    /// there now.
    pub open spec fn still_fits(self, sent: ReportView) -> bool {
        &&& self.policy == sent.policy
        &&& self.paths.len() == sent.paths.len()
        &&& forall|i: int|
            0 <= i < self.paths.len() ==> #[trigger] self.paths[i].link.incarnation
                == sent.paths[i].incarnation
    }

    pub open spec fn source(self, now: u64) -> Source {
        if self.brain_advice is Some && self.brain_advice->0.counts(now) {
            Source::Cloud
        } else if self.local_advice is Some {
            Source::Local
        } else {
            Source::Unguided
        }
    }

    pub open spec fn advice(self, now: u64) -> Option<AdviceView> {
        match self.source(now) {
            Source::Cloud => Some(self.brain_advice->0.advice),
            Source::Local => self.local_advice,
            Source::Unguided => None,
        }
    }

    pub open spec fn scene(self, intent: Intent, now: u64) -> Scene {
        Scene {
            paths: self.paths,
            policy: self.policy,
            cutoff_us: self.cutoff_us,
            cursor: self.cursor,
            now,
            intent,
            weights: match self.advice(now) {
                Some(advice) => weights_for(advice, intent),
                None => Seq::empty(),
            },
            champion: match self.advice(now) {
                Some(advice) => champion_for(advice, intent),
                None => None,
            },
        }
    }

    /// After a decision: the turn passes on, and a trial is noted.
    pub open spec fn planned(self, intent: Intent, now: u64) -> RuntimeView {
        let scene: Scene = self.scene(intent, now);
        if self.paths.len() == 0 || scene.conversational() {
            self
        } else {
            let order: Seq<usize> = scene.share_order();
            let first: int = order[0] as int;
            RuntimeView {
                cursor: self.cursor.wrapping_add(1),
                paths: if order.len() > 0 && scene.same_name(first, scene.trial()) {
                    self.paths.update(
                        first,
                        PathView {
                            link: Uplink {
                                last_trial_ms: self.paths[first].link.age(now),
                                ..self.paths[first].link
                            },
                            ..self.paths[first]
                        },
                    )
                } else {
                    self.paths
                },
                ..self
            }
        }
    }

    /// Only a domain that must goes through the relay at once. All else goes
    /// there when every uplink failed, if at all.
    pub open spec fn forced_relay(self, host: Seq<char>) -> bool {
        names::spec_must_relay(host, self.secure_domains)
    }

    pub open spec fn reported(self, sample_ms: u64, now: u64) -> ReportView {
        ReportView {
            policy: self.policy,
            sample_ms,
            paths: self.paths.map_values(|p: PathView| path_report(p, now)),
        }
    }

    /// After a change of configuration. Advice about other uplinks, or for
    /// another policy, no longer counts. A list of domains that is invalid
    /// changes nothing.
    pub open spec fn controlled(
        self,
        interfaces: Seq<InterfaceView>,
        policy: Option<Seq<char>>,
        domains: Option<Seq<Seq<char>>>,
        now: u64,
    ) -> RuntimeView {
        let (paths, next) = configured(
            self.paths,
            interfaces,
            now,
            self.next_incarnation,
            interfaces.len(),
        );
        let wanted: Option<Policy> = wanted_policy(policy);
        let changed: bool = differ(self.paths, paths) || (wanted is Some && wanted->0
            != self.policy);
        RuntimeView {
            paths,
            next_incarnation: next,
            brain_advice: if changed {
                None
            } else {
                self.brain_advice
            },
            local_advice: if changed {
                None
            } else {
                self.local_advice
            },
            policy: match wanted {
                Some(policy) => policy,
                None => self.policy,
            },
            secure_domains: match domains {
                Some(list) => if names::all_ok(list) {
                    names::plain_domains(list, list.len())
                } else {
                    self.secure_domains
                },
                None => self.secure_domains,
            },
            ..self
        }
    }
}

/// What is reported of an uplink.
pub open spec fn path_report(p: PathView, now: u64) -> PathReportView {
    let link: Uplink = p.link;
    PathReportView {
        name: p.name,
        rtt_ms: if link.rtt_us > 0 {
            Some(Binary64::whole(link.rtt_us).over(Binary64::whole(1000)))
        } else {
            None
        },
        healthy: link.healthy,
        metered: link.metered,
        failures: link.failures,
        sent_bytes: link.sent,
        received_bytes: link.received,
        active_flows: link.active,
        jitter_ms: Binary64::whole(link.jitter_us).over(Binary64::whole(1000)),
        probe_failure_ratio: Binary64::whole(link.probe_failure_ppm).over(
            Binary64::whole(1_000_000),
        ),
        incarnation: link.incarnation,
        tcp: if link.tcp_observed {
            Some(
                TcpReport {
                    acknowledged: link.acknowledged,
                    retransmitted: link.retransmitted,
                    queued: link.queued,
                    busy: link.busy,
                    held: link.upload_held(now),
                },
            )
        } else {
            None
        },
    }
}

impl Runtime {
    pub fn new(paths: Vec<Path>, policy: Policy, next_incarnation: u64) -> (r: Self)
        ensures
            r@ == (RuntimeView {
                paths: direct::path_views(paths@),
                policy,
                cursor: 0,
                cutoff_us: direct::DEFAULT_LATENCY_CUTOFF_US,
                relay_fallback: false,
                brain_advice: None,
                local_advice: None,
                secure_domains: Seq::empty(),
                next_incarnation,
            }),
    {
        let r: Runtime = Runtime {
            paths,
            policy,
            cursor: 0,
            cutoff_us: direct::DEFAULT_LATENCY_CUTOFF_US,
            relay_fallback: false,
            brain_advice: None,
            local_advice: None,
            secure_domains: Vec::new(),
            next_incarnation,
        };
        assert(r@.secure_domains =~= Seq::empty());
        r
    }

    /// The advice that counts, and where it came from.
    fn guide(&self, now: u64) -> (r: (Source, Option<&BrainAdvice>))
        ensures
            r.0 == self@.source(now),
            match r.1 {
                Some(advice) => self@.advice(now) == Some(advice@),
                None => self@.advice(now) is None,
            },
    {
        match &self.brain_advice {
            Some(pair) => {
                let advice: &BrainAdvice = &pair.1;
                let life: u64 = if advice.valid_for_ms < direct::ADVICE_MS {
                    advice.valid_for_ms
                } else {
                    direct::ADVICE_MS
                };
                if advice.valid_for_ms > 0 && advice.learned_paths > 0 && now.saturating_sub(pair.0)
                    < life {
                    return (Source::Cloud, Some(advice));
                }
            },
            None => {},
        }
        match &self.local_advice {
            Some(advice) => (Source::Local, Some(advice)),
            None => (Source::Unguided, None),
        }
    }

    /// The uplinks in the order in which a new flow tries them, and the
    /// evidence that the decision was made on.
    pub fn plan(&mut self, intent: Intent, now: u64) -> (r: Plan)
        ensures
            final(self)@ == old(self)@.planned(intent, now),
            ({
                let scene: Scene = old(self)@.scene(intent, now);
                if old(self)@.paths.len() == 0 {
                    &&& r.order@.len() == 0
                    &&& r.source is None
                    &&& r.champion is None
                    &&& r.primary is None
                    &&& r.trial is None
                    &&& r.features@.len() == 0
                } else {
                    &&& (plan::Decision { order: r.order@, primary: r.primary, trial: r.trial })
                        == scene.decided()
                    &&& r.source == Some(old(self)@.source(now))
                    &&& brain::text_of(r.champion) == scene.champion
                    &&& r.features@ == scene.features()
                }
            }),
    {
        let ghost before: RuntimeView = self@;
        let ghost scene: Scene = self@.scene(intent, now);
        if self.paths.len() == 0 {
            return Plan {
                order: Vec::new(),
                source: None,
                champion: None,
                primary: None,
                trial: None,
                features: Vec::new(),
            };
        }
        let none: Vec<(String, u32)> = Vec::new();
        let nobody: Option<String> = None;
        let (source, advice) = self.guide(now);
        assert(brain::weight_views(none@) =~= Seq::empty());
        let weights: &Vec<(String, u32)> = match advice {
            Some(a) => match intent {
                Intent::Realtime => &a.realtime_weights,
                Intent::Download => &a.download_weights,
                Intent::Upload => &a.upload_weights,
                Intent::Balanced => &a.weights,
            },
            None => &none,
        };
        let champion: &Option<String> = match advice {
            Some(a) => match intent {
                Intent::Realtime => &nobody,
                Intent::Download => &a.download_champion,
                Intent::Upload => &a.upload_champion,
                Intent::Balanced => &a.balanced_champion,
            },
            None => &nobody,
        };
        let made: Plan = plan::decide_on(
            &self.paths,
            self.policy,
            self.cutoff_us,
            self.cursor,
            now,
            intent,
            weights,
            champion,
            source,
            Ghost(scene),
        );
        if intent != Intent::Realtime && self.policy != Policy::Continuity {
            self.cursor = self.cursor.wrapping_add(1);
            if made.order.len() > 0 {
                let first: usize = made.order[0];
                proof {
                    assert(made.order@[0] < self.paths@.len());
                    assert(before.paths[first as int] == self.paths@[first as int]@);
                }
                let noted: bool = match made.trial {
                    Some(t) => {
                        assert(before.paths[t as int] == self.paths@[t as int]@);
                        self.paths[t].name == self.paths[first].name
                    },
                    None => false,
                };
                if noted {
                    let age: u64 = self.paths[first].link.age(now);
                    self.paths[first].link.last_trial_ms = age;
                    assert(self@.paths =~= before.planned(intent, now).paths);
                }
            }
        }
        assert(self@ =~= before.planned(intent, now));
        made
    }

    pub fn must_relay(&self, host: &str) -> (r: bool)
        ensures
            r == names::spec_must_relay(host@, self@.secure_domains),
    {
        names::must_relay(host, &self.secure_domains)
    }

    /// Whether a connection goes through the relay at once.
    pub fn relays(&self, host: &str) -> (r: bool)
        ensures
            r == self@.forced_relay(host@),
    {
        self.must_relay(host)
    }

    /// What the brain is told.
    pub fn report(&self, sample_ms: u64, now: u64) -> (r: ClientReport)
        ensures
            r@ == self@.reported(sample_ms, now),
    {
        let mut list: Vec<PathReport> = Vec::new();
        let mut i: usize = 0;
        while i < self.paths.len()
            invariant
                i <= self.paths@.len(),
                list@.len() == i,
                forall|j: int|
                    0 <= j < i ==> #[trigger] list@[j]@ == path_report(self@.paths[j], now),
            decreases self.paths@.len() - i,
        {
            let p: &Path = &self.paths[i];
            assert(self@.paths[i as int] == p@);
            let link: Uplink = p.link;
            let item: PathReport = PathReport {
                name: p.name.clone(),
                rtt_ms: if link.rtt_us > 0 {
                    Some(Binary64::whole(link.rtt_us).over(Binary64::whole(1000)))
                } else {
                    None
                },
                healthy: link.healthy,
                metered: link.metered,
                failures: link.failures,
                sent_bytes: link.sent,
                received_bytes: link.received,
                active_flows: link.active,
                jitter_ms: Binary64::whole(link.jitter_us).over(Binary64::whole(1000)),
                probe_failure_ratio: Binary64::whole(link.probe_failure_ppm).over(
                    Binary64::whole(1_000_000),
                ),
                incarnation: link.incarnation,
                tcp: if link.tcp_observed {
                    Some(
                        TcpReport {
                            acknowledged: link.acknowledged,
                            retransmitted: link.retransmitted,
                            queued: link.queued,
                            busy: link.busy,
                            held: link.upload_held(now),
                        },
                    )
                } else {
                    None
                },
            };
            assert(item@ =~= path_report(p@, now));
            list.push(item);
            i = i + 1;
        }
        let r: ClientReport = ClientReport { policy: self.policy, paths: list, sample_ms };
        assert(r@ =~= self@.reported(sample_ms, now));
        r
    }

    /// Takes advice of the brain on a report. It is dropped where the policy or
    /// the uplinks are no longer those of the report, and not used where the
    /// brain does not speak the same strategy. Returns whether it is used,
    /// unless it was dropped.
    pub fn heed(&mut self, sent: &ClientReport, advice: BrainAdvice, now: u64) -> (r: Option<bool>)
        ensures
            final(self)@ == (RuntimeView {
                brain_advice: final(self)@.brain_advice,
                ..old(self)@
            }),
            match r {
                Some(used) => {
                    &&& old(self)@.still_fits(sent@)
                    &&& used == (advice.strategy@ == brain::STRATEGY@ && advice.valid_for_ms > 0)
                    &&& final(self).brain_advice == if used {
                        Some((now, advice))
                    } else {
                        None
                    }
                },
                None => !old(self)@.still_fits(sent@) && *final(self) == *old(self),
            },
    {
        if self.policy != sent.policy || self.paths.len() != sent.paths.len() {
            assert(sent@.paths.len() == sent.paths@.len());
            return None;
        }
        let mut i: usize = 0;
        while i < self.paths.len()
            invariant
                i <= self.paths@.len(),
                self.paths@.len() == sent.paths@.len(),
                *self == *old(self),
                forall|j: int|
                    0 <= j < i ==> #[trigger] self@.paths[j].link.incarnation
                        == sent@.paths[j].incarnation,
            decreases self.paths@.len() - i,
        {
            assert(self@.paths[i as int] == self.paths@[i as int]@);
            assert(sent@.paths[i as int] == sent.paths@[i as int]@);
            if self.paths[i].link.incarnation != sent.paths[i].incarnation {
                assert(self@.paths[i as int].link.incarnation != sent@.paths[i as int].incarnation);
                return None;
            }
            i = i + 1;
        }
        let used: bool = advice.strategy == brain::STRATEGY.to_string() && advice.valid_for_ms > 0;
        self.brain_advice = if used {
            Some((now, advice))
        } else {
            None
        };
        assert(self@ =~= RuntimeView { brain_advice: self@.brain_advice, ..old(self)@ });
        Some(used)
    }

    /// Forgets the advice of the brain, once it is out of reach.
    pub fn lose_brain(&mut self)
        ensures
            final(self)@ == (RuntimeView { brain_advice: None, ..old(self)@ }),
    {
        self.brain_advice = None;
        assert(self@ =~= RuntimeView { brain_advice: None, ..old(self)@ });
    }

    /// First uplink from which an entry takes what is known.
    fn find_same(&self, item: &InterfaceConfig, ip: &[u8; 4]) -> (r: usize)
        ensures
            r == same_uplink(self@.paths, item@, ip@, 0),
            r <= self.paths@.len(),
    {
        let mut i: usize = 0;
        while i < self.paths.len()
            invariant
                i <= self.paths@.len(),
                same_uplink(self@.paths, item@, ip@, i as int) == same_uplink(
                    self@.paths,
                    item@,
                    ip@,
                    0,
                ),
            decreases self.paths@.len() - i,
        {
            assert(self@.paths[i as int] == self.paths@[i as int]@);
            if self.paths[i].name == item.name && crate::wire::same_bytes(
                &self.paths[i].address,
                ip,
            ) && self.paths[i].link.metered == item.metered {
                return i;
            }
            i = i + 1;
        }
        i
    }

    fn configure(&self, interfaces: &Vec<InterfaceConfig>, now: u64) -> (r: (Vec<Path>, u64))
        ensures
            (direct::path_views(r.0@), r.1) == configured(
                self@.paths,
                interface_views(interfaces@),
                now,
                self@.next_incarnation,
                interfaces@.len(),
            ),
    {
        let ghost list: Seq<InterfaceView> = interface_views(interfaces@);
        let mut paths: Vec<Path> = Vec::new();
        let mut next: u64 = self.next_incarnation;
        let mut i: usize = 0;
        assert(direct::path_views(paths@) =~= Seq::empty());
        while i < interfaces.len()
            invariant
                i <= interfaces@.len(),
                list == interface_views(interfaces@),
                (direct::path_views(paths@), next) == configured(
                    self@.paths,
                    list,
                    now,
                    self@.next_incarnation,
                    i as nat,
                ),
            decreases interfaces@.len() - i,
        {
            let item: &InterfaceConfig = &interfaces[i];
            assert(list[i as int] == item@);
            let ghost before: Seq<PathView> = direct::path_views(paths@);
            let ip: Option<[u8; 4]> = match &item.address {
                Some(text) => names::parse_ipv4(text.as_str()),
                None => None,
            };
            match ip {
                Some(ip) => {
                    let at: usize = self.find_same(item, &ip);
                    if at < self.paths.len() {
                        assert(self@.paths[at as int] == self.paths@[at as int]@);
                        let kept: Path = Path {
                            name: self.paths[at].name.clone(),
                            address: self.paths[at].address,
                            link: self.paths[at].link,
                        };
                        assert(kept@ =~= self@.paths[at as int]);
                        paths.push(kept);
                        assert(direct::path_views(paths@) =~= before.push(self@.paths[at as int]));
                    } else {
                        match names::new_path(item.name.clone(), ip, item.metered, now, next) {
                            Ok(path) => {
                                let ghost added: PathView = path@;
                                paths.push(path);
                                next = next.wrapping_add(1);
                                assert(direct::path_views(paths@) =~= before.push(added));
                            },
                            Err(_error) => {},
                        }
                    }
                },
                None => {},
            }
            i = i + 1;
        }
        (paths, next)
    }

    fn differs(&self, paths: &Vec<Path>) -> (r: bool)
        ensures
            r == differ(self@.paths, direct::path_views(paths@)),
    {
        let ghost other: Seq<PathView> = direct::path_views(paths@);
        if self.paths.len() != paths.len() {
            return true;
        }
        let mut i: usize = 0;
        while i < paths.len()
            invariant
                i <= paths@.len(),
                other == direct::path_views(paths@),
                self.paths@.len() == paths@.len(),
                forall|j: int|
                    0 <= j < i ==> (#[trigger] self@.paths[j]).link.incarnation
                        == other[j].link.incarnation,
            decreases paths@.len() - i,
        {
            assert(self@.paths[i as int] == self.paths@[i as int]@);
            assert(other[i as int] == paths@[i as int]@);
            if self.paths[i].link.incarnation != paths[i].link.incarnation {
                assert(self@.paths[i as int].link.incarnation
                    != other[i as int].link.incarnation);
                return true;
            }
            i = i + 1;
        }
        false
    }

    /// Takes over a configuration.
    pub fn apply_control(&mut self, value: &Control, now: u64)
        ensures
            final(self)@ == old(self)@.controlled(
                interface_views(value.interfaces@),
                brain::text_of(value.policy),
                match value.secure_domains {
                    Some(list) => Some(names::texts(list@)),
                    None => None,
                },
                now,
            ),
    {
        let ghost before: RuntimeView = self@;
        let (paths, next) = self.configure(&value.interfaces, now);
        let wanted: Option<Policy> = match &value.policy {
            Some(text) => direct::parse_policy(text.as_str()),
            None => None,
        };
        let turned: bool = match wanted {
            Some(policy) => policy != self.policy,
            None => false,
        };
        let changed: bool = self.differs(&paths) || turned;
        self.paths = paths;
        self.next_incarnation = next;
        if changed {
            self.brain_advice = None;
            self.local_advice = None;
        }
        match wanted {
            Some(policy) => {
                self.policy = policy;
            },
            None => {},
        }
        match &value.secure_domains {
            Some(list) => match names::normalize_domains(list) {
                Ok(domains) => {
                    self.secure_domains = domains;
                },
                Err(_error) => {},
            },
            None => {},
        }
        assert(self@ =~= before.controlled(
            interface_views(value.interfaces@),
            brain::text_of(value.policy),
            match value.secure_domains {
                Some(list) => Some(names::texts(list@)),
                None => None,
            },
            now,
        ));
    }
}

/// A connection to a host that is not listed is tried directly first, whatever
/// its port and the policy, and is relayed only after that failed.
pub proof fn unlisted_host_goes_direct(
    s: RuntimeView,
    host: Seq<char>,
    paths: usize,
    failed: nat,
    stage: RouteStage,
)
    requires
        !names::spec_must_relay(host, s.secure_domains),
        route::stage_after(s.forced_relay(host), paths, s.relay_fallback, failed) == Some(stage),
    ensures
        failed == 0 ==> stage.direct(),
        !stage.direct() ==> s.relay_fallback && stage == RouteStage::RelayFallback,
{
    route::relay_comes_last(paths, s.relay_fallback, failed, stage);
}

/// Remote advice that is too old, or has no evidence behind it, has no effect:
/// what was learned here decides instead.
pub proof fn stale_advice_is_ignored(s: RuntimeView, intent: Intent, now: u64)
    requires
        s.brain_advice is Some ==> !s.brain_advice->0.counts(now),
    ensures
        s.scene(intent, now) == (RuntimeView { brain_advice: None, ..s }).scene(intent, now),
        s.advice(now) == s.local_advice,
{
}

/// Uplinks that a configuration repeats keep what is known of them, and their
/// advice.
pub proof fn same_configuration_keeps_uplinks(
    s: RuntimeView,
    interfaces: Seq<InterfaceView>,
    now: u64,
)
    requires
        interfaces.len() == s.paths.len(),
        forall|i: int|
            0 <= i < interfaces.len() ==> {
                &&& (#[trigger] interfaces[i]).address is Some
                &&& names::spec_parse_ipv4(interfaces[i].address->0) == Some(s.paths[i].address)
                &&& same_uplink(s.paths, interfaces[i], s.paths[i].address, 0) == i
            },
    ensures
        s.controlled(interfaces, None, None, now) == s,
{
    lemma_configured_same(s.paths, interfaces, now, s.next_incarnation, interfaces.len());
    assert(s.paths.take(interfaces.len() as int) =~= s.paths);
    assert(s.controlled(interfaces, None, None, now) =~= s);
}

proof fn lemma_configured_same(
    existing: Seq<PathView>,
    list: Seq<InterfaceView>,
    now: u64,
    next: u64,
    n: nat,
)
    requires
        n <= list.len(),
        list.len() == existing.len(),
        forall|i: int|
            0 <= i < list.len() ==> {
                &&& (#[trigger] list[i]).address is Some
                &&& names::spec_parse_ipv4(list[i].address->0) == Some(existing[i].address)
                &&& same_uplink(existing, list[i], existing[i].address, 0) == i
            },
    ensures
        configured(existing, list, now, next, n) == (existing.take(n as int), next),
    decreases n,
{
    if n > 0 {
        lemma_configured_same(existing, list, now, next, (n - 1) as nat);
        assert(list[n - 1].address is Some);
        assert(existing.take(n - 1).push(existing[n - 1]) =~= existing.take(n as int));
    } else {
        assert(existing.take(0) =~= Seq::empty());
    }
}

} // verus!
