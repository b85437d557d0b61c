//! The controller that advises how to share work among paths. It learns what
//! each path delivers, in each direction, from counters that a client reports;
//! destinations and payloads never reach it.
use crate::binary64::Binary64;
use crate::bond::Policy;
use crate::noise;
use crate::placement;
use crate::tunnel::TunnelError;
use crate::wire;
use snow::HandshakeState;
use vstd::prelude::*;

verus! {

/// Clients follow only a server that speaks this version.
pub const STRATEGY: &'static str = "champion-challenger-v7";

pub const MAX_FRAME: usize = 65_535;

pub const MAX_REPORTED: usize = 256;

pub const LEARNING_BYTES: u64 = 65_536;

/// Delivered bytes that prove a path on their own.
pub const PROVEN_BYTES: u64 = 8_388_608;

pub const MIN_CAPACITY_SAMPLES: u32 = 3;

pub const CHALLENGER_WEIGHT: u32 = 1;

pub const FULL_WEIGHT: u32 = 64;

/// Time in which what a loaded path delivered fades by a factor of e.
pub const LOADED_DECAY_MS: u64 = 30_000;

/// The same for an idle path: idleness is no evidence of less capacity.
pub const IDLE_DECAY_MS: u64 = 600_000;

/// Feedback of TCP alone: no destination, payload or address.
#[derive(Clone, Copy, Debug, PartialEq, Eq, Structural)]
pub struct TcpReport {
    pub acknowledged: u64,
    pub retransmitted: u64,
    pub queued: u64,
    pub busy: u64,
    pub held: bool,
}

impl Default for TcpReport {
    fn default() -> (r: Self)
        ensures
            r == (TcpReport {
                acknowledged: 0,
                retransmitted: 0,
                queued: 0,
                busy: 0,
                held: false,
            }),
    {
        TcpReport { acknowledged: 0, retransmitted: 0, queued: 0, busy: 0, held: false }
    }
}

pub struct PathReport {
    pub name: String,
    pub rtt_ms: Option<Binary64>,
    pub healthy: bool,
    pub metered: bool,
    pub failures: u64,
    /// Accepted writes. They are never taken for delivered bytes.
    pub sent_bytes: u64,
    pub received_bytes: u64,
    pub active_flows: u64,
    pub jitter_ms: Binary64,
    /// Share of reachability probes that failed. It is not packet loss.
    pub probe_failure_ratio: Binary64,
    /// Changes when an adapter changes its address.
    pub incarnation: u64,
    pub tcp: Option<TcpReport>,
}

#[verifier::ext_equal]
pub struct PathReportView {
    pub name: Seq<char>,
    pub rtt_ms: Option<Binary64>,
    pub healthy: bool,
    pub metered: bool,
    pub failures: u64,
    pub sent_bytes: u64,
    pub received_bytes: u64,
    pub active_flows: u64,
    pub jitter_ms: Binary64,
    pub probe_failure_ratio: Binary64,
    pub incarnation: u64,
    pub tcp: Option<TcpReport>,
}

impl View for PathReport {
    type V = PathReportView;

    open spec fn view(&self) -> PathReportView {
        PathReportView {
            name: self.name@,
            rtt_ms: self.rtt_ms,
            healthy: self.healthy,
            metered: self.metered,
            failures: self.failures,
            sent_bytes: self.sent_bytes,
            received_bytes: self.received_bytes,
            active_flows: self.active_flows,
            jitter_ms: self.jitter_ms,
            probe_failure_ratio: self.probe_failure_ratio,
            incarnation: self.incarnation,
            tcp: self.tcp,
        }
    }
}

impl Default for PathReport {
    fn default() -> (r: Self)
        ensures
            r@ == (PathReportView {
                name: Seq::empty(),
                rtt_ms: None,
                healthy: false,
                metered: false,
                failures: 0,
                sent_bytes: 0,
                received_bytes: 0,
                active_flows: 0,
                jitter_ms: Binary64::whole(0),
                probe_failure_ratio: Binary64::whole(0),
                incarnation: 0,
                tcp: None,
            }),
    {
        PathReport {
            name: String::new(),
            rtt_ms: None,
            healthy: false,
            metered: false,
            failures: 0,
            sent_bytes: 0,
            received_bytes: 0,
            active_flows: 0,
            jitter_ms: Binary64::whole(0),
            probe_failure_ratio: Binary64::whole(0),
            incarnation: 0,
            tcp: None,
        }
    }
}

pub struct ClientReport {
    pub policy: Policy,
    pub paths: Vec<PathReport>,
    pub sample_ms: u64,
}

#[verifier::ext_equal]
pub struct ReportView {
    pub policy: Policy,
    pub paths: Seq<PathReportView>,
    pub sample_ms: u64,
}

pub open spec fn report_views(paths: Seq<PathReport>) -> Seq<PathReportView> {
    paths.map_values(|p: PathReport| p@)
}

impl View for ClientReport {
    type V = ReportView;

    open spec fn view(&self) -> ReportView {
        ReportView {
            policy: self.policy,
            paths: report_views(self.paths@),
            sample_ms: self.sample_ms,
        }
    }
}

/// How far rates have faded since a path's last sample: under load, and idle.
#[derive(Clone, Copy, Debug, PartialEq, Eq, Structural)]
pub struct Decay {
    pub loaded: Binary64,
    pub idle: Binary64,
}

/// What is known of a path.
#[derive(Clone, Copy, Debug, PartialEq, Eq, Structural)]
pub struct Observation {
    pub sample_ms: u64,
    pub acknowledged: u64,
    pub tcp_observed: bool,
    pub received: u64,
    pub upload_bps: Binary64,
    pub download_bps: Binary64,
    pub current_upload_bps: Binary64,
    pub current_download_bps: Binary64,
    pub upload_samples: u32,
    pub download_samples: u32,
    pub upload_learned: u64,
    pub download_learned: u64,
    /// Highest rates, which fade slowly whatever the load: small traffic
    /// does not take a proven path's place away.
    pub upload_peak_bps: Binary64,
    pub download_peak_bps: Binary64,
    pub incarnation: u64,
}

#[verifier::allow_in_spec]
pub fn nothing_known() -> Observation
    returns
        (Observation {
            sample_ms: 0,
            acknowledged: 0,
            tcp_observed: false,
            received: 0,
            upload_bps: Binary64::whole(0),
            download_bps: Binary64::whole(0),
            current_upload_bps: Binary64::whole(0),
            current_download_bps: Binary64::whole(0),
            upload_samples: 0,
            download_samples: 0,
            upload_learned: 0,
            download_learned: 0,
            upload_peak_bps: Binary64::whole(0),
            download_peak_bps: Binary64::whole(0),
            incarnation: 0,
        }),
{
    Observation {
        sample_ms: 0,
        acknowledged: 0,
        tcp_observed: false,
        received: 0,
        upload_bps: Binary64::whole(0),
        download_bps: Binary64::whole(0),
        current_upload_bps: Binary64::whole(0),
        current_download_bps: Binary64::whole(0),
        upload_samples: 0,
        download_samples: 0,
        upload_learned: 0,
        download_learned: 0,
        upload_peak_bps: Binary64::whole(0),
        download_peak_bps: Binary64::whole(0),
        incarnation: 0,
    }
}

/// The evidence for a rate: its samples, or as many as are needed once enough
/// bytes were delivered.
#[verifier::allow_in_spec]
pub fn evidence(samples: u32, learned_bytes: u64) -> u32
    returns
        (if learned_bytes >= PROVEN_BYTES && samples < MIN_CAPACITY_SAMPLES {
            MIN_CAPACITY_SAMPLES
        } else {
            samples
        }),
{
    if learned_bytes >= PROVEN_BYTES && samples < MIN_CAPACITY_SAMPLES {
        MIN_CAPACITY_SAMPLES
    } else {
        samples
    }
}

#[verifier::allow_in_spec]
pub fn positive(x: Binary64) -> bool
    returns
        Binary64::whole(0).lt(x),
{
    Binary64::whole(0).lt(x)
}

/// The rate at which a placement would use both directions.
#[verifier::allow_in_spec]
pub fn two_way(up: Binary64, down: Binary64) -> Binary64
    returns
        (if positive(up) && positive(down) {
            up.min(down)
        } else {
            up.max(down)
        }),
{
    if positive(up) && positive(down) {
        up.min(down)
    } else {
        up.max(down)
    }
}

impl Observation {
    #[verifier::allow_in_spec]
    pub fn learned_rate(&self, upload: bool) -> Binary64
        returns
            (if upload {
                if self.upload_samples == 0 {
                    Binary64::whole(0)
                } else {
                    self.upload_bps
                }
            } else if self.download_samples == 0 {
                Binary64::whole(0)
            } else {
                self.download_bps
            }),
    {
        if upload {
            if self.upload_samples == 0 {
                Binary64::whole(0)
            } else {
                self.upload_bps
            }
        } else if self.download_samples == 0 {
            Binary64::whole(0)
        } else {
            self.download_bps
        }
    }

    /// The rate by which champions are chosen: the learned one, or the peak.
    #[verifier::allow_in_spec]
    pub fn champion_rate(&self, upload: bool) -> Binary64
        returns
            self.learned_rate(upload).max(
                if upload {
                    self.upload_peak_bps
                } else {
                    self.download_peak_bps
                },
            ),
    {
        let peak: Binary64 = if upload {
            self.upload_peak_bps
        } else {
            self.download_peak_bps
        };
        self.learned_rate(upload).max(peak)
    }

    #[verifier::allow_in_spec]
    pub fn download_evidence(&self) -> u32
        returns
            evidence(self.download_samples, self.download_learned),
    {
        evidence(self.download_samples, self.download_learned)
    }

    #[verifier::allow_in_spec]
    pub fn upload_evidence(&self) -> u32
        returns
            evidence(self.upload_samples, self.upload_learned),
    {
        evidence(self.upload_samples, self.upload_learned)
    }

    #[verifier::allow_in_spec]
    pub fn balanced_evidence(&self) -> u32
        returns
            (if self.upload_evidence() >= self.download_evidence() {
                self.upload_evidence()
            } else {
                self.download_evidence()
            }),
    {
        let up: u32 = self.upload_evidence();
        let down: u32 = self.download_evidence();
        if up >= down {
            up
        } else {
            down
        }
    }

    /// With both directions known, the weaker one; else the known one.
    #[verifier::allow_in_spec]
    pub fn balanced_rate(&self) -> Binary64
        returns
            two_way(self.learned_rate(true), self.learned_rate(false)),
    {
        two_way(self.learned_rate(true), self.learned_rate(false))
    }
}

/// Which rate a choice is about.
#[derive(Clone, Copy, Debug, PartialEq, Eq, Structural)]
pub enum Direction {
    Download,
    Upload,
    Balanced,
}

#[verifier::allow_in_spec]
pub fn score(o: Observation, direction: Direction) -> Binary64
    returns
        (match direction {
            Direction::Download => o.champion_rate(false),
            Direction::Upload => o.champion_rate(true),
            Direction::Balanced => two_way(o.champion_rate(true), o.champion_rate(false)),
        }),
{
    match direction {
        Direction::Download => o.champion_rate(false),
        Direction::Upload => o.champion_rate(true),
        Direction::Balanced => two_way(o.champion_rate(true), o.champion_rate(false)),
    }
}

#[verifier::allow_in_spec]
pub fn proof_count(o: Observation, direction: Direction) -> u32
    returns
        (match direction {
            Direction::Download => o.download_evidence(),
            Direction::Upload => o.upload_evidence(),
            Direction::Balanced => o.balanced_evidence(),
        }),
{
    match direction {
        Direction::Download => o.download_evidence(),
        Direction::Upload => o.upload_evidence(),
        Direction::Balanced => o.balanced_evidence(),
    }
}

/// The rate that shares are measured by.
#[verifier::allow_in_spec]
pub fn share_rate(o: Observation, direction: Direction) -> Binary64
    returns
        (match direction {
            Direction::Download => o.learned_rate(false),
            Direction::Upload => o.learned_rate(true),
            Direction::Balanced => o.balanced_rate(),
        }),
{
    match direction {
        Direction::Download => o.learned_rate(false),
        Direction::Upload => o.learned_rate(true),
        Direction::Balanced => o.balanced_rate(),
    }
}

/// Whether the evidence for a path suffices to make it champion.
#[verifier::allow_in_spec]
pub fn is_proven(o: Observation, direction: Direction) -> bool
    returns
        proof_count(o, direction) >= MIN_CAPACITY_SAMPLES && score(o, direction).ge(
            Binary64::whole(64_000),
        ),
{
    proof_count(o, direction) >= MIN_CAPACITY_SAMPLES && score(o, direction).ge(
        Binary64::whole(64_000),
    )
}

/// Bits per second.
#[verifier::allow_in_spec]
pub fn bit_rate(bytes: u64, elapsed: u64) -> Binary64
    returns
        Binary64::whole(bytes).times(Binary64::whole(8_000)).over(Binary64::whole(elapsed)),
{
    Binary64::whole(bytes).times(Binary64::whole(8_000)).over(Binary64::whole(elapsed))
}

pub open spec fn acknowledged(tcp: Option<TcpReport>) -> u64 {
    match tcp {
        Some(tcp) => tcp.acknowledged,
        None => 0,
    }
}

pub open spec fn is_held(tcp: Option<TcpReport>) -> bool {
    match tcp {
        Some(tcp) => tcp.held,
        None => false,
    }
}

/// Whether counters continue those of the last sample.
pub open spec fn continues(o: Observation, p: PathReportView, sample_ms: u64) -> bool {
    let elapsed: u64 = sample_ms.saturating_sub(o.sample_ms);
    p.incarnation == o.incarnation && acknowledged(p.tcp) >= o.acknowledged && p.received_bytes
        >= o.received && 100 <= elapsed <= 10_000
}

/// What is known of a path after a sample that continues the last.
pub open spec fn learned(o: Observation, p: PathReportView, elapsed: u64, decay: Decay) -> Observation {
    let uploaded: u64 = (acknowledged(p.tcp) - o.acknowledged) as u64;
    let downloaded: u64 = (p.received_bytes - o.received) as u64;
    let seen: bool = p.tcp is Some && o.tcp_observed;
    let held: bool = is_held(p.tcp);
    let current_up: Binary64 = if seen {
        bit_rate(uploaded, elapsed)
    } else {
        Binary64::whole(0)
    };
    let current_down: Binary64 = bit_rate(downloaded, elapsed);
    let up_learns: bool = uploaded >= LEARNING_BYTES;
    let down_learns: bool = downloaded >= LEARNING_BYTES;
    let upload_bps: Binary64 = if !seen {
        Binary64::whole(0)
    } else if held {
        current_up
    } else {
        o.upload_bps.times(
            if up_learns {
                decay.loaded
            } else {
                decay.idle
            },
        ).max(current_up)
    };
    let download_bps: Binary64 = o.download_bps.times(
        if down_learns {
            decay.loaded
        } else {
            decay.idle
        },
    ).max(current_down);
    Observation {
        upload_bps,
        download_bps,
        current_upload_bps: current_up,
        current_download_bps: current_down,
        upload_samples: if up_learns {
            o.upload_samples.saturating_add(1)
        } else {
            o.upload_samples
        },
        upload_learned: if up_learns {
            o.upload_learned.saturating_add(uploaded)
        } else {
            o.upload_learned
        },
        download_samples: if down_learns {
            o.download_samples.saturating_add(1)
        } else {
            o.download_samples
        },
        download_learned: if down_learns {
            o.download_learned.saturating_add(downloaded)
        } else {
            o.download_learned
        },
        upload_peak_bps: if held {
            current_up
        } else {
            o.upload_peak_bps.times(decay.idle).max(upload_bps)
        },
        download_peak_bps: o.download_peak_bps.times(decay.idle).max(download_bps),
        ..o
    }
}

/// What is known of a path after a sample. Counters that do not continue
/// clear what was known.
#[verifier::opaque]
pub open spec fn observed(
    o: Observation,
    p: PathReportView,
    sample_ms: u64,
    decay: Decay,
) -> Observation {
    let base: Observation = if continues(o, p, sample_ms) {
        learned(o, p, sample_ms.saturating_sub(o.sample_ms), decay)
    } else {
        nothing_known()
    };
    Observation {
        sample_ms,
        acknowledged: acknowledged(p.tcp),
        tcp_observed: p.tcp is Some,
        received: p.received_bytes,
        incarnation: p.incarnation,
        ..base
    }
}

fn observe(o: Observation, p: &PathReport, sample_ms: u64, decay: Decay) -> (r: Observation)
    ensures
        r == observed(o, p@, sample_ms, decay),
{
    reveal(observed);
    let acked: u64 = match p.tcp {
        Some(tcp) => tcp.acknowledged,
        None => 0,
    };
    let held: bool = match p.tcp {
        Some(tcp) => tcp.held,
        None => false,
    };
    let elapsed: u64 = sample_ms.saturating_sub(o.sample_ms);
    let same: bool = p.incarnation == o.incarnation && acked >= o.acknowledged && p.received_bytes
        >= o.received && 100 <= elapsed && elapsed <= 10_000;
    let mut next: Observation = if same {
        let uploaded: u64 = acked - o.acknowledged;
        let downloaded: u64 = p.received_bytes - o.received;
        let seen: bool = p.tcp.is_some() && o.tcp_observed;
        let current_up: Binary64 = if seen {
            bit_rate(uploaded, elapsed)
        } else {
            Binary64::whole(0)
        };
        let current_down: Binary64 = bit_rate(downloaded, elapsed);
        let up_learns: bool = uploaded >= LEARNING_BYTES;
        let down_learns: bool = downloaded >= LEARNING_BYTES;
        let up_decay: Binary64 = if up_learns {
            decay.loaded
        } else {
            decay.idle
        };
        let down_decay: Binary64 = if down_learns {
            decay.loaded
        } else {
            decay.idle
        };
        let upload_bps: Binary64 = if !seen {
            Binary64::whole(0)
        } else if held {
            current_up
        } else {
            o.upload_bps.times(up_decay).max(current_up)
        };
        let download_bps: Binary64 = o.download_bps.times(down_decay).max(current_down);
        Observation {
            upload_bps,
            download_bps,
            current_upload_bps: current_up,
            current_download_bps: current_down,
            upload_samples: if up_learns {
                o.upload_samples.saturating_add(1)
            } else {
                o.upload_samples
            },
            upload_learned: if up_learns {
                o.upload_learned.saturating_add(uploaded)
            } else {
                o.upload_learned
            },
            download_samples: if down_learns {
                o.download_samples.saturating_add(1)
            } else {
                o.download_samples
            },
            download_learned: if down_learns {
                o.download_learned.saturating_add(downloaded)
            } else {
                o.download_learned
            },
            upload_peak_bps: if held {
                current_up
            } else {
                o.upload_peak_bps.times(decay.idle).max(upload_bps)
            },
            download_peak_bps: o.download_peak_bps.times(decay.idle).max(download_bps),
            ..o
        }
    } else {
        nothing_known()
    };
    next.sample_ms = sample_ms;
    next.acknowledged = acked;
    next.tcp_observed = p.tcp.is_some();
    next.received = p.received_bytes;
    next.incarnation = p.incarnation;
    next
}

/// A number, or another in place of what is no finite number.
#[verifier::allow_in_spec]
pub fn finite_or(value: Binary64, fallback: Binary64) -> Binary64
    returns
        (if value.finite() {
            value
        } else {
            fallback
        }),
{
    if value.is_finite() {
        value
    } else {
        fallback
    }
}

/// What a path costs a conversation: its delay, jitter and failures.
pub open spec fn spec_realtime_cost(p: PathReportView) -> Binary64 {
    let rtt: Binary64 = match p.rtt_ms {
        Some(rtt) => rtt,
        None => Binary64::whole(1_000),
    };
    finite_or(rtt, Binary64::whole(1_000)).clamp(Binary64::whole(1), Binary64::whole(10_000)).plus(
        Binary64::whole(4).times(
            finite_or(p.jitter_ms, Binary64::whole(0)).clamp(
                Binary64::whole(0),
                Binary64::whole(1_000),
            ),
        ),
    ).plus(
        Binary64::whole(500).times(
            finite_or(p.probe_failure_ratio, Binary64::whole(0)).clamp(
                Binary64::whole(0),
                Binary64::whole(1),
            ),
        ),
    )
}

pub fn realtime_cost(p: &PathReport) -> (r: Binary64)
    ensures
        r == spec_realtime_cost(p@),
{
    let rtt: Binary64 = match p.rtt_ms {
        Some(rtt) => rtt,
        None => Binary64::whole(1_000),
    };
    let delay: Binary64 = finite_or(rtt, Binary64::whole(1_000)).clamp(
        Binary64::whole(1),
        Binary64::whole(10_000),
    );
    let jitter: Binary64 = finite_or(p.jitter_ms, Binary64::whole(0)).clamp(
        Binary64::whole(0),
        Binary64::whole(1_000),
    );
    let failures: Binary64 = finite_or(p.probe_failure_ratio, Binary64::whole(0)).clamp(
        Binary64::whole(0),
        Binary64::whole(1),
    );
    delay.plus(Binary64::whole(4).times(jitter)).plus(Binary64::whole(500).times(failures))
}

/// A path's share of work: all of it for the champion, a trial for one that
/// is not proven, and else by its rate against the champion's.
#[verifier::allow_in_spec]
pub fn allocation_weight(
    eligible: bool,
    champion: bool,
    rate: Binary64,
    champion_rate: Binary64,
    samples: u32,
    reliability: Binary64,
) -> u32
    returns
        (if !eligible {
            0
        } else if champion {
            FULL_WEIGHT
        } else if samples < MIN_CAPACITY_SAMPLES || rate.lt(Binary64::whole(64_000))
            || champion_rate.lt(Binary64::whole(64_000)) {
            CHALLENGER_WEIGHT
        } else {
            small_whole(
                Binary64::whole(64).times(
                    rate.over(champion_rate).clamp(
                        Binary64::ratio(1, 64),
                        Binary64::whole(1),
                    ),
                ).times(reliability),
            )
        }),
{
    if !eligible {
        return 0;
    }
    if champion {
        return FULL_WEIGHT;
    }
    if samples < MIN_CAPACITY_SAMPLES || rate.lt(Binary64::whole(64_000)) || champion_rate.lt(
        Binary64::whole(64_000),
    ) {
        return CHALLENGER_WEIGHT;
    }
    small_whole(
        Binary64::whole(64).times(
            rate.over(champion_rate).clamp(Binary64::ratio(1, 64), Binary64::whole(1)),
        ).times(reliability),
    )
}

/// The nearest whole number from 1 to 64; zero for what is no number.
#[verifier::allow_in_spec]
pub fn small_whole(x: Binary64) -> u32
    returns
        (if x.nearest().clamp(Binary64::whole(1), Binary64::whole(64)).floor_u64() > FULL_WEIGHT {
            FULL_WEIGHT
        } else {
            x.nearest().clamp(Binary64::whole(1), Binary64::whole(64)).floor_u64() as u32
        }),
{
    let n: u64 = x.nearest().clamp(Binary64::whole(1), Binary64::whole(64)).floor_u64();
    if n > FULL_WEIGHT as u64 {
        FULL_WEIGHT
    } else {
        n as u32
    }
}

/// The observations of a controller, by path.
pub open spec fn known_views(known: Seq<(String, Observation)>) -> Seq<(Seq<char>, Observation)> {
    known.map_values(|k: (String, Observation)| (k.0@, k.1))
}

/// First position from `i` on that is about a path.
pub open spec fn slot(known: Seq<(Seq<char>, Observation)>, name: Seq<char>, i: int) -> int
    decreases known.len() - i,
{
    if i < known.len() && known[i].0 != name {
        slot(known, name, i + 1)
    } else {
        i
    }
}

pub open spec fn is_reported(paths: Seq<PathReportView>, name: Seq<char>) -> bool {
    exists|i: int| 0 <= i < paths.len() && (#[trigger] paths[i]).name == name
}

/// Of the first `n` observations, those of paths that are still reported.
pub open spec fn still_reported(
    known: Seq<(Seq<char>, Observation)>,
    paths: Seq<PathReportView>,
    n: nat,
) -> Seq<(Seq<char>, Observation)>
    decreases n,
{
    if n == 0 {
        Seq::empty()
    } else {
        let rest: Seq<(Seq<char>, Observation)> = still_reported(known, paths, (n - 1) as nat);
        if is_reported(paths, known[n - 1].0) {
            rest.push(known[n - 1])
        } else {
            rest
        }
    }
}

/// The observation of a path, or one that knows nothing.
pub open spec fn known_of(known: Seq<(Seq<char>, Observation)>, name: Seq<char>) -> Observation {
    if slot(known, name, 0) < known.len() {
        known[slot(known, name, 0)].1
    } else {
        nothing_known()
    }
}

/// With an observation in its place.
pub open spec fn with_known(
    known: Seq<(Seq<char>, Observation)>,
    name: Seq<char>,
    o: Observation,
) -> Seq<(Seq<char>, Observation)> {
    let at: int = slot(known, name, 0);
    if at < known.len() {
        known.update(at, (name, o))
    } else {
        known.push((name, o))
    }
}

/// The observations after the first `n` paths of a report.
pub open spec fn after_paths(
    known: Seq<(Seq<char>, Observation)>,
    report: ReportView,
    decays: Seq<Decay>,
    n: nat,
) -> Seq<(Seq<char>, Observation)>
    decreases n,
{
    if n == 0 {
        known
    } else {
        let before: Seq<(Seq<char>, Observation)> = after_paths(
            known,
            report,
            decays,
            (n - 1) as nat,
        );
        let p: PathReportView = report.paths[n - 1];
        with_known(
            before,
            p.name,
            observed(known_of(before, p.name), p, report.sample_ms, decays[n - 1]),
        )
    }
}

pub open spec fn after_report(
    known: Seq<(Seq<char>, Observation)>,
    report: ReportView,
    decays: Seq<Decay>,
) -> Seq<(Seq<char>, Observation)> {
    after_paths(
        still_reported(known, report.paths, known.len()),
        report,
        decays,
        report.paths.len(),
    )
}

/// What is known of each reported path.
pub open spec fn seen_by(known: Seq<(Seq<char>, Observation)>, paths: Seq<PathReportView>) -> Seq<
    Observation,
> {
    Seq::new(paths.len(), |i: int| known_of(known, paths[i].name))
}

impl ReportView {
    pub open spec fn has_unmetered(self) -> bool {
        exists|i: int|
            0 <= i < self.paths.len() && (#[trigger] self.paths[i]).healthy
                && !self.paths[i].metered
    }

    /// Whether a path may get work. Under the policy that saves data a metered
    /// path gets none while an unmetered one is healthy.
    pub open spec fn eligible(self, i: int) -> bool {
        self.paths[i].healthy && !(self.policy == Policy::DataSaver && self.paths[i].metered
            && self.has_unmetered())
    }

    pub open spec fn eligible_flags(self) -> Seq<bool> {
        Seq::new(self.paths.len(), |i: int| self.eligible(i))
    }

    pub open spec fn eligible_list(self) -> Seq<usize> {
        placement::kept(placement::up_to(self.paths.len()), self.eligible_flags())
    }

    pub open spec fn costs(self) -> Seq<Binary64> {
        Seq::new(self.paths.len(), |i: int| spec_realtime_cost(self.paths[i]))
    }

    pub open spec fn timed_flags(self) -> Seq<bool> {
        Seq::new(
            self.paths.len(),
            |i: int|
                match self.paths[i].rtt_ms {
                    Some(rtt) => rtt.finite() && positive(rtt),
                    None => false,
                },
        )
    }

    /// The path to begin with, before anything is proven: the one of least
    /// measured cost, or else the first.
    pub open spec fn beginner(self) -> Option<usize> {
        match placement::cheapest(
            placement::kept(self.eligible_list(), self.timed_flags()),
            self.costs(),
        ) {
            Some(i) => Some(i),
            None => placement::first_of(self.eligible_list()),
        }
    }

    pub open spec fn is_fast(self, i: int) -> bool {
        match self.paths[i].rtt_ms {
            Some(rtt) => positive(rtt) && rtt.lt(Binary64::whole(75)),
            None => false,
        }
    }

    pub open spec fn has_fast(self) -> bool {
        exists|i: int|
            0 <= i < self.paths.len() && #[trigger] self.eligible(i) && self.is_fast(i)
    }

    pub open spec fn same_name(self, champion: Option<usize>, i: int) -> bool {
        match champion {
            Some(c) => self.paths[c as int].name == self.paths[i].name,
            None => false,
        }
    }
}

/// The last entry of greatest score.
pub open spec fn strongest(list: Seq<usize>, scores: Seq<Binary64>) -> Option<usize>
    decreases list.len(),
{
    if list.len() == 0 {
        None
    } else {
        match strongest(list.drop_last(), scores) {
            None => Some(list.last()),
            Some(best) => if scores[best as int].key() <= scores[list.last() as int].key() {
                Some(list.last())
            } else {
                Some(best)
            },
        }
    }
}

pub open spec fn scores_of(seen: Seq<Observation>, direction: Direction) -> Seq<Binary64> {
    Seq::new(seen.len(), |i: int| score(seen[i], direction))
}

pub open spec fn proven_flags(seen: Seq<Observation>, direction: Direction) -> Seq<bool> {
    Seq::new(seen.len(), |i: int| is_proven(seen[i], direction))
}

/// First entry of a list from `i` on that has a name.
pub open spec fn named_in(
    report: ReportView,
    list: Seq<usize>,
    name: Seq<char>,
    i: int,
) -> Option<usize>
    decreases list.len() - i,
{
    if i >= list.len() {
        None
    } else if report.paths[list[i] as int].name == name {
        Some(list[i])
    } else {
        named_in(report, list, name, i + 1)
    }
}

/// The champion of a direction: the proven path of greatest rate. The one
/// before it keeps its place while it is proven and the other's rate does not
/// exceed its own by 15 percent.
pub open spec fn champion(
    previous: Option<Seq<char>>,
    report: ReportView,
    seen: Seq<Observation>,
    direction: Direction,
) -> Option<usize> {
    let list: Seq<usize> = report.eligible_list();
    let proven: Seq<usize> = placement::kept(list, proven_flags(seen, direction));
    match strongest(proven, scores_of(seen, direction)) {
        None => report.beginner(),
        Some(best) => {
            let current: Option<usize> = match previous {
                Some(name) => named_in(report, list, name, 0),
                None => None,
            };
            match current {
                Some(c) => if is_proven(seen[c as int], direction) && score(
                    seen[best as int],
                    direction,
                ).lt(score(seen[c as int], direction).times(Binary64::ratio(115, 100))) {
                    Some(c)
                } else {
                    Some(best)
                },
                None => Some(best),
            }
        },
    }
}

#[verifier::allow_in_spec]
pub fn current_rate(o: Observation, upload: bool) -> Binary64
    returns
        (if upload {
            o.current_upload_bps
        } else {
            o.current_download_bps
        }),
{
    if upload {
        o.current_upload_bps
    } else {
        o.current_download_bps
    }
}

/// The present rates of some paths together.
pub open spec fn total_rate(list: Seq<usize>, seen: Seq<Observation>, upload: bool) -> Binary64
    decreases list.len(),
{
    if list.len() == 0 {
        Binary64::whole(0)
    } else {
        total_rate(list.drop_last(), seen, upload).plus(
            current_rate(seen[list.last() as int], upload),
        )
    }
}

/// How many of some paths deliver at present.
pub open spec fn active_count(list: Seq<usize>, seen: Seq<Observation>, upload: bool) -> nat
    decreases list.len(),
{
    if list.len() == 0 {
        0
    } else {
        active_count(list.drop_last(), seen, upload) + (if current_rate(
            seen[list.last() as int],
            upload,
        ).ge(Binary64::whole(64_000)) {
            1nat
        } else {
            0nat
        })
    }
}

/// Whether sharing fell below 95 percent of what the champion delivered
/// alone. New work then goes to the champion.
pub open spec fn guarded(
    list: Seq<usize>,
    seen: Seq<Observation>,
    upload: bool,
    champion_rate: Binary64,
) -> bool {
    active_count(list, seen, upload) > 1 && champion_rate.ge(Binary64::whole(1_000_000))
        && total_rate(list, seen, upload).ge(Binary64::whole(1_000_000)) && total_rate(
        list,
        seen,
        upload,
    ).lt(champion_rate.times(Binary64::ratio(95, 100)))
}

pub open spec fn rate_of(champion: Option<usize>, seen: Seq<Observation>, direction: Direction) -> Binary64 {
    match champion {
        Some(c) => share_rate(seen[c as int], direction),
        None => Binary64::whole(0),
    }
}

/// The champions, and whether sharing is off.
pub struct Choice {
    pub download: Option<usize>,
    pub upload: Option<usize>,
    pub balanced: Option<usize>,
    pub download_guarded: bool,
    pub upload_guarded: bool,
}

pub open spec fn reliability(p: PathReportView) -> Binary64 {
    Binary64::whole(1).minus(
        finite_or(p.probe_failure_ratio, Binary64::whole(0)).clamp(
            Binary64::whole(0),
            Binary64::whole(1),
        ).times(Binary64::ratio(8, 10)),
    )
}

impl ReportView {
    pub open spec fn weight(
        self,
        seen: Seq<Observation>,
        champion: Option<usize>,
        direction: Direction,
        i: int,
    ) -> u32 {
        allocation_weight(
            self.eligible(i),
            self.same_name(champion, i),
            share_rate(seen[i], direction),
            rate_of(champion, seen, direction),
            proof_count(seen[i], direction),
            reliability(self.paths[i]),
        )
    }

    pub open spec fn upload_weight(self, seen: Seq<Observation>, choice: Choice, i: int) -> u32 {
        if is_held(self.paths[i].tcp) {
            0
        } else if choice.upload_guarded && !self.same_name(choice.upload, i) {
            1
        } else {
            self.weight(seen, choice.upload, Direction::Upload, i)
        }
    }

    pub open spec fn download_weight(self, seen: Seq<Observation>, choice: Choice, i: int) -> u32 {
        if choice.download_guarded && !self.same_name(choice.download, i) {
            1
        } else {
            self.weight(seen, choice.download, Direction::Download, i)
        }
    }

    pub open spec fn balanced_weight(self, seen: Seq<Observation>, choice: Choice, i: int) -> u32 {
        if is_held(self.paths[i].tcp) {
            0
        } else {
            self.weight(seen, choice.balanced, Direction::Balanced, i)
        }
    }

    /// The share of conversations: only fast paths take part, or else the one
    /// of least cost.
    pub open spec fn realtime_weight(self, i: int) -> u32 {
        let best: Option<usize> = placement::cheapest(self.eligible_list(), self.costs());
        let takes_part: bool = self.eligible(i) && (if self.has_fast() {
            self.is_fast(i)
        } else {
            self.same_name(best, i)
        });
        if takes_part {
            small_whole(Binary64::whole(640).over(spec_realtime_cost(self.paths[i])))
        } else {
            0
        }
    }
}

/// How many of the first `n` paths have samples.
pub open spec fn learned_count(seen: Seq<Observation>, n: nat) -> nat
    decreases n,
{
    if n == 0 {
        0
    } else {
        learned_count(seen, (n - 1) as nat) + (if seen[n - 1].upload_samples > 0 || seen[n
            - 1].download_samples > 0 {
            1nat
        } else {
            0nat
        })
    }
}

pub struct BrainAdvice {
    pub generation: u64,
    pub strategy: String,
    pub cutoff_ms: Binary64,
    pub recovery_ms: Binary64,
    pub relay_fallback: bool,
    pub weights: Vec<(String, u32)>,
    pub download_weights: Vec<(String, u32)>,
    pub upload_weights: Vec<(String, u32)>,
    pub realtime_weights: Vec<(String, u32)>,
    pub balanced_champion: Option<String>,
    pub download_champion: Option<String>,
    pub upload_champion: Option<String>,
    /// Sharing delivered less than the champion alone: new work contracts to
    /// the champion, connections that exist stay where they are.
    pub download_guarded: bool,
    pub upload_guarded: bool,
    pub learned_paths: usize,
    pub valid_for_ms: u64,
}

pub open spec fn weight_views(list: Seq<(String, u32)>) -> Seq<(Seq<char>, u32)> {
    list.map_values(|w: (String, u32)| (w.0@, w.1))
}

pub open spec fn text_of(name: Option<String>) -> Option<Seq<char>> {
    match name {
        Some(name) => Some(name@),
        None => None,
    }
}

pub open spec fn name_at(report: ReportView, champion: Option<usize>) -> Option<Seq<char>> {
    match champion {
        Some(c) => Some(report.paths[c as int].name),
        None => None,
    }
}

#[verifier::ext_equal]
pub struct AdviceView {
    pub weights: Seq<(Seq<char>, u32)>,
    pub download_weights: Seq<(Seq<char>, u32)>,
    pub upload_weights: Seq<(Seq<char>, u32)>,
    pub realtime_weights: Seq<(Seq<char>, u32)>,
    pub balanced_champion: Option<Seq<char>>,
    pub download_champion: Option<Seq<char>>,
    pub upload_champion: Option<Seq<char>>,
    pub download_guarded: bool,
    pub upload_guarded: bool,
    pub learned_paths: nat,
}

impl View for BrainAdvice {
    type V = AdviceView;

    open spec fn view(&self) -> AdviceView {
        AdviceView {
            weights: weight_views(self.weights@),
            download_weights: weight_views(self.download_weights@),
            upload_weights: weight_views(self.upload_weights@),
            realtime_weights: weight_views(self.realtime_weights@),
            balanced_champion: text_of(self.balanced_champion),
            download_champion: text_of(self.download_champion),
            upload_champion: text_of(self.upload_champion),
            download_guarded: self.download_guarded,
            upload_guarded: self.upload_guarded,
            learned_paths: self.learned_paths as nat,
        }
    }
}

#[verifier::ext_equal]
pub struct ControllerView {
    pub known: Seq<(Seq<char>, Observation)>,
    pub download_champion: Option<Seq<char>>,
    pub upload_champion: Option<Seq<char>>,
    pub balanced_champion: Option<Seq<char>>,
}

impl ControllerView {
    pub open spec fn chosen(self, report: ReportView, seen: Seq<Observation>) -> Choice {
        let download: Option<usize> = champion(
            self.download_champion,
            report,
            seen,
            Direction::Download,
        );
        let upload: Option<usize> = champion(
            self.upload_champion,
            report,
            seen,
            Direction::Upload,
        );
        Choice {
            download,
            upload,
            balanced: champion(self.balanced_champion, report, seen, Direction::Balanced),
            download_guarded: guarded(
                report.eligible_list(),
                seen,
                false,
                rate_of(download, seen, Direction::Download),
            ),
            upload_guarded: guarded(
                report.eligible_list(),
                seen,
                true,
                rate_of(upload, seen, Direction::Upload),
            ),
        }
    }

    /// The controller after a report, and its advice.
    pub open spec fn advised(self, report: ReportView, decays: Seq<Decay>) -> (
        ControllerView,
        AdviceView,
    ) {
        let known: Seq<(Seq<char>, Observation)> = after_report(self.known, report, decays);
        let seen: Seq<Observation> = seen_by(known, report.paths);
        let choice: Choice = self.chosen(report, seen);
        let n: nat = report.paths.len();
        (
            ControllerView {
                known,
                download_champion: name_at(report, choice.download),
                upload_champion: name_at(report, choice.upload),
                balanced_champion: name_at(report, choice.balanced),
            },
            AdviceView {
                weights: Seq::new(
                    n,
                    |i: int| (report.paths[i].name, report.balanced_weight(seen, choice, i)),
                ),
                download_weights: Seq::new(
                    n,
                    |i: int| (report.paths[i].name, report.download_weight(seen, choice, i)),
                ),
                upload_weights: Seq::new(
                    n,
                    |i: int| (report.paths[i].name, report.upload_weight(seen, choice, i)),
                ),
                realtime_weights: Seq::new(
                    n,
                    |i: int| (report.paths[i].name, report.realtime_weight(i)),
                ),
                balanced_champion: name_at(report, choice.balanced),
                download_champion: name_at(report, choice.download),
                upload_champion: name_at(report, choice.upload),
                download_guarded: choice.download_guarded,
                upload_guarded: choice.upload_guarded,
                learned_paths: learned_count(seen, n),
            },
        )
    }
}

/// Online feedback, no trained model. What a path delivered is a lower bound
/// of what it can.
pub struct Controller {
    known: Vec<(String, Observation)>,
    download_champion: Option<String>,
    upload_champion: Option<String>,
    balanced_champion: Option<String>,
}

impl View for Controller {
    type V = ControllerView;

    closed spec fn view(&self) -> ControllerView {
        ControllerView {
            known: known_views(self.known@),
            download_champion: text_of(self.download_champion),
            upload_champion: text_of(self.upload_champion),
            balanced_champion: text_of(self.balanced_champion),
        }
    }
}

pub open spec fn fresh_controller() -> ControllerView {
    ControllerView {
        known: Seq::empty(),
        download_champion: None,
        upload_champion: None,
        balanced_champion: None,
    }
}

impl Default for Controller {
    fn default() -> (r: Self)
        ensures
            r@ == fresh_controller(),
    {
        let r: Controller = Controller {
            known: Vec::new(),
            download_champion: None,
            upload_champion: None,
            balanced_champion: None,
        };
        assert(r@.known =~= Seq::empty());
        r
    }
}

fn has_name(paths: &Vec<PathReport>, name: &String) -> (r: bool)
    ensures
        r == is_reported(report_views(paths@), name@),
{
    let mut i: usize = 0;
    while i < paths.len()
        invariant
            i <= paths@.len(),
            forall|j: int| 0 <= j < i ==> (#[trigger] report_views(paths@)[j]).name != name@,
        decreases paths@.len() - i,
    {
        if paths[i].name == *name {
            assert(report_views(paths@)[i as int].name == name@);
            return true;
        }
        i = i + 1;
    }
    false
}

fn any_unmetered(report: &ClientReport) -> (r: bool)
    ensures
        r == report@.has_unmetered(),
{
    let mut i: usize = 0;
    while i < report.paths.len()
        invariant
            i <= report.paths@.len(),
            forall|j: int|
                0 <= j < i ==> !((#[trigger] report@.paths[j]).healthy && !report@.paths[j].metered),
        decreases report.paths@.len() - i,
    {
        if report.paths[i].healthy && !report.paths[i].metered {
            assert(report@.paths[i as int].healthy && !report@.paths[i as int].metered);
            return true;
        }
        i = i + 1;
    }
    false
}

/// What a report says of its paths, apart from what is learned.
struct Survey {
    eligible: Vec<bool>,
    list: Vec<usize>,
    costs: Vec<Binary64>,
    timed: Vec<bool>,
    fast: Vec<bool>,
    has_fast: bool,
}

impl Survey {
    spec fn of(&self, report: ReportView) -> bool {
        &&& self.eligible@ == report.eligible_flags()
        &&& self.list@ == report.eligible_list()
        &&& placement::within(self.list@, report.paths.len())
        &&& self.costs@ == report.costs()
        &&& self.timed@ == report.timed_flags()
        &&& self.fast@ == Seq::new(report.paths.len(), |i: int| report.is_fast(i))
        &&& self.has_fast == report.has_fast()
    }
}

fn survey(report: &ClientReport) -> (r: Survey)
    ensures
        r.of(report@),
{
    let unmetered: bool = any_unmetered(report);
    let saves: bool = report.policy == Policy::DataSaver;
    let mut eligible: Vec<bool> = Vec::new();
    let mut costs: Vec<Binary64> = Vec::new();
    let mut timed: Vec<bool> = Vec::new();
    let mut fast: Vec<bool> = Vec::new();
    let mut has_fast: bool = false;
    let mut i: usize = 0;
    while i < report.paths.len()
        invariant
            i <= report.paths@.len(),
            report.paths@.len() == report@.paths.len(),
            unmetered == report@.has_unmetered(),
            saves == (report.policy == Policy::DataSaver),
            eligible@.len() == i,
            costs@.len() == i,
            timed@.len() == i,
            fast@.len() == i,
            forall|j: int| 0 <= j < i ==> #[trigger] eligible@[j] == report@.eligible(j),
            forall|j: int|
                0 <= j < i ==> #[trigger] costs@[j] == spec_realtime_cost(report@.paths[j]),
            forall|j: int| 0 <= j < i ==> #[trigger] timed@[j] == report@.timed_flags()[j],
            forall|j: int| 0 <= j < i ==> #[trigger] fast@[j] == report@.is_fast(j),
            has_fast == exists|j: int|
                0 <= j < i && #[trigger] report@.eligible(j) && report@.is_fast(j),
        decreases report.paths@.len() - i,
    {
        let p: &PathReport = &report.paths[i];
        assert(report@.paths[i as int] == p@);
        let takes: bool = p.healthy && !(saves && p.metered && unmetered);
        let (known, quick) = match p.rtt_ms {
            Some(rtt) => (
                rtt.is_finite() && positive(rtt),
                positive(rtt) && rtt.lt(Binary64::whole(75)),
            ),
            None => (false, false),
        };
        eligible.push(takes);
        costs.push(realtime_cost(p));
        timed.push(known);
        fast.push(quick);
        assert(takes == report@.eligible(i as int));
        if takes && quick {
            assert(report@.eligible(i as int) && report@.is_fast(i as int));
            has_fast = true;
        }
        i = i + 1;
    }
    assert(eligible@ =~= report@.eligible_flags());
    assert(costs@ =~= report@.costs());
    assert(timed@ =~= report@.timed_flags());
    assert(fast@ =~= Seq::new(report@.paths.len(), |i: int| report@.is_fast(i)));
    let all: Vec<usize> = placement::all_below(report.paths.len());
    let list: Vec<usize> = placement::keep(&all, &eligible);
    Survey { eligible, list, costs, timed, fast, has_fast }
}

fn strongest_of(list: &Vec<usize>, scores: &Vec<Binary64>) -> (r: Option<usize>)
    requires
        placement::within(list@, scores@.len()),
    ensures
        r == strongest(list@, scores@),
        match r {
            Some(best) => best < scores@.len(),
            None => true,
        },
{
    let mut best: Option<usize> = None;
    let mut i: usize = 0;
    assert(list@.take(0) =~= Seq::empty());
    while i < list.len()
        invariant
            i <= list@.len(),
            placement::within(list@, scores@.len()),
            best == strongest(list@.take(i as int), scores@),
            match best {
                Some(b) => b < scores@.len(),
                None => true,
            },
        decreases list@.len() - i,
    {
        assert(list@.take(i + 1).drop_last() =~= list@.take(i as int));
        let entry: usize = list[i];
        match best {
            None => {
                best = Some(entry);
            },
            Some(b) => {
                if !scores[entry].precedes(scores[b]) {
                    best = Some(entry);
                }
            },
        }
        i = i + 1;
    }
    assert(list@.take(i as int) =~= list@);
    best
}

fn find_named(report: &ClientReport, list: &Vec<usize>, name: &String) -> (r: Option<usize>)
    requires
        placement::within(list@, report.paths@.len()),
    ensures
        r == named_in(report@, list@, name@, 0),
        match r {
            Some(c) => c < report.paths@.len(),
            None => true,
        },
{
    let mut i: usize = 0;
    while i < list.len()
        invariant
            i <= list@.len(),
            placement::within(list@, report.paths@.len()),
            named_in(report@, list@, name@, i as int) == named_in(report@, list@, name@, 0),
        decreases list@.len() - i,
    {
        assert(report@.paths[list@[i as int] as int] == report.paths@[list@[i as int] as int]@);
        if report.paths[list[i]].name == *name {
            return Some(list[i]);
        }
        i = i + 1;
    }
    None
}

fn choose_champion(
    previous: &Option<String>,
    report: &ClientReport,
    survey: &Survey,
    seen: &Vec<Observation>,
    direction: Direction,
) -> (r: Option<usize>)
    requires
        survey.of(report@),
        seen@.len() == report.paths@.len(),
    ensures
        r == champion(text_of(*previous), report@, seen@, direction),
        match r {
            Some(c) => c < report.paths@.len(),
            None => true,
        },
{
    let mut scores: Vec<Binary64> = Vec::new();
    let mut flags: Vec<bool> = Vec::new();
    let mut i: usize = 0;
    while i < seen.len()
        invariant
            i <= seen@.len(),
            scores@.len() == i,
            flags@.len() == i,
            forall|j: int| 0 <= j < i ==> #[trigger] scores@[j] == score(seen@[j], direction),
            forall|j: int| 0 <= j < i ==> #[trigger] flags@[j] == is_proven(seen@[j], direction),
        decreases seen@.len() - i,
    {
        scores.push(score(seen[i], direction));
        flags.push(is_proven(seen[i], direction));
        i = i + 1;
    }
    assert(scores@ =~= scores_of(seen@, direction));
    assert(flags@ =~= proven_flags(seen@, direction));
    let proven: Vec<usize> = placement::keep(&survey.list, &flags);
    match strongest_of(&proven, &scores) {
        None => {
            let measured: Vec<usize> = placement::keep(&survey.list, &survey.timed);
            match placement::cheapest_of(&measured, &survey.costs) {
                Some(c) => Some(c),
                None => placement::first(&survey.list),
            }
        },
        Some(best) => {
            let current: Option<usize> = match previous {
                Some(name) => find_named(report, &survey.list, name),
                None => None,
            };
            match current {
                Some(c) => if is_proven(seen[c], direction) && score(seen[best], direction).lt(
                    score(seen[c], direction).times(Binary64::ratio(115, 100)),
                ) {
                    Some(c)
                } else {
                    Some(best)
                },
                None => Some(best),
            }
        },
    }
}

fn is_guarded(list: &Vec<usize>, seen: &Vec<Observation>, upload: bool, rate: Binary64) -> (r: bool)
    requires
        placement::within(list@, seen@.len()),
    ensures
        r == guarded(list@, seen@, upload, rate),
{
    let mut total: Binary64 = Binary64::whole(0);
    let mut active: usize = 0;
    let mut i: usize = 0;
    assert(list@.take(0) =~= Seq::empty());
    while i < list.len()
        invariant
            i <= list@.len(),
            active <= i,
            placement::within(list@, seen@.len()),
            total == total_rate(list@.take(i as int), seen@, upload),
            active == active_count(list@.take(i as int), seen@, upload),
        decreases list@.len() - i,
    {
        assert(list@.take(i + 1).drop_last() =~= list@.take(i as int));
        let now: Binary64 = current_rate(seen[list[i]], upload);
        total = total.plus(now);
        if now.ge(Binary64::whole(64_000)) {
            active = active + 1;
        }
        i = i + 1;
    }
    assert(list@.take(i as int) =~= list@);
    active > 1 && rate.ge(Binary64::whole(1_000_000)) && total.ge(Binary64::whole(1_000_000))
        && total.lt(rate.times(Binary64::ratio(95, 100)))
}

fn shared_rate(champion: Option<usize>, seen: &Vec<Observation>, direction: Direction) -> (r:
    Binary64)
    requires
        champion is Some ==> champion->0 < seen@.len(),
    ensures
        r == rate_of(champion, seen@, direction),
{
    match champion {
        Some(c) => share_rate(seen[c], direction),
        None => Binary64::whole(0),
    }
}

fn names_match(report: &ClientReport, champion: Option<usize>, i: usize) -> (r: bool)
    requires
        champion is Some ==> champion->0 < report.paths@.len(),
        i < report.paths@.len(),
    ensures
        r == report@.same_name(champion, i as int),
{
    match champion {
        Some(c) => {
            assert(report@.paths[c as int] == report.paths@[c as int]@);
            assert(report@.paths[i as int] == report.paths@[i as int]@);
            report.paths[c].name == report.paths[i].name
        },
        None => false,
    }
}

fn champion_name(report: &ClientReport, champion: Option<usize>) -> (r: Option<String>)
    requires
        champion is Some ==> champion->0 < report.paths@.len(),
    ensures
        text_of(r) == name_at(report@, champion),
{
    match champion {
        Some(c) => Some(report.paths[c].name.clone()),
        None => None,
    }
}

fn weigh(
    report: &ClientReport,
    survey: &Survey,
    seen: &Vec<Observation>,
    champion: Option<usize>,
    direction: Direction,
    i: usize,
) -> (r: u32)
    requires
        survey.of(report@),
        seen@.len() == report.paths@.len(),
        champion is Some ==> champion->0 < report.paths@.len(),
        i < report.paths@.len(),
    ensures
        r == report@.weight(seen@, champion, direction, i as int),
{
    let p: &PathReport = &report.paths[i];
    assert(report@.paths[i as int] == p@);
    assert(survey.eligible@[i as int] == report@.eligible(i as int));
    let failing: Binary64 = finite_or(p.probe_failure_ratio, Binary64::whole(0)).clamp(
        Binary64::whole(0),
        Binary64::whole(1),
    );
    let steady: Binary64 = Binary64::whole(1).minus(failing.times(Binary64::ratio(8, 10)));
    allocation_weight(
        survey.eligible[i],
        names_match(report, champion, i),
        share_rate(seen[i], direction),
        shared_rate(champion, seen, direction),
        proof_count(seen[i], direction),
        steady,
    )
}

fn copy_names(report: &ClientReport, weights: &Vec<u32>) -> (r: Vec<(String, u32)>)
    requires
        weights@.len() == report.paths@.len(),
    ensures
        weight_views(r@) == Seq::new(
            report@.paths.len(),
            |i: int| (report@.paths[i].name, weights@[i]),
        ),
{
    let mut list: Vec<(String, u32)> = Vec::new();
    let mut i: usize = 0;
    while i < weights.len()
        invariant
            i <= weights@.len(),
            weights@.len() == report.paths@.len(),
            list@.len() == i,
            forall|j: int|
                0 <= j < i ==> weight_views(list@)[j] == (
                    #[trigger] report@.paths[j].name,
                    weights@[j],
                ),
        decreases weights@.len() - i,
    {
        let ghost before: Seq<(Seq<char>, u32)> = weight_views(list@);
        list.push((report.paths[i].name.clone(), weights[i]));
        assert(report@.paths[i as int] == report.paths@[i as int]@);
        assert(weight_views(list@) =~= before.push((report@.paths[i as int].name, weights@[i as int])));
        i = i + 1;
    }
    assert(weight_views(list@) =~= Seq::new(
        report@.paths.len(),
        |i: int| (report@.paths[i].name, weights@[i]),
    ));
    list
}

impl Controller {
    fn find(&self, name: &String) -> (r: usize)
        ensures
            r == slot(self@.known, name@, 0),
            r <= self.known@.len(),
    {
        let mut i: usize = 0;
        while i < self.known.len()
            invariant
                i <= self.known@.len(),
                slot(self@.known, name@, i as int) == slot(self@.known, name@, 0),
            decreases self.known@.len() - i,
        {
            if self.known[i].0 == *name {
                return i;
            }
            i = i + 1;
        }
        i
    }

    /// What is known of a path.
    pub fn observation(&self, name: &String) -> (r: Observation)
        ensures
            r == known_of(self@.known, name@),
    {
        let i: usize = self.find(name);
        if i < self.known.len() {
            self.known[i].1
        } else {
            nothing_known()
        }
    }

    /// Milliseconds since each path's last sample. They tell how far rates
    /// fade by the time of the report.
    pub fn elapsed(&self, report: &ClientReport) -> (r: Vec<u64>)
        ensures
            r@ == Seq::new(
                report@.paths.len(),
                |i: int|
                    report@.sample_ms.saturating_sub(
                        known_of(self@.known, report@.paths[i].name).sample_ms,
                    ),
            ),
    {
        let mut list: Vec<u64> = Vec::new();
        let mut i: usize = 0;
        while i < report.paths.len()
            invariant
                i <= report.paths@.len(),
                list@.len() == i,
                forall|j: int|
                    0 <= j < i ==> #[trigger] list@[j] == report@.sample_ms.saturating_sub(
                        known_of(self@.known, report@.paths[j].name).sample_ms,
                    ),
            decreases report.paths@.len() - i,
        {
            assert(report@.paths[i as int] == report.paths@[i as int]@);
            let o: Observation = self.observation(&report.paths[i].name);
            list.push(report.sample_ms.saturating_sub(o.sample_ms));
            i = i + 1;
        }
        assert(list@ =~= Seq::new(
            report@.paths.len(),
            |i: int|
                report@.sample_ms.saturating_sub(
                    known_of(self@.known, report@.paths[i].name).sample_ms,
                ),
        ));
        list
    }

    fn forget_others(&mut self, report: &ClientReport)
        ensures
            final(self)@ == (ControllerView {
                known: still_reported(
                    old(self)@.known,
                    report@.paths,
                    old(self)@.known.len(),
                ),
                ..old(self)@
            }),
    {
        let ghost before: ControllerView = self@;
        let ghost mut done: int = 0;
        let mut i: usize = 0;
        assert(before.known.skip(0) =~= before.known);
        assert(still_reported(before.known, report@.paths, 0) + before.known =~= before.known);
        while i < self.known.len()
            invariant
                0 <= done <= before.known.len(),
                i == still_reported(before.known, report@.paths, done as nat).len(),
                self@ == (ControllerView {
                    known: still_reported(before.known, report@.paths, done as nat)
                        + before.known.skip(done),
                    ..before
                }),
            decreases before.known.len() - done,
        {
            let ghost kept: Seq<(Seq<char>, Observation)> = still_reported(
                before.known,
                report@.paths,
                done as nat,
            );
            let ghost prior: Seq<(Seq<char>, Observation)> = self@.known;
            assert(prior[i as int] == before.known[done]);
            if has_name(&report.paths, &self.known[i].0) {
                assert(kept.push(before.known[done]) + before.known.skip(done + 1) =~= prior);
                i = i + 1;
            } else {
                let _ = self.known.remove(i);
                assert(self@.known =~= prior.remove(i as int));
                assert(prior.remove(i as int) =~= kept + before.known.skip(done + 1));
            }
            proof {
                done = done + 1;
            }
        }
        proof {
            assert(self.known@.len() == self@.known.len());
            assert(before.known.skip(done) =~= Seq::empty());
            assert(done == before.known.len());
            assert(self@.known =~= still_reported(
                before.known,
                report@.paths,
                before.known.len(),
            ));
        }
    }

    /// Learns from a report.
    fn learn(&mut self, report: &ClientReport, decays: &Vec<Decay>)
        requires
            decays@.len() == report.paths@.len(),
        ensures
            final(self)@ == (ControllerView {
                known: after_report(old(self)@.known, report@, decays@),
                ..old(self)@
            }),
    {
        self.forget_others(report);
        let ghost base: ControllerView = self@;
        let mut i: usize = 0;
        while i < report.paths.len()
            invariant
                i <= report.paths@.len(),
                decays@.len() == report.paths@.len(),
                self@ == (ControllerView {
                    known: after_paths(base.known, report@, decays@, i as nat),
                    ..base
                }),
            decreases report.paths@.len() - i,
        {
            let ghost before: Seq<(Seq<char>, Observation)> = self@.known;
            let p: &PathReport = &report.paths[i];
            assert(report@.paths[i as int] == p@);
            let at: usize = self.find(&p.name);
            let prior: Observation = if at < self.known.len() {
                self.known[at].1
            } else {
                nothing_known()
            };
            let next: Observation = observe(prior, p, report.sample_ms, decays[i]);
            if at < self.known.len() {
                self.known[at] = (p.name.clone(), next);
                assert(self@.known =~= before.update(at as int, (p@.name, next)));
            } else {
                self.known.push((p.name.clone(), next));
                assert(self@.known =~= before.push((p@.name, next)));
            }
            i = i + 1;
        }
    }

    fn look_up(&self, report: &ClientReport) -> (r: Vec<Observation>)
        ensures
            r@ == seen_by(self@.known, report@.paths),
    {
        let mut seen: Vec<Observation> = Vec::new();
        let mut i: usize = 0;
        while i < report.paths.len()
            invariant
                i <= report.paths@.len(),
                seen@.len() == i,
                forall|j: int|
                    0 <= j < i ==> #[trigger] seen@[j] == known_of(
                        self@.known,
                        report@.paths[j].name,
                    ),
            decreases report.paths@.len() - i,
        {
            assert(report@.paths[i as int] == report.paths@[i as int]@);
            seen.push(self.observation(&report.paths[i].name));
            i = i + 1;
        }
        assert(seen@ =~= seen_by(self@.known, report@.paths));
        seen
    }

    /// Learns from a report and advises. The decays are those of each path's
    /// rates since its last sample.
    #[verifier::rlimit(40)]
    pub fn advise(&mut self, report: &ClientReport, generation: u64, decays: &Vec<Decay>) -> (r:
        BrainAdvice)
        requires
            decays@.len() == report.paths@.len(),
        ensures
            (final(self)@, r@) == old(self)@.advised(report@, decays@),
            r.generation == generation,
            r.strategy@ == STRATEGY@,
            r.cutoff_ms == Binary64::whole(75),
            r.recovery_ms == Binary64::whole(65),
            r.relay_fallback,
            r.valid_for_ms == 5_000,
    {
        let ghost before: ControllerView = self@;
        self.learn(report, decays);
        let seen: Vec<Observation> = self.look_up(report);
        let survey: Survey = survey(report);
        let download: Option<usize> = choose_champion(
            &self.download_champion,
            report,
            &survey,
            &seen,
            Direction::Download,
        );
        let upload: Option<usize> = choose_champion(
            &self.upload_champion,
            report,
            &survey,
            &seen,
            Direction::Upload,
        );
        let balanced: Option<usize> = choose_champion(
            &self.balanced_champion,
            report,
            &survey,
            &seen,
            Direction::Balanced,
        );
        let download_guarded: bool = is_guarded(
            &survey.list,
            &seen,
            false,
            shared_rate(download, &seen, Direction::Download),
        );
        let upload_guarded: bool = is_guarded(
            &survey.list,
            &seen,
            true,
            shared_rate(upload, &seen, Direction::Upload),
        );
        let choice: Choice = Choice { download, upload, balanced, download_guarded, upload_guarded };
        assert(choice == before.chosen(report@, seen@));
        self.download_champion = champion_name(report, download);
        self.upload_champion = champion_name(report, upload);
        self.balanced_champion = champion_name(report, balanced);
        let shares: Shares = share(report, &survey, &seen, &choice);
        let r: BrainAdvice = BrainAdvice {
            generation,
            strategy: STRATEGY.to_string(),
            cutoff_ms: Binary64::whole(75),
            recovery_ms: Binary64::whole(65),
            relay_fallback: true,
            weights: copy_names(report, &shares.balanced),
            download_weights: copy_names(report, &shares.download),
            upload_weights: copy_names(report, &shares.upload),
            realtime_weights: copy_names(report, &shares.realtime),
            balanced_champion: champion_name(report, balanced),
            download_champion: champion_name(report, download),
            upload_champion: champion_name(report, upload),
            download_guarded,
            upload_guarded,
            learned_paths: shares.learned,
            valid_for_ms: 5_000,
        };
        proof {
            let want: (ControllerView, AdviceView) = before.advised(report@, decays@);
            assert(self@ =~= want.0);
            assert(r@.weights =~= want.1.weights);
            assert(r@.download_weights =~= want.1.download_weights);
            assert(r@.upload_weights =~= want.1.upload_weights);
            assert(r@.realtime_weights =~= want.1.realtime_weights);
            assert(r@ =~= want.1);
        }
        r
    }
}

/// The shares of all paths.
struct Shares {
    balanced: Vec<u32>,
    download: Vec<u32>,
    upload: Vec<u32>,
    realtime: Vec<u32>,
    learned: usize,
}

fn share(report: &ClientReport, survey: &Survey, seen: &Vec<Observation>, choice: &Choice) -> (r:
    Shares)
    requires
        survey.of(report@),
        seen@.len() == report.paths@.len(),
        choice.download is Some ==> choice.download->0 < report.paths@.len(),
        choice.upload is Some ==> choice.upload->0 < report.paths@.len(),
        choice.balanced is Some ==> choice.balanced->0 < report.paths@.len(),
    ensures
        r.balanced@ == Seq::new(
            report@.paths.len(),
            |i: int| report@.balanced_weight(seen@, *choice, i),
        ),
        r.download@ == Seq::new(
            report@.paths.len(),
            |i: int| report@.download_weight(seen@, *choice, i),
        ),
        r.upload@ == Seq::new(
            report@.paths.len(),
            |i: int| report@.upload_weight(seen@, *choice, i),
        ),
        r.realtime@ == Seq::new(report@.paths.len(), |i: int| report@.realtime_weight(i)),
        r.learned == learned_count(seen@, seen@.len()),
{
    let best: Option<usize> = placement::cheapest_of(&survey.list, &survey.costs);
    let mut balanced: Vec<u32> = Vec::new();
    let mut download: Vec<u32> = Vec::new();
    let mut upload: Vec<u32> = Vec::new();
    let mut realtime: Vec<u32> = Vec::new();
    let mut learned: usize = 0;
    let mut i: usize = 0;
    while i < report.paths.len()
        invariant
            i <= report.paths@.len(),
            report.paths@.len() == report@.paths.len(),
            survey.of(report@),
            seen@.len() == report.paths@.len(),
            choice.download is Some ==> choice.download->0 < report.paths@.len(),
            choice.upload is Some ==> choice.upload->0 < report.paths@.len(),
            choice.balanced is Some ==> choice.balanced->0 < report.paths@.len(),
            best == placement::cheapest(report@.eligible_list(), report@.costs()),
            best is Some ==> best->0 < report.paths@.len(),
            balanced@.len() == i,
            download@.len() == i,
            upload@.len() == i,
            realtime@.len() == i,
            learned <= i,
            learned == learned_count(seen@, i as nat),
            forall|j: int|
                0 <= j < i ==> #[trigger] balanced@[j] == report@.balanced_weight(
                    seen@,
                    *choice,
                    j,
                ),
            forall|j: int|
                0 <= j < i ==> #[trigger] download@[j] == report@.download_weight(
                    seen@,
                    *choice,
                    j,
                ),
            forall|j: int|
                0 <= j < i ==> #[trigger] upload@[j] == report@.upload_weight(seen@, *choice, j),
            forall|j: int| 0 <= j < i ==> #[trigger] realtime@[j] == report@.realtime_weight(j),
        decreases report.paths@.len() - i,
    {
        let p: &PathReport = &report.paths[i];
        assert(report@.paths[i as int] == p@);
        let held: bool = match p.tcp {
            Some(tcp) => tcp.held,
            None => false,
        };
        if seen[i].upload_samples > 0 || seen[i].download_samples > 0 {
            learned = learned + 1;
        }
        upload.push(
            if held {
                0
            } else if choice.upload_guarded && !names_match(report, choice.upload, i) {
                1
            } else {
                weigh(report, survey, seen, choice.upload, Direction::Upload, i)
            },
        );
        download.push(
            if choice.download_guarded && !names_match(report, choice.download, i) {
                1
            } else {
                weigh(report, survey, seen, choice.download, Direction::Download, i)
            },
        );
        balanced.push(
            if held {
                0
            } else {
                weigh(report, survey, seen, choice.balanced, Direction::Balanced, i)
            },
        );
        assert(survey.eligible@[i as int] == report@.eligible(i as int));
        assert(survey.fast@[i as int] == report@.is_fast(i as int));
        assert(survey.costs@[i as int] == spec_realtime_cost(report@.paths[i as int]));
        let takes_part: bool = survey.eligible[i] && if survey.has_fast {
            survey.fast[i]
        } else {
            names_match(report, best, i)
        };
        realtime.push(
            if takes_part {
                small_whole(Binary64::whole(640).over(survey.costs[i]))
            } else {
                0
            },
        );
        i = i + 1;
    }
    assert(balanced@ =~= Seq::new(
        report@.paths.len(),
        |i: int| report@.balanced_weight(seen@, *choice, i),
    ));
    assert(download@ =~= Seq::new(
        report@.paths.len(),
        |i: int| report@.download_weight(seen@, *choice, i),
    ));
    assert(upload@ =~= Seq::new(
        report@.paths.len(),
        |i: int| report@.upload_weight(seen@, *choice, i),
    ));
    assert(realtime@ =~= Seq::new(report@.paths.len(), |i: int| report@.realtime_weight(i)));
    Shares { balanced, download, upload, realtime, learned }
}

/// The advice of a controller that knows nothing yet.
pub fn advise(report: &ClientReport, generation: u64) -> (r: BrainAdvice)
    ensures
        r@ == fresh_controller().advised(
            report@,
            Seq::new(
                report@.paths.len(),
                |i: int| Decay { loaded: Binary64::whole(0), idle: Binary64::whole(0) },
            ),
        ).1,
        r.generation == generation,
        r.strategy@ == STRATEGY@,
        r.cutoff_ms == Binary64::whole(75),
        r.recovery_ms == Binary64::whole(65),
        r.relay_fallback,
        r.valid_for_ms == 5_000,
{
    let mut decays: Vec<Decay> = Vec::new();
    let mut i: usize = 0;
    let none: Decay = Decay { loaded: Binary64::whole(0), idle: Binary64::whole(0) };
    while i < report.paths.len()
        invariant
            i <= report.paths@.len(),
            decays@.len() == i,
            forall|j: int| 0 <= j < i ==> #[trigger] decays@[j] == none,
        decreases report.paths@.len() - i,
    {
        decays.push(none);
        i = i + 1;
    }
    assert(decays@ =~= Seq::new(
        report@.paths.len(),
        |i: int| Decay { loaded: Binary64::whole(0), idle: Binary64::whole(0) },
    ));
    let mut controller: Controller = Controller::default();
    controller.advise(report, generation, &decays)
}

/// A path that is not eligible gets no work, unless sharing is off. Nothing
/// new is sent on a path whose uplink is held.
pub proof fn ineligible_gets_nothing(
    report: ReportView,
    seen: Seq<Observation>,
    choice: Choice,
    i: int,
)
    requires
        0 <= i < report.paths.len(),
    ensures
        !report.eligible(i) ==> report.balanced_weight(seen, choice, i) == 0
            && report.realtime_weight(i) == 0,
        !report.eligible(i) && !choice.upload_guarded ==> report.upload_weight(seen, choice, i)
            == 0,
        !report.eligible(i) && !choice.download_guarded ==> report.download_weight(seen, choice, i)
            == 0,
        is_held(report.paths[i].tcp) ==> report.upload_weight(seen, choice, i) == 0
            && report.balanced_weight(seen, choice, i) == 0,
{
}

/// No weight exceeds the full one.
pub proof fn weights_are_bounded(
    report: ReportView,
    seen: Seq<Observation>,
    choice: Choice,
    i: int,
)
    requires
        0 <= i < report.paths.len(),
    ensures
        report.balanced_weight(seen, choice, i) <= FULL_WEIGHT,
        report.download_weight(seen, choice, i) <= FULL_WEIGHT,
        report.upload_weight(seen, choice, i) <= FULL_WEIGHT,
        report.realtime_weight(i) <= FULL_WEIGHT,
{
}

/// Under the policy that saves data, a metered path gets no work while an
/// unmetered one is healthy.
pub proof fn saver_avoids_metered(report: ReportView, i: int, other: int)
    requires
        0 <= i < report.paths.len(),
        0 <= other < report.paths.len(),
        report.policy == Policy::DataSaver,
        report.paths[i].metered,
        report.paths[other].healthy,
        !report.paths[other].metered,
    ensures
        !report.eligible(i),
{
    assert(report.paths[other].healthy && !report.paths[other].metered);
}

/// A proven champion keeps its place unless a proven path's rate exceeds its
/// own by at least 15 percent.
pub proof fn champion_is_sticky(
    report: ReportView,
    seen: Seq<Observation>,
    direction: Direction,
    name: Seq<char>,
    c: usize,
)
    requires
        named_in(report, report.eligible_list(), name, 0) == Some(c),
        report.eligible_list().contains(c),
        is_proven(seen[c as int], direction),
        seen.len() == report.paths.len(),
        forall|i: int|
            0 <= i < seen.len() ==> #[trigger] score(seen[i], direction).lt(
                score(seen[c as int], direction).times(Binary64::ratio(115, 100)),
            ),
    ensures
        champion(Some(name), report, seen, direction) == Some(c),
{
    let n: nat = report.paths.len();
    let list: Seq<usize> = report.eligible_list();
    let flags: Seq<bool> = proven_flags(seen, direction);
    placement::lemma_kept(placement::up_to(n), report.eligible_flags(), n);
    placement::lemma_kept(list, flags, n);
    assert(c < n) by {
        let k: int = choose|k: int| 0 <= k < list.len() && list[k] == c;
        assert(list[k] < n);
    }
    assert(flags[c as int]);
    let proven: Seq<usize> = placement::kept(list, flags);
    assert(proven.contains(c));
    lemma_strongest(proven, scores_of(seen, direction), n);
    let best: usize = strongest(proven, scores_of(seen, direction))->0;
    assert(score(seen[best as int], direction).lt(
        score(seen[c as int], direction).times(Binary64::ratio(115, 100)),
    ));
}

proof fn lemma_strongest(list: Seq<usize>, scores: Seq<Binary64>, n: nat)
    requires
        placement::within(list, n),
    ensures
        list.len() > 0 ==> strongest(list, scores) is Some && strongest(list, scores)->0 < n,
    decreases list.len(),
{
    if list.len() > 0 {
        lemma_strongest(list.drop_last(), scores, n);
        assert(list[list.len() - 1] < n);
    }
}

/// A path whose counters do not continue is known only from the new sample:
/// no rate, no peak and no evidence survive.
pub proof fn restart_forgets(o: Observation, p: PathReportView, sample_ms: u64, decay: Decay)
    requires
        !continues(o, p, sample_ms),
    ensures
        ({
            let next: Observation = observed(o, p, sample_ms, decay);
            next.upload_samples == 0 && next.download_samples == 0 && next.upload_bps
                == Binary64::whole(0) && next.download_bps == Binary64::whole(0)
                && next.upload_peak_bps == Binary64::whole(0) && next.download_peak_bps
                == Binary64::whole(0)
        }),
{
    reveal(observed);
}

/// What the brain's handshake binds besides the secret.
pub open spec fn prologue() -> Seq<u8> {
    vstd::utf8::encode_utf8("VERZ Link brain v1 / path metadata only"@)
}

/// Begins the handshake of a control connection.
pub fn handshake(secret: &[u8; 32], initiator: bool) -> (r: Result<HandshakeState, TunnelError>)
    ensures
        r is Ok,
        noise::handshake_inputs(r->Ok_0) == (noise::pattern(), initiator, secret@, prologue()),
        noise::handshake_turn(r->Ok_0) == (Seq::<Seq<u8>>::empty(), initiator),
        !noise::handshake_finished(r->Ok_0),
{
    match noise::begin(
        "Noise_NNpsk0_25519_ChaChaPoly_BLAKE2s",
        secret,
        "VERZ Link brain v1 / path metadata only".as_bytes(),
        initiator,
    ) {
        Ok(state) => Ok(state),
        Err(_error) => Err(TunnelError::Noise),
    }
}

/// Whether a control message has a length that may be sent.
pub fn frame_length_allowed(length: usize) -> (r: bool)
    ensures
        r == (1 <= length <= MAX_FRAME),
{
    1 <= length && length <= MAX_FRAME
}

/// A control message on the stream: its length, then itself.
pub fn framed(payload: &[u8]) -> (r: Option<Vec<u8>>)
    ensures
        match r {
            Some(bytes) => 1 <= payload@.len() <= MAX_FRAME && bytes@ == wire::be_bytes(
                payload@.len(),
                4,
            ) + payload@,
            None => !(1 <= payload@.len() <= MAX_FRAME),
        },
{
    if !frame_length_allowed(payload.len()) {
        return None;
    }
    let mut bytes: Vec<u8> = Vec::new();
    wire::put_be(&mut bytes, payload.len() as u64, 4);
    wire::put_all(&mut bytes, payload);
    assert(bytes@ =~= wire::be_bytes(payload@.len(), 4) + payload@);
    Some(bytes)
}

} // verus!
