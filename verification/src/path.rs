//! One path of a bonded link: its measured delay, its congestion window and
//! its standing. Time is monotonic milliseconds given by the caller.
use crate::binary64::Binary64;
use crate::frame::BOND_MTU;
use vstd::prelude::*;

verus! {

pub const PROBE_MS: u64 = 20;

/// Silence after which a path gets no new traffic while another one answers.
pub const FAST_SILENCE_MS: u64 = 60;

pub const LATENCY_CUTOFF_MS: u64 = 75;

/// Delay below which a path that was cut off is used for calls again.
pub const LATENCY_RECOVERY_MS: u64 = 65;

/// Longest time that a path which came back is only probed.
pub const REJOIN_PROBATION_MS: u64 = 5_000;

/// Time of steady answers that ends the probation of such a path.
pub const REJOIN_STABLE_MS: u64 = 1_500;

/// Only an unbroken run of raised samples this long counts as queueing.
pub const QUEUE_PERSIST_MS: u64 = 100;

pub const PAUSE_BUCKET_MS: u64 = 1000;

pub const MAX_PAUSE_REPAIR_MS: u64 = 300;

pub const DELAY_SLACK_MS: u64 = 30;

pub const INITIAL_WINDOW: usize = 40_960;

pub const MAX_WINDOW: usize = 4_194_304;

pub const INITIAL_SLOW_START: usize = 4_194_304;

/// Encoding of the largest finite number.
pub const LARGEST_BITS: u64 = 0x7fef_ffff_ffff_ffff;

/// The largest finite number, which stands for a delay not yet known.
#[verifier::allow_in_spec]
pub fn unknown_delay() -> Binary64
    returns
        (Binary64 { bits: LARGEST_BITS }),
{
    Binary64 { bits: LARGEST_BITS }
}

#[verifier::allow_in_spec]
pub fn zero() -> Binary64
    returns
        (Binary64 { bits: 0 }),
{
    Binary64 { bits: 0 }
}

#[derive(Clone, Copy, Debug, PartialEq, Eq, Structural)]
pub enum PathState {
    Discovering,
    Recovering,
    Healthy,
    Degraded,
    Failed,
    Removed,
}

impl PathState {
    pub fn name(self) -> (r: &'static str)
        ensures
            r@ == match self {
                PathState::Discovering => "discovering"@,
                PathState::Recovering => "recovering"@,
                PathState::Healthy => "healthy"@,
                PathState::Degraded => "degraded"@,
                PathState::Failed => "failed"@,
                PathState::Removed => "removed"@,
            },
    {
        match self {
            PathState::Discovering => "discovering",
            PathState::Recovering => "recovering",
            PathState::Healthy => "healthy",
            PathState::Degraded => "degraded",
            PathState::Failed => "failed",
            PathState::Removed => "removed",
        }
    }
}

#[derive(Clone, Copy, Debug, PartialEq, Eq, Structural)]
pub enum ReductionReason {
    RttDelay,
    LossTimeout,
}

impl ReductionReason {
    pub fn name(self) -> (r: &'static str)
        ensures
            r@ == match self {
                ReductionReason::RttDelay => "rtt_delay"@,
                ReductionReason::LossTimeout => "loss_timeout"@,
            },
    {
        match self {
            ReductionReason::RttDelay => "rtt_delay",
            ReductionReason::LossTimeout => "loss_timeout",
        }
    }
}

#[derive(Clone, Copy, Debug, PartialEq, Eq, Structural)]
pub struct WindowReduction {
    pub reason: ReductionReason,
    pub at_ms: u64,
    pub before_bytes: usize,
    pub after_bytes: usize,
    pub in_flight_bytes: usize,
    pub rtt_ms: Option<Binary64>,
    pub minimum_rtt_ms: Binary64,
    pub jitter_ms: Binary64,
}

#[derive(Clone, Copy, Debug)]
pub struct WindowControl {
    pub delay_reductions: u64,
    pub loss_reductions: u64,
    pub idle_delay_observations: u64,
    pub app_limited_delay_observations: u64,
    pub app_limited_growth_acks: u64,
    pub growth_paused_acks: u64,
    pub last_reduction: Option<WindowReduction>,
}

pub open spec fn no_control() -> WindowControl {
    WindowControl {
        delay_reductions: 0,
        loss_reductions: 0,
        idle_delay_observations: 0,
        app_limited_delay_observations: 0,
        app_limited_growth_acks: 0,
        growth_paused_acks: 0,
        last_reduction: None,
    }
}

impl Default for WindowControl {
    fn default() -> (r: Self)
        ensures
            r == no_control(),
    {
        WindowControl {
            delay_reductions: 0,
            loss_reductions: 0,
            idle_delay_observations: 0,
            app_limited_delay_observations: 0,
            app_limited_growth_acks: 0,
            growth_paused_acks: 0,
            last_reduction: None,
        }
    }
}

#[verifier::allow_in_spec]
pub fn larger(a: u64, b: u64) -> u64
    returns
        if a >= b {
            a
        } else {
            b
        },
{
    if a >= b {
        a
    } else {
        b
    }
}

#[verifier::allow_in_spec]
pub fn smaller(a: u64, b: u64) -> u64
    returns
        if a <= b {
            a
        } else {
            b
        },
{
    if a <= b {
        a
    } else {
        b
    }
}

#[verifier::allow_in_spec]
pub fn larger_size(a: usize, b: usize) -> usize
    returns
        if a >= b {
            a
        } else {
            b
        },
{
    if a >= b {
        a
    } else {
        b
    }
}

#[verifier::allow_in_spec]
pub fn smaller_size(a: usize, b: usize) -> usize
    returns
        if a <= b {
            a
        } else {
            b
        },
{
    if a <= b {
        a
    } else {
        b
    }
}

/// Peak of a value over the four most recent time buckets, newest first.
#[derive(Clone, Copy, Debug)]
pub struct RecentPeak {
    pub start: u64,
    pub values: (u64, u64, u64, u64),
}

pub open spec fn no_peak() -> RecentPeak {
    RecentPeak { start: 0, values: (0, 0, 0, 0) }
}

impl RecentPeak {
    pub open spec fn aged(self, elapsed: u64) -> (u64, u64, u64, u64) {
        if elapsed == 0 {
            self.values
        } else if elapsed == 1 {
            (0, self.values.0, self.values.1, self.values.2)
        } else if elapsed == 2 {
            (0, 0, self.values.0, self.values.1)
        } else if elapsed == 3 {
            (0, 0, 0, self.values.0)
        } else {
            (0, 0, 0, 0)
        }
    }

    pub open spec fn pushed(self, now: u64, value: u64) -> RecentPeak {
        let elapsed: u64 = now.saturating_sub(self.start) / PAUSE_BUCKET_MS;
        let aged: (u64, u64, u64, u64) = self.aged(elapsed);
        RecentPeak {
            start: (self.start + elapsed * PAUSE_BUCKET_MS) as u64,
            values: (larger(aged.0, value), aged.1, aged.2, aged.3),
        }
    }

    pub fn push(&mut self, now: u64, value: u64)
        ensures
            *final(self) == old(self).pushed(now, value),
    {
        let elapsed: u64 = now.saturating_sub(self.start) / PAUSE_BUCKET_MS;
        let (a, b, c, d) = self.values;
        let aged: (u64, u64, u64, u64) = if elapsed == 0 {
            (a, b, c, d)
        } else if elapsed == 1 {
            (0, a, b, c)
        } else if elapsed == 2 {
            (0, 0, a, b)
        } else if elapsed == 3 {
            (0, 0, 0, a)
        } else {
            (0, 0, 0, 0)
        };
        self.start = self.start + elapsed * PAUSE_BUCKET_MS;
        self.values = (larger(aged.0, value), aged.1, aged.2, aged.3);
    }

    #[verifier::allow_in_spec]
    pub fn peak(&self) -> u64
        returns
            larger(larger(self.values.0, self.values.1), larger(self.values.2, self.values.3)),
    {
        larger(larger(self.values.0, self.values.1), larger(self.values.2, self.values.3))
    }
}

/// A value counts toward the peak as long as its bucket is among the four.
pub proof fn peak_covers_pushed(peak: RecentPeak, now: u64, value: u64)
    ensures
        peak.pushed(now, value).peak() >= value,
{
}

#[derive(Clone, Copy, Debug)]
pub struct TcpRate {
    pub started: Option<u64>,
    pub bytes: u64,
    pub loaded: bool,
    pub sampled_at: Option<u64>,
}

pub open spec fn no_rate() -> TcpRate {
    TcpRate { started: None, bytes: 0, loaded: false, sampled_at: None }
}

#[derive(Clone, Copy, Debug)]
pub struct Path {
    pub id: u8,
    pub metered: bool,
    pub enabled: bool,
    pub state: PathState,
    pub rtt_ms: Option<Binary64>,
    pub jitter_ms: Binary64,
    pub minimum_rtt_ms: Binary64,
    /// True only after an unbroken run of samples above the delay slack.
    pub queue_persistent: bool,
    /// Longest recent gap between responses; it extends the repair deadline.
    pub response_pause_ms: u64,
    pub acknowledged_bytes: u64,
    pub sent_bytes: u64,
    pub received_bytes: u64,
    pub delivery_bps: Binary64,
    /// Bulk TCP bytes acknowledged for the first time during a loaded sample.
    pub tcp_delivery_bps: Binary64,
    pub tcp_rate: TcpRate,
    pub in_flight: usize,
    pub congestion_window: usize,
    pub slow_start_threshold: usize,
    pub timeouts: u64,
    pub latency_excluded: bool,
    pub window_control: WindowControl,
    pub last_response: Option<u64>,
    pub good_samples: u8,
    pub next_send: Binary64,
    pub rate_started: u64,
    pub rate_bytes: u64,
    pub last_congestion: Option<u64>,
    pub growth_credit: usize,
    pub last_delay_adjust: Option<u64>,
    pub capacity_used_until: Option<u64>,
    pub probation_until: Option<u64>,
    pub probation_stable_since: Option<u64>,
    pub elevated_since: Option<u64>,
    pub pauses: RecentPeak,
    /// Every re-admission is a new incarnation. Packets of an older one never
    /// release or train the congestion state of the new one.
    pub generation: u64,
}

/// A path that has just been offered.
pub open spec fn fresh_path(id: u8, metered: bool) -> Path {
    Path {
        id,
        metered,
        enabled: true,
        state: PathState::Discovering,
        rtt_ms: None,
        jitter_ms: zero(),
        minimum_rtt_ms: unknown_delay(),
        queue_persistent: false,
        response_pause_ms: 0,
        acknowledged_bytes: 0,
        sent_bytes: 0,
        received_bytes: 0,
        delivery_bps: zero(),
        tcp_delivery_bps: zero(),
        tcp_rate: no_rate(),
        in_flight: 0,
        congestion_window: INITIAL_WINDOW,
        slow_start_threshold: INITIAL_SLOW_START,
        timeouts: 0,
        latency_excluded: false,
        window_control: no_control(),
        last_response: None,
        good_samples: 0,
        next_send: zero(),
        rate_started: 0,
        rate_bytes: 0,
        last_congestion: None,
        growth_credit: 0,
        last_delay_adjust: None,
        capacity_used_until: None,
        probation_until: None,
        probation_stable_since: None,
        elevated_since: None,
        pauses: no_peak(),
        generation: 0,
    }
}

/// Credit and window after whole windows of credit were turned into packets.
pub open spec fn grown(credit: usize, window: usize) -> (usize, usize)
    decreases
            credit,
            (if window == 0 {
                1int
            } else {
                0
            }),
{
    if credit >= window {
        grown((credit - window) as usize, window.wrapping_add(BOND_MTU))
    } else {
        (credit, window)
    }
}

impl Path {
    pub fn new(id: u8, metered: bool) -> (r: Self)
        ensures
            r == fresh_path(id, metered),
    {
        Path {
            id,
            metered,
            enabled: true,
            state: PathState::Discovering,
            rtt_ms: None,
            jitter_ms: zero(),
            minimum_rtt_ms: unknown_delay(),
            queue_persistent: false,
            response_pause_ms: 0,
            acknowledged_bytes: 0,
            sent_bytes: 0,
            received_bytes: 0,
            delivery_bps: zero(),
            tcp_delivery_bps: zero(),
            tcp_rate: TcpRate { started: None, bytes: 0, loaded: false, sampled_at: None },
            in_flight: 0,
            congestion_window: INITIAL_WINDOW,
            slow_start_threshold: INITIAL_SLOW_START,
            timeouts: 0,
            latency_excluded: false,
            window_control: WindowControl::default(),
            last_response: None,
            good_samples: 0,
            next_send: zero(),
            rate_started: 0,
            rate_bytes: 0,
            last_congestion: None,
            growth_credit: 0,
            last_delay_adjust: None,
            capacity_used_until: None,
            probation_until: None,
            probation_stable_since: None,
            elevated_since: None,
            pauses: RecentPeak { start: 0, values: (0, 0, 0, 0) },
            generation: 0,
        }
    }

    /// Smoothed delay, or a default in whole milliseconds.
    #[verifier::allow_in_spec]
    pub fn rtt_or(&self, default: u64) -> Binary64
        returns
            self.rtt_ms.unwrap_or(Binary64::whole(default)),
    {
        self.rtt_ms.unwrap_or(Binary64::whole(default))
    }

    /// Milliseconds without an answer after which the path has failed. Several
    /// probes must go missing, with headroom for jitter.
    #[verifier::allow_in_spec]
    pub fn failure_ms(&self) -> u64
        returns
            Binary64::whole(8).times(Binary64::whole(PROBE_MS)).plus(
                Binary64::whole(4).times(self.jitter_ms),
            ).clamp(Binary64::whole(250), Binary64::whole(2000)).floor_u64(),
    {
        Binary64::whole(8).times(Binary64::whole(PROBE_MS)).plus(
            Binary64::whole(4).times(self.jitter_ms),
        ).clamp(Binary64::whole(250), Binary64::whole(2000)).floor_u64()
    }

    /// Age at which an unacknowledged copy is repaired. It covers the pauses
    /// that were observed on the path.
    #[verifier::allow_in_spec]
    pub fn repair_ms(&self) -> u64
        returns
            larger(
                self.rtt_or(30).plus(Binary64::whole(4).times(self.jitter_ms)).plus(
                    Binary64::whole(20),
                ).max(Binary64::whole(70)).floor_u64(),
                smaller(self.response_pause_ms.saturating_add(20), MAX_PAUSE_REPAIR_MS),
            ),
    {
        larger(
            self.rtt_or(30).plus(Binary64::whole(4).times(self.jitter_ms)).plus(
                Binary64::whole(20),
            ).max(Binary64::whole(70)).floor_u64(),
            smaller(self.response_pause_ms.saturating_add(20), MAX_PAUSE_REPAIR_MS),
        )
    }

    /// Whether the last response is at most `limit` old.
    #[verifier::allow_in_spec]
    pub fn responded_within(&self, now: u64, limit: u64) -> bool
        returns
            match self.last_response {
                Some(last) => now.saturating_sub(last) <= limit,
                None => false,
            },
    {
        match self.last_response {
            Some(last) => now.saturating_sub(last) <= limit,
            None => false,
        }
    }

    #[verifier::allow_in_spec]
    pub fn recently_responding(&self, now: u64) -> bool
        returns
            self.responded_within(now, smaller(FAST_SILENCE_MS, self.failure_ms())),
    {
        self.responded_within(now, smaller(FAST_SILENCE_MS, self.failure_ms()))
    }

    /// How far above the minimum delay a sample must lie to count as queueing.
    #[verifier::allow_in_spec]
    pub fn queue_slack_ms(&self, floor: Binary64) -> Binary64
        returns
            floor.max(Binary64::whole(4).times(self.jitter_ms)).max(
                self.minimum_rtt_ms.clamp(zero(), Binary64::whole(15)).times(Binary64::whole(2)),
            ),
    {
        floor.max(Binary64::whole(4).times(self.jitter_ms)).max(
            self.minimum_rtt_ms.clamp(zero(), Binary64::whole(15)).times(Binary64::whole(2)),
        )
    }

    #[verifier::allow_in_spec]
    pub fn ready(&self, now: u64) -> bool
        returns
            self.enabled && self.probation_until is None && self.good_samples >= 3
                && self.responded_within(now, self.failure_ms()),
    {
        self.enabled && self.probation_until.is_none() && self.good_samples >= 3
            && self.responded_within(now, self.failure_ms())
    }

    /// At least half of the window is in flight.
    pub open spec fn half_used(self) -> bool {
        2 * self.in_flight >= self.congestion_window
    }

    fn is_half_used(&self) -> (r: bool)
        ensures
            r == self.half_used(),
    {
        self.in_flight >= self.congestion_window || self.in_flight >= self.congestion_window
            - self.in_flight
    }

    #[verifier::opaque]
    pub open spec fn capacity_noted(self, now: u64) -> Path {
        if self.half_used() {
            let horizon: u64 = Binary64::whole(2).times(self.rtt_or(30)).clamp(
                Binary64::whole(20),
                Binary64::whole(1000),
            ).floor_u64();
            Path { capacity_used_until: Some(now.saturating_add(horizon)), ..self }
        } else {
            self
        }
    }

    /// Remembers that the window was in use, for the acknowledgements of the
    /// tail of a transfer.
    pub fn note_capacity_use(&mut self, now: u64)
        ensures
            *final(self) == old(self).capacity_noted(now),
    {
        proof {
            reveal(Path::capacity_noted);
        }
        if self.is_half_used() {
            let horizon: u64 = Binary64::whole(2).times(self.rtt_or(30)).clamp(
                Binary64::whole(20),
                Binary64::whole(1000),
            ).floor_u64();
            self.capacity_used_until = Some(now.saturating_add(horizon));
        }
    }

    pub open spec fn capacity_used(self, now: u64) -> bool {
        self.half_used() || match self.capacity_used_until {
            Some(until) => now <= until,
            None => false,
        }
    }

    pub fn capacity_recently_used(&self, now: u64) -> (r: bool)
        ensures
            r == self.capacity_used(now),
    {
        self.is_half_used() || match self.capacity_used_until {
            Some(until) => now <= until,
            None => false,
        }
    }

    pub open spec fn sample_loaded(self, now: u64) -> bool {
        let least: usize = larger_size(
            5120,
            smaller_size(self.congestion_window / 8, 81_920),
        );
        self.in_flight >= least && self.capacity_used(now)
    }

    /// Whether a raised sample can be due to this path's own data.
    pub fn delay_sample_is_loaded(&self, now: u64) -> (r: bool)
        ensures
            r == self.sample_loaded(now),
    {
        let least: usize = larger_size(
            4 * BOND_MTU,
            smaller_size(self.congestion_window / 8, 64 * BOND_MTU),
        );
        self.in_flight >= least && self.capacity_recently_used(now)
    }

    // -- Steps of an observation ---------------------------------------------

    /// Probation after a response that came `pause` after the previous one.
    pub open spec fn probation_stepped(self, now: u64, pause: Option<u64>) -> Path {
        match self.probation_until {
            None => self,
            Some(until) => if until == u64::MAX {
                Path {
                    probation_until: Some(now.saturating_add(REJOIN_PROBATION_MS)),
                    probation_stable_since: Some(now),
                    ..self
                }
            } else if now >= until {
                Path { probation_until: None, probation_stable_since: None, ..self }
            } else {
                let restart: bool = match pause {
                    Some(gap) => gap > FAST_SILENCE_MS,
                    None => false,
                };
                let since: u64 = if restart {
                    now
                } else {
                    self.probation_stable_since.unwrap_or(now)
                };
                if now.saturating_sub(since) >= REJOIN_STABLE_MS {
                    Path { probation_until: None, probation_stable_since: None, ..self }
                } else {
                    Path { probation_stable_since: Some(since), ..self }
                }
            },
        }
    }

    fn step_probation(&mut self, now: u64, pause: Option<u64>)
        ensures
            *final(self) == old(self).probation_stepped(now, pause),
    {
        match self.probation_until {
            None => {},
            Some(until) => {
                if until == u64::MAX {
                    self.probation_until = Some(now.saturating_add(REJOIN_PROBATION_MS));
                    self.probation_stable_since = Some(now);
                } else if now >= until {
                    self.probation_until = None;
                    self.probation_stable_since = None;
                } else {
                    let restart: bool = match pause {
                        Some(gap) => gap > FAST_SILENCE_MS,
                        None => false,
                    };
                    let since: u64 = if restart {
                        now
                    } else {
                        self.probation_stable_since.unwrap_or(now)
                    };
                    self.probation_stable_since = Some(since);
                    if now.saturating_sub(since) >= REJOIN_STABLE_MS {
                        self.probation_until = None;
                        self.probation_stable_since = None;
                    }
                }
            },
        }
    }

    pub open spec fn pause_stepped(self, now: u64, pause: Option<u64>) -> Path {
        match pause {
            Some(gap) => {
                let pauses: RecentPeak = self.pauses.pushed(now, gap);
                Path { pauses, response_pause_ms: pauses.peak(), ..self }
            },
            None => self,
        }
    }

    /// Smoothed delay, jitter and minimum after one more sample.
    pub open spec fn delay_stepped(self, sample: Binary64) -> Path {
        let least: Binary64 = self.minimum_rtt_ms.min(sample);
        match self.rtt_ms {
            Some(previous) => Path {
                jitter_ms: Binary64::ratio(3, 4).times(self.jitter_ms).plus(
                    Binary64::ratio(1, 4).times(previous.minus(sample).abs()),
                ),
                rtt_ms: Some(
                    Binary64::ratio(7, 8).times(previous).plus(
                        Binary64::ratio(1, 8).times(sample),
                    ),
                ),
                minimum_rtt_ms: least,
                ..self
            },
            None => Path {
                rtt_ms: Some(sample),
                jitter_ms: sample.over(Binary64::whole(2)),
                minimum_rtt_ms: least,
                ..self
            },
        }
    }

    fn step_delay(&mut self, sample: Binary64)
        ensures
            *final(self) == old(self).delay_stepped(sample),
    {
        match self.rtt_ms {
            Some(previous) => {
                self.jitter_ms = Binary64::ratio(3, 4).times(self.jitter_ms).plus(
                    Binary64::ratio(1, 4).times(previous.minus(sample).abs()),
                );
                self.rtt_ms = Some(
                    Binary64::ratio(7, 8).times(previous).plus(
                        Binary64::ratio(1, 8).times(sample),
                    ),
                );
            },
            None => {
                self.rtt_ms = Some(sample);
                self.jitter_ms = sample.over(Binary64::whole(2));
            },
        }
        self.minimum_rtt_ms = self.minimum_rtt_ms.min(sample);
    }

    /// Whether the sample prolongs a run of raised ones, and whether that run
    /// is long enough to be a queue.
    pub open spec fn queue_stepped(self, now: u64, sample: Binary64) -> Path {
        let slack: Binary64 = self.queue_slack_ms(Binary64::whole(DELAY_SLACK_MS));
        if slack.lt(sample.minus(self.minimum_rtt_ms)) {
            let since: u64 = self.elevated_since.unwrap_or(now);
            Path {
                elevated_since: Some(since),
                queue_persistent: now.saturating_sub(since) >= QUEUE_PERSIST_MS,
                ..self
            }
        } else {
            Path { elevated_since: None, queue_persistent: false, ..self }
        }
    }

    fn step_queue(&mut self, now: u64, sample: Binary64)
        ensures
            *final(self) == old(self).queue_stepped(now, sample),
    {
        let slack: Binary64 = self.queue_slack_ms(Binary64::whole(DELAY_SLACK_MS));
        if slack.lt(sample.minus(self.minimum_rtt_ms)) {
            let since: u64 = self.elevated_since.unwrap_or(now);
            self.elevated_since = Some(since);
            self.queue_persistent = now.saturating_sub(since) >= QUEUE_PERSIST_MS;
        } else {
            self.elevated_since = None;
            self.queue_persistent = false;
        }
    }

    pub open spec fn reduction_recorded(
        self,
        reason: ReductionReason,
        before: usize,
        now: u64,
    ) -> Path {
        if self.congestion_window >= before {
            self
        } else {
            let control: WindowControl = self.window_control;
            let delay: u64 = match reason {
                ReductionReason::RttDelay => control.delay_reductions.wrapping_add(1),
                ReductionReason::LossTimeout => control.delay_reductions,
            };
            let loss: u64 = match reason {
                ReductionReason::RttDelay => control.loss_reductions,
                ReductionReason::LossTimeout => control.loss_reductions.wrapping_add(1),
            };
            Path {
                window_control: WindowControl {
                    delay_reductions: delay,
                    loss_reductions: loss,
                    last_reduction: Some(
                        WindowReduction {
                            reason,
                            at_ms: now,
                            before_bytes: before,
                            after_bytes: self.congestion_window,
                            in_flight_bytes: self.in_flight,
                            rtt_ms: self.rtt_ms,
                            minimum_rtt_ms: self.minimum_rtt_ms,
                            jitter_ms: self.jitter_ms,
                        },
                    ),
                    ..control
                },
                ..self
            }
        }
    }

    fn record_window_reduction(&mut self, reason: ReductionReason, before: usize, now: u64)
        ensures
            *final(self) == old(self).reduction_recorded(reason, before, now),
    {
        if self.congestion_window >= before {
            return;
        }
        match reason {
            ReductionReason::RttDelay => {
                self.window_control.delay_reductions =
                self.window_control.delay_reductions.wrapping_add(1);
            },
            ReductionReason::LossTimeout => {
                self.window_control.loss_reductions =
                self.window_control.loss_reductions.wrapping_add(1);
            },
        }
        self.window_control.last_reduction = Some(
            WindowReduction {
                reason,
                at_ms: now,
                before_bytes: before,
                after_bytes: self.congestion_window,
                in_flight_bytes: self.in_flight,
                rtt_ms: self.rtt_ms,
                minimum_rtt_ms: self.minimum_rtt_ms,
                jitter_ms: self.jitter_ms,
            },
        );
    }

    /// Whether a persistent queue may change the window again: at most once
    /// per smoothed delay.
    pub open spec fn adjustment_due(self, now: u64) -> bool {
        self.queue_persistent && match self.last_delay_adjust {
            Some(last) => Binary64::whole(now.saturating_sub(last)).ge(self.rtt_or(0)),
            None => true,
        }
    }

    /// The window that a standing queue leaves: at most a quarter less, never
    /// more than before.
    pub open spec fn delay_window(self) -> usize {
        let slack: Binary64 = self.queue_slack_ms(Binary64::whole(DELAY_SLACK_MS));
        let part: Binary64 = self.minimum_rtt_ms.plus(slack).over(self.rtt_or(0)).clamp(
            Binary64::ratio(3, 4),
            Binary64::ratio(95, 100),
        );
        let window: usize = Binary64::whole(self.congestion_window as u64).times(
            part,
        ).floor_u64() as usize;
        smaller_size(larger_size(window, 20_480), self.congestion_window)
    }

    /// Response of the window to the delay. Samples without data in flight, or
    /// with too little to have built the queue, are only counted.
    pub open spec fn window_stepped(self, now: u64) -> Path {
        if !self.adjustment_due(now) {
            self
        } else if self.in_flight == 0 {
            Path {
                window_control: WindowControl {
                    idle_delay_observations:
                        self.window_control.idle_delay_observations.wrapping_add(1),
                    ..self.window_control
                },
                ..self
            }
        } else if !self.sample_loaded(now) {
            Path {
                window_control: WindowControl {
                    app_limited_delay_observations:
                        self.window_control.app_limited_delay_observations.wrapping_add(1),
                    ..self.window_control
                },
                ..self
            }
        } else {
            let window: usize = self.delay_window();
            (Path {
                congestion_window: window,
                slow_start_threshold: window,
                growth_credit: 0,
                last_delay_adjust: Some(now),
                ..self
            }).reduction_recorded(ReductionReason::RttDelay, self.congestion_window, now)
        }
    }

    fn step_window(&mut self, now: u64)
        ensures
            *final(self) == old(self).window_stepped(now),
    {
        let due: bool = self.queue_persistent && match self.last_delay_adjust {
            Some(last) => Binary64::whole(now.saturating_sub(last)).ge(self.rtt_or(0)),
            None => true,
        };
        if !due {
            return;
        }
        if self.in_flight == 0 {
            self.window_control.idle_delay_observations =
            self.window_control.idle_delay_observations.wrapping_add(1);
        } else if !self.delay_sample_is_loaded(now) {
            self.window_control.app_limited_delay_observations =
            self.window_control.app_limited_delay_observations.wrapping_add(1);
        } else {
            let before: usize = self.congestion_window;
            let slack: Binary64 = self.queue_slack_ms(Binary64::whole(DELAY_SLACK_MS));
            let part: Binary64 = self.minimum_rtt_ms.plus(slack).over(self.rtt_or(0)).clamp(
                Binary64::ratio(3, 4),
                Binary64::ratio(95, 100),
            );
            let window: usize = Binary64::whole(before as u64).times(part).floor_u64() as usize;
            self.congestion_window = smaller_size(larger_size(window, 16 * BOND_MTU), before);
            self.slow_start_threshold = self.congestion_window;
            self.growth_credit = 0;
            self.last_delay_adjust = Some(now);
            self.record_window_reduction(ReductionReason::RttDelay, before, now);
        }
    }

    /// Exclusion from delay-sensitive traffic: above the cutoff it begins, and
    /// it ends only below the recovery limit.
    pub open spec fn exclusion(self) -> bool {
        if self.rtt_or(0).ge(Binary64::whole(LATENCY_CUTOFF_MS)) {
            true
        } else if self.rtt_or(0).lt(Binary64::whole(LATENCY_RECOVERY_MS)) && self.good_samples
            >= 3 {
            false
        } else {
            self.latency_excluded
        }
    }

    pub open spec fn standing(self) -> PathState {
        if self.good_samples < 3 || self.probation_until is Some {
            PathState::Recovering
        } else if self.queue_slack_ms(Binary64::whole(15)).lt(
            self.rtt_or(0).minus(self.minimum_rtt_ms),
        ) {
            PathState::Degraded
        } else {
            PathState::Healthy
        }
    }

    pub open spec fn answered(self, now: u64) -> Path {
        let counted: Path = Path {
            last_response: Some(now),
            good_samples: self.good_samples.saturating_add(1),
            ..self
        };
        Path {
            latency_excluded: counted.exclusion(),
            state: counted.standing(),
            ..counted
        }
    }

    fn note_answer(&mut self, now: u64)
        ensures
            *final(self) == old(self).answered(now),
    {
        self.last_response = Some(now);
        self.good_samples = self.good_samples.saturating_add(1);
        if self.rtt_or(0).ge(Binary64::whole(LATENCY_CUTOFF_MS)) {
            self.latency_excluded = true;
        } else if self.rtt_or(0).lt(Binary64::whole(LATENCY_RECOVERY_MS)) && self.good_samples
            >= 3 {
            self.latency_excluded = false;
        }
        self.state = if self.good_samples < 3 || self.probation_until.is_some() {
            PathState::Recovering
        } else if self.queue_slack_ms(Binary64::whole(15)).lt(
            self.rtt_or(0).minus(self.minimum_rtt_ms),
        ) {
            PathState::Degraded
        } else {
            PathState::Healthy
        };
    }

    /// The path after a response to something sent at `stamp`. A stamp from
    /// the future is ignored.
    #[verifier::opaque]
    pub open spec fn observed(self, now: u64, stamp: u64) -> Path {
        if stamp > now {
            self
        } else {
            let noted: Path = self.capacity_noted(now);
            let pause: Option<u64> = match self.last_response {
                Some(last) => Some(now.saturating_sub(last)),
                None => None,
            };
            let sample: Binary64 = Binary64::whole(larger(now.saturating_sub(stamp), 1));
            noted.probation_stepped(now, pause).pause_stepped(now, pause).delay_stepped(
                sample,
            ).queue_stepped(now, sample).window_stepped(now).answered(now)
        }
    }

    pub fn observe(&mut self, now: u64, stamp: u64)
        ensures
            *final(self) == old(self).observed(now, stamp),
    {
        proof {
            reveal(Path::observed);
        }
        if stamp > now {
            return;
        }
        let pause: Option<u64> = match self.last_response {
            Some(last) => Some(now.saturating_sub(last)),
            None => None,
        };
        self.note_capacity_use(now);
        self.step_probation(now, pause);
        match pause {
            Some(gap) => {
                self.pauses.push(now, gap);
                self.response_pause_ms = self.pauses.peak();
            },
            None => {},
        }
        let sample: Binary64 = Binary64::whole(larger(now.saturating_sub(stamp), 1));
        self.step_delay(sample);
        self.step_queue(now, sample);
        self.step_window(now);
        self.note_answer(now);
    }

    /// Bytes that the window lets go per millisecond.
    #[verifier::allow_in_spec]
    pub fn estimated_bytes_per_ms(&self) -> Binary64
        returns
            Binary64::whole(self.congestion_window as u64).over(
                self.rtt_or(30).max(Binary64::whole(1)),
            ).max(Binary64::whole(1)),
    {
        Binary64::whole(self.congestion_window as u64).over(
            self.rtt_or(30).max(Binary64::whole(1)),
        ).max(Binary64::whole(1))
    }

    pub open spec fn rate_sampled(self, now: u64) -> bool {
        match self.tcp_rate.sampled_at {
            Some(at) => now.saturating_sub(at) <= 1000,
            None => false,
        }
    }

    /// Rate by which TCP placement is ordered: a recent loaded measurement
    /// with headroom, where there is one.
    #[verifier::allow_in_spec]
    pub fn tcp_bytes_per_ms(&self, now: u64) -> Binary64
        returns
            if self.rate_sampled(now) && zero().lt(self.tcp_delivery_bps) {
                self.estimated_bytes_per_ms().min(
                    self.tcp_delivery_bps.over(Binary64::whole(8000)).times(Binary64::ratio(5, 4)),
                ).max(Binary64::whole(1))
            } else {
                self.estimated_bytes_per_ms()
            },
    {
        let sampled: bool = match self.tcp_rate.sampled_at {
            Some(at) => now.saturating_sub(at) <= 1000,
            None => false,
        };
        if sampled && zero().lt(self.tcp_delivery_bps) {
            self.estimated_bytes_per_ms().min(
                self.tcp_delivery_bps.over(Binary64::whole(8000)).times(Binary64::ratio(5, 4)),
            ).max(Binary64::whole(1))
        } else {
            self.estimated_bytes_per_ms()
        }
    }

    pub open spec fn rate_stale(self, now: u64) -> bool {
        match self.tcp_rate.started {
            Some(start) => now.saturating_sub(start) > 1000,
            None => true,
        }
    }

    #[verifier::opaque]
    pub open spec fn tcp_noted(self, now: u64) -> Path {
        let rate: TcpRate = if self.rate_stale(now) {
            TcpRate { started: Some(now), bytes: 0, loaded: false, ..self.tcp_rate }
        } else {
            self.tcp_rate
        };
        Path {
            tcp_rate: TcpRate { loaded: rate.loaded || self.capacity_used(now), ..rate },
            ..self
        }
    }

    /// Begins or prolongs a rate sample when bulk TCP is sent.
    pub fn tcp_sent(&mut self, now: u64)
        ensures
            *final(self) == old(self).tcp_noted(now),
    {
        proof {
            reveal(Path::tcp_noted);
        }
        let stale: bool = match self.tcp_rate.started {
            Some(start) => now.saturating_sub(start) > 1000,
            None => true,
        };
        if stale {
            self.tcp_rate.started = Some(now);
            self.tcp_rate.bytes = 0;
            self.tcp_rate.loaded = false;
        }
        self.tcp_rate.loaded = self.tcp_rate.loaded || self.capacity_recently_used(now);
    }

    pub open spec fn rate_window(self) -> u64 {
        Binary64::whole(2).times(self.rtt_or(30)).clamp(
            Binary64::whole(50),
            Binary64::whole(500),
        ).floor_u64()
    }

    #[verifier::opaque]
    pub open spec fn tcp_credited(self, bytes: usize, now: u64) -> Path {
        match self.tcp_rate.started {
            None => self,
            Some(start) => {
                let total: u64 = self.tcp_rate.bytes.wrapping_add(bytes as u64);
                let loaded: bool = self.tcp_rate.loaded || self.capacity_used(now);
                let elapsed: u64 = now.saturating_sub(start);
                if elapsed < self.rate_window() {
                    Path {
                        tcp_rate: TcpRate { bytes: total, loaded, ..self.tcp_rate },
                        ..self
                    }
                } else {
                    let counts: bool = elapsed <= 1000 && loaded && total >= 10_240;
                    let sample: Binary64 = Binary64::whole(total).times(
                        Binary64::whole(8000),
                    ).over(Binary64::whole(elapsed));
                    Path {
                        tcp_delivery_bps: if !counts {
                            self.tcp_delivery_bps
                        } else if is_zero_rate(self.tcp_delivery_bps) {
                            sample
                        } else {
                            Binary64::ratio(3, 4).times(self.tcp_delivery_bps).plus(
                                Binary64::ratio(1, 4).times(sample),
                            )
                        },
                        tcp_rate: TcpRate {
                            started: Some(now),
                            bytes: 0,
                            loaded: false,
                            sampled_at: if counts {
                                Some(now)
                            } else {
                                self.tcp_rate.sampled_at
                            },
                        },
                        ..self
                    }
                }
            },
        }
    }

    /// Counts acknowledged bulk TCP bytes, and closes the sample when its time
    /// is over.
    pub fn tcp_acked(&mut self, bytes: usize, now: u64)
        ensures
            *final(self) == old(self).tcp_credited(bytes, now),
    {
        proof {
            reveal(Path::tcp_credited);
        }
        let start: u64 = match self.tcp_rate.started {
            Some(start) => start,
            None => {
                return;
            },
        };
        self.tcp_rate.bytes = self.tcp_rate.bytes.wrapping_add(bytes as u64);
        self.tcp_rate.loaded = self.tcp_rate.loaded || self.capacity_recently_used(now);
        let elapsed: u64 = now.saturating_sub(start);
        let window: u64 = Binary64::whole(2).times(self.rtt_or(30)).clamp(
            Binary64::whole(50),
            Binary64::whole(500),
        ).floor_u64();
        if elapsed >= window {
            if elapsed <= 1000 && self.tcp_rate.loaded && self.tcp_rate.bytes >= 10_240 {
                let sample: Binary64 = Binary64::whole(self.tcp_rate.bytes).times(
                    Binary64::whole(8000),
                ).over(Binary64::whole(elapsed));
                self.tcp_delivery_bps = if is_zero_rate(self.tcp_delivery_bps) {
                    sample
                } else {
                    Binary64::ratio(3, 4).times(self.tcp_delivery_bps).plus(
                        Binary64::ratio(1, 4).times(sample),
                    )
                };
                self.tcp_rate.sampled_at = Some(now);
            }
            self.tcp_rate.started = Some(now);
            self.tcp_rate.bytes = 0;
            self.tcp_rate.loaded = false;
        }
    }

    /// Time until a packet sent now reaches the far end.
    #[verifier::allow_in_spec]
    pub fn tcp_forward_ms(&self, now: u64, bytes: usize) -> Binary64
        returns
            self.rtt_or(30).over(Binary64::whole(2)).plus(self.jitter_ms).plus(
                Binary64::whole(bytes as u64).over(self.tcp_bytes_per_ms(now)),
            ),
    {
        self.rtt_or(30).over(Binary64::whole(2)).plus(self.jitter_ms).plus(
            Binary64::whole(bytes as u64).over(self.tcp_bytes_per_ms(now)),
        )
    }

    /// Bytes that may be in flight once a packet is sent. Bulk traffic leaves
    /// room for urgent packets.
    #[verifier::allow_in_spec]
    pub fn send_window_limit(&self, bytes: usize, interactive: bool) -> usize
        returns
            self.congestion_window.saturating_sub(
                if interactive {
                    0
                } else {
                    smaller_size(
                        smaller_size(5120, self.congestion_window / 4),
                        self.congestion_window.saturating_sub(bytes),
                    )
                },
            ),
    {
        let reserve: usize = if interactive {
            0
        } else {
            smaller_size(
                smaller_size(4 * BOND_MTU, self.congestion_window / 4),
                self.congestion_window.saturating_sub(bytes),
            )
        };
        self.congestion_window.saturating_sub(reserve)
    }

    /// Time until the path would take the packet.
    #[verifier::allow_in_spec]
    pub fn tcp_send_wait_ms(&self, bytes: usize, now: u64) -> Binary64
        returns
            if self.in_flight.saturating_add(bytes) > self.send_window_limit(bytes, false) {
                self.next_send.minus(Binary64::whole(now)).max(zero()).max(self.rtt_or(30))
            } else {
                self.next_send.minus(Binary64::whole(now)).max(zero())
            },
    {
        let paced: Binary64 = self.next_send.minus(Binary64::whole(now)).max(zero());
        if self.in_flight.saturating_add(bytes) > self.send_window_limit(bytes, false) {
            paced.max(self.rtt_or(30))
        } else {
            paced
        }
    }

    /// Whether the pacing clock lets a packet go.
    #[verifier::allow_in_spec]
    pub fn paced(&self, now: u64) -> bool
        returns
            Binary64::whole(now).ge(self.next_send),
    {
        Binary64::whole(now).ge(self.next_send)
    }

    #[verifier::allow_in_spec]
    pub fn send_budget_allows(&self, bytes: usize, interactive: bool, now: u64) -> bool
        returns
            self.in_flight.saturating_add(bytes) <= self.send_window_limit(bytes, interactive)
                && self.paced(now),
    {
        self.in_flight.saturating_add(bytes) <= self.send_window_limit(bytes, interactive)
            && self.paced(now)
    }

    #[verifier::opaque]
    pub open spec fn capacity_acknowledged(self, bytes: usize) -> Path {
        if self.queue_persistent {
            Path {
                window_control: WindowControl {
                    growth_paused_acks: self.window_control.growth_paused_acks.wrapping_add(1),
                    ..self.window_control
                },
                ..self
            }
        } else if self.congestion_window < self.slow_start_threshold {
            Path {
                congestion_window: smaller_size(
                    self.congestion_window.wrapping_add(bytes),
                    MAX_WINDOW,
                ),
                ..self
            }
        } else {
            let next: (usize, usize) = grown(
                self.growth_credit.wrapping_add(bytes),
                self.congestion_window,
            );
            Path {
                growth_credit: next.0,
                congestion_window: smaller_size(next.1, MAX_WINDOW),
                ..self
            }
        }
    }

    /// Growth of the window on an acknowledgement: by its size up to the slow
    /// start threshold, then by one packet per window.
    pub fn acknowledge_capacity(&mut self, bytes: usize)
        ensures
            *final(self) == old(self).capacity_acknowledged(bytes),
    {
        proof {
            reveal(Path::capacity_acknowledged);
        }
        if self.queue_persistent {
            self.window_control.growth_paused_acks =
            self.window_control.growth_paused_acks.wrapping_add(1);
            return;
        }
        if self.congestion_window < self.slow_start_threshold {
            self.congestion_window = self.congestion_window.wrapping_add(bytes);
        } else {
            let mut credit: usize = self.growth_credit.wrapping_add(bytes);
            let mut window: usize = self.congestion_window;
            let ghost target: (usize, usize) = grown(credit, window);
            while credit >= window
                invariant
                    grown(credit, window) == target,
                decreases
                        credit,
                        (if window == 0 {
                            1int
                        } else {
                            0
                        }),
            {
                credit = credit - window;
                window = window.wrapping_add(BOND_MTU);
            }
            self.growth_credit = credit;
            self.congestion_window = window;
        }
        self.congestion_window = smaller_size(self.congestion_window, MAX_WINDOW);
    }

    pub open spec fn recently_repaired(self, now: u64) -> bool {
        match self.last_congestion {
            Some(last) => now.saturating_sub(last) < self.repair_ms(),
            None => false,
        }
    }

    /// The path after a copy on it had to be repaired. Only a loss during a
    /// persistent queue halves the window, and only where the loss is telling.
    #[verifier::opaque]
    pub open spec fn repair_timed_out(self, now: u64, backoff: bool) -> Path {
        if self.recently_repaired(now) {
            self
        } else {
            let counted: Path = Path {
                timeouts: self.timeouts.wrapping_add(1),
                last_congestion: Some(now),
                ..self
            };
            if !backoff || !self.queue_persistent {
                counted
            } else {
                let window: usize = larger_size(self.congestion_window / 2, 10_240);
                (Path {
                    slow_start_threshold: window,
                    congestion_window: window,
                    growth_credit: 0,
                    ..counted
                }).reduction_recorded(
                    ReductionReason::LossTimeout,
                    self.congestion_window,
                    now,
                )
            }
        }
    }

    pub fn repair_timeout(&mut self, now: u64, allow_window_backoff: bool)
        ensures
            *final(self) == old(self).repair_timed_out(now, allow_window_backoff),
    {
        proof {
            reveal(Path::repair_timed_out);
        }
        let recent: bool = match self.last_congestion {
            Some(last) => now.saturating_sub(last) < self.repair_ms(),
            None => false,
        };
        if recent {
            return;
        }
        self.timeouts = self.timeouts.wrapping_add(1);
        self.last_congestion = Some(now);
        if !allow_window_backoff || !self.queue_persistent {
            return;
        }
        let before: usize = self.congestion_window;
        self.slow_start_threshold = larger_size(self.congestion_window / 2, 8 * BOND_MTU);
        self.congestion_window = self.slow_start_threshold;
        self.growth_credit = 0;
        self.record_window_reduction(ReductionReason::LossTimeout, before, now);
    }

    /// Delivery rate and growth after an acknowledgement of `bytes`. An
    /// ambiguous one gives no delay sample.
    #[verifier::opaque]
    pub open spec fn credited(self, bytes: usize, stamp: u64, exact: bool, now: u64) -> Path {
        let seen: Path = if exact {
            self.observed(now, stamp)
        } else {
            self
        };
        let counted: Path = Path {
            acknowledged_bytes: seen.acknowledged_bytes.wrapping_add(bytes as u64),
            rate_bytes: seen.rate_bytes.wrapping_add(bytes as u64),
            ..seen
        };
        let grown: Path = if counted.capacity_used(now) {
            counted.capacity_acknowledged(bytes)
        } else {
            Path {
                window_control: WindowControl {
                    app_limited_growth_acks:
                        counted.window_control.app_limited_growth_acks.wrapping_add(1),
                    ..counted.window_control
                },
                ..counted
            }
        };
        let elapsed: u64 = now.saturating_sub(grown.rate_started);
        if elapsed < 250 {
            grown
        } else {
            let sample: Binary64 = Binary64::whole(grown.rate_bytes).times(
                Binary64::whole(8000),
            ).over(Binary64::whole(elapsed));
            Path {
                delivery_bps: if is_zero_rate(grown.delivery_bps) {
                    sample
                } else {
                    Binary64::ratio(7, 10).times(grown.delivery_bps).plus(
                        Binary64::ratio(3, 10).times(sample),
                    )
                },
                rate_started: now,
                rate_bytes: 0,
                ..grown
            }
        }
    }

    pub fn acknowledge(&mut self, bytes: usize, stamp: u64, exact: bool, now: u64)
        ensures
            *final(self) == old(self).credited(bytes, stamp, exact, now),
    {
        proof {
            reveal(Path::credited);
        }
        if exact {
            self.observe(now, stamp);
        }
        self.acknowledged_bytes = self.acknowledged_bytes.wrapping_add(bytes as u64);
        self.rate_bytes = self.rate_bytes.wrapping_add(bytes as u64);
        if self.capacity_recently_used(now) {
            self.acknowledge_capacity(bytes);
        } else {
            self.window_control.app_limited_growth_acks =
            self.window_control.app_limited_growth_acks.wrapping_add(1);
        }
        let elapsed: u64 = now.saturating_sub(self.rate_started);
        if elapsed >= 250 {
            let sample: Binary64 = Binary64::whole(self.rate_bytes).times(
                Binary64::whole(8000),
            ).over(Binary64::whole(elapsed));
            self.delivery_bps = if is_zero_rate(self.delivery_bps) {
                sample
            } else {
                Binary64::ratio(7, 10).times(self.delivery_bps).plus(
                    Binary64::ratio(3, 10).times(sample),
                )
            };
            self.rate_started = now;
            self.rate_bytes = 0;
        }
    }

    /// The path after it sent a packet. Only the first copy of an incarnation
    /// takes room in the window; every copy takes its share of pacing.
    #[verifier::opaque]
    pub open spec fn charged(self, repeated: bool, bulk_tcp: bool, bytes: usize, now: u64) -> Path {
        let held: Path = if repeated {
            self
        } else {
            Path { in_flight: self.in_flight.wrapping_add(bytes), ..self }
        };
        let noted: Path = held.capacity_noted(now);
        let rated: Path = if bulk_tcp {
            noted.tcp_noted(now)
        } else {
            noted
        };
        Path {
            sent_bytes: rated.sent_bytes.wrapping_add(bytes as u64),
            next_send: rated.next_send.max(Binary64::whole(now.saturating_sub(4))).plus(
                Binary64::whole(bytes as u64).over(rated.estimated_bytes_per_ms()),
            ),
            ..rated
        }
    }

    pub fn charge(&mut self, repeated: bool, bulk_tcp: bool, bytes: usize, now: u64)
        ensures
            *final(self) == old(self).charged(repeated, bulk_tcp, bytes, now),
    {
        proof {
            reveal(Path::charged);
        }
        if !repeated {
            self.in_flight = self.in_flight.wrapping_add(bytes);
        }
        self.note_capacity_use(now);
        if bulk_tcp {
            self.tcp_sent(now);
        }
        self.sent_bytes = self.sent_bytes.wrapping_add(bytes as u64);
        self.next_send = self.next_send.max(Binary64::whole(now.saturating_sub(4))).plus(
            Binary64::whole(bytes as u64).over(self.estimated_bytes_per_ms()),
        );
    }
}

/// Whether a rate has not been measured yet.
#[verifier::allow_in_spec]
pub fn is_zero_rate(rate: Binary64) -> bool
    returns
        rate.bits == 0 || rate.bits == 0x8000_0000_0000_0000,
{
    rate.bits == 0 || rate.bits == 0x8000_0000_0000_0000
}

} // verus!
