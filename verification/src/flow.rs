//! What one connection tells about its uplink: bytes as they move, and the
//! feedback of TCP.
use crate::direct;
use crate::direct::Uplink;
use crate::tcp_metrics::Snapshot;
use vstd::prelude::*;

verus! {

/// Longest silence in which a connection still counts as busy.
pub const BUSY_US: u64 = 1_000_000;

pub const STALL_US: u64 = 500_000;

/// A backlog that counts as work.
pub const BACKLOG: u64 = 16_384;

/// Payload of all direct connections. Bytes that a socket took but that were
/// not seen to arrive make a connection unmeasured.
#[derive(Clone, Copy, Debug, PartialEq, Eq, Structural)]
pub struct PayloadTotals {
    pub upload: u64,
    pub download: u64,
    pub unmeasured: u64,
}

/// A connection. Times are microseconds.
#[derive(Clone, Copy, Debug, PartialEq, Eq, Structural)]
pub struct Flow {
    /// Whether its payload counts towards the totals.
    pub counted: bool,
    pub payload_acknowledged: u64,
    pub uploaded: u64,
    pub downloaded: u64,
    pub last_activity: u64,
    pub last_progress: u64,
    pub minimum_rtt_us: u64,
    pub acknowledged: u64,
    pub retransmitted: u64,
    pub queued: u64,
    pub busy: bool,
    pub opened: u64,
    pub first_write: Option<u64>,
    pub first_read: Option<u64>,
    pub holds: u32,
}

/// A connection with its uplink, if it is on one, and the totals.
#[derive(Clone, Copy, Debug, PartialEq, Eq, Structural)]
pub struct Meter {
    pub flow: Flow,
    pub link: Option<Uplink>,
    pub totals: PayloadTotals,
}

pub open spec fn fresh_flow(counted: bool, baseline_rtt_us: u64, now: u64) -> Flow {
    Flow {
        counted,
        payload_acknowledged: 0,
        uploaded: 0,
        downloaded: 0,
        last_activity: now,
        last_progress: now,
        minimum_rtt_us: baseline_rtt_us,
        acknowledged: 0,
        retransmitted: 0,
        queued: 0,
        busy: true,
        opened: now,
        first_write: None,
        first_read: None,
        holds: 0,
    }
}

impl Flow {
    /// The payload that is known to have arrived: never more than was
    /// written, never less than before.
    pub open spec fn arrived(self, s: Snapshot) -> u64 {
        let capped: u64 = if s.acknowledged < self.uploaded {
            s.acknowledged
        } else {
            self.uploaded
        };
        if capped > self.payload_acknowledged {
            capped
        } else {
            self.payload_acknowledged
        }
    }

    /// After feedback of TCP.
    pub open spec fn fed(self, s: Snapshot, now: u64) -> Flow {
        Flow {
            acknowledged: if s.acknowledged > self.acknowledged {
                s.acknowledged
            } else {
                self.acknowledged
            },
            retransmitted: if s.retransmitted > self.retransmitted {
                s.retransmitted
            } else {
                self.retransmitted
            },
            queued: s.queued,
            minimum_rtt_us: if s.rtt_us > 0 && (self.minimum_rtt_us == 0 || s.rtt_us
                < self.minimum_rtt_us) {
                s.rtt_us
            } else {
                self.minimum_rtt_us
            },
            last_progress: if s.acknowledged > self.acknowledged {
                now
            } else {
                self.last_progress
            },
            ..self
        }
    }

    pub open spec fn working(self, now: u64) -> bool {
        self.queued > BACKLOG || now.saturating_sub(self.last_activity) < BUSY_US
    }

    /// Time from the first byte of a request to the first of its answer.
    pub fn ttfb_us(&self) -> (r: Option<u64>)
        ensures
            r == match (self.first_read, self.first_write) {
                (Some(read), Some(written)) => Some(read.saturating_sub(written)),
                _ => None,
            },
    {
        match (self.first_read, self.first_write) {
            (Some(read), Some(written)) => Some(read.saturating_sub(written)),
            _ => None,
        }
    }
}

#[verifier::allow_in_spec]
pub fn count_up(n: u32) -> u32
    returns
        n.wrapping_add(1),
{
    n.wrapping_add(1)
}

impl Meter {
    /// The totals after feedback.
    pub open spec fn totals_fed(self, snapshot: Option<Snapshot>) -> Meter {
        match snapshot {
            Some(s) => if self.flow.counted {
                let arrived: u64 = self.flow.arrived(s);
                Meter {
                    totals: PayloadTotals {
                        upload: self.totals.upload.wrapping_add(
                            (arrived - self.flow.payload_acknowledged) as u64,
                        ),
                        ..self.totals
                    },
                    flow: Flow { payload_acknowledged: arrived, ..self.flow },
                    ..self
                }
            } else {
                self
            },
            None => self,
        }
    }

    /// The uplink after feedback on one of its connections: congestion keeps
    /// new uploads off it, until enough arrived after the hold.
    pub open spec fn link_fed(self, link: Uplink, s: Snapshot, now: u64) -> (Uplink, bool) {
        let next: Flow = self.flow.fed(s, now);
        let acked: u64 = s.acknowledged.saturating_sub(self.flow.acknowledged);
        let repeated: u64 = s.retransmitted.saturating_sub(self.flow.retransmitted);
        let noted: Uplink = Uplink {
            tcp_observed: true,
            acknowledged: link.acknowledged.wrapping_add(acked),
            retransmitted: link.retransmitted.wrapping_add(repeated),
            queued: direct::replace_contribution(link.queued, self.flow.queued, s.queued),
            ..link
        };
        if direct::spec_upload_congested(
            self.flow.uploaded,
            s.queued,
            s.rtt_us.saturating_sub(next.minimum_rtt_us),
            acked,
            repeated,
            now.saturating_sub(next.last_progress),
        ) {
            (noted.held(now / 1000), true)
        } else if !noted.upload_held(now / 1000) && noted.acknowledged
            >= noted.recovery_acknowledged {
            (Uplink { upload_hold_until_ms: 0, ..noted }, false)
        } else {
            (noted, false)
        }
    }

    pub open spec fn busy_noted(self, now: u64) -> Meter {
        let working: bool = self.flow.working(now);
        match self.link {
            Some(link) => if working != self.flow.busy {
                Meter {
                    link: Some(
                        Uplink {
                            busy: direct::replace_contribution(
                                link.busy,
                                if self.flow.busy {
                                    1
                                } else {
                                    0
                                },
                                if working {
                                    1
                                } else {
                                    0
                                },
                            ),
                            ..link
                        },
                    ),
                    flow: Flow { busy: working, ..self.flow },
                    ..self
                }
            } else {
                self
            },
            None => self,
        }
    }

    /// After a sample, with or without feedback. Feedback that is missing
    /// never stands for delivery.
    pub open spec fn sampled(self, snapshot: Option<Snapshot>, now: u64) -> Meter {
        if self.link is None && !self.flow.counted {
            self
        } else {
            let counted: Meter = self.totals_fed(snapshot);
            match (counted.link, snapshot) {
                (None, _) => counted,
                (Some(link), Some(s)) => {
                    let (after, held) = counted.link_fed(link, s, now);
                    let next: Flow = counted.flow.fed(s, now);
                    (Meter {
                        link: Some(after),
                        flow: Flow {
                            holds: if held {
                                count_up(next.holds)
                            } else {
                                next.holds
                            },
                            ..next
                        },
                        ..counted
                    }).busy_noted(now)
                },
                (Some(link), None) => if counted.flow.queued > 0 && now.saturating_sub(
                    counted.flow.last_progress,
                ) > STALL_US {
                    (Meter {
                        link: Some(link.held(now / 1000)),
                        flow: Flow { holds: count_up(counted.flow.holds), ..counted.flow },
                        ..counted
                    }).busy_noted(now)
                } else {
                    counted.busy_noted(now)
                },
            }
        }
    }

    /// After bytes came in.
    pub open spec fn after_read(self, bytes: u64, now: u64) -> Meter {
        Meter {
            link: match self.link {
                Some(link) => Some(Uplink { received: link.received.wrapping_add(bytes), ..link }),
                None => None,
            },
            totals: if self.flow.counted {
                PayloadTotals {
                    download: self.totals.download.wrapping_add(bytes),
                    ..self.totals
                }
            } else {
                self.totals
            },
            flow: Flow {
                downloaded: self.flow.downloaded.wrapping_add(bytes),
                last_activity: if bytes > 0 {
                    now
                } else {
                    self.flow.last_activity
                },
                first_read: if bytes > 0 && self.flow.first_read is None {
                    Some(now)
                } else {
                    self.flow.first_read
                },
                ..self.flow
            },
        }
    }

    /// After bytes were written. What is written after a silence, with nothing
    /// queued, does not count the silence as a stall.
    pub open spec fn after_write(self, bytes: u64, now: u64) -> Meter {
        Meter {
            link: match self.link {
                Some(link) => Some(Uplink { sent: link.sent.wrapping_add(bytes), ..link }),
                None => None,
            },
            flow: Flow {
                uploaded: self.flow.uploaded.wrapping_add(bytes),
                last_progress: if bytes > 0 && self.flow.queued == 0 && now.saturating_sub(
                    self.flow.last_activity,
                ) >= BUSY_US {
                    now
                } else {
                    self.flow.last_progress
                },
                last_activity: if bytes > 0 {
                    now
                } else {
                    self.flow.last_activity
                },
                first_write: if bytes > 0 && self.flow.first_write is None {
                    Some(now)
                } else {
                    self.flow.first_write
                },
                ..self.flow
            },
            ..self
        }
    }

    /// After the connection ended, with a last sample.
    pub open spec fn ended(self, snapshot: Option<Snapshot>, now: u64) -> Meter {
        let last: Meter = self.sampled(snapshot, now);
        Meter {
            totals: if last.flow.counted && last.flow.uploaded > last.flow.payload_acknowledged {
                PayloadTotals { unmeasured: last.totals.unmeasured.wrapping_add(1), ..last.totals }
            } else {
                last.totals
            },
            link: match last.link {
                Some(link) => Some(
                    Uplink {
                        queued: link.queued.wrapping_sub(last.flow.queued),
                        busy: if last.flow.busy {
                            link.busy.wrapping_sub(1)
                        } else {
                            link.busy
                        },
                        ..link
                    },
                ),
                None => None,
            },
            ..last
        }
    }

    /// A connection that opens, on an uplink or on none.
    pub fn open(
        link: Option<Uplink>,
        totals: PayloadTotals,
        counted: bool,
        baseline_rtt_us: u64,
        now: u64,
    ) -> (r: Self)
        ensures
            r == (Meter {
                flow: fresh_flow(counted, baseline_rtt_us, now),
                link: match link {
                    Some(link) => Some(Uplink { busy: link.busy.wrapping_add(1), ..link }),
                    None => None,
                },
                totals,
            }),
    {
        let link: Option<Uplink> = match link {
            Some(link) => Some(Uplink { busy: link.busy.wrapping_add(1), ..link }),
            None => None,
        };
        Meter {
            flow: Flow {
                counted,
                payload_acknowledged: 0,
                uploaded: 0,
                downloaded: 0,
                last_activity: now,
                last_progress: now,
                minimum_rtt_us: baseline_rtt_us,
                acknowledged: 0,
                retransmitted: 0,
                queued: 0,
                busy: true,
                opened: now,
                first_write: None,
                first_read: None,
                holds: 0,
            },
            link,
            totals,
        }
    }

    fn note_busy(&mut self, now: u64)
        ensures
            *final(self) == old(self).busy_noted(now),
    {
        let working: bool = self.flow.queued > BACKLOG || now.saturating_sub(
            self.flow.last_activity,
        ) < BUSY_US;
        match self.link {
            Some(link) => {
                if working != self.flow.busy {
                    let mut link: Uplink = link;
                    link.busy = direct::replace_contribution(
                        link.busy,
                        if self.flow.busy {
                            1
                        } else {
                            0
                        },
                        if working {
                            1
                        } else {
                            0
                        },
                    );
                    self.link = Some(link);
                    self.flow.busy = working;
                }
            },
            None => {},
        }
    }

    fn feed_totals(&mut self, snapshot: Option<Snapshot>)
        ensures
            *final(self) == old(self).totals_fed(snapshot),
    {
        match snapshot {
            Some(s) => {
                if self.flow.counted {
                    let capped: u64 = if s.acknowledged < self.flow.uploaded {
                        s.acknowledged
                    } else {
                        self.flow.uploaded
                    };
                    let arrived: u64 = if capped > self.flow.payload_acknowledged {
                        capped
                    } else {
                        self.flow.payload_acknowledged
                    };
                    self.totals.upload = self.totals.upload.wrapping_add(
                        arrived - self.flow.payload_acknowledged,
                    );
                    self.flow.payload_acknowledged = arrived;
                }
            },
            None => {},
        }
    }

    fn feed(&mut self, link: Uplink, s: Snapshot, now: u64)
        requires
            old(self).link == Some(link),
        ensures
            ({
                let (after, held) = old(self).link_fed(link, s, now);
                let next: Flow = old(self).flow.fed(s, now);
                *final(self) == (Meter {
                    link: Some(after),
                    flow: Flow {
                        holds: if held {
                            count_up(next.holds)
                        } else {
                            next.holds
                        },
                        ..next
                    },
                    ..*old(self)
                })
            }),
    {
        let mut link: Uplink = link;
        let acked: u64 = s.acknowledged.saturating_sub(self.flow.acknowledged);
        let repeated: u64 = s.retransmitted.saturating_sub(self.flow.retransmitted);
        link.tcp_observed = true;
        link.acknowledged = link.acknowledged.wrapping_add(acked);
        link.retransmitted = link.retransmitted.wrapping_add(repeated);
        link.queued = direct::replace_contribution(link.queued, self.flow.queued, s.queued);
        if s.acknowledged > self.flow.acknowledged {
            self.flow.acknowledged = s.acknowledged;
            self.flow.last_progress = now;
        }
        if s.retransmitted > self.flow.retransmitted {
            self.flow.retransmitted = s.retransmitted;
        }
        self.flow.queued = s.queued;
        if s.rtt_us > 0 && (self.flow.minimum_rtt_us == 0 || s.rtt_us < self.flow.minimum_rtt_us) {
            self.flow.minimum_rtt_us = s.rtt_us;
        }
        if direct::upload_congested(
            self.flow.uploaded,
            s.queued,
            s.rtt_us.saturating_sub(self.flow.minimum_rtt_us),
            acked,
            repeated,
            now.saturating_sub(self.flow.last_progress),
        ) {
            link.hold_uploads(now / 1000);
            self.flow.holds = count_up(self.flow.holds);
        } else if !link.upload_held(now / 1000) && link.acknowledged >= link.recovery_acknowledged {
            link.upload_hold_until_ms = 0;
        }
        self.link = Some(link);
    }

    pub fn sample(&mut self, snapshot: Option<Snapshot>, now: u64)
        ensures
            *final(self) == old(self).sampled(snapshot, now),
    {
        if self.link.is_none() && !self.flow.counted {
            return;
        }
        self.feed_totals(snapshot);
        match self.link {
            None => {},
            Some(link) => {
                match snapshot {
                    Some(s) => {
                        self.feed(link, s, now);
                    },
                    None => {
                        if self.flow.queued > 0 && now.saturating_sub(self.flow.last_progress)
                            > STALL_US {
                            let mut link: Uplink = link;
                            link.hold_uploads(now / 1000);
                            self.link = Some(link);
                            self.flow.holds = count_up(self.flow.holds);
                        }
                    },
                }
                self.note_busy(now);
            },
        }
    }

    pub fn read(&mut self, bytes: u64, now: u64)
        ensures
            *final(self) == old(self).after_read(bytes, now),
    {
        match self.link {
            Some(link) => {
                let mut link: Uplink = link;
                link.received = link.received.wrapping_add(bytes);
                self.link = Some(link);
            },
            None => {},
        }
        self.flow.downloaded = self.flow.downloaded.wrapping_add(bytes);
        if self.flow.counted {
            self.totals.download = self.totals.download.wrapping_add(bytes);
        }
        if bytes > 0 {
            self.flow.last_activity = now;
            if self.flow.first_read.is_none() {
                self.flow.first_read = Some(now);
            }
        }
    }

    pub fn write(&mut self, bytes: u64, now: u64)
        ensures
            *final(self) == old(self).after_write(bytes, now),
    {
        match self.link {
            Some(link) => {
                let mut link: Uplink = link;
                link.sent = link.sent.wrapping_add(bytes);
                self.link = Some(link);
            },
            None => {},
        }
        if bytes > 0 && self.flow.queued == 0 && now.saturating_sub(self.flow.last_activity)
            >= BUSY_US {
            self.flow.last_progress = now;
        }
        self.flow.uploaded = self.flow.uploaded.wrapping_add(bytes);
        if bytes > 0 {
            self.flow.last_activity = now;
            if self.flow.first_write.is_none() {
                self.flow.first_write = Some(now);
            }
        }
    }

    pub fn end(&mut self, snapshot: Option<Snapshot>, now: u64)
        ensures
            *final(self) == old(self).ended(snapshot, now),
    {
        self.sample(snapshot, now);
        if self.flow.counted && self.flow.uploaded > self.flow.payload_acknowledged {
            self.totals.unmeasured = self.totals.unmeasured.wrapping_add(1);
        }
        match self.link {
            Some(link) => {
                let mut link: Uplink = link;
                link.queued = link.queued.wrapping_sub(self.flow.queued);
                if self.flow.busy {
                    link.busy = link.busy.wrapping_sub(1);
                }
                self.link = Some(link);
            },
            None => {},
        }
    }
}

/// Sampling twice with the same feedback counts no payload twice, and what is
/// counted never exceeds what was written.
pub proof fn payload_is_counted_once(m: Meter, s: Snapshot, now: u64, later: u64)
    requires
        m.flow.payload_acknowledged <= m.flow.uploaded,
    ensures
        m.sampled(Some(s), now).sampled(Some(s), later).totals.upload == m.sampled(
            Some(s),
            now,
        ).totals.upload,
        m.sampled(Some(s), now).flow.payload_acknowledged <= m.sampled(Some(s), now).flow.uploaded,
{
}

/// A connection that opens and ends leaves its uplink with the work and the
/// backlog that it had before, whatever moved in between.
pub proof fn ended_flow_leaves_no_load(
    link: Uplink,
    totals: PayloadTotals,
    counted: bool,
    first: Option<Snapshot>,
    last: Option<Snapshot>,
    opened: u64,
    middle: u64,
    closed: u64,
)
    requires
        link.busy < u64::MAX,
        first is Some ==> link.queued + first->0.queued <= u64::MAX,
        last is Some ==> link.queued + last->0.queued <= u64::MAX,
    ensures
        ({
            let m: Meter = Meter {
                flow: fresh_flow(counted, 0, opened),
                link: Some(Uplink { busy: (link.busy + 1) as u64, ..link }),
                totals,
            };
            let after: Uplink = m.sampled(first, middle).ended(last, closed).link->0;
            after.busy == link.busy && after.queued == link.queued
        }),
{
    let m: Meter = Meter {
        flow: fresh_flow(counted, 0, opened),
        link: Some(Uplink { busy: (link.busy + 1) as u64, ..link }),
        totals,
    };
    let one: Meter = m.sampled(first, middle);
    assert(one.link->0.queued == link.queued + one.flow.queued);
    assert(one.link->0.busy == link.busy + (if one.flow.busy {
        1int
    } else {
        0int
    }));
    let two: Meter = one.sampled(last, closed);
    assert(two.link->0.queued == link.queued + two.flow.queued);
    assert(two.link->0.busy == link.busy + (if two.flow.busy {
        1int
    } else {
        0int
    }));
}

} // verus!
