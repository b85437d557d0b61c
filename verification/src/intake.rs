//! Bounded intake of packets from the tunnel device: what is admitted, and
//! what is counted. A full queue makes the reader wait; it drops nothing.
use crate::names;
use vstd::prelude::*;
use vstd::string::*;

verus! {

pub const INTAKE_PACKETS: usize = 1024;

pub const INTAKE_BATCH: usize = 64;

pub const KERNEL_RING_PACKETS: u32 = 2048;

pub struct IntakePacket {
    pub bytes: Vec<u8>,
    /// When it was admitted, in microseconds.
    pub admitted: u64,
}

#[derive(Clone, Copy, Debug, PartialEq, Eq, Structural)]
pub struct IntakeSnapshot {
    pub packets: u64,
    pub bytes: u64,
    pub oversize_drops: u64,
    pub queue_waits: u64,
    pub queued_packets: usize,
    pub peak_queued_packets: usize,
    pub capacity_packets: usize,
    pub max_queue_delay_us: u64,
}

/// What becomes of a read.
#[derive(Clone, Copy, Debug, PartialEq, Eq, Structural)]
pub enum Admission {
    /// The device has ended.
    Ended,
    Oversize,
    Admitted,
}

#[derive(Clone, Copy, Debug, PartialEq, Eq, Structural)]
pub struct Intake {
    pub packets: u64,
    pub bytes: u64,
    pub oversize_drops: u64,
    pub queue_waits: u64,
    pub peak_packets: usize,
    pub max_queue_delay_us: u64,
}

#[verifier::allow_in_spec]
pub fn admission(length: usize, mtu: usize) -> Admission
    returns
        (if length == 0 {
            Admission::Ended
        } else if length > mtu {
            Admission::Oversize
        } else {
            Admission::Admitted
        }),
{
    if length == 0 {
        Admission::Ended
    } else if length > mtu {
        Admission::Oversize
    } else {
        Admission::Admitted
    }
}

impl Intake {
    pub fn new() -> (r: Self)
        ensures
            r == (Intake {
                packets: 0,
                bytes: 0,
                oversize_drops: 0,
                queue_waits: 0,
                peak_packets: 0,
                max_queue_delay_us: 0,
            }),
    {
        Intake {
            packets: 0,
            bytes: 0,
            oversize_drops: 0,
            queue_waits: 0,
            peak_packets: 0,
            max_queue_delay_us: 0,
        }
    }

    /// Takes note of a read, with so many places of the queue taken, its own
    /// among them. A whole packet is read, so that one that is too long is
    /// never cut into a shorter one.
    pub fn receive(&mut self, length: usize, mtu: usize, taken: usize) -> (r: Admission)
        ensures
            r == admission(length, mtu),
            *final(self) == match admission(length, mtu) {
                Admission::Ended => *old(self),
                Admission::Oversize => Intake {
                    oversize_drops: old(self).oversize_drops.wrapping_add(1),
                    ..*old(self)
                },
                Admission::Admitted => Intake {
                    packets: old(self).packets.wrapping_add(1),
                    bytes: old(self).bytes.wrapping_add(length as u64),
                    peak_packets: if taken > old(self).peak_packets {
                        taken
                    } else {
                        old(self).peak_packets
                    },
                    ..*old(self)
                },
            },
    {
        let r: Admission = admission(length, mtu);
        match r {
            Admission::Ended => {},
            Admission::Oversize => {
                self.oversize_drops = self.oversize_drops.wrapping_add(1);
            },
            Admission::Admitted => {
                self.packets = self.packets.wrapping_add(1);
                self.bytes = self.bytes.wrapping_add(length as u64);
                if taken > self.peak_packets {
                    self.peak_packets = taken;
                }
            },
        }
        r
    }

    /// The reader found the queue full.
    pub fn wait(&mut self)
        ensures
            *final(self) == (Intake {
                queue_waits: old(self).queue_waits.wrapping_add(1),
                ..*old(self)
            }),
    {
        self.queue_waits = self.queue_waits.wrapping_add(1);
    }

    /// A packet left the queue.
    pub fn leave(&mut self, packet: &IntakePacket, now: u64)
        ensures
            *final(self) == (Intake {
                max_queue_delay_us: if now.saturating_sub(packet.admitted)
                    > old(self).max_queue_delay_us {
                    now.saturating_sub(packet.admitted)
                } else {
                    old(self).max_queue_delay_us
                },
                ..*old(self)
            }),
    {
        let delay: u64 = now.saturating_sub(packet.admitted);
        if delay > self.max_queue_delay_us {
            self.max_queue_delay_us = delay;
        }
    }

    pub fn snapshot(&self, queued_packets: usize) -> (r: IntakeSnapshot)
        ensures
            r == (IntakeSnapshot {
                packets: self.packets,
                bytes: self.bytes,
                oversize_drops: self.oversize_drops,
                queue_waits: self.queue_waits,
                queued_packets,
                peak_queued_packets: self.peak_packets,
                capacity_packets: INTAKE_PACKETS,
                max_queue_delay_us: self.max_queue_delay_us,
            }),
    {
        IntakeSnapshot {
            packets: self.packets,
            bytes: self.bytes,
            oversize_drops: self.oversize_drops,
            queue_waits: self.queue_waits,
            queued_packets,
            peak_queued_packets: self.peak_packets,
            capacity_packets: INTAKE_PACKETS,
            max_queue_delay_us: self.max_queue_delay_us,
        }
    }
}

#[derive(Clone, Copy, Debug, PartialEq, Eq, Structural)]
pub struct KernelTxSnapshot {
    pub tx_dropped: Option<u64>,
    pub tx_dropped_since_start: Option<u64>,
    pub tx_dropped_since_report: Option<u64>,
    pub tx_queue_packets: Option<u64>,
}

pub open spec fn device_char(c: char) -> bool {
    names::is_word(c) || c == '_' || c == '.' || c == '-'
}

/// The name of a device, never of another file: the names that directories have
/// for themselves and for what is above them are none.
pub open spec fn device_name(name: Seq<char>) -> bool {
    &&& 0 < name.len() < 16
    &&& forall|i: int| 0 <= i < name.len() ==> device_char(#[trigger] name[i])
    &&& name != "."@
    &&& name != ".."@
}

/// The difference of two counts, where it tells something.
pub open spec fn since(current: Option<u64>, earlier: Option<u64>) -> Option<u64> {
    if current is Some && earlier is Some && earlier->0 <= current->0 {
        Some((current->0 - earlier->0) as u64)
    } else {
        None
    }
}

pub struct KernelTxMonitor {
    interface: String,
    baseline: Option<u64>,
    previous: Option<u64>,
}

#[verifier::ext_equal]
pub struct MonitorView {
    pub interface: Seq<char>,
    pub baseline: Option<u64>,
    pub previous: Option<u64>,
}

impl View for KernelTxMonitor {
    type V = MonitorView;

    closed spec fn view(&self) -> MonitorView {
        MonitorView {
            interface: self.interface@,
            baseline: self.baseline,
            previous: self.previous,
        }
    }
}

impl MonitorView {
    /// After a count was read. One that fell is of a new device: it is no
    /// loss, and no proof of none.
    pub open spec fn observed(self, current: Option<u64>) -> (MonitorView, KernelTxSnapshot) {
        let baseline: Option<u64> = if current is Some && ((self.baseline is None || current->0
            < self.baseline->0) || (self.previous is Some && current->0 < self.previous->0)) {
            current
        } else {
            self.baseline
        };
        (
            MonitorView { baseline, previous: current, ..self },
            KernelTxSnapshot {
                tx_dropped: current,
                tx_dropped_since_start: since(current, baseline),
                tx_dropped_since_report: since(current, self.previous),
                tx_queue_packets: None,
            },
        )
    }
}

fn difference(current: Option<u64>, earlier: Option<u64>) -> (r: Option<u64>)
    ensures
        r == since(current, earlier),
{
    match (current, earlier) {
        (Some(c), Some(e)) => if e <= c {
            Some(c - e)
        } else {
            None
        },
        _ => None,
    }
}

impl KernelTxMonitor {
    /// A monitor of a device whose count of drops is at present as given.
    pub fn new(interface: &str, dropped: Option<u64>) -> (r: Result<Self, &'static str>)
        ensures
            match r {
                Ok(monitor) => device_name(interface@) && monitor@ == (MonitorView {
                    interface: interface@,
                    baseline: dropped,
                    previous: dropped,
                }),
                Err(text) => !device_name(interface@) && text@ == "invalid TUN interface name"@,
            },
    {
        let n: usize = interface.unicode_len();
        proof {
            reveal_strlit(".");
            reveal_strlit("..");
        }
        if n == 0 || n >= 16 {
            return Err("invalid TUN interface name");
        }
        if n == 1 && interface.get_char(0) == '.' {
            assert(interface@ =~= "."@);
            return Err("invalid TUN interface name");
        }
        if n == 2 && interface.get_char(0) == '.' && interface.get_char(1) == '.' {
            assert(interface@ =~= ".."@);
            return Err("invalid TUN interface name");
        }
        assert(interface@ != "."@ && interface@ != ".."@);
        let mut i: usize = 0;
        while i < n
            invariant
                i <= n,
                n == interface@.len(),
                interface@ != "."@ && interface@ != ".."@,
                forall|j: int| 0 <= j < i ==> device_char(#[trigger] interface@[j]),
            decreases n - i,
        {
            let c: char = interface.get_char(i);
            if !(names::is_word(c) || c == '_' || c == '.' || c == '-') {
                return Err("invalid TUN interface name");
            }
            i = i + 1;
        }
        Ok(
            KernelTxMonitor {
                interface: interface.to_string(),
                baseline: dropped,
                previous: dropped,
            },
        )
    }

    /// Takes note of the counts at present.
    pub fn snapshot(&mut self, dropped: Option<u64>, queue: Option<u64>) -> (r: KernelTxSnapshot)
        ensures
            final(self)@ == old(self)@.observed(dropped).0,
            r == (KernelTxSnapshot {
                tx_queue_packets: queue,
                ..old(self)@.observed(dropped).1
            }),
    {
        let mut sample: KernelTxSnapshot = self.observe(dropped);
        sample.tx_queue_packets = queue;
        sample
    }

    pub fn observe(&mut self, current: Option<u64>) -> (r: KernelTxSnapshot)
        ensures
            (final(self)@, r) == old(self)@.observed(current),
    {
        let since_report: Option<u64> = difference(current, self.previous);
        match current {
            Some(count) => {
                let below_baseline: bool = match self.baseline {
                    Some(b) => count < b,
                    None => true,
                };
                let below_previous: bool = match self.previous {
                    Some(p) => count < p,
                    None => false,
                };
                if below_baseline || below_previous {
                    self.baseline = Some(count);
                }
            },
            None => {},
        }
        self.previous = current;
        KernelTxSnapshot {
            tx_dropped: current,
            tx_dropped_since_start: difference(current, self.baseline),
            tx_dropped_since_report: since_report,
            tx_queue_packets: None,
        }
    }
}

pub open spec fn all_digits(s: Seq<char>) -> bool {
    s.len() > 0 && forall|i: int| 0 <= i < s.len() ==> names::is_digit(#[trigger] s[i])
}

/// A text without a sign before it.
pub open spec fn unsigned(s: Seq<char>) -> Seq<char> {
    if s.len() > 1 && s[0] == '+' {
        s.skip(1)
    } else {
        s
    }
}

/// The number in a text of digits, with space around it and a sign before it.
pub open spec fn spec_parse_counter(text: Seq<char>) -> Option<u64> {
    let digits: Seq<char> = unsigned(names::without_space(text));
    if all_digits(digits) && names::digits_value(digits) <= u64::MAX {
        Some(names::digits_value(digits) as u64)
    } else {
        None
    }
}

proof fn lemma_digits_grow(s: Seq<char>, n: int)
    requires
        0 <= n <= s.len(),
        forall|i: int| 0 <= i < s.len() ==> names::is_digit(#[trigger] s[i]),
    ensures
        names::digits_value(s.take(n)) <= names::digits_value(s),
    decreases s.len(),
{
    if n < s.len() {
        let rest: Seq<char> = s.drop_last();
        assert forall|i: int| 0 <= i < rest.len() implies names::is_digit(#[trigger] rest[i]) by {
            assert(rest[i] == s[i]);
        }
        lemma_digits_grow(rest, n);
        assert(rest.take(n) =~= s.take(n));
    } else {
        assert(s.take(n) =~= s);
    }
}

/// Reads a count of the system.
pub fn parse_counter(text: &str) -> (r: Option<u64>)
    ensures
        r == spec_parse_counter(text@),
{
    let plain: &str = names::trim_space(text);
    let n: usize = plain.unicode_len();
    let from: usize = if n > 1 && plain.get_char(0) == '+' {
        1
    } else {
        0
    };
    let ghost digits: Seq<char> = unsigned(names::without_space(text@));
    assert(digits =~= plain@.skip(from as int));
    if n == 0 {
        return None;
    }
    let mut checked: usize = from;
    while checked < n
        invariant
            from <= checked <= n,
            n == plain@.len(),
            digits == unsigned(names::without_space(text@)),
            digits == plain@.skip(from as int),
            forall|j: int| 0 <= j < checked - from ==> names::is_digit(#[trigger] digits[j]),
        decreases n - checked,
    {
        let c: char = plain.get_char(checked);
        assert(digits[checked - from] == c);
        if !names::is_digit(c) {
            return None;
        }
        checked = checked + 1;
    }
    let mut value: u64 = 0;
    let mut i: usize = from;
    assert(digits.take(0) =~= Seq::empty());
    while i < n
        invariant
            from <= i <= n,
            n == plain@.len(),
            digits == unsigned(names::without_space(text@)),
            digits == plain@.skip(from as int),
            digits.len() == n - from,
            forall|j: int| 0 <= j < digits.len() ==> names::is_digit(#[trigger] digits[j]),
            value == names::digits_value(digits.take(i - from)),
        decreases n - i,
    {
        let c: char = plain.get_char(i);
        let ghost longer: Seq<char> = digits.take(i - from + 1);
        assert(longer.drop_last() =~= digits.take(i - from));
        assert(longer.last() == c);
        assert(names::is_digit(digits[i - from]));
        proof {
            lemma_digits_grow(digits, i - from + 1);
        }
        let digit: u64 = c as u64 - '0' as u64;
        if value > u64::MAX / 10 || (value == u64::MAX / 10 && digit > 5) {
            return None;
        }
        value = value * 10 + digit;
        i = i + 1;
    }
    assert(digits.take(i - from) =~= digits);
    Some(value)
}

} // verus!
