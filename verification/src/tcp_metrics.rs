//! Feedback on what TCP delivered, from the counters of the system. Bytes
//! that a socket accepted are not bytes that arrived.
use vstd::prelude::*;

verus! {

#[derive(Clone, Copy, Debug, PartialEq, Eq, Structural)]
pub struct Snapshot {
    pub acknowledged: u64,
    pub queued: u64,
    pub retransmitted: u64,
    pub rtt_us: u64,
}

/// Least length of the counters for which they can be read.
pub const LINUX_INFO: usize = 224;

pub const DARWIN_INFO: usize = 80;

/// From Linux: the bytes that were acknowledged, of which the first is the
/// handshake's.
pub fn from_linux(
    length: usize,
    bytes_acked: u64,
    bytes_retransmitted: u64,
    rtt_us: u32,
    written: u64,
) -> (r: Option<Snapshot>)
    ensures
        match r {
            Some(s) => {
                &&& length >= LINUX_INFO
                &&& s.acknowledged == if bytes_acked.saturating_sub(1) < written {
                    bytes_acked.saturating_sub(1)
                } else {
                    written
                }
                &&& s.acknowledged + s.queued == written
                &&& s.retransmitted == bytes_retransmitted
                &&& s.rtt_us == rtt_us
            },
            None => length < LINUX_INFO,
        },
{
    if length < LINUX_INFO {
        return None;
    }
    let acked: u64 = bytes_acked.saturating_sub(1);
    let acknowledged: u64 = if acked < written {
        acked
    } else {
        written
    };
    Some(
        Snapshot {
            acknowledged,
            queued: written - acknowledged,
            retransmitted: bytes_retransmitted,
            rtt_us: rtt_us as u64,
        },
    )
}

/// From Darwin: the bytes that stand in the send buffer, sent or not. Only of
/// a connection that stands or closes: a reset discards the buffer, which is
/// no acknowledgement.
pub fn from_darwin(
    length: usize,
    state: u8,
    buffered: u32,
    retransmitted: u64,
    rtt_current_ms: u32,
    rtt_smoothed_ms: u32,
    written: u64,
) -> (r: Option<Snapshot>)
    ensures
        match r {
            Some(s) => {
                &&& length >= DARWIN_INFO && 4 <= state <= 10
                &&& s.acknowledged == written.saturating_sub(buffered as u64)
                &&& s.queued == buffered
                &&& s.retransmitted == retransmitted
                &&& s.rtt_us == 1000 * (if rtt_current_ms > rtt_smoothed_ms {
                    rtt_current_ms
                } else {
                    rtt_smoothed_ms
                })
            },
            None => length < DARWIN_INFO || !(4 <= state <= 10),
        },
{
    if length < DARWIN_INFO || state < 4 || state > 10 {
        return None;
    }
    let rtt: u32 = if rtt_current_ms > rtt_smoothed_ms {
        rtt_current_ms
    } else {
        rtt_smoothed_ms
    };
    Some(
        Snapshot {
            acknowledged: written.saturating_sub(buffered as u64),
            queued: buffered as u64,
            retransmitted,
            rtt_us: rtt as u64 * 1_000,
        },
    )
}

} // verus!
