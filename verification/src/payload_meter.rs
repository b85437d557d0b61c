//! Passive payload accounting. It never feeds routing, recovery or congestion
//! control. TCP credit requires a cumulative acknowledgement of payload that
//! was observed; copies, retransmitted ranges, headers and SYN or FIN get none.
use crate::packet;
use crate::table;
use crate::table::Table;
use vstd::arithmetic::div_mod::*;
use vstd::prelude::*;

verus! {

pub const MAX_FLOWS: usize = 4096;

pub const MAX_RANGES: usize = 64;

pub const IDLE_MS: u64 = 600_000;

/// The furthest end at which a stream is still followed. Positions have no room
/// for much more.
pub const LAST_FOLLOWED: i64 = 0x7fff_fffe_0000_0000;

/// Where one more segment can bring the furthest end at most.
pub const STREAM_LIMIT: i64 = 0x7fff_fffe_8001_0001;

#[derive(Clone, Copy, Debug, PartialEq, Eq, Structural)]
pub enum Direction {
    Upload,
    Download,
}

// ---- One direction of a connection ---------------------------------------------

/// What is known of a byte stream: its furthest end, the acknowledged position,
/// and the ranges that were observed and not acknowledged yet.
pub struct Stream {
    pub reference: Option<i64>,
    pub ack: Option<i64>,
    pub ranges: Vec<(i64, i64)>,
}

#[verifier::ext_equal]
pub struct StreamView {
    pub reference: Option<i64>,
    pub ack: Option<i64>,
    pub ranges: Seq<(i64, i64)>,
}

impl View for Stream {
    type V = StreamView;

    closed spec fn view(&self) -> StreamView {
        StreamView { reference: self.reference, ack: self.ack, ranges: self.ranges@ }
    }
}

/// Ranges in order, none empty, with gaps between them.
pub open spec fn canonical(ranges: Seq<(i64, i64)>) -> bool {
    &&& forall|i: int| 0 <= i < ranges.len() ==> (#[trigger] ranges[i]).0 < ranges[i].1
    &&& forall|i: int, j: int|
        0 <= i < j < ranges.len() ==> (#[trigger] ranges[i]).1 < (#[trigger] ranges[j]).0
}

/// The positions that the ranges cover.
pub open spec fn covered(ranges: Seq<(i64, i64)>) -> Set<int> {
    Set::new(
        |x: int|
            exists|i: int|
                0 <= i < ranges.len() && (#[trigger] ranges[i]).0 <= x && x < ranges[i].1,
    )
}

/// First position from `i` on whose range ends at or after `start`.
pub open spec fn reaching(ranges: Seq<(i64, i64)>, start: int, i: int) -> int
    decreases ranges.len() - i,
{
    if i < ranges.len() && ranges[i].1 < start {
        reaching(ranges, start, i + 1)
    } else {
        i
    }
}

/// First position from `i` on whose range begins after `end`.
pub open spec fn beyond(ranges: Seq<(i64, i64)>, end: int, i: int) -> int
    decreases ranges.len() - i,
{
    if i < ranges.len() && ranges[i].0 <= end {
        beyond(ranges, end, i + 1)
    } else {
        i
    }
}

/// The range together with those that it touches.
pub open spec fn hull(ranges: Seq<(i64, i64)>, start: i64, end: i64) -> (i64, i64) {
    let from: int = reaching(ranges, start as int, 0);
    let to: int = beyond(ranges, end as int, from);
    if from == to {
        (start, end)
    } else {
        (
            if ranges[from].0 < start {
                ranges[from].0
            } else {
                start
            },
            if ranges[to - 1].1 > end {
                ranges[to - 1].1
            } else {
                end
            },
        )
    }
}

pub open spec fn merged(ranges: Seq<(i64, i64)>, start: i64, end: i64) -> Seq<(i64, i64)> {
    let from: int = reaching(ranges, start as int, 0);
    let to: int = beyond(ranges, end as int, from);
    ranges.take(from).push(hull(ranges, start, end)) + ranges.skip(to)
}

/// The range stands alone and there is no room for it.
pub open spec fn no_room(ranges: Seq<(i64, i64)>, start: i64, end: i64) -> bool {
    let from: int = reaching(ranges, start as int, 0);
    from == beyond(ranges, end as int, from) && ranges.len() >= MAX_RANGES
}

/// Bytes below a position in the first `n` ranges.
pub open spec fn bytes_below(ranges: Seq<(i64, i64)>, position: int, n: nat) -> int
    decreases n,
{
    if n == 0 {
        0
    } else {
        let r: (i64, i64) = ranges[n - 1];
        let end: int = if r.1 <= position {
            r.1 as int
        } else {
            position
        };
        bytes_below(ranges, position, (n - 1) as nat) + if r.0 < end {
            end - r.0
        } else {
            0
        }
    }
}

/// What lies at or above a position in the first `n` ranges.
pub open spec fn above(ranges: Seq<(i64, i64)>, position: i64, n: nat) -> Seq<(i64, i64)>
    decreases n,
{
    if n == 0 {
        Seq::empty()
    } else {
        let before: Seq<(i64, i64)> = above(ranges, position, (n - 1) as nat);
        let r: (i64, i64) = ranges[n - 1];
        if r.1 <= position {
            before
        } else if r.0 < position {
            before.push((position, r.1))
        } else {
            before.push(r)
        }
    }
}

/// The position of a sequence number: the nearest one to the furthest end.
pub open spec fn unwrapped(reference: Option<i64>, seq: u32) -> int {
    match reference {
        None => seq as int,
        Some(at) => {
            let ahead: int = (seq - at) % 0x1_0000_0000;
            if ahead < 0x8000_0000 {
                at + ahead
            } else {
                at + ahead - 0x1_0000_0000
            }
        },
    }
}

impl StreamView {
    /// Nothing that lies below the acknowledgement or beyond the furthest end
    /// is remembered, and no position is past the limit.
    pub open spec fn wf(self) -> bool {
        &&& canonical(self.ranges)
        &&& self.ranges.len() <= MAX_RANGES
        &&& match self.reference {
            Some(end) => {
                &&& 0 <= end <= STREAM_LIMIT
                &&& forall|i: int|
                    0 <= i < self.ranges.len() ==> (#[trigger] self.ranges[i]).1 <= end
            },
            None => self.ranges.len() == 0 && self.ack is None,
        }
        &&& match self.ack {
            Some(position) => {
                &&& -0x1_0000_0000 <= position <= STREAM_LIMIT
                &&& forall|i: int|
                    0 <= i < self.ranges.len() ==> (#[trigger] self.ranges[i]).0 >= position
            },
            None => true,
        }
        &&& forall|i: int|
            0 <= i < self.ranges.len() ==> (#[trigger] self.ranges[i]).0 >= -0x1_0000_0000
    }

    /// First and last position of a segment's payload.
    pub open spec fn payload_start(self, seq: u32, syn: bool) -> int {
        unwrapped(self.reference, seq) + if syn {
            1int
        } else {
            0
        }
    }

    pub open spec fn furthest(self, end: int, fin: bool) -> int {
        let next: int = end + if fin {
            1int
        } else {
            0
        };
        match self.reference {
            Some(at) => if at >= next {
                at as int
            } else {
                next
            },
            None => next,
        }
    }

    /// Whether positions have run out: no stream that was ever seen is so long.
    pub open spec fn run_out(self) -> bool {
        match self.reference {
            Some(at) => at > LAST_FOLLOWED,
            None => false,
        }
    }

    /// The stream after a segment, and whether its payload could be followed.
    /// Where positions have run out, none can.
    pub open spec fn observed(self, seq: u32, bytes: nat, syn: bool, fin: bool) -> (
        StreamView,
        bool,
    ) {
        let first: int = self.payload_start(seq, syn);
        let end: int = first + bytes;
        let start: int = match self.ack {
            Some(position) => if position >= first {
                position as int
            } else {
                first
            },
            None => first,
        };
        let ahead: StreamView = StreamView {
            reference: Some(self.furthest(end, fin) as i64),
            ..self
        };
        if self.run_out() {
            (self, bytes == 0)
        } else if start >= end {
            (ahead, true)
        } else if no_room(self.ranges, start as i64, end as i64) {
            (ahead, false)
        } else {
            (
                StreamView { ranges: merged(self.ranges, start as i64, end as i64), ..ahead },
                true,
            )
        }
    }

    /// Whether an acknowledgement is new and covers nothing unsent.
    pub open spec fn ack_counts(self, seq: u32) -> bool {
        match self.reference {
            None => false,
            Some(end) => unwrapped(self.reference, seq) <= end && match self.ack {
                Some(position) => position < unwrapped(self.reference, seq),
                None => true,
            },
        }
    }

    /// The stream after an acknowledgement, and the bytes that it credits.
    pub open spec fn acknowledged(self, seq: u32) -> (StreamView, int) {
        if self.ack_counts(seq) {
            let position: i64 = unwrapped(self.reference, seq) as i64;
            (
                StreamView {
                    ack: Some(position),
                    ranges: above(self.ranges, position, self.ranges.len()),
                    ..self
                },
                bytes_below(self.ranges, position as int, self.ranges.len()),
            )
        } else {
            (self, 0)
        }
    }
}

pub open spec fn fresh_stream() -> StreamView {
    StreamView { reference: None, ack: None, ranges: Seq::empty() }
}

proof fn lemma_reaching(ranges: Seq<(i64, i64)>, start: int, i: int)
    requires
        0 <= i <= ranges.len(),
    ensures
        i <= reaching(ranges, start, i) <= ranges.len(),
        forall|j: int| i <= j < reaching(ranges, start, i) ==> (#[trigger] ranges[j]).1 < start,
        reaching(ranges, start, i) < ranges.len() ==> ranges[reaching(ranges, start, i)].1 >= start,
    decreases ranges.len() - i,
{
    if i < ranges.len() && ranges[i].1 < start {
        lemma_reaching(ranges, start, i + 1);
    }
}

proof fn lemma_beyond(ranges: Seq<(i64, i64)>, end: int, i: int)
    requires
        0 <= i <= ranges.len(),
    ensures
        i <= beyond(ranges, end, i) <= ranges.len(),
        forall|j: int| i <= j < beyond(ranges, end, i) ==> (#[trigger] ranges[j]).0 <= end,
        beyond(ranges, end, i) < ranges.len() ==> ranges[beyond(ranges, end, i)].0 > end,
    decreases ranges.len() - i,
{
    if i < ranges.len() && ranges[i].0 <= end {
        lemma_beyond(ranges, end, i + 1);
    }
}

/// Merging a range adds exactly its positions, and keeps the form.
pub proof fn merging_adds_range(ranges: Seq<(i64, i64)>, start: i64, end: i64)
    requires
        canonical(ranges),
        start < end,
    ensures
        canonical(merged(ranges, start, end)),
        covered(merged(ranges, start, end)) == covered(ranges).union(
            Set::new(|x: int| start <= x < end),
        ),
        !no_room(ranges, start, end) && ranges.len() <= MAX_RANGES ==> merged(
            ranges,
            start,
            end,
        ).len() <= MAX_RANGES,
{
    let from: int = reaching(ranges, start as int, 0);
    lemma_reaching(ranges, start as int, 0);
    let to: int = beyond(ranges, end as int, from);
    lemma_beyond(ranges, end as int, from);
    let joined: (i64, i64) = hull(ranges, start, end);
    let all: Seq<(i64, i64)> = merged(ranges, start, end);
    assert(all.len() == from + 1 + ranges.len() - to);
    assert forall|i: int| 0 <= i < all.len() implies #[trigger] all[i] == (if i < from {
        ranges[i]
    } else if i == from {
        joined
    } else {
        ranges[i - from - 1 + to]
    }) by {}
    assert(canonical(all)) by {
        assert forall|i: int, j: int| 0 <= i < j < all.len() implies (#[trigger] all[i]).1 < (
        #[trigger] all[j]).0 by {
            if j == from && from < to {
                assert(ranges[i].1 < ranges[from].0);
            }
            if i == from && from < to {
                assert(ranges[to - 1].1 < ranges[j - from - 1 + to].0);
            }
            if i == from {
                assert(ranges[to].0 > end);
                if j - from - 1 + to > to {
                    assert(ranges[to].1 < ranges[j - from - 1 + to].0);
                }
            }
            if i < from && j > from {
                assert(ranges[i].1 < ranges[j - from - 1 + to].0);
            }
        }
    }
    let target: Set<int> = covered(ranges).union(Set::new(|x: int| start <= x < end));
    assert forall|x: int| covered(all).contains(x) == #[trigger] target.contains(x) by {
        if covered(all).contains(x) {
            let i: int = choose|i: int|
                0 <= i < all.len() && (#[trigger] all[i]).0 <= x && x < all[i].1;
            if i < from {
                assert(ranges[i].0 <= x && x < ranges[i].1);
            } else if i > from {
                assert(ranges[i - from - 1 + to].0 <= x);
            } else if !(start <= x < end) {
                if x < start {
                    assert(ranges[from].0 <= x && x < ranges[from].1);
                } else {
                    assert(ranges[to - 1].0 <= x && x < ranges[to - 1].1);
                }
            }
        }
        if start <= x < end {
            assert(all[from].0 <= x && x < all[from].1);
        }
        if covered(ranges).contains(x) {
            let i: int = choose|i: int|
                0 <= i < ranges.len() && (#[trigger] ranges[i]).0 <= x && x < ranges[i].1;
            if i < from {
                assert(all[i].0 <= x && x < all[i].1);
            } else if i >= to {
                assert(all[i - to + from + 1].0 <= x);
            } else {
                if i > from {
                    assert(ranges[from].1 < ranges[i].0);
                }
                if i < to - 1 {
                    assert(ranges[i].1 < ranges[to - 1].0);
                }
                assert(all[from].0 <= x && x < all[from].1);
            }
        }
    }
    assert(covered(all) =~= target);
}

/// The hull stays below what bounds both the range and those it touches.
proof fn lemma_merged_bounds(ranges: Seq<(i64, i64)>, start: i64, end: i64, low: int, high: int)
    requires
        canonical(ranges),
        start < end,
        low <= start,
        end <= high,
        forall|i: int|
            0 <= i < ranges.len() ==> low <= (#[trigger] ranges[i]).0 && ranges[i].1 <= high,
    ensures
        forall|i: int|
            0 <= i < merged(ranges, start, end).len() ==> low <= (#[trigger] merged(
                ranges,
                start,
                end,
            )[i]).0 && merged(ranges, start, end)[i].1 <= high,
{
    lemma_reaching(ranges, start as int, 0);
    lemma_beyond(ranges, end as int, reaching(ranges, start as int, 0));
}

proof fn lemma_above(ranges: Seq<(i64, i64)>, position: i64, n: nat)
    requires
        canonical(ranges),
        n <= ranges.len(),
    ensures
        canonical(above(ranges, position, n)),
        above(ranges, position, n).len() <= n,
        forall|i: int|
            0 <= i < above(ranges, position, n).len() ==> {
                let r: (i64, i64) = #[trigger] above(ranges, position, n)[i];
                r.0 >= position && exists|j: int|
                    0 <= j < n && (#[trigger] ranges[j]).1 == r.1 && ranges[j].0 <= r.0
            },
        n > 0 ==> forall|i: int|
            0 <= i < above(ranges, position, n).len() ==> (#[trigger] above(
                ranges,
                position,
                n,
            )[i]).1 <= ranges[n - 1].1,
    decreases n,
{
    if n > 0 {
        lemma_above(ranges, position, (n - 1) as nat);
        let before: Seq<(i64, i64)> = above(ranges, position, (n - 1) as nat);
        let all: Seq<(i64, i64)> = above(ranges, position, n);
        assert forall|i: int| 0 <= i < all.len() implies {
            let r: (i64, i64) = #[trigger] all[i];
            r.0 >= position && exists|j: int|
                0 <= j < n && (#[trigger] ranges[j]).1 == r.1 && ranges[j].0 <= r.0
        } by {
            if i < before.len() {
                assert(all[i] == before[i]);
                let j: int = choose|j: int|
                    0 <= j < n - 1 && (#[trigger] ranges[j]).1 == before[i].1 && ranges[j].0
                        <= before[i].0;
                assert(ranges[j].1 == all[i].1);
            } else {
                assert(ranges[n - 1].1 == all[i].1);
            }
        }
        assert forall|i: int| 0 <= i < all.len() implies (#[trigger] all[i]).1 <= ranges[n
            - 1].1 by {
            if i < before.len() {
                assert(all[i] == before[i]);
                let j: int = choose|j: int|
                    0 <= j < n - 1 && (#[trigger] ranges[j]).1 == before[i].1 && ranges[j].0
                        <= before[i].0;
                assert(ranges[j].1 < ranges[n - 1].0);
            }
        }
        assert(canonical(all)) by {
            assert forall|i: int, j: int| 0 <= i < j < all.len() implies (#[trigger] all[i]).1 < (
            #[trigger] all[j]).0 by {
                assert(all[i] == before[i]);
                if j == before.len() {
                    let k: int = choose|k: int|
                        0 <= k < n - 1 && (#[trigger] ranges[k]).1 == before[i].1 && ranges[k].0
                            <= before[i].0;
                    assert(ranges[k].1 < ranges[n - 1].0);
                } else {
                    assert(all[j] == before[j]);
                }
            }
        }
    }
}

/// An acknowledgement takes exactly the positions below it.
pub proof fn above_keeps_rest(ranges: Seq<(i64, i64)>, position: i64, n: nat)
    requires
        canonical(ranges),
        n <= ranges.len(),
    ensures
        covered(above(ranges, position, n)) == covered(ranges.take(n as int)).filter(
            |x: int| x >= position,
        ),
    decreases n,
{
    let all: Seq<(i64, i64)> = above(ranges, position, n);
    let target: Set<int> = covered(ranges.take(n as int)).filter(|x: int| x >= position);
    if n > 0 {
        above_keeps_rest(ranges, position, (n - 1) as nat);
        let before: Seq<(i64, i64)> = above(ranges, position, (n - 1) as nat);
        let part: Seq<(i64, i64)> = ranges.take(n - 1);
        let r: (i64, i64) = ranges[n - 1];
        assert forall|x: int| covered(all).contains(x) == #[trigger] target.contains(x) by {
            assert(covered(before).contains(x) == (covered(part).contains(x) && x >= position));
            if covered(all).contains(x) {
                let i: int = choose|i: int|
                    0 <= i < all.len() && (#[trigger] all[i]).0 <= x && x < all[i].1;
                if i < before.len() {
                    assert(before[i] == all[i]);
                    let j: int = choose|j: int|
                        0 <= j < part.len() && (#[trigger] part[j]).0 <= x && x < part[j].1;
                    assert(ranges.take(n as int)[j] == part[j]);
                } else {
                    assert(ranges.take(n as int)[n - 1].0 <= x);
                }
            }
            if target.contains(x) {
                let j: int = choose|j: int|
                    0 <= j < n && (#[trigger] ranges.take(n as int)[j]).0 <= x && x < ranges.take(
                        n as int,
                    )[j].1;
                if j < n - 1 {
                    assert(part[j].0 <= x && x < part[j].1);
                    let i: int = choose|i: int|
                        0 <= i < before.len() && (#[trigger] before[i]).0 <= x && x < before[i].1;
                    assert(all[i] == before[i]);
                } else {
                    assert(all[all.len() - 1].0 <= x && x < all[all.len() - 1].1);
                }
            }
        }
    }
    assert(covered(all) =~= target);
}

/// Credited bytes and those that remain add up.
pub proof fn credit_is_conserved(ranges: Seq<(i64, i64)>, position: i64, high: int, n: nat)
    requires
        canonical(ranges),
        n <= ranges.len(),
        position <= high,
        forall|i: int| 0 <= i < ranges.len() ==> (#[trigger] ranges[i]).1 <= high,
    ensures
        bytes_below(ranges, position as int, n) + bytes_below(
            above(ranges, position, n),
            high,
            above(ranges, position, n).len(),
        ) == bytes_below(ranges, high, n),
    decreases n,
{
    if n > 0 {
        credit_is_conserved(ranges, position, high, (n - 1) as nat);
        let before: Seq<(i64, i64)> = above(ranges, position, (n - 1) as nat);
        let all: Seq<(i64, i64)> = above(ranges, position, n);
        lemma_below_prefix(before, all, high, before.len());
    }
}

proof fn lemma_below_prefix(a: Seq<(i64, i64)>, b: Seq<(i64, i64)>, position: int, n: nat)
    requires
        n <= a.len() <= b.len(),
        forall|i: int| 0 <= i < n ==> #[trigger] a[i] == b[i],
    ensures
        bytes_below(a, position, n) == bytes_below(b, position, n),
    decreases n,
{
    if n > 0 {
        lemma_below_prefix(a, b, position, (n - 1) as nat);
    }
}

proof fn lemma_below_bound(ranges: Seq<(i64, i64)>, position: int, n: nat)
    requires
        canonical(ranges),
        0 < n <= ranges.len(),
    ensures
        0 <= bytes_below(ranges, position, n) <= ranges[n - 1].1 - ranges[0].0,
    decreases n,
{
    if n > 1 {
        lemma_below_bound(ranges, position, (n - 1) as nat);
        assert(ranges[n - 2].1 < ranges[n - 1].0);
    } else {
        assert(bytes_below(ranges, position, 0) == 0);
    }
}

proof fn lemma_observed_wf(
    stream: StreamView,
    seq: u32,
    bytes: nat,
    syn: bool,
    fin: bool,
)
    requires
        stream.wf(),
        bytes <= 0xffff,
    ensures
        stream.observed(seq, bytes, syn, fin).0.wf(),
{
    let first: int = stream.payload_start(seq, syn);
    let end: int = first + bytes;
    let start: int = match stream.ack {
        Some(position) => if position >= first {
            position as int
        } else {
            first
        },
        None => first,
    };
    if start < end && !stream.run_out() {
        merging_adds_range(stream.ranges, start as i64, end as i64);
        lemma_merged_bounds(
            stream.ranges,
            start as i64,
            end as i64,
            match stream.ack {
                Some(position) => position as int,
                None => -0x1_0000_0000,
            },
            stream.furthest(end, fin),
        );
    }
}

/// The ranges with one more, or nothing where there is no room.
fn merge_range(ranges: &Vec<(i64, i64)>, start: i64, end: i64) -> (r: Option<Vec<(i64, i64)>>)
    ensures
        match r {
            Some(all) => !no_room(ranges@, start, end) && all@ == merged(ranges@, start, end),
            None => no_room(ranges@, start, end),
        },
{
    let n: usize = ranges.len();
    let mut from: usize = 0;
    while from < n && ranges[from].1 < start
        invariant
            from <= n == ranges@.len(),
            reaching(ranges@, start as int, from as int) == reaching(ranges@, start as int, 0),
        decreases n - from,
    {
        from = from + 1;
    }
    let mut to: usize = from;
    while to < n && ranges[to].0 <= end
        invariant
            from <= to <= n == ranges@.len(),
            beyond(ranges@, end as int, to as int) == beyond(ranges@, end as int, from as int),
        decreases n - to,
    {
        to = to + 1;
    }
    if from == to && n >= MAX_RANGES {
        return None;
    }
    let joined: (i64, i64) = if from == to {
        (start, end)
    } else {
        let low: i64 = ranges[from].0;
        let high: i64 = ranges[to - 1].1;
        (
            if low < start {
                low
            } else {
                start
            },
            if high > end {
                high
            } else {
                end
            },
        )
    };
    let mut all: Vec<(i64, i64)> = Vec::new();
    let mut i: usize = 0;
    while i < from
        invariant
            i <= from <= n == ranges@.len(),
            all@ =~= ranges@.take(i as int),
        decreases from - i,
    {
        all.push(ranges[i]);
        i = i + 1;
    }
    all.push(joined);
    let ghost head: Seq<(i64, i64)> = all@;
    i = to;
    while i < n
        invariant
            to <= i <= n == ranges@.len(),
            all@ =~= head + ranges@.subrange(to as int, i as int),
        decreases n - i,
    {
        all.push(ranges[i]);
        i = i + 1;
    }
    assert(all@ =~= merged(ranges@, start, end));
    Some(all)
}

impl Stream {
    pub fn new() -> (r: Self)
        ensures
            r@ == fresh_stream(),
            r@.wf(),
    {
        let r: Stream = Stream { reference: None, ack: None, ranges: Vec::new() };
        assert(r@ =~= fresh_stream());
        r
    }

    fn unwrap(&self, seq: u32) -> (r: i64)
        requires
            self@.wf(),
        ensures
            r == unwrapped(self@.reference, seq),
            -0x8000_0000 <= r,
    {
        match self.reference {
            None => seq as i64,
            Some(at) => {
                let low: u32 = (at as u64 % 0x1_0000_0000) as u32;
                let ahead: u32 = seq.wrapping_sub(low);
                proof {
                    lemma_fundamental_div_mod(at as int, 0x1_0000_0000);
                    let q: int = at as int / 0x1_0000_0000;
                    if seq >= low {
                        lemma_fundamental_div_mod_converse(
                            seq - at,
                            0x1_0000_0000,
                            -q,
                            ahead as int,
                        );
                    } else {
                        lemma_fundamental_div_mod_converse(
                            seq - at,
                            0x1_0000_0000,
                            -q - 1,
                            ahead as int,
                        );
                    }
                }
                if ahead < 0x8000_0000 {
                    at + ahead as i64
                } else {
                    at + ahead as i64 - 0x1_0000_0000
                }
            },
        }
    }

    /// Records a segment. Retransmissions and overlaps count once. Returns
    /// false where there is no room to follow it.
    pub fn observe(&mut self, seq: u32, bytes: usize, syn: bool, fin: bool) -> (r: bool)
        requires
            old(self)@.wf(),
            bytes <= 0xffff,
        ensures
            final(self)@.wf(),
            final(self)@ == old(self)@.observed(seq, bytes as nat, syn, fin).0,
            r == old(self)@.observed(seq, bytes as nat, syn, fin).1,
    {
        let ghost before: StreamView = self@;
        proof {
            lemma_observed_wf(before, seq, bytes as nat, syn, fin);
        }
        let run_out: bool = match self.reference {
            Some(at) => at > LAST_FOLLOWED,
            None => false,
        };
        if run_out {
            return bytes == 0;
        }
        let first: i64 = self.unwrap(seq) + if syn {
            1
        } else {
            0
        };
        let end: i64 = first + bytes as i64;
        let next: i64 = end + if fin {
            1
        } else {
            0
        };
        self.reference = Some(
            match self.reference {
                Some(at) => if at >= next {
                    at
                } else {
                    next
                },
                None => next,
            },
        );
        let start: i64 = match self.ack {
            Some(position) => if position >= first {
                position
            } else {
                first
            },
            None => first,
        };
        if start >= end {
            assert(self@ =~= before.observed(seq, bytes as nat, syn, fin).0);
            return true;
        }
        match merge_range(&self.ranges, start, end) {
            Some(all) => {
                self.ranges = all;
                assert(self@ =~= before.observed(seq, bytes as nat, syn, fin).0);
                true
            },
            None => {
                assert(self@ =~= before.observed(seq, bytes as nat, syn, fin).0);
                false
            },
        }
    }

    /// Credits the observed bytes that an acknowledgement covers. A stale one,
    /// or one of bytes never sent, credits nothing.
    pub fn acknowledge(&mut self, seq: u32) -> (r: u64)
        requires
            old(self)@.wf(),
        ensures
            final(self)@.wf(),
            final(self)@ == old(self)@.acknowledged(seq).0,
            r == old(self)@.acknowledged(seq).1,
    {
        let ghost before: StreamView = self@;
        let end: i64 = match self.reference {
            Some(end) => end,
            None => {
                return 0;
            },
        };
        let position: i64 = self.unwrap(seq);
        let stale: bool = match self.ack {
            Some(previous) => position <= previous,
            None => false,
        };
        if position > end || stale {
            return 0;
        }
        self.ack = Some(position);
        let n: usize = self.ranges.len();
        let mut bytes: u64 = 0;
        let mut rest: Vec<(i64, i64)> = Vec::new();
        let mut i: usize = 0;
        while i < n
            invariant
                i <= n == self.ranges@.len(),
                self.ranges@ == before.ranges,
                before.wf(),
                bytes == bytes_below(before.ranges, position as int, i as nat),
                rest@ == above(before.ranges, position, i as nat),
            decreases n - i,
        {
            let (low, high) = self.ranges[i];
            proof {
                lemma_below_bound(before.ranges, position as int, (i + 1) as nat);
                assert(before.ranges[0].0 >= -0x1_0000_0000);
            }
            if high <= position {
                bytes = bytes + (high - low) as u64;
            } else if low < position {
                bytes = bytes + (position - low) as u64;
                rest.push((position, high));
            } else {
                rest.push((low, high));
            }
            i = i + 1;
        }
        self.ranges = rest;
        proof {
            lemma_above(before.ranges, position, n as nat);
            assert(self@ =~= before.acknowledged(seq).0);
            assert forall|k: int| 0 <= k < self@.ranges.len() implies (
            #[trigger] self@.ranges[k]).1 <= end && self@.ranges[k].0 >= -0x1_0000_0000 by {
                let j: int = choose|j: int|
                    0 <= j < n && (#[trigger] before.ranges[j]).1 == self@.ranges[k].1
                        && before.ranges[j].0 <= self@.ranges[k].0;
                assert(before.ranges[j].1 <= end);
            }
        }
        bytes
    }
}

proof fn lemma_acknowledged_wf(stream: StreamView, seq: u32)
    requires
        stream.wf(),
    ensures
        stream.acknowledged(seq).0.wf(),
{
    if stream.ack_counts(seq) {
        let position: i64 = unwrapped(stream.reference, seq) as i64;
        let n: nat = stream.ranges.len();
        lemma_above(stream.ranges, position, n);
        let after: StreamView = stream.acknowledged(seq).0;
        assert forall|k: int| 0 <= k < after.ranges.len() implies (
        #[trigger] after.ranges[k]).1 <= stream.reference->Some_0 && after.ranges[k].0
            >= -0x1_0000_0000 by {
            let j: int = choose|j: int|
                0 <= j < n && (#[trigger] stream.ranges[j]).1 == after.ranges[k].1
                    && stream.ranges[j].0 <= after.ranges[k].0;
            assert(stream.ranges[j].1 <= stream.reference->Some_0);
        }
    }
}

/// A segment without payload adds no credit, whether it opens the connection,
/// closes it or does neither.
pub proof fn bare_segment_adds_nothing(stream: StreamView, seq: u32, syn: bool, fin: bool)
    ensures
        stream.observed(seq, 0, syn, fin).0.ranges == stream.ranges,
        stream.observed(seq, 0, syn, fin).0.ack == stream.ack,
        stream.observed(seq, 0, syn, fin).1,
{
}

/// An acknowledgement beyond the furthest end that was seen, or not above the
/// last one, credits nothing and changes nothing.
pub proof fn idle_ack_credits_nothing(stream: StreamView, seq: u32)
    requires
        stream.reference is None || unwrapped(stream.reference, seq) > stream.reference->Some_0
            || (stream.ack is Some && unwrapped(stream.reference, seq) <= stream.ack->Some_0),
    ensures
        stream.acknowledged(seq) == (stream, 0int),
{
}

/// A segment that was seen or acknowledged before adds no credit.
pub proof fn retransmission_adds_nothing(
    stream: StreamView,
    seq: u32,
    bytes: nat,
    syn: bool,
    fin: bool,
)
    requires
        stream.wf(),
        bytes <= 0x1_0000,
        forall|x: int|
            stream.payload_start(seq, syn) <= x < stream.payload_start(seq, syn) + bytes
                ==> covered(stream.ranges).contains(x) || (stream.ack is Some && x
                < stream.ack->0),
    ensures
        covered(stream.observed(seq, bytes, syn, fin).0.ranges) == covered(stream.ranges),
{
    let first: int = stream.payload_start(seq, syn);
    let end: int = first + bytes;
    let start: int = match stream.ack {
        Some(position) => if position >= first {
            position as int
        } else {
            first
        },
        None => first,
    };
    if start < end && !stream.run_out() && !no_room(stream.ranges, start as i64, end as i64) {
        merging_adds_range(stream.ranges, start as i64, end as i64);
        let added: Set<int> = Set::new(|x: int| start as i64 <= x < end as i64);
        assert(covered(stream.ranges).union(added) =~= covered(stream.ranges));
    }
}

// ---- Packets -------------------------------------------------------------------

/// The transport part of a whole IPv4 packet of a protocol.
pub open spec fn spec_transport(ip: Seq<u8>, protocol: u8) -> Option<Seq<u8>> {
    let header: int = packet::spec_header(ip);
    let total: nat = packet::be16(ip, 2);
    if ip.len() < 20 || ip[0] / 16 != 4 || ip[9] != protocol || header < 20 || total < header
        || total > ip.len() || packet::be16(ip, 6) % 0x4000 != 0 {
        None
    } else {
        Some(ip.subrange(header, total as int))
    }
}

pub open spec fn spec_udp_payload_len(ip: Seq<u8>) -> Option<u64> {
    match spec_transport(ip, 17) {
        None => None,
        Some(udp) => if udp.len() >= 8 && 8 <= packet::be16(udp, 4) <= udp.len() {
            Some((packet::be16(udp, 4) - 8) as u64)
        } else {
            None
        },
    }
}

fn ipv4_transport(ip: &[u8], protocol: u8) -> (r: Option<&[u8]>)
    ensures
        match r {
            Some(part) => spec_transport(ip@, protocol) == Some(part@) && part@.len() <= 0xffff,
            None => spec_transport(ip@, protocol) is None,
        },
{
    if ip.len() < 20 || ip[0] / 16 != 4 || ip[9] != protocol {
        return None;
    }
    let header: usize = (ip[0] % 16) as usize * 4;
    let total: usize = packet::read16(ip, 2) as usize;
    if header < 20 || total < header || total > ip.len() || packet::read16(ip, 6) % 0x4000 != 0 {
        return None;
    }
    Some(vstd::slice::slice_subrange(ip, header, total))
}

/// Bytes of application data in a whole UDP packet.
pub fn udp_payload_len(ip: &[u8]) -> (r: Option<u64>)
    ensures
        r == spec_udp_payload_len(ip@),
{
    let udp: &[u8] = match ipv4_transport(ip, 17) {
        Some(udp) => udp,
        None => {
            return None;
        },
    };
    if udp.len() < 8 {
        return None;
    }
    let length: usize = packet::read16(udp, 4) as usize;
    if length >= 8 && length <= udp.len() {
        Some((length - 8) as u64)
    } else {
        None
    }
}

/// A connection, seen from the local end.
pub struct Flow {
    pub upload: Stream,
    pub download: Stream,
    pub opening_syn: u32,
    pub last_seen: u64,
}

#[verifier::ext_equal]
pub struct FlowView {
    pub upload: StreamView,
    pub download: StreamView,
    pub opening_syn: u32,
    pub last_seen: u64,
}

impl View for Flow {
    type V = FlowView;

    closed spec fn view(&self) -> FlowView {
        FlowView {
            upload: self.upload@,
            download: self.download@,
            opening_syn: self.opening_syn,
            last_seen: self.last_seen,
        }
    }
}

pub struct PayloadMeter {
    pub upload_bytes: u64,
    pub download_bytes: u64,
    pub unmeasured_packets: u64,
    pub flows: Table<Flow>,
}

/// A meter that has seen nothing.
pub open spec fn empty_meter() -> MeterView {
    MeterView {
        upload_bytes: 0,
        download_bytes: 0,
        unmeasured_packets: 0,
        flows: Map::empty(),
    }
}

#[verifier::ext_equal]
pub struct MeterView {
    pub upload_bytes: u64,
    pub download_bytes: u64,
    pub unmeasured_packets: u64,
    pub flows: Map<u128, FlowView>,
}

spec fn flow_views(flows: Map<u128, Flow>) -> Map<u128, FlowView> {
    Map::new(|k: u128| flows.contains_key(k), |k: u128| flows[k]@)
}

impl View for PayloadMeter {
    type V = MeterView;

    closed spec fn view(&self) -> MeterView {
        MeterView {
            upload_bytes: self.upload_bytes,
            download_bytes: self.download_bytes,
            unmeasured_packets: self.unmeasured_packets,
            flows: flow_views(self.flows@),
        }
    }
}

/// The addresses and ports of a connection, the local end first.
pub open spec fn flow_key(ip: Seq<u8>, tcp: Seq<u8>, direction: Direction) -> u128 {
    match direction {
        Direction::Upload => (packet::be32(ip, 12) * 0x1_0000_0000_0000_0000 + packet::be32(ip, 16)
            * 0x1_0000_0000 + packet::be16(tcp, 0) * 0x1_0000 + packet::be16(tcp, 2)) as u128,
        Direction::Download => (packet::be32(ip, 16) * 0x1_0000_0000_0000_0000 + packet::be32(
            ip,
            12,
        ) * 0x1_0000_0000 + packet::be16(tcp, 2) * 0x1_0000 + packet::be16(tcp, 0)) as u128,
    }
}

pub open spec fn flag(tcp: Seq<u8>, bit: u8) -> bool {
    (tcp[13] / bit) % 2 == 1
}

pub open spec fn fresh_flow(seq: u32, now: u64) -> FlowView {
    FlowView {
        upload: fresh_stream(),
        download: fresh_stream(),
        opening_syn: seq,
        last_seen: now,
    }
}

impl FlowView {
    /// The flow after a segment: what it acknowledges, then what it carries;
    /// with the credited bytes, and whether the payload could be followed.
    #[verifier::opaque]
    pub open spec fn after(
        self,
        tcp: Seq<u8>,
        header: int,
        direction: Direction,
        now: u64,
    ) -> (FlowView, int, bool) {
        let seq: u32 = packet::be32(tcp, 4) as u32;
        let ack: u32 = packet::be32(tcp, 8) as u32;
        let bytes: nat = (tcp.len() - header) as nat;
        let (own, peer): (StreamView, StreamView) = match direction {
            Direction::Upload => (self.upload, self.download),
            Direction::Download => (self.download, self.upload),
        };
        let credited: (StreamView, int) = if flag(tcp, 16) {
            peer.acknowledged(ack)
        } else {
            (peer, 0)
        };
        let seen: (StreamView, bool) = own.observed(seq, bytes, flag(tcp, 2), flag(tcp, 1));
        (
            match direction {
                Direction::Upload => FlowView {
                    upload: seen.0,
                    download: credited.0,
                    last_seen: now,
                    ..self
                },
                Direction::Download => FlowView {
                    upload: credited.0,
                    download: seen.0,
                    last_seen: now,
                    ..self
                },
            },
            credited.1,
            seen.1,
        )
    }

    #[verifier::opaque]
    pub open spec fn wf(self) -> bool {
        self.upload.wf() && self.download.wf()
    }
}

/// A flow stays well formed over a segment.
pub proof fn followed_flow_is_wf(
    flow: FlowView,
    tcp: Seq<u8>,
    header: int,
    direction: Direction,
    now: u64,
)
    requires
        flow.wf(),
        20 <= header <= tcp.len() <= 0xffff,
    ensures
        flow.after(tcp, header, direction, now).0.wf(),
{
    reveal(FlowView::wf);
    reveal(FlowView::after);
    let seq: u32 = packet::be32(tcp, 4) as u32;
    let ack: u32 = packet::be32(tcp, 8) as u32;
    let bytes: nat = (tcp.len() - header) as nat;
    lemma_observed_wf(flow.upload, seq, bytes, flag(tcp, 2), flag(tcp, 1));
    lemma_observed_wf(flow.download, seq, bytes, flag(tcp, 2), flag(tcp, 1));
    lemma_acknowledged_wf(flow.upload, ack);
    lemma_acknowledged_wf(flow.download, ack);
}

impl MeterView {
    pub open spec fn wf(self) -> bool {
        forall|k: u128|
            #![trigger self.flows[k]]
            self.flows.contains_key(k) ==> self.flows[k].wf()
    }

    pub open spec fn unmeasured(self) -> MeterView {
        MeterView { unmeasured_packets: self.unmeasured_packets.wrapping_add(1), ..self }
    }

    /// Whether a segment opens a connection that is not known yet.
    pub open spec fn opens(self, key: u128, tcp: Seq<u8>) -> bool {
        flag(tcp, 2) && !flag(tcp, 16) && !(self.flows.contains_key(key)
            && self.flows[key].opening_syn == packet::be32(tcp, 4))
    }

    pub open spec fn credited(self, direction: Direction, bytes: int) -> MeterView {
        match direction {
            Direction::Upload => MeterView {
                download_bytes: self.download_bytes.wrapping_add(bytes as u64),
                ..self
            },
            Direction::Download => MeterView {
                upload_bytes: self.upload_bytes.wrapping_add(bytes as u64),
                ..self
            },
        }
    }

    /// A segment of a flow that is known.
    pub open spec fn followed(
        self,
        key: u128,
        tcp: Seq<u8>,
        header: int,
        direction: Direction,
        now: u64,
    ) -> MeterView {
        let (flow, bytes, followed): (FlowView, int, bool) = self.flows[key].after(
            tcp,
            header,
            direction,
            now,
        );
        let counted: MeterView = self.credited(direction, bytes);
        let noted: MeterView = if followed {
            counted
        } else {
            counted.unmeasured()
        };
        MeterView {
            flows: if flag(tcp, 4) {
                self.flows.remove(key)
            } else {
                self.flows.insert(key, flow)
            },
            ..noted
        }
    }

    /// The meter after a segment. A connection opened before it was observed
    /// has no baseline, and its payload counts as unmeasured.
    pub open spec fn segment_observed(
        self,
        key: u128,
        tcp: Seq<u8>,
        header: int,
        direction: Direction,
        now: u64,
    ) -> MeterView {
        if self.opens(key, tcp) {
            if self.flows.dom().len() >= MAX_FLOWS && !self.flows.contains_key(key) {
                self.unmeasured()
            } else {
                (MeterView {
                    flows: self.flows.insert(key, fresh_flow(packet::be32(tcp, 4) as u32, now)),
                    ..self
                }).followed(key, tcp, header, direction, now)
            }
        } else if self.flows.contains_key(key) {
            self.followed(key, tcp, header, direction, now)
        } else if tcp.len() > header {
            self.unmeasured()
        } else {
            self
        }
    }

    /// The meter after a packet.
    pub open spec fn observed(self, ip: Seq<u8>, direction: Direction, now: u64) -> MeterView {
        if !packet::spec_protocol(ip, 6) {
            self
        } else {
            match spec_transport(ip, 6) {
                None => self.unmeasured(),
                Some(tcp) => {
                    let header: int = (tcp[12] / 16) * 4;
                    let key: u128 = flow_key(ip, tcp, direction);
                    if tcp.len() < 20 || header < 20 || header > tcp.len() {
                        self.unmeasured()
                    } else {
                        self.segment_observed(key, tcp, header, direction, now)
                    }
                },
            }
        }
    }

    pub open spec fn expired(self, now: u64) -> MeterView {
        MeterView {
            flows: table::retained(
                self.flows,
                |k: u128, flow: FlowView| now.saturating_sub(flow.last_seen) < IDLE_MS,
            ),
            ..self
        }
    }
}

fn has_flag(tcp: &[u8], bit: u8) -> (r: bool)
    requires
        tcp@.len() > 13,
        bit > 0,
    ensures
        r == flag(tcp@, bit),
{
    (tcp[13] / bit) % 2 == 1
}

impl Flow {
    fn new(seq: u32, now: u64) -> (r: Self)
        ensures
            r@ == fresh_flow(seq, now),
            r@.wf(),
    {
        proof {
            reveal(FlowView::wf);
        }
        Flow { upload: Stream::new(), download: Stream::new(), opening_syn: seq, last_seen: now }
    }

    fn follow(&mut self, tcp: &[u8], header: usize, direction: Direction, now: u64) -> (r: (
        u64,
        bool,
    ))
        requires
            old(self)@.wf(),
            20 <= header <= tcp@.len() <= 0xffff,
        ensures
            final(self)@.wf(),
            final(self)@ == old(self)@.after(tcp@, header as int, direction, now).0,
            r.0 == old(self)@.after(tcp@, header as int, direction, now).1,
            r.1 == old(self)@.after(tcp@, header as int, direction, now).2,
    {
        let ghost before: FlowView = self@;
        proof {
            reveal(FlowView::wf);
            reveal(FlowView::after);
        }
        let seq: u32 = packet::read32(tcp, 4);
        let ack: u32 = packet::read32(tcp, 8);
        let bytes: usize = tcp.len() - header;
        self.last_seen = now;
        let (credit, followed): (u64, bool) = match direction {
            Direction::Upload => {
                let credit: u64 = if has_flag(tcp, 16) {
                    self.download.acknowledge(ack)
                } else {
                    0
                };
                (credit, self.upload.observe(seq, bytes, has_flag(tcp, 2), has_flag(tcp, 1)))
            },
            Direction::Download => {
                let credit: u64 = if has_flag(tcp, 16) {
                    self.upload.acknowledge(ack)
                } else {
                    0
                };
                (credit, self.download.observe(seq, bytes, has_flag(tcp, 2), has_flag(tcp, 1)))
            },
        };
        assert(self@ =~= before.after(tcp@, header as int, direction, now).0);
        (credit, followed)
    }
}

impl Default for PayloadMeter {
    fn default() -> (r: Self)
        ensures
            r.wf(),
            r@ == empty_meter(),
    {
        PayloadMeter::new()
    }
}

impl PayloadMeter {
    pub closed spec fn wf(&self) -> bool {
        self.flows.wf() && self@.wf()
    }

    pub fn new() -> (r: Self)
        ensures
            r.wf(),
            r@ == empty_meter(),
    {
        let r: PayloadMeter = PayloadMeter {
            upload_bytes: 0,
            download_bytes: 0,
            unmeasured_packets: 0,
            flows: Table::new(),
        };
        assert(r@.flows =~= Map::empty());
        r
    }

    /// Forgets connections that were idle for long.
    pub fn expire(&mut self, now: u64)
        requires
            old(self).wf(),
        ensures
            final(self).wf(),
            final(self)@ == old(self)@.expired(now),
    {
        let ghost before: MeterView = self@;
        let recent = |k: u128, flow: &Flow| -> (keep: bool)
            ensures
                keep == (now.saturating_sub(flow@.last_seen) < IDLE_MS),
        {
            now.saturating_sub(flow.last_seen) < IDLE_MS
        };
        self.flows.retain(
            recent,
            Ghost(|k: u128, flow: Flow| now.saturating_sub(flow@.last_seen) < IDLE_MS),
        );
        assert(self@.flows =~= before.expired(now).flows);
    }

    fn note_unmeasured(&mut self)
        requires
            old(self).wf(),
        ensures
            final(self).wf(),
            final(self)@ == old(self)@.unmeasured(),
    {
        self.unmeasured_packets = self.unmeasured_packets.wrapping_add(1);
    }

    /// Takes a packet of a connection into account. Payload of a stream whose
    /// positions have run out counts as unmeasured.
    pub fn observe(&mut self, ip: &[u8], direction: Direction, now: u64)
        requires
            old(self).wf(),
        ensures
            final(self).wf(),
            final(self)@ == old(self)@.observed(ip@, direction, now),
    {
        if ip.len() <= 9 || ip[9] != 6 {
            return;
        }
        let tcp: &[u8] = match ipv4_transport(ip, 6) {
            Some(tcp) => tcp,
            None => {
                self.note_unmeasured();
                return;
            },
        };
        if tcp.len() < 20 {
            self.note_unmeasured();
            return;
        }
        let header: usize = (tcp[12] / 16) as usize * 4;
        if header < 20 || header > tcp.len() {
            self.note_unmeasured();
            return;
        }
        let local: u32;
        let remote: u32;
        let near: u16;
        let far: u16;
        match direction {
            Direction::Upload => {
                local = packet::read32(ip, 12);
                remote = packet::read32(ip, 16);
                near = packet::read16(tcp, 0);
                far = packet::read16(tcp, 2);
            },
            Direction::Download => {
                local = packet::read32(ip, 16);
                remote = packet::read32(ip, 12);
                near = packet::read16(tcp, 2);
                far = packet::read16(tcp, 0);
            },
        }
        let key: u128 = local as u128 * 0x1_0000_0000_0000_0000 + remote as u128 * 0x1_0000_0000
            + near as u128 * 0x1_0000 + far as u128;
        assert(key == flow_key(ip@, tcp@, direction));
        self.observe_segment(key, tcp, header, direction, now);
    }

    fn observe_segment(
        &mut self,
        key: u128,
        tcp: &[u8],
        header: usize,
        direction: Direction,
        now: u64,
    )
        requires
            old(self).wf(),
            20 <= header <= tcp@.len() <= 0xffff,
        ensures
            final(self).wf(),
            final(self)@ == old(self)@.segment_observed(key, tcp@, header as int, direction, now),
    {
        let ghost before: MeterView = self@;
        let ghost target: MeterView = before.segment_observed(
            key,
            tcp@,
            header as int,
            direction,
            now,
        );
        let seq: u32 = packet::read32(tcp, 4);
        let known: Option<Flow> = self.flows.take(key);
        let ghost rest: Map<u128, Flow> = self.flows@;
        let fresh: bool = has_flag(tcp, 2) && !has_flag(tcp, 16) && match &known {
            Some(flow) => flow.opening_syn != seq,
            None => true,
        };
        let mut flow: Flow = if fresh {
            if known.is_none() && self.flows.len() >= MAX_FLOWS {
                assert(flow_views(rest).dom() =~= rest.dom());
                assert(self@.flows =~= before.flows);
                assert(before.flows.dom() =~= rest.dom());
                self.note_unmeasured();
                assert(self@ =~= target);
                return;
            }
            proof {
                if known is None {
                    assert(before.flows.dom() =~= rest.dom());
                }
            }
            Flow::new(seq, now)
        } else {
            match known {
                Some(flow) => flow,
                None => {
                    assert(self@.flows =~= before.flows);
                    if tcp.len() > header {
                        self.note_unmeasured();
                    }
                    assert(self@ =~= target);
                    return;
                },
            }
        };
        let ghost start: FlowView = flow@;
        assert(start.wf()) by {
            if !fresh {
                assert(start == before.flows[key]);
            }
        }
        let (bytes, followed) = flow.follow(tcp, header, direction, now);
        match direction {
            Direction::Upload => {
                self.download_bytes = self.download_bytes.wrapping_add(bytes);
            },
            Direction::Download => {
                self.upload_bytes = self.upload_bytes.wrapping_add(bytes);
            },
        }
        if !followed {
            self.unmeasured_packets = self.unmeasured_packets.wrapping_add(1);
        }
        if !has_flag(tcp, 4) {
            self.flows.insert(key, flow);
        }
        proof {
            assert(self@.flows =~= target.flows);
            assert(self@ =~= target);
            assert forall|k: u128|
                #![trigger self@.flows[k]]
                self@.flows.contains_key(k) implies self@.flows[k].wf() by {
                if k != key {
                    assert(self@.flows[k] == before.flows[k]);
                }
            }
        }
    }
}

} // verus!
