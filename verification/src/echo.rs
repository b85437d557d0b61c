//! Echo packets, by which a bond is checked against the system of the relay.
use crate::path::Path;
use crate::wire;
use vstd::prelude::*;

verus! {

/// Longest text that a checksum is taken of.
pub const MAX_SUMMED: usize = 131_072;

/// The sum of the first `n` pairs of bytes, each read as a number. A byte
/// without a partner is followed by nothing.
pub open spec fn word_sum(bytes: Seq<u8>, n: nat) -> nat
    decreases n,
{
    if n == 0 {
        0
    } else {
        word_sum(bytes, (n - 1) as nat) + word_at(bytes, 2 * (n - 1))
    }
}

pub open spec fn word_at(bytes: Seq<u8>, i: int) -> nat {
    bytes[i] as nat * 256 + if i + 1 < bytes.len() {
        bytes[i + 1] as nat
    } else {
        0
    }
}

pub open spec fn words(bytes: Seq<u8>) -> nat {
    ((bytes.len() + 1) / 2) as nat
}

/// A sum with what exceeds sixteen bits added back, until nothing does.
pub open spec fn folded(sum: nat) -> nat
    decreases sum,
{
    if sum < 65_536 {
        sum
    } else {
        folded(sum % 65_536 + sum / 65_536)
    }
}

/// The checksum of the internet protocols.
pub open spec fn spec_checksum(bytes: Seq<u8>) -> u16 {
    (65_535 - folded(word_sum(bytes, words(bytes)))) as u16
}

proof fn lemma_word_sum_bound(bytes: Seq<u8>, n: nat)
    requires
        n <= words(bytes),
    ensures
        word_sum(bytes, n) <= n * 65_535,
    decreases n,
{
    if n > 0 {
        lemma_word_sum_bound(bytes, (n - 1) as nat);
    }
}

/// Folding keeps the remainder, and gives nothing only of nothing.
proof fn lemma_folded(sum: nat)
    ensures
        folded(sum) <= 65_535,
        folded(sum) % 65_535 == sum % 65_535,
        folded(sum) == 0 <==> sum == 0,
    decreases sum,
{
    if sum >= 65_536 {
        let next: nat = sum % 65_536 + sum / 65_536;
        lemma_folded(next);
        assert(sum == 65_536 * (sum / 65_536) + sum % 65_536);
        assert(sum == next + 65_535 * (sum / 65_536));
        vstd::arithmetic::div_mod::lemma_mod_multiples_vanish(
            (sum / 65_536) as int,
            next as int,
            65_535,
        );
    }
}

pub fn checksum(bytes: &[u8]) -> (r: u16)
    requires
        bytes@.len() <= MAX_SUMMED,
    ensures
        r == spec_checksum(bytes@),
{
    let mut sum: u32 = 0;
    let mut i: usize = 0;
    let ghost mut n: nat = 0;
    while i < bytes.len()
        invariant
            bytes@.len() <= MAX_SUMMED,
            i == 2 * n,
            n <= words(bytes@),
            sum == word_sum(bytes@, n),
        decreases bytes@.len() + 1 - i,
    {
        proof {
            lemma_word_sum_bound(bytes@, (n + 1) as nat);
        }
        let low: u32 = if i + 1 < bytes.len() {
            bytes[i + 1] as u32
        } else {
            0
        };
        sum = sum + (bytes[i] as u32 * 256 + low);
        proof {
            n = n + 1;
        }
        i = i + 2;
    }
    assert(n == words(bytes@));
    let ghost whole: nat = sum as nat;
    while sum >= 65_536
        invariant
            folded(sum as nat) == folded(whole),
        decreases sum,
    {
        sum = sum % 65_536 + sum / 65_536;
    }
    65_535 - sum as u16
}

proof fn lemma_word_sum_update(a: Seq<u8>, b: Seq<u8>, at: int, value: u16, n: nat)
    requires
        0 <= at,
        at % 2 == 0,
        at + 2 <= a.len(),
        a[at] == 0,
        a[at + 1] == 0,
        b == a.update(at, (value / 256) as u8).update(at + 1, (value % 256) as u8),
        n <= words(a),
    ensures
        word_sum(b, n) == word_sum(a, n) + if 2 * n > at {
            value as nat
        } else {
            0
        },
    decreases n,
{
    if n > 0 {
        lemma_word_sum_update(a, b, at, value, (n - 1) as nat);
    }
}

/// Where a packet carries its own checksum, the sum over all of it comes out
/// full: this is how who receives it finds it unharmed.
pub proof fn checksum_completes_sum(bytes: Seq<u8>, at: int)
    requires
        0 <= at,
        at % 2 == 0,
        at + 2 <= bytes.len(),
        bytes[at] == 0,
        bytes[at + 1] == 0,
    ensures
        ({
            let c: u16 = spec_checksum(bytes);
            let whole: Seq<u8> = bytes.update(at, (c / 256) as u8).update(
                at + 1,
                (c % 256) as u8,
            );
            folded(word_sum(whole, words(whole))) == 65_535
        }),
{
    let c: u16 = spec_checksum(bytes);
    let whole: Seq<u8> = bytes.update(at, (c / 256) as u8).update(at + 1, (c % 256) as u8);
    let sum: nat = word_sum(bytes, words(bytes));
    lemma_word_sum_update(bytes, whole, at, c, words(bytes));
    lemma_folded(sum);
    let total: nat = sum + c as nat;
    lemma_folded(total);
    assert(total % 65_535 == 0) by {
        let f: nat = folded(sum);
        assert(c as nat == 65_535 - f);
        vstd::arithmetic::div_mod::lemma_fundamental_div_mod(sum as int, 65_535);
        vstd::arithmetic::div_mod::lemma_fundamental_div_mod(f as int, 65_535);
        let q: int = sum as int / 65_535 - f as int / 65_535 + 1;
        assert(total == 65_535 * q) by (nonlinear_arith)
            requires
                total == sum + 65_535 - f,
                sum == 65_535 * (sum as int / 65_535) + sum as int % 65_535,
                f == 65_535 * (f as int / 65_535) + f as int % 65_535,
                sum as int % 65_535 == f as int % 65_535,
                q == sum as int / 65_535 - f as int / 65_535 + 1,
        ;
        vstd::arithmetic::div_mod::lemma_mod_multiples_basic(q, 65_535);
    }
    let t: nat = folded(total);
    if sum == 0 {
        assert(c == 65_535);
    }
    assert(total > 0);
    assert(0 < t <= 65_535 && t % 65_535 == 0);
}

/// The text by which an answer is known.
pub open spec fn mark() -> Seq<u8> {
    seq![0x56u8, 0x45, 0x52, 0x5a, 0x54, 0x45, 0x53, 0x54]
}

/// The header of an echo, before its checksum.
pub open spec fn plain_header(source: Seq<u8>, destination: Seq<u8>) -> Seq<u8> {
    seq![0x45u8, 0, 0, 36, 0, 0, 0, 0, 64, 1, 0, 0] + source + destination
}

/// The message of an echo, before its checksum.
pub open spec fn plain_message(tag: u8, sequence: u16) -> Seq<u8> {
    seq![8u8, 0, 0, 0, 0x56, tag, (sequence / 256) as u8, (sequence % 256) as u8] + mark()
}

pub open spec fn with_checksum(bytes: Seq<u8>, at: int) -> Seq<u8> {
    let c: u16 = spec_checksum(bytes);
    bytes.update(at, (c / 256) as u8).update(at + 1, (c % 256) as u8)
}

/// The echo of a bond is tagged so.
pub const BOND_TAG: u8 = 0x5a;

pub open spec fn echo_packet(source: Seq<u8>, destination: Seq<u8>, tag: u8, sequence: u16) -> Seq<
    u8,
> {
    with_checksum(plain_header(source, destination), 10) + with_checksum(
        plain_message(tag, sequence),
        2,
    )
}

/// A packet that asks the relay's system for an echo over a bond.
pub fn echo(source: [u8; 4], sequence: u16) -> (r: Vec<u8>)
    ensures
        r@ == echo_packet(source@, seq![10u8, 78, 0, 1], BOND_TAG, sequence),
{
    let relay: [u8; 4] = [10, 78, 0, 1];
    assert(relay@ =~= seq![10u8, 78, 0, 1]);
    echo_to(source, relay, BOND_TAG, sequence)
}

/// A packet that asks the system at an address for an echo.
pub fn echo_to(source: [u8; 4], destination: [u8; 4], tag: u8, sequence: u16) -> (r: Vec<u8>)
    ensures
        r@ == echo_packet(source@, destination@, tag, sequence),
{
    let mut header: Vec<u8> = vec![
        0x45,
        0,
        0,
        36,
        0,
        0,
        0,
        0,
        64,
        1,
        0,
        0,
        source[0],
        source[1],
        source[2],
        source[3],
        destination[0],
        destination[1],
        destination[2],
        destination[3],
    ];
    assert(header@ =~= plain_header(source@, destination@));
    let sum: u16 = checksum(header.as_slice());
    header.set(10, (sum / 256) as u8);
    header.set(11, (sum % 256) as u8);
    assert(header@ =~= with_checksum(plain_header(source@, destination@), 10));
    let mut message: Vec<u8> = vec![
        8,
        0,
        0,
        0,
        0x56,
        tag,
        (sequence / 256) as u8,
        (sequence % 256) as u8,
        0x56,
        0x45,
        0x52,
        0x5a,
        0x54,
        0x45,
        0x53,
        0x54,
    ];
    assert(message@ =~= plain_message(tag, sequence));
    let sum: u16 = checksum(message.as_slice());
    message.set(2, (sum / 256) as u8);
    message.set(3, (sum % 256) as u8);
    assert(message@ =~= with_checksum(plain_message(tag, sequence), 2));
    header.append(&mut message);
    header
}

/// Whether a packet answers an echo.
pub open spec fn answers(packet: Seq<u8>, tag: u8) -> bool {
    packet.len() == 36 && packet[20] == 0 && packet[24] == 0x56 && packet[25] == tag
        && packet.skip(28) == mark()
}

/// The number of the echo that a packet answers.
pub fn answered(packet: &[u8], tag: u8) -> (r: Option<u16>)
    ensures
        match r {
            Some(n) => answers(packet@, tag) && n == packet@[26] * 256 + packet@[27],
            None => !answers(packet@, tag),
        },
{
    let text: [u8; 8] = [0x56, 0x45, 0x52, 0x5a, 0x54, 0x45, 0x53, 0x54];
    assert(text@ =~= mark());
    if packet.len() != 36 {
        return None;
    }
    assert(packet@.subrange(28, 36) =~= packet@.skip(28));
    if packet[20] == 0 && packet[24] == 0x56 && packet[25] == tag && wire::matches_at(
        packet,
        28,
        &text,
    ) {
        Some(packet[26] as u16 * 256 + packet[27] as u16)
    } else {
        None
    }
}

/// The answers of a run, as they come.
pub struct EchoRun {
    pub replies: Vec<u16>,
    pub last_reply: Option<u64>,
    pub max_gap: u64,
    pub cut_at: Option<u64>,
    pub cut_to_reply: Option<u64>,
    pub all_ready: bool,
}

/// Longest gap between answers that a run may show.
pub const MAX_GAP_MS: u64 = 100;

/// How long a run takes.
pub const RUN_MS: u64 = 6000;

/// Between these moments one path of a run is cut.
pub const CUT_FROM_MS: u64 = 2000;

pub const CUT_UNTIL_MS: u64 = 3000;

/// Between these moments a run asks for echoes.
pub const ASK_FROM_MS: u64 = 250;

pub const ASK_UNTIL_MS: u64 = 5500;

/// Whether a run asks for echoes at a moment.
#[verifier::allow_in_spec]
pub fn asks_at(moment: u64) -> bool
    returns
        ASK_FROM_MS <= moment && moment < ASK_UNTIL_MS,
{
    ASK_FROM_MS <= moment && moment < ASK_UNTIL_MS
}

/// Whether a path is cut at a moment.
#[verifier::allow_in_spec]
pub fn cut_at(moment: u64) -> bool
    returns
        CUT_FROM_MS <= moment && moment < CUT_UNTIL_MS,
{
    CUT_FROM_MS <= moment && moment < CUT_UNTIL_MS
}

/// The path to cut: the one that has sent most, the last of such.
pub fn busiest_path(paths: &[Path]) -> (r: Option<usize>)
    ensures
        match r {
            Some(i) => {
                &&& i < paths@.len()
                &&& forall|j: int|
                    0 <= j <= i ==> (#[trigger] paths@[j]).sent_bytes <= paths@[i as int].sent_bytes
                &&& forall|j: int|
                    i < j < paths@.len() ==> (#[trigger] paths@[j]).sent_bytes
                        < paths@[i as int].sent_bytes
            },
            None => paths@.len() == 0,
        },
{
    if paths.len() == 0 {
        return None;
    }
    let mut most: usize = 0;
    let mut i: usize = 1;
    while i < paths.len()
        invariant
            most < i <= paths@.len(),
            forall|j: int|
                0 <= j <= most ==> (#[trigger] paths@[j]).sent_bytes
                    <= paths@[most as int].sent_bytes,
            forall|j: int|
                most < j < i ==> (#[trigger] paths@[j]).sent_bytes
                    < paths@[most as int].sent_bytes,
        decreases paths@.len() - i,
    {
        if paths[i].sent_bytes >= paths[most].sent_bytes {
            most = i;
        }
        i = i + 1;
    }
    Some(most)
}

impl EchoRun {
    /// No answer is counted twice.
    pub open spec fn wf(&self) -> bool {
        self.replies@.no_duplicates()
    }

    pub fn new() -> (r: Self)
        ensures
            r.wf(),
            r == (EchoRun {
                replies: r.replies,
                last_reply: None,
                max_gap: 0,
                cut_at: None,
                cut_to_reply: None,
                all_ready: false,
            }),
            r.replies@.len() == 0,
    {
        EchoRun {
            replies: Vec::new(),
            last_reply: None,
            max_gap: 0,
            cut_at: None,
            cut_to_reply: None,
            all_ready: false,
        }
    }

    /// Notes an answer.
    pub fn note(&mut self, sequence: u16, now: u64)
        requires
            old(self).wf(),
        ensures
            final(self).wf(),
            final(self).replies@ == if old(self).replies@.contains(sequence) {
                old(self).replies@
            } else {
                old(self).replies@.push(sequence)
            },
            final(self).last_reply == Some(now),
            final(self).max_gap == match old(self).last_reply {
                Some(last) => if now.saturating_sub(last) > old(self).max_gap {
                    now.saturating_sub(last)
                } else {
                    old(self).max_gap
                },
                None => old(self).max_gap,
            },
            final(self).cut_to_reply == match (old(self).cut_at, old(self).cut_to_reply) {
                (Some(cut), None) => if now >= cut {
                    Some((now - cut) as u64)
                } else {
                    None
                },
                _ => old(self).cut_to_reply,
            },
            final(self).cut_at == old(self).cut_at,
            final(self).all_ready == old(self).all_ready,
    {
        let mut i: usize = 0;
        while i < self.replies.len() && self.replies[i] != sequence
            invariant
                i <= self.replies@.len(),
                forall|j: int| 0 <= j < i ==> #[trigger] self.replies@[j] != sequence,
            decreases self.replies@.len() - i,
        {
            i = i + 1;
        }
        if i >= self.replies.len() {
            assert(!self.replies@.contains(sequence));
            self.replies.push(sequence);
        } else {
            assert(self.replies@[i as int] == sequence);
        }
        match self.last_reply {
            Some(last) => {
                let gap: u64 = now.saturating_sub(last);
                if gap > self.max_gap {
                    self.max_gap = gap;
                }
            },
            None => {},
        }
        match (self.cut_at, self.cut_to_reply) {
            (Some(cut), None) => {
                if now >= cut {
                    self.cut_to_reply = Some(now - cut);
                }
            },
            _ => {},
        }
        self.last_reply = Some(now);
    }

    /// Whether the run went well: all paths were ready at some time, every
    /// request was answered, and no gap was long.
    pub fn passed(&self, requests: u16) -> (r: bool)
        ensures
            r == (self.all_ready && self.replies@.len() == requests && self.max_gap <= MAX_GAP_MS),
    {
        self.all_ready && self.replies.len() == requests as usize && self.max_gap <= MAX_GAP_MS
    }
}

} // verus!
