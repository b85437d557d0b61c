//! The authenticated envelope of the UDP lane, and its repair requests.
use crate::crypto;
use crate::wire;
use vstd::arithmetic::power2::*;
use vstd::prelude::*;

verus! {

pub const HEADER: usize = 38;

pub const MAX_PAYLOAD: usize = 16384;

pub const TAG: usize = 16;

pub const FEC: u8 = 1;

pub const PRIMARY: u8 = 2;

pub const TUN: u8 = 4;

pub const ACK: u8 = 8;

pub const NACK: u8 = 16;

pub const RESEND: u8 = 32;

pub const DOWNLINK: u8 = 64;

pub const HEARTBEAT: u8 = 128;

/// Requests that one repair message may hold.
pub const MAX_NACK: usize = 32;

#[derive(Clone, Copy, Debug, PartialEq, Eq, Structural)]
pub enum PacketError {
    PayloadTooLarge,
    InvalidHeader,
    InvalidLength,
    AuthenticationFailed,
    InvalidNackCount,
    ShortNack,
    InvalidNack,
}

impl PacketError {
    pub open spec fn text(self) -> Seq<char> {
        match self {
            PacketError::PayloadTooLarge => "payload too large"@,
            PacketError::InvalidHeader => "invalid header"@,
            PacketError::InvalidLength => "invalid length"@,
            PacketError::AuthenticationFailed => "authentication failed"@,
            PacketError::InvalidNackCount => "invalid NACK count"@,
            PacketError::ShortNack => "short NACK"@,
            PacketError::InvalidNack => "invalid NACK"@,
        }
    }

    pub fn message(self) -> (r: &'static str)
        ensures
            r@ == self.text(),
    {
        match self {
            PacketError::PayloadTooLarge => "payload too large",
            PacketError::InvalidHeader => "invalid header",
            PacketError::InvalidLength => "invalid length",
            PacketError::AuthenticationFailed => "authentication failed",
            PacketError::InvalidNackCount => "invalid NACK count",
            PacketError::ShortNack => "short NACK",
            PacketError::InvalidNack => "invalid NACK",
        }
    }
}

#[derive(Debug, PartialEq, Eq)]
pub struct Packet {
    pub flags: u8,
    pub class: u16,
    pub session: u32,
    pub sequence: u32,
    pub timestamp_us: i64,
    pub link: u8,
    pub protocol: u8,
    pub destination: [u8; 4],
    pub destination_port: u16,
    pub local_port: u16,
    pub payload: Vec<u8>,
}

#[verifier::ext_equal]
pub struct PacketView {
    pub flags: u8,
    pub class: u16,
    pub session: u32,
    pub sequence: u32,
    pub timestamp_us: i64,
    pub link: u8,
    pub protocol: u8,
    pub destination: Seq<u8>,
    pub destination_port: u16,
    pub local_port: u16,
    pub payload: Seq<u8>,
}

impl View for Packet {
    type V = PacketView;

    open spec fn view(&self) -> PacketView {
        PacketView {
            flags: self.flags,
            class: self.class,
            session: self.session,
            sequence: self.sequence,
            timestamp_us: self.timestamp_us,
            link: self.link,
            protocol: self.protocol,
            destination: self.destination@,
            destination_port: self.destination_port,
            local_port: self.local_port,
            payload: self.payload@,
        }
    }
}

pub open spec fn blank() -> PacketView {
    PacketView {
        flags: 0,
        class: 0,
        session: 0,
        sequence: 0,
        timestamp_us: 0,
        link: 0,
        protocol: 0,
        destination: seq![0, 0, 0, 0],
        destination_port: 0,
        local_port: 0,
        payload: Seq::empty(),
    }
}

impl Default for Packet {
    fn default() -> (r: Self)
        ensures
            r@ == blank(),
    {
        let r: Packet = Packet {
            flags: 0,
            class: 0,
            session: 0,
            sequence: 0,
            timestamp_us: 0,
            link: 0,
            protocol: 0,
            destination: [0, 0, 0, 0],
            destination_port: 0,
            local_port: 0,
            payload: Vec::new(),
        };
        assert(r@ =~= blank());
        r
    }
}

impl Clone for Packet {
    fn clone(&self) -> (r: Self)
        ensures
            r@ == self@,
    {
        Packet {
            flags: self.flags,
            class: self.class,
            session: self.session,
            sequence: self.sequence,
            timestamp_us: self.timestamp_us,
            link: self.link,
            protocol: self.protocol,
            destination: self.destination,
            destination_port: self.destination_port,
            local_port: self.local_port,
            payload: wire::copy_bytes(self.payload.as_slice()),
        }
    }
}

pub open spec fn magic() -> Seq<u8> {
    seq![0x42u8, 0x44u8, 0x4cu8, 0x4bu8]
}

/// Whether a flag is set.
pub open spec fn is_set(flags: u8, bit: u8) -> bool {
    (flags / bit) % 2 == 1
}

/// The authentication code at the end of a packet.
pub open spec fn tag_of(key: Seq<u8>, body: Seq<u8>) -> Seq<u8> {
    Seq::new(TAG as nat, |i: int| crypto::hmac_sha256(key, body)[i])
}

/// Length of the authentication code under a key; without a key there is none.
pub open spec fn tag_len(key: Seq<u8>) -> nat {
    if key.len() == 0 {
        0
    } else {
        TAG as nat
    }
}

impl PacketView {
    /// Header and payload as they stand on the wire.
    pub open spec fn body(self) -> Seq<u8> {
        magic() + seq![2u8, self.flags] + wire::be_bytes(self.class as nat, 2) + wire::be_bytes(
            self.session as nat,
            4,
        ) + wire::be_bytes(self.sequence as nat, 4) + wire::be_bytes(
            self.timestamp_us as u64 as nat,
            8,
        ) + seq![self.link, self.protocol] + self.destination + wire::be_bytes(
            self.destination_port as nat,
            2,
        ) + wire::be_bytes(self.local_port as nat, 2) + wire::be_bytes(self.payload.len(), 4)
            + self.payload
    }

    pub open spec fn encoded(self, key: Seq<u8>) -> Seq<u8> {
        if key.len() == 0 {
            self.body()
        } else {
            self.body() + tag_of(key, self.body())
        }
    }

    pub open spec fn data(self) -> bool {
        !is_set(self.flags, ACK) && !is_set(self.flags, NACK) && !is_set(self.flags, DOWNLINK) && !is_set(
            self.flags,
            HEARTBEAT,
        )
    }
}

pub open spec fn field(bytes: Seq<u8>, from: int, to: int) -> nat {
    wire::be_value(bytes.subrange(from, to))
}

/// The packet in a wire message, or why there is none.
pub open spec fn spec_decode(bytes: Seq<u8>, key: Seq<u8>) -> Result<PacketView, PacketError> {
    let n: nat = field(bytes, 34, 38);
    let end: int = HEADER + n;
    if bytes.len() < HEADER || bytes.subrange(0, 4) != magic() || bytes[4] != 2 {
        Err(PacketError::InvalidHeader)
    } else if n > MAX_PAYLOAD || bytes.len() != end + tag_len(key) {
        Err(PacketError::InvalidLength)
    } else if key.len() > 0 && bytes.skip(end) != tag_of(key, bytes.take(end)) {
        Err(PacketError::AuthenticationFailed)
    } else {
        Ok(
            PacketView {
                flags: bytes[5],
                class: field(bytes, 6, 8) as u16,
                session: field(bytes, 8, 12) as u32,
                sequence: field(bytes, 12, 16) as u32,
                timestamp_us: field(bytes, 16, 24) as u64 as i64,
                link: bytes[24],
                protocol: bytes[25],
                destination: bytes.subrange(26, 30),
                destination_port: field(bytes, 30, 32) as u16,
                local_port: field(bytes, 32, 34) as u16,
                payload: bytes.subrange(HEADER as int, end),
            },
        )
    }
}

impl Packet {
    /// The packet as a wire message. Without a key it carries no code.
    pub fn encode(&self, key: &[u8]) -> (r: Result<Vec<u8>, PacketError>)
        ensures
            match r {
                Ok(bytes) => self@.payload.len() <= MAX_PAYLOAD && bytes@ == self@.encoded(key@),
                Err(error) => self@.payload.len() > MAX_PAYLOAD && error
                    == PacketError::PayloadTooLarge,
            },
    {
        if self.payload.len() > MAX_PAYLOAD {
            return Err(PacketError::PayloadTooLarge);
        }
        let mut out: Vec<u8> = Vec::new();
        out.push(0x42);
        out.push(0x44);
        out.push(0x4c);
        out.push(0x4b);
        out.push(2);
        out.push(self.flags);
        assert(out@ =~= magic() + seq![2u8, self.flags]);
        wire::put_be(&mut out, self.class as u64, 2);
        wire::put_be(&mut out, self.session as u64, 4);
        wire::put_be(&mut out, self.sequence as u64, 4);
        #[verifier::truncate]
        let stamp: u64 = self.timestamp_us as u64;
        wire::put_be(&mut out, stamp, 8);
        let ghost head: Seq<u8> = out@;
        out.push(self.link);
        out.push(self.protocol);
        out.push(self.destination[0]);
        out.push(self.destination[1]);
        out.push(self.destination[2]);
        out.push(self.destination[3]);
        assert(out@ =~= head + seq![self.link, self.protocol] + self.destination@);
        wire::put_be(&mut out, self.destination_port as u64, 2);
        wire::put_be(&mut out, self.local_port as u64, 2);
        wire::put_be(&mut out, self.payload.len() as u64, 4);
        wire::put_all(&mut out, self.payload.as_slice());
        assert(out@ =~= self@.body());
        if key.len() > 0 {
            let mac: Vec<u8> = crypto::mac(key, out.as_slice());
            let tag: Vec<u8> = wire::copy_range(mac.as_slice(), 0, TAG);
            assert(tag@ =~= tag_of(key@, self@.body()));
            wire::put_all(&mut out, tag.as_slice());
        }
        Ok(out)
    }

    /// The packet in a wire message. Anything but its exact encoding under
    /// the key is refused.
    pub fn decode(bytes: &[u8], key: &[u8]) -> (r: Result<Self, PacketError>)
        ensures
            match r {
                Ok(packet) => spec_decode(bytes@, key@) == Ok::<PacketView, PacketError>(packet@),
                Err(error) => spec_decode(bytes@, key@) == Err::<PacketView, PacketError>(error),
            },
    {
        if bytes.len() < HEADER {
            return Err(PacketError::InvalidHeader);
        }
        let marked: bool = bytes[0] == 0x42 && bytes[1] == 0x44 && bytes[2] == 0x4c && bytes[3]
            == 0x4b;
        proof {
            let start: Seq<u8> = bytes@.subrange(0, 4);
            if marked {
                assert(start =~= magic());
            } else {
                assert(start[0] == bytes@[0] && start[1] == bytes@[1] && start[2] == bytes@[2]
                    && start[3] == bytes@[3]);
                assert(magic()[0] == 0x42 && magic()[1] == 0x44 && magic()[2] == 0x4c && magic()[3]
                    == 0x4b);
            }
        }
        if !marked || bytes[4] != 2 {
            return Err(PacketError::InvalidHeader);
        }
        let n: u64 = wire::get_be(bytes, 34, 4);
        if n > MAX_PAYLOAD as u64 {
            return Err(PacketError::InvalidLength);
        }
        let end: usize = HEADER + n as usize;
        let tag: usize = if key.len() == 0 {
            0
        } else {
            TAG
        };
        if bytes.len() != end + tag {
            return Err(PacketError::InvalidLength);
        }
        if tag != 0 {
            let body: &[u8] = vstd::slice::slice_subrange(bytes, 0, end);
            let code: &[u8] = vstd::slice::slice_subrange(bytes, end, bytes.len());
            assert(body@ =~= bytes@.take(end as int));
            assert(code@ =~= bytes@.skip(end as int));
            let matches: bool = crypto::mac_matches(key, body, code);
            proof {
                let expected: Seq<u8> = tag_of(key@, body@);
                if matches {
                    assert(code@ =~= expected);
                } else if code@ == expected {
                    assert forall|i: int| 0 <= i < code@.len() implies #[trigger] code@[i]
                        == crypto::hmac_sha256(key@, body@)[i] by {
                        assert(code@[i] == expected[i]);
                    }
                }
            }
            if !matches {
                return Err(PacketError::AuthenticationFailed);
            }
        }
        proof {
            lemma2_to64();
            lemma2_to64_rest();
        }
        #[verifier::truncate]
        let timestamp_us: i64 = wire::get_be(bytes, 16, 8) as i64;
        let packet: Packet = Packet {
            flags: bytes[5],
            class: wire::get_be(bytes, 6, 2) as u16,
            session: wire::get_be(bytes, 8, 4) as u32,
            sequence: wire::get_be(bytes, 12, 4) as u32,
            timestamp_us,
            link: bytes[24],
            protocol: bytes[25],
            destination: [bytes[26], bytes[27], bytes[28], bytes[29]],
            destination_port: wire::get_be(bytes, 30, 2) as u16,
            local_port: wire::get_be(bytes, 32, 2) as u16,
            payload: wire::copy_range(bytes, HEADER, end),
        };
        assert(packet.destination@ =~= bytes@.subrange(26, 30));
        Ok(packet)
    }

    pub fn is_data(&self) -> (r: bool)
        ensures
            r == self@.data(),
    {
        (self.flags / ACK) % 2 != 1 && (self.flags / NACK) % 2 != 1 && (self.flags / DOWNLINK) % 2
            != 1 && (self.flags / HEARTBEAT) % 2 != 1
    }

    /// The traffic class, with an old number for voice read as the new one.
    pub fn normalized_class(&self) -> (r: u16)
        ensures
            r == if self.class == 1 {
                4
            } else {
                self.class
            },
    {
        if self.class == 1 {
            4
        } else {
            self.class
        }
    }
}

proof fn lemma_stamp(x: i64, u: u64)
    ensures
        (x as u64) as i64 == x,
        (u as i64) as u64 == u,
{
    assert((x as u64) as i64 == x) by (bit_vector);
    assert((u as i64) as u64 == u) by (bit_vector);
}

/// The fields of a body stand where they are read.
proof fn lemma_body(packet: PacketView)
    requires
        packet.destination.len() == 4,
        packet.payload.len() <= MAX_PAYLOAD,
    ensures
        ({
            let b: Seq<u8> = packet.body();
            &&& b.len() == HEADER + packet.payload.len()
            &&& b.subrange(0, 4) == magic()
            &&& b[4] == 2
            &&& b[5] == packet.flags
            &&& b.subrange(6, 8) == wire::be_bytes(packet.class as nat, 2)
            &&& b.subrange(8, 12) == wire::be_bytes(packet.session as nat, 4)
            &&& b.subrange(12, 16) == wire::be_bytes(packet.sequence as nat, 4)
            &&& b.subrange(16, 24) == wire::be_bytes(packet.timestamp_us as u64 as nat, 8)
            &&& b[24] == packet.link
            &&& b[25] == packet.protocol
            &&& b.subrange(26, 30) == packet.destination
            &&& b.subrange(30, 32) == wire::be_bytes(packet.destination_port as nat, 2)
            &&& b.subrange(32, 34) == wire::be_bytes(packet.local_port as nat, 2)
            &&& b.subrange(34, 38) == wire::be_bytes(packet.payload.len(), 4)
            &&& b.skip(38) == packet.payload
        }),
{
    let b: Seq<u8> = packet.body();
    wire::lemma_be_bytes_len(packet.class as nat, 2);
    wire::lemma_be_bytes_len(packet.session as nat, 4);
    wire::lemma_be_bytes_len(packet.sequence as nat, 4);
    wire::lemma_be_bytes_len(packet.timestamp_us as u64 as nat, 8);
    wire::lemma_be_bytes_len(packet.destination_port as nat, 2);
    wire::lemma_be_bytes_len(packet.local_port as nat, 2);
    wire::lemma_be_bytes_len(packet.payload.len(), 4);
    assert(b.subrange(0, 4) =~= magic());
    assert(b.subrange(6, 8) =~= wire::be_bytes(packet.class as nat, 2));
    assert(b.subrange(8, 12) =~= wire::be_bytes(packet.session as nat, 4));
    assert(b.subrange(12, 16) =~= wire::be_bytes(packet.sequence as nat, 4));
    assert(b.subrange(16, 24) =~= wire::be_bytes(packet.timestamp_us as u64 as nat, 8));
    assert(b.subrange(26, 30) =~= packet.destination);
    assert(b.subrange(30, 32) =~= wire::be_bytes(packet.destination_port as nat, 2));
    assert(b.subrange(32, 34) =~= wire::be_bytes(packet.local_port as nat, 2));
    assert(b.subrange(34, 38) =~= wire::be_bytes(packet.payload.len(), 4));
    assert(b.skip(38) =~= packet.payload);
}

/// A packet is read back from its encoding, under the same key.
pub proof fn decode_reads_encoding(packet: PacketView, key: Seq<u8>)
    requires
        packet.destination.len() == 4,
        packet.payload.len() <= MAX_PAYLOAD,
    ensures
        spec_decode(packet.encoded(key), key) == Ok::<PacketView, PacketError>(packet),
{
    let b: Seq<u8> = packet.body();
    let w: Seq<u8> = packet.encoded(key);
    lemma_body(packet);
    lemma_stamp(packet.timestamp_us, packet.timestamp_us as u64);
    lemma2_to64();
    lemma2_to64_rest();
    wire::lemma_value_of_bytes(packet.class as nat, 2);
    wire::lemma_value_of_bytes(packet.session as nat, 4);
    wire::lemma_value_of_bytes(packet.sequence as nat, 4);
    wire::lemma_value_of_bytes(packet.timestamp_us as u64 as nat, 8);
    wire::lemma_value_of_bytes(packet.destination_port as nat, 2);
    wire::lemma_value_of_bytes(packet.local_port as nat, 2);
    wire::lemma_value_of_bytes(packet.payload.len(), 4);
    assert(w.subrange(0, 4) =~= b.subrange(0, 4));
    assert(w.subrange(6, 8) =~= b.subrange(6, 8));
    assert(w.subrange(8, 12) =~= b.subrange(8, 12));
    assert(w.subrange(12, 16) =~= b.subrange(12, 16));
    assert(w.subrange(16, 24) =~= b.subrange(16, 24));
    assert(w.subrange(26, 30) =~= b.subrange(26, 30));
    assert(w.subrange(30, 32) =~= b.subrange(30, 32));
    assert(w.subrange(32, 34) =~= b.subrange(32, 34));
    assert(w.subrange(34, 38) =~= b.subrange(34, 38));
    let end: int = HEADER + packet.payload.len();
    assert(w.subrange(38, end) =~= b.skip(38));
    assert(w.take(end) =~= b);
    if key.len() > 0 {
        assert(w.skip(end) =~= tag_of(key, b));
    }
}

/// What is accepted under a key is the encoding of the accepted packet: every
/// byte is fixed by the packet and the key.
pub proof fn accepted_is_encoding(bytes: Seq<u8>, key: Seq<u8>, packet: PacketView)
    requires
        spec_decode(bytes, key) == Ok::<PacketView, PacketError>(packet),
    ensures
        packet.encoded(key) == bytes,
        packet.payload.len() <= MAX_PAYLOAD,
        packet.destination.len() == 4,
{
    let end: int = HEADER + packet.payload.len();
    lemma2_to64();
    lemma2_to64_rest();
    lemma_stamp(packet.timestamp_us, field(bytes, 16, 24) as u64);
    wire::lemma_be_value_bound(bytes.subrange(6, 8));
    wire::lemma_be_value_bound(bytes.subrange(8, 12));
    wire::lemma_be_value_bound(bytes.subrange(12, 16));
    wire::lemma_be_value_bound(bytes.subrange(16, 24));
    wire::lemma_be_value_bound(bytes.subrange(30, 32));
    wire::lemma_be_value_bound(bytes.subrange(32, 34));
    wire::lemma_be_value_bound(bytes.subrange(34, 38));
    wire::lemma_bytes_of_value(bytes.subrange(6, 8));
    wire::lemma_bytes_of_value(bytes.subrange(8, 12));
    wire::lemma_bytes_of_value(bytes.subrange(12, 16));
    wire::lemma_bytes_of_value(bytes.subrange(16, 24));
    wire::lemma_bytes_of_value(bytes.subrange(30, 32));
    wire::lemma_bytes_of_value(bytes.subrange(32, 34));
    wire::lemma_bytes_of_value(bytes.subrange(34, 38));
    let head: Seq<u8> = bytes.subrange(0, 4);
    assert(bytes[0] == head[0] && bytes[1] == head[1] && bytes[2] == head[2] && bytes[3]
        == head[3]);
    assert(packet.body() =~= bytes.take(end));
    if key.len() > 0 {
        assert(packet.encoded(key) =~= bytes.take(end) + bytes.skip(end));
        assert(bytes.take(end) + bytes.skip(end) =~= bytes);
    } else {
        assert(bytes.take(end) =~= bytes);
    }
}

/// Under another key a message is refused as not authentic, unless both keys
/// make the same code of it; then it reads the same. Where one side has no key
/// the length tells.
pub proof fn other_key_is_told_by_its_code(packet: PacketView, key: Seq<u8>, other: Seq<u8>)
    requires
        packet.destination.len() == 4,
        packet.payload.len() <= MAX_PAYLOAD,
    ensures
        key.len() > 0 && other.len() > 0 ==> spec_decode(packet.encoded(key), other) == if tag_of(
            other,
            packet.body(),
        ) == tag_of(key, packet.body()) {
            Ok::<PacketView, PacketError>(packet)
        } else {
            Err(PacketError::AuthenticationFailed)
        },
        (key.len() == 0) != (other.len() == 0) ==> spec_decode(packet.encoded(key), other) == Err::<
            PacketView,
            PacketError,
        >(PacketError::InvalidLength),
{
    let b: Seq<u8> = packet.body();
    let w: Seq<u8> = packet.encoded(key);
    lemma_body(packet);
    lemma2_to64();
    lemma2_to64_rest();
    wire::lemma_value_of_bytes(packet.payload.len(), 4);
    decode_reads_encoding(packet, key);
    assert(w.subrange(0, 4) =~= b.subrange(0, 4));
    assert(w.subrange(34, 38) =~= b.subrange(34, 38));
    let end: int = HEADER + packet.payload.len();
    assert(w.take(end) =~= b);
    if key.len() > 0 {
        assert(w.skip(end) =~= tag_of(key, b));
    }
}

// ---- Repair requests -------------------------------------------------------------

/// The numbers of the first `n` sequences.
pub open spec fn nack_entries(sequences: Seq<u32>, n: nat) -> Seq<u8>
    decreases n,
{
    if n == 0 {
        Seq::empty()
    } else {
        nack_entries(sequences, (n - 1) as nat) + wire::be_bytes(sequences[n - 1] as nat, 4)
    }
}

pub open spec fn spec_encode_nack(sequences: Seq<u32>) -> Seq<u8> {
    wire::be_bytes(sequences.len(), 2) + nack_entries(sequences, sequences.len())
}

/// The sequences in a repair request. Bytes after the last are ignored.
pub open spec fn spec_decode_nack(bytes: Seq<u8>) -> Result<Seq<u32>, PacketError> {
    let count: nat = field(bytes, 0, 2);
    if bytes.len() < 2 {
        Err(PacketError::ShortNack)
    } else if count == 0 || count > MAX_NACK || bytes.len() < 2 + count * 4 {
        Err(PacketError::InvalidNack)
    } else {
        Ok(Seq::new(count, |i: int| field(bytes, 2 + 4 * i, 6 + 4 * i) as u32))
    }
}

pub fn encode_nack(sequences: &[u32]) -> (r: Result<Vec<u8>, PacketError>)
    ensures
        match r {
            Ok(bytes) => 1 <= sequences@.len() <= MAX_NACK && bytes@ == spec_encode_nack(
                sequences@,
            ),
            Err(error) => !(1 <= sequences@.len() <= MAX_NACK) && error
                == PacketError::InvalidNackCount,
        },
{
    if sequences.len() == 0 || sequences.len() > MAX_NACK {
        return Err(PacketError::InvalidNackCount);
    }
    let mut out: Vec<u8> = Vec::new();
    wire::put_be(&mut out, sequences.len() as u64, 2);
    let ghost head: Seq<u8> = wire::be_bytes(sequences@.len(), 2);
    assert(out@ =~= head);
    let mut i: usize = 0;
    assert(head + nack_entries(sequences@, 0) =~= head);
    while i < sequences.len()
        invariant
            i <= sequences@.len(),
            out@ == head + nack_entries(sequences@, i as nat),
        decreases sequences@.len() - i,
    {
        wire::put_be(&mut out, sequences[i] as u64, 4);
        i = i + 1;
        assert(out@ =~= head + nack_entries(sequences@, i as nat));
    }
    Ok(out)
}

pub fn decode_nack(bytes: &[u8]) -> (r: Result<Vec<u32>, PacketError>)
    ensures
        match r {
            Ok(list) => spec_decode_nack(bytes@) == Ok::<Seq<u32>, PacketError>(list@),
            Err(error) => spec_decode_nack(bytes@) == Err::<Seq<u32>, PacketError>(error),
        },
{
    if bytes.len() < 2 {
        return Err(PacketError::ShortNack);
    }
    let count: usize = wire::get_be(bytes, 0, 2) as usize;
    if count == 0 || count > MAX_NACK || bytes.len() < 2 + count * 4 {
        return Err(PacketError::InvalidNack);
    }
    let mut list: Vec<u32> = Vec::new();
    let mut i: usize = 0;
    proof {
        lemma2_to64();
    }
    while i < count
        invariant
            i <= count <= MAX_NACK,
            2 + count * 4 <= bytes@.len(),
            pow2(32) == 0x1_0000_0000,
            list@.len() == i,
            forall|j: int|
                0 <= j < i ==> #[trigger] list@[j] == field(bytes@, 2 + 4 * j, 6 + 4 * j) as u32,
        decreases count - i,
    {
        list.push(wire::get_be(bytes, 2 + 4 * i, 4) as u32);
        i = i + 1;
    }
    assert(list@ =~= spec_decode_nack(bytes@)->Ok_0);
    Ok(list)
}

proof fn lemma_nack_entry(sequences: Seq<u32>, n: nat, i: int)
    requires
        0 <= i < n <= sequences.len(),
    ensures
        nack_entries(sequences, n).len() == 4 * n,
        nack_entries(sequences, n).subrange(4 * i, 4 * i + 4) == wire::be_bytes(
            sequences[i] as nat,
            4,
        ),
    decreases n,
{
    let all: Seq<u8> = nack_entries(sequences, n);
    let before: Seq<u8> = nack_entries(sequences, (n - 1) as nat);
    wire::lemma_be_bytes_len(sequences[n - 1] as nat, 4);
    if n > 1 {
        lemma_nack_entry(sequences, (n - 1) as nat, if i < n - 1 {
            i
        } else {
            0
        });
    } else {
        assert(nack_entries(sequences, 0).len() == 0);
    }
    if i == n - 1 {
        assert(all.subrange(4 * i, 4 * i + 4) =~= wire::be_bytes(sequences[i] as nat, 4));
    } else {
        assert(all.subrange(4 * i, 4 * i + 4) =~= before.subrange(4 * i, 4 * i + 4));
    }
}

/// A repair request is read back as it was written.
pub proof fn nack_round_trip(sequences: Seq<u32>)
    requires
        1 <= sequences.len() <= MAX_NACK,
    ensures
        spec_decode_nack(spec_encode_nack(sequences)) == Ok::<Seq<u32>, PacketError>(sequences),
{
    let bytes: Seq<u8> = spec_encode_nack(sequences);
    let n: nat = sequences.len();
    let entries: Seq<u8> = nack_entries(sequences, n);
    lemma2_to64();
    wire::lemma_be_bytes_len(n, 2);
    wire::lemma_value_of_bytes(n, 2);
    lemma_nack_entry(sequences, n, 0);
    assert(bytes.subrange(0, 2) =~= wire::be_bytes(n, 2));
    let list: Seq<u32> = Seq::new(n, |i: int| field(bytes, 2 + 4 * i, 6 + 4 * i) as u32);
    assert forall|i: int| 0 <= i < n implies #[trigger] list[i] == sequences[i] by {
        lemma_nack_entry(sequences, n, i);
        wire::lemma_value_of_bytes(sequences[i] as nat, 4);
        assert(bytes.subrange(2 + 4 * i, 6 + 4 * i) =~= entries.subrange(4 * i, 4 * i + 4));
    }
    assert(list =~= sequences);
}

} // verus!
