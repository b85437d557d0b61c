//! What the scheduler reads from an inner IPv4 packet: whether it is TCP, UDP
//! or a fragment, which flow it belongs to, and how urgent it is.
use vstd::prelude::*;

verus! {

/// The big-endian number in bytes `at` and `at + 1`.
pub open spec fn be16(bytes: Seq<u8>, at: int) -> nat {
    (bytes[at] * 256 + bytes[at + 1]) as nat
}

/// The big-endian number in the four bytes from `at`.
pub open spec fn be32(bytes: Seq<u8>, at: int) -> nat {
    be16(bytes, at) * 0x1_0000 + be16(bytes, at + 2)
}

pub open spec fn spec_version4(ip: Seq<u8>) -> bool {
    ip.len() > 0 && ip[0] / 16 == 4
}

pub open spec fn spec_protocol(ip: Seq<u8>, number: u8) -> bool {
    ip.len() > 9 && ip[9] == number
}

/// Length of the IPv4 header, options included, as its first byte gives it.
pub open spec fn spec_header(ip: Seq<u8>) -> int {
    (ip[0] % 16) * 4
}

/// Traffic class of the packet.
pub open spec fn spec_dscp_is(ip: Seq<u8>, class: int) -> bool {
    ip.len() > 1 && ip[1] / 4 == class
}

pub open spec fn spec_fragment_offset(ip: Seq<u8>) -> Option<u16> {
    if ip.len() >= 8 {
        Some(((ip[6] % 32) * 256 + ip[7]) as u16)
    } else {
        None
    }
}

pub open spec fn spec_fragmented(ip: Seq<u8>) -> bool {
    (ip.len() > 6 && ip[6] % 64 != 0) || (ip.len() > 7 && ip[7] != 0)
}

/// A fragment that does not begin its datagram.
pub open spec fn spec_later_fragment(ip: Seq<u8>) -> bool {
    match spec_fragment_offset(ip) {
        Some(offset) => offset > 0,
        None => false,
    }
}

pub open spec fn spec_ipv4_udp(ip: Seq<u8>) -> bool {
    spec_version4(ip) && spec_protocol(ip, 17) && spec_header(ip) >= 20 && if spec_later_fragment(
        ip,
    ) {
        ip.len() > spec_header(ip)
    } else {
        ip.len() >= spec_header(ip) + 8
    }
}

pub open spec fn spec_tcp_header(ip: Seq<u8>) -> int {
    (ip[spec_header(ip) + 12] / 16) * 4
}

pub open spec fn spec_ipv4_tcp(ip: Seq<u8>) -> bool {
    let header: int = spec_header(ip);
    spec_version4(ip) && spec_protocol(ip, 6) && header >= 20 && ip.len() >= header && if
    spec_later_fragment(ip) {
        ip.len() > header
    } else {
        ip.len() >= header + 20 && spec_tcp_header(ip) >= 20 && ip.len() >= header
            + spec_tcp_header(ip)
    }
}

/// An unfragmented TCP segment with a complete fixed header.
pub open spec fn spec_whole_tcp(ip: Seq<u8>) -> bool {
    spec_version4(ip) && spec_protocol(ip, 6) && !spec_fragmented(ip) && spec_header(ip) >= 20
        && ip.len() >= spec_header(ip) + 20
}

pub open spec fn spec_bare_tcp_ack(ip: Seq<u8>) -> bool {
    spec_whole_tcp(ip) && spec_tcp_header(ip) >= 20 && ip.len() == spec_header(ip)
        + spec_tcp_header(ip)
}

pub open spec fn spec_interactive(ip: Seq<u8>) -> bool {
    if spec_fragmented(ip) {
        spec_dscp_is(ip, 46)
    } else {
        !spec_bare_tcp_ack(ip) && (ip.len() < 600 || spec_protocol(ip, 1) || spec_dscp_is(ip, 46))
    }
}

/// Addresses and ports of a TCP segment, in the order they stand on the wire.
pub open spec fn spec_tcp_tuple(ip: Seq<u8>) -> u128 {
    (be32(ip, 12) * 0x1_0000_0000_0000_0000 + be32(ip, 16) * 0x1_0000_0000 + be32(
        ip,
        spec_header(ip),
    )) as u128
}

/// The flow of a segment that occupies sequence space: it has a payload, or
/// opens or closes the connection.
pub open spec fn spec_tcp_flow_key(ip: Seq<u8>) -> Option<u128> {
    let header: int = spec_header(ip);
    let tcp: int = spec_tcp_header(ip);
    if spec_whole_tcp(ip) && tcp >= 20 && ip.len() >= header + tcp && (ip.len() > header + tcp
        || ip[header + 13] % 4 != 0) {
        Some(spec_tcp_tuple(ip))
    } else {
        None
    }
}

pub open spec fn spec_service_port(port: nat) -> bool {
    port == 53 || port == 67 || port == 68 || port == 123 || port == 500 || port == 4500 || port
        == 5353
}

pub open spec fn spec_realtime_media(ip: Seq<u8>) -> bool {
    let header: int = spec_header(ip);
    let port: nat = be16(ip, header + 2);
    spec_version4(ip) && spec_protocol(ip, 17) && !spec_fragmented(ip) && header >= 20
        && header + 8 <= ip.len() < 500 && !spec_service_port(port) && port != 137 && port != 138
}

/// The key of every fragment of one datagram; odd, so that it is never that
/// of a flow.
pub open spec fn spec_fragment_tuple(ip: Seq<u8>) -> u128 {
    (be32(ip, 12) * 0x1_0000_0000_0000_0000_0000_0000 + be32(ip, 16) * 0x1_0000_0000_0000_0000
        + be16(ip, 4) * 0x1_0000_0000 + 1) as u128
}

pub open spec fn spec_udp_tuple(ip: Seq<u8>) -> u128 {
    (be32(ip, 12) * 0x1_0000_0000_0000_0000_0000_0000 + be32(ip, 16) * 0x1_0000_0000_0000_0000
        + be16(ip, spec_header(ip)) * 0x1_0000_0000_0000 + be16(ip, spec_header(ip) + 2)
        * 0x1_0000_0000) as u128
}

pub open spec fn spec_udp_flow_key(ip: Seq<u8>) -> Option<u128> {
    let header: int = spec_header(ip);
    if !spec_version4(ip) || !spec_protocol(ip, 17) || header < 20 || ip.len() < header {
        None
    } else if spec_fragmented(ip) {
        Some(spec_fragment_tuple(ip))
    } else if ip.len() < header + 8 || spec_service_port(be16(ip, header + 2)) {
        None
    } else {
        Some(spec_udp_tuple(ip))
    }
}

pub open spec fn spec_bulk_udp_flow_key(ip: Seq<u8>) -> Option<u128> {
    if ip.len() >= 500 {
        spec_udp_flow_key(ip)
    } else {
        None
    }
}

pub open spec fn spec_udp_tuple_key(ip: Seq<u8>) -> Option<u128> {
    let header: int = spec_header(ip);
    if spec_version4(ip) && spec_protocol(ip, 17) && !spec_later_fragment(ip) && header >= 20
        && ip.len() >= header + 8 && !spec_service_port(be16(ip, header + 2)) {
        Some(spec_udp_tuple(ip))
    } else {
        None
    }
}

pub open spec fn spec_udp_fragment_key(ip: Seq<u8>) -> Option<u128> {
    if spec_version4(ip) && spec_protocol(ip, 17) && spec_fragmented(ip) && ip.len() >= 20 {
        Some(spec_fragment_tuple(ip))
    } else {
        None
    }
}

pub open spec fn spec_srt_control_packet(ip: Seq<u8>) -> bool {
    let at: int = spec_header(ip) + 8;
    spec_version4(ip) && spec_protocol(ip, 17) && !spec_later_fragment(ip) && ip.len() >= at + 16
        && be16(ip, at) >= 0x8000 && be16(ip, at) - 0x8000 <= 8 && be16(ip, at + 2) == 0
}

pub open spec fn spec_streaming_port(port: nat) -> bool {
    port == 554 || port == 1935
}

pub open spec fn spec_streaming(ip: Seq<u8>) -> bool {
    let header: int = spec_header(ip);
    ||| spec_dscp_is(ip, 34) || spec_dscp_is(ip, 36) || spec_dscp_is(ip, 38) || spec_dscp_is(
        ip,
        40,
    )
    ||| spec_version4(ip) && spec_protocol(ip, 6) && spec_fragment_offset(ip) == Some(0u16)
        && header >= 20 && ip.len() >= header + 4 && (spec_streaming_port(be16(ip, header))
        || spec_streaming_port(be16(ip, header + 2)))
}

pub fn read16(bytes: &[u8], at: usize) -> (r: u16)
    requires
        at + 1 < bytes@.len(),
    ensures
        r == be16(bytes@, at as int),
{
    bytes[at] as u16 * 256 + bytes[at + 1] as u16
}

pub fn read32(bytes: &[u8], at: usize) -> (r: u32)
    requires
        at + 3 < bytes@.len(),
    ensures
        r == be32(bytes@, at as int),
{
    assert(bytes.len() <= usize::MAX);
    read16(bytes, at) as u32 * 0x1_0000 + read16(bytes, at + 2) as u32
}

fn version4(ip: &[u8]) -> (r: bool)
    ensures
        r == spec_version4(ip@),
{
    ip.len() > 0 && ip[0] / 16 == 4
}

fn protocol(ip: &[u8], number: u8) -> (r: bool)
    ensures
        r == spec_protocol(ip@, number),
{
    ip.len() > 9 && ip[9] == number
}

fn header(ip: &[u8]) -> (r: usize)
    requires
        ip@.len() > 0,
    ensures
        r == spec_header(ip@),
        r <= 60,
{
    (ip[0] % 16) as usize * 4
}

fn dscp_is(ip: &[u8], class: u8) -> (r: bool)
    ensures
        r == spec_dscp_is(ip@, class as int),
{
    ip.len() > 1 && ip[1] / 4 == class
}

/// Offset of a fragment within its datagram, in units of eight bytes.
pub fn fragment_offset(ip: &[u8]) -> (r: Option<u16>)
    ensures
        r == spec_fragment_offset(ip@),
{
    if ip.len() >= 8 {
        Some((ip[6] % 32) as u16 * 256 + ip[7] as u16)
    } else {
        None
    }
}

pub fn fragmented(ip: &[u8]) -> (r: bool)
    ensures
        r == spec_fragmented(ip@),
{
    (ip.len() > 6 && ip[6] % 64 != 0) || (ip.len() > 7 && ip[7] != 0)
}

fn later_fragment(ip: &[u8]) -> (r: bool)
    ensures
        r == spec_later_fragment(ip@),
{
    match fragment_offset(ip) {
        Some(offset) => offset > 0,
        None => false,
    }
}

/// Whether the packet is IPv4 UDP. Later fragments carry no UDP header, but
/// the protocol field still identifies them.
pub fn ipv4_udp(ip: &[u8]) -> (r: bool)
    ensures
        r == spec_ipv4_udp(ip@),
{
    if !version4(ip) || !protocol(ip, 17) {
        return false;
    }
    let h: usize = header(ip);
    h >= 20 && if later_fragment(ip) {
        ip.len() > h
    } else {
        ip.len() >= h + 8
    }
}

pub fn ipv4_tcp(ip: &[u8]) -> (r: bool)
    ensures
        r == spec_ipv4_tcp(ip@),
{
    if !version4(ip) || !protocol(ip, 6) {
        return false;
    }
    let h: usize = header(ip);
    if h < 20 || ip.len() < h {
        return false;
    }
    if later_fragment(ip) {
        return ip.len() > h;
    }
    if ip.len() < h + 20 {
        return false;
    }
    let tcp: usize = (ip[h + 12] / 16) as usize * 4;
    tcp >= 20 && ip.len() >= h + tcp
}

fn whole_tcp(ip: &[u8]) -> (r: bool)
    ensures
        r == spec_whole_tcp(ip@),
{
    version4(ip) && protocol(ip, 6) && !fragmented(ip) && header(ip) >= 20 && ip.len() >= header(ip)
        + 20
}

/// A segment that only acknowledges. The next cumulative acknowledgement
/// replaces a lost one, so it is neither urgent nor worth a second copy.
pub fn bare_tcp_ack(ip: &[u8]) -> (r: bool)
    ensures
        r == spec_bare_tcp_ack(ip@),
{
    if !whole_tcp(ip) {
        return false;
    }
    let h: usize = header(ip);
    let tcp: usize = (ip[h + 12] / 16) as usize * 4;
    tcp >= 20 && ip.len() == h + tcp
}

/// Small, control or explicitly marked packets. All fragments of a datagram
/// share one class.
pub fn interactive(ip: &[u8]) -> (r: bool)
    ensures
        r == spec_interactive(ip@),
{
    if fragmented(ip) {
        return dscp_is(ip, 46);
    }
    if bare_tcp_ack(ip) {
        return false;
    }
    ip.len() < 600 || protocol(ip, 1) || dscp_is(ip, 46)
}

/// The flow of a whole segment that occupies sequence space.
pub fn tcp_flow_key(ip: &[u8]) -> (r: Option<u128>)
    ensures
        r == spec_tcp_flow_key(ip@),
{
    if !whole_tcp(ip) {
        return None;
    }
    let h: usize = header(ip);
    let tcp: usize = (ip[h + 12] / 16) as usize * 4;
    if tcp < 20 || ip.len() < h + tcp || (ip.len() == h + tcp && ip[h + 13] % 4 == 0) {
        return None;
    }
    Some(
        read32(ip, 12) as u128 * 0x1_0000_0000_0000_0000 + read32(ip, 16) as u128 * 0x1_0000_0000
            + read32(ip, h) as u128,
    )
}

fn service_port(port: u16) -> (r: bool)
    ensures
        r == spec_service_port(port as nat),
{
    port == 53 || port == 67 || port == 68 || port == 123 || port == 500 || port == 4500 || port
        == 5353
}

/// Small UDP that is not a name, time or key exchange: calls and games.
pub fn is_realtime_media(ip: &[u8]) -> (r: bool)
    ensures
        r == spec_realtime_media(ip@),
{
    if !version4(ip) || !protocol(ip, 17) || fragmented(ip) {
        return false;
    }
    let h: usize = header(ip);
    if h < 20 || ip.len() < h + 8 || ip.len() >= 500 {
        return false;
    }
    let port: u16 = read16(ip, h + 2);
    !service_port(port) && port != 137 && port != 138
}

/// The flow of a packet large enough to be pinned to one path.
pub fn bulk_udp_flow_key(ip: &[u8]) -> (r: Option<u128>)
    ensures
        r == spec_bulk_udp_flow_key(ip@),
{
    if ip.len() >= 500 {
        udp_flow_key(ip)
    } else {
        None
    }
}

fn fragment_tuple(ip: &[u8]) -> (r: u128)
    requires
        ip@.len() >= 20,
    ensures
        r == spec_fragment_tuple(ip@),
{
    read32(ip, 12) as u128 * 0x1_0000_0000_0000_0000_0000_0000 + read32(ip, 16) as u128
        * 0x1_0000_0000_0000_0000 + read16(ip, 4) as u128 * 0x1_0000_0000 + 1
}

fn udp_tuple(ip: &[u8]) -> (r: u128)
    requires
        ip@.len() >= 20,
        ip@.len() >= spec_header(ip@) + 4,
    ensures
        r == spec_udp_tuple(ip@),
{
    let h: usize = header(ip);
    read32(ip, 12) as u128 * 0x1_0000_0000_0000_0000_0000_0000 + read32(ip, 16) as u128
        * 0x1_0000_0000_0000_0000 + read16(ip, h) as u128 * 0x1_0000_0000_0000 + read16(
        ip,
        h + 2,
    ) as u128 * 0x1_0000_0000
}

/// The flow of a UDP packet; fragments go by their datagram.
pub fn udp_flow_key(ip: &[u8]) -> (r: Option<u128>)
    ensures
        r == spec_udp_flow_key(ip@),
{
    if !version4(ip) || !protocol(ip, 17) {
        return None;
    }
    let h: usize = header(ip);
    if h < 20 || ip.len() < h {
        return None;
    }
    if fragmented(ip) {
        return Some(fragment_tuple(ip));
    }
    if ip.len() < h + 8 || service_port(read16(ip, h + 2)) {
        return None;
    }
    Some(udp_tuple(ip))
}

/// The flow named by the UDP header of a whole packet or of a first fragment.
pub fn udp_tuple_key(ip: &[u8]) -> (r: Option<u128>)
    ensures
        r == spec_udp_tuple_key(ip@),
{
    if !version4(ip) || !protocol(ip, 17) || later_fragment(ip) {
        return None;
    }
    let h: usize = header(ip);
    if h < 20 || ip.len() < h + 8 || service_port(read16(ip, h + 2)) {
        return None;
    }
    Some(udp_tuple(ip))
}

/// The datagram that a UDP fragment belongs to.
pub fn udp_fragment_key(ip: &[u8]) -> (r: Option<u128>)
    ensures
        r == spec_udp_fragment_key(ip@),
{
    if version4(ip) && protocol(ip, 17) && fragmented(ip) && ip.len() >= 20 {
        Some(fragment_tuple(ip))
    } else {
        None
    }
}

/// An SRT control header: the top bit, a standard type and no subtype.
pub fn is_srt_control_packet(ip: &[u8]) -> (r: bool)
    ensures
        r == spec_srt_control_packet(ip@),
{
    if !version4(ip) || !protocol(ip, 17) || later_fragment(ip) {
        return false;
    }
    let at: usize = header(ip) + 8;
    if ip.len() < at + 16 {
        return false;
    }
    let control: u16 = read16(ip, at);
    control >= 0x8000 && control - 0x8000 <= 8 && read16(ip, at + 2) == 0
}

fn streaming_port(port: u16) -> (r: bool)
    ensures
        r == spec_streaming_port(port as nat),
{
    port == 554 || port == 1935
}

/// Traffic marked as video, or at a streaming server's port.
pub fn streaming(ip: &[u8]) -> (r: bool)
    ensures
        r == spec_streaming(ip@),
{
    if dscp_is(ip, 34) || dscp_is(ip, 36) || dscp_is(ip, 38) || dscp_is(ip, 40) {
        return true;
    }
    if !version4(ip) || !protocol(ip, 6) || ip[6] % 32 != 0 || ip[7] != 0 {
        return false;
    }
    let h: usize = header(ip);
    if h < 20 || ip.len() < h + 4 {
        return false;
    }
    streaming_port(read16(ip, h)) || streaming_port(read16(ip, h + 2))
}

} // verus!
