//! IPv4 packets as bytes: where the fields that the translator reads and
//! rewrites lie, and the checksums, which the `pnet` crate computes.

use pnet::packet::icmp::{self, IcmpPacket};
use pnet::packet::ipv4::{self, Ipv4Packet};
use pnet::packet::tcp::{self, TcpPacket};
use pnet::packet::udp::{self, UdpPacket};
use vstd::prelude::*;
use vstd::slice::slice_subrange;

verus! {

/// No IPv4 packet is longer than this.
pub const MAX_PACKET: usize = 0xffff;

/// The length of an IPv4 header without options, and of the shortest TCP
/// header.
pub const MIN_HEADER: usize = 20;

/// The protocol number of ICMP.
pub const PROTO_ICMP: u8 = 1;

/// The protocol number of TCP.
pub const PROTO_TCP: u8 = 6;

/// The protocol number of UDP.
pub const PROTO_UDP: u8 = 17;

/// The 16-bit number that stands at place `i` of `s`, high byte first.
pub open spec fn be16(s: Seq<u8>, i: int) -> u16 {
    (s[i] * 256 + s[i + 1]) as u16
}

/// The 32-bit number that stands at place `i` of `s`, high byte first.
pub open spec fn be32(s: Seq<u8>, i: int) -> u32 {
    (s[i] * 0x100_0000 + s[i + 1] * 0x1_0000 + s[i + 2] * 0x100 + s[i + 3]) as u32
}

/// `s` with the 16-bit number `x` written at place `i`, high byte first.
pub open spec fn with_be16(s: Seq<u8>, i: int, x: u16) -> Seq<u8> {
    s.update(i, (x / 256) as u8).update(i + 1, (x % 256) as u8)
}

/// `s` with the 32-bit number `x` written at place `i`, high byte first.
pub open spec fn with_be32(s: Seq<u8>, i: int, x: u32) -> Seq<u8> {
    s.update(i, (x / 0x100_0000) as u8).update(i + 1, (x / 0x1_0000 % 256) as u8).update(
        i + 2,
        (x / 0x100 % 256) as u8,
    ).update(i + 3, (x % 256) as u8)
}

/// Reads the 16-bit number at place `i`.
pub fn read_be16(s: &[u8], i: usize) -> (x: u16)
    requires
        i + 1 < s@.len(),
    ensures
        x == be16(s@, i as int),
{
    (s[i] as u16) * 256 + (s[i + 1] as u16)
}

/// Reads the 32-bit number at place `i`.
pub fn read_be32(s: &[u8], i: usize) -> (x: u32)
    requires
        i + 3 < s@.len(),
    ensures
        x == be32(s@, i as int),
{
    (s[i] as u32) * 0x100_0000 + (s[i + 1] as u32) * 0x1_0000 + (s[i + 2] as u32) * 0x100 + (s[i
        + 3] as u32)
}

/// Writes the 16-bit number `x` at place `i`. What is read there afterwards
/// is `x`; nothing else changes.
pub fn write_be16(v: &mut Vec<u8>, i: usize, x: u16)
    requires
        i + 1 < old(v).len(),
    ensures
        final(v)@ == with_be16(old(v)@, i as int, x),
        final(v)@.len() == old(v)@.len(),
        be16(final(v)@, i as int) == x,
{
    let j = i + 1;
    v.set(i, (x / 256) as u8);
    v.set(j, (x % 256) as u8);
}

/// Writes the 32-bit number `x` at place `i`. What is read there afterwards
/// is `x`; nothing else changes.
pub fn write_be32(v: &mut Vec<u8>, i: usize, x: u32)
    requires
        i + 3 < old(v).len(),
    ensures
        final(v)@ == with_be32(old(v)@, i as int, x),
        final(v)@.len() == old(v)@.len(),
        be32(final(v)@, i as int) == x,
{
    let last = i + 3;
    v.set(i, (x / 0x100_0000) as u8);
    v.set(last - 2, (x / 0x1_0000 % 256) as u8);
    v.set(last - 1, (x / 0x100 % 256) as u8);
    v.set(last, (x % 256) as u8);
}

/// The version that a packet claims: the high half of its first byte.
pub open spec fn ip_version(packet: Seq<u8>) -> int {
    packet[0] as int / 16
}

/// The length of the header in bytes, as the packet gives it.
pub open spec fn header_bytes(packet: Seq<u8>) -> int {
    (packet[0] as int % 16) * 4
}

/// The length of the whole packet, as the packet gives it.
pub open spec fn total_length(packet: Seq<u8>) -> u16 {
    be16(packet, 2)
}

/// The number of the protocol that the packet carries.
pub open spec fn protocol(packet: Seq<u8>) -> u8 {
    packet[9]
}

/// The address that the packet comes from.
pub open spec fn source(packet: Seq<u8>) -> u32 {
    be32(packet, 12)
}

/// The address that the packet goes to.
pub open spec fn destination(packet: Seq<u8>) -> u32 {
    be32(packet, 16)
}

/// Where the payload of a packet of at least twenty bytes begins: behind
/// the header, which is taken to be twenty bytes long at least.
pub open spec fn payload_start(packet: Seq<u8>) -> int {
    if header_bytes(packet) < MIN_HEADER {
        MIN_HEADER as int
    } else {
        header_bytes(packet)
    }
}

/// Where the payload ends: where the packet's own length says, or where
/// the bytes end if that is earlier. A packet that ends within its header
/// has an empty payload.
pub open spec fn payload_end(packet: Seq<u8>) -> int {
    let start = payload_start(packet);
    let said = if total_length(packet) < header_bytes(packet) {
        0
    } else {
        total_length(packet) - header_bytes(packet)
    };
    if packet.len() <= start {
        start
    } else if start + said < packet.len() {
        start + said
    } else {
        packet.len() as int
    }
}

/// The payload of a packet of at least twenty bytes.
pub open spec fn payload(packet: Seq<u8>) -> Seq<u8> {
    if packet.len() <= payload_start(packet) {
        Seq::empty()
    } else {
        packet.subrange(payload_start(packet), payload_end(packet))
    }
}

/// Where the payload of a packet begins and ends.
pub fn payload_bounds(packet: &[u8]) -> (r: (usize, usize))
    requires
        packet@.len() >= MIN_HEADER,
        packet@.len() <= MAX_PACKET,
    ensures
        r.0 == payload_start(packet@),
        r.1 == payload_end(packet@),
        MIN_HEADER <= r.0 <= r.1,
        r.1 <= packet@.len() || r.1 == r.0,
        r.0 <= 60,
        payload(packet@).len() == r.1 - r.0,
        forall|i: int| 0 <= i < r.1 - r.0 ==> #[trigger] payload(packet@)[i] == packet@[r.0 + i],
{
    let header: usize = ((packet[0] % 16) as usize) * 4;
    let total: usize = read_be16(packet, 2) as usize;
    let start = if header < MIN_HEADER {
        MIN_HEADER
    } else {
        header
    };
    let said = if total < header {
        0
    } else {
        total - header
    };
    let end = if packet.len() <= start {
        start
    } else if start + said < packet.len() {
        start + said
    } else {
        packet.len()
    };
    (start, end)
}

/// The ICMP checksum of a message, as `pnet` computes it.
pub uninterp spec fn message_sum(message: Seq<u8>) -> u16;

/// The TCP checksum of a segment sent from `src` to `dst`, as `pnet`
/// computes it.
pub uninterp spec fn tcp_sum(segment: Seq<u8>, src: u32, dst: u32) -> u16;

/// The UDP checksum of a datagram sent from `src` to `dst`, as `pnet`
/// computes it.
pub uninterp spec fn udp_sum(datagram: Seq<u8>, src: u32, dst: u32) -> u16;

/// The checksum of the header of an IPv4 packet, as `pnet` computes it.
pub uninterp spec fn header_sum(packet: Seq<u8>) -> u16;

/// `pnet::packet::icmp::checksum` of the message, which `IcmpPacket::new`
/// takes if it has the four bytes of an ICMP header. The sum is a function
/// of the bytes; the bound on the length keeps its 32-bit accumulator from
/// overflowing.
#[verifier::external_body]
pub(crate) fn message_checksum(message: &[u8]) -> (r: Option<u16>)
    requires
        message@.len() <= MAX_PACKET,
    ensures
        r == if message@.len() >= 4 {
            Some(message_sum(message@))
        } else {
            None
        },
{
    IcmpPacket::new(message).map(|m| icmp::checksum(&m))
}

/// `pnet::packet::tcp::ipv4_checksum` of the segment, which `TcpPacket::new`
/// takes if it has the twenty bytes of a TCP header, with the addresses of
/// the pseudo-header. The sum is a function of the bytes and the two
/// addresses; the bound on the length keeps its 32-bit accumulator from
/// overflowing.
#[verifier::external_body]
pub(crate) fn tcp_checksum(segment: &[u8], src: u32, dst: u32) -> (r: Option<u16>)
    requires
        segment@.len() <= MAX_PACKET,
    ensures
        r == if segment@.len() >= 20 {
            Some(tcp_sum(segment@, src, dst))
        } else {
            None
        },
{
    TcpPacket::new(segment).map(|s| tcp::ipv4_checksum(&s, &src.into(), &dst.into()))
}

/// `pnet::packet::udp::ipv4_checksum` of the datagram, which
/// `UdpPacket::new` takes if it has the eight bytes of a UDP header, with
/// the addresses of the pseudo-header. The sum is a function of the bytes
/// and the two addresses; the bound on the length keeps its 32-bit
/// accumulator from overflowing.
#[verifier::external_body]
pub(crate) fn udp_checksum(datagram: &[u8], src: u32, dst: u32) -> (r: Option<u16>)
    requires
        datagram@.len() <= MAX_PACKET,
    ensures
        r == if datagram@.len() >= 8 {
            Some(udp_sum(datagram@, src, dst))
        } else {
            None
        },
{
    UdpPacket::new(datagram).map(|d| udp::ipv4_checksum(&d, &src.into(), &dst.into()))
}

/// `pnet::packet::ipv4::checksum` of the packet, which `Ipv4Packet::new`
/// takes if it has the twenty bytes of an IPv4 header. The sum is a
/// function of the bytes; the bound on the length keeps its 32-bit
/// accumulator from overflowing.
#[verifier::external_body]
pub(crate) fn header_checksum(packet: &[u8]) -> (r: Option<u16>)
    requires
        packet@.len() <= MAX_PACKET,
    ensures
        r == if packet@.len() >= 20 {
            Some(header_sum(packet@))
        } else {
            None
        },
{
    Ipv4Packet::new(packet).map(|p| ipv4::checksum(&p))
}

/// Sets the checksum of the packet's header to what it must be. A packet
/// too short for a header, or too long for a packet, is left as it is.
pub fn correct_header_checksum(packet: &mut Vec<u8>) -> (done: bool)
    ensures
        done == (MIN_HEADER <= old(packet)@.len() <= MAX_PACKET),
        final(packet)@ == if done {
            with_be16(old(packet)@, 10, header_sum(old(packet)@))
        } else {
            old(packet)@
        },
{
    if packet.len() > MAX_PACKET {
        return false;
    }
    match header_checksum(packet.as_slice()) {
        Some(sum) => {
            write_be16(packet, 10, sum);
            true
        },
        None => false,
    }
}

/// The bytes of `packet` from `start` up to `end`.
pub fn part(packet: &Vec<u8>, start: usize, end: usize) -> (r: &[u8])
    requires
        start <= end <= packet@.len(),
    ensures
        r@ == packet@.subrange(start as int, end as int),
{
    slice_subrange(packet.as_slice(), start, end)
}

/// What an ICMP error quotes of the packet it is about: where that
/// packet's own payload begins within the error message, and the
/// endpoints found there.
pub struct Quote {
    pub l4: usize,
    pub src_port: u16,
    pub dst_addr: u32,
    pub dst_port: u16,
}

/// Where the payload of the quoted packet begins within an ICMP error
/// message: behind the eight bytes of the error's header and the header of
/// the quoted packet, whose length the ninth byte gives.
pub open spec fn quoted_l4(message: Seq<u8>) -> int {
    8 + 4 * (message[8] as int % 16)
}

/// What the ICMP error `packet` quotes, if its message holds the address
/// fields of the quoted packet and the first four bytes of its payload.
pub open spec fn quote_of(packet: Seq<u8>) -> Option<Quote> {
    let message = payload(packet);
    if message.len() <= 8 {
        None
    } else {
        let l4 = quoted_l4(message);
        if message.len() < l4 + 4 || message.len() < 28 {
            None
        } else {
            Some(
                Quote {
                    l4: l4 as usize,
                    src_port: be16(message, l4),
                    dst_addr: be32(message, 24),
                    dst_port: be16(message, l4 + 2),
                },
            )
        }
    }
}

/// Reads what an ICMP error quotes.
pub fn read_quote(packet: &[u8]) -> (r: Option<Quote>)
    requires
        MIN_HEADER <= packet@.len() <= MAX_PACKET,
    ensures
        r == quote_of(packet@),
{
    let (start, end) = payload_bounds(packet);
    let len = end - start;
    if len <= 8 {
        return None;
    }
    assert(payload(packet@)[8] == packet@[start + 8]);
    let l4: usize = 8 + 4 * ((packet[start + 8] % 16) as usize);
    if len < l4 + 4 || len < 28 {
        return None;
    }
    assert forall|i: int| 0 <= i < len implies #[trigger] payload(packet@)[i] == packet@[start
        + i] by {}
    assert(payload(packet@)[l4 + 0] == packet@[start + l4]);
    assert(payload(packet@)[l4 + 1] == packet@[start + l4 + 1]);
    assert(payload(packet@)[l4 + 2] == packet@[start + l4 + 2]);
    assert(payload(packet@)[l4 + 3] == packet@[start + l4 + 3]);
    assert(payload(packet@)[24] == packet@[start + 24]);
    assert(payload(packet@)[25] == packet@[start + 25]);
    assert(payload(packet@)[26] == packet@[start + 26]);
    assert(payload(packet@)[27] == packet@[start + 27]);
    Some(
        Quote {
            l4,
            src_port: read_be16(packet, start + l4),
            dst_addr: read_be32(packet, start + 24),
            dst_port: read_be16(packet, start + l4 + 2),
        },
    )
}

/// The ICMP error `packet` with the local endpoint `addr`, `port` put in:
/// `addr` for the source address of the quoted packet, then `port` for its
/// source port, then `addr` for the destination of the error itself.
pub open spec fn redirected(packet: Seq<u8>, q: Quote, addr: u32, port: u16) -> Seq<u8> {
    let start = payload_start(packet);
    with_be32(with_be16(with_be32(packet, start + 20, addr), start + q.l4, port), 16, addr)
}

/// Puts the local endpoint into an ICMP error. The length of the packet,
/// and where its payload lies, stay as they are.
pub fn redirect(packet: Vec<u8>, q: Quote, addr: u32, port: u16) -> (r: Vec<u8>)
    requires
        MIN_HEADER <= packet@.len() <= MAX_PACKET,
        quote_of(packet@) == Some(q),
    ensures
        r@ == redirected(packet@, q, addr, port),
        r@.len() == packet@.len(),
{
    let mut packet = packet;
    let (start, end) = payload_bounds(packet.as_slice());
    write_be32(&mut packet, start + 20, addr);
    write_be16(&mut packet, start + q.l4, port);
    write_be32(&mut packet, 16, addr);
    packet
}

/// The flags of the TCP segment that a packet carries: the fourteenth byte
/// of a payload of twenty bytes at least.
pub open spec fn segment_flags_of(packet: Seq<u8>) -> Option<u8> {
    if payload(packet).len() >= 20 {
        Some(payload(packet)[13])
    } else {
        None
    }
}

/// Reads the flags of the TCP segment that a packet carries.
pub fn segment_flags(packet: &[u8]) -> (r: Option<u8>)
    requires
        MIN_HEADER <= packet@.len() <= MAX_PACKET,
    ensures
        r == segment_flags_of(packet@),
{
    let (start, end) = payload_bounds(packet);
    if end - start >= 20 {
        assert(payload(packet@)[13] == packet@[start + 13]);
        Some(packet[start + 13])
    } else {
        None
    }
}

} // verus!
