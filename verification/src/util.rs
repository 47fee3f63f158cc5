//! The records that the translation tables keep and are handed.

use crate::packet::{
    be16, destination, message_checksum, message_sum, part, payload, payload_bounds, payload_start,
    read_be16, read_be32, source, tcp_checksum, tcp_sum, total_length, udp_checksum, udp_sum,
    with_be16, write_be16, MAX_PACKET, MIN_HEADER,
};
use vstd::prelude::*;

pub mod port_range;

verus! {

/// One translation: the local endpoint, the external port that stands for
/// it, and the filter key that says which remote endpoints may answer.
pub struct NatEntry<LD> {
    pub create_at: u64,
    pub last_egress: u64,
    pub nat_key: LD,
    pub local_tuple: (u32, u16),
    pub global_port: u16,
    pub packets_sent: u32,
    pub packets_received: u32,
    pub bytes_sent: u32,
    pub bytes_received: u32,
}

impl<LD> NatEntry<LD> {
    /// A translation made at time `t`, with nothing counted yet.
    pub fn new(t: u64, nat_key: LD, local_tuple: (u32, u16), global_port: u16) -> (e: Self)
        ensures
            e == fresh(t, nat_key, local_tuple, global_port),
    {
        Self {
            nat_key,
            local_tuple,
            global_port,
            create_at: t,
            last_egress: t,
            packets_sent: 0,
            packets_received: 0,
            bytes_sent: 0,
            bytes_received: 0,
        }
    }
}

/// What a table needs to know of a packet: both endpoints, each an IPv4
/// address in host order with a port, and the packet's length.
#[derive(Clone, Copy)]
pub struct PacketInfo {
    pub src_tuple: (u32, u16),
    pub dst_tuple: (u32, u16),
    pub size: u16,
}

impl PacketInfo {
    /// What stands for a packet that could not be read.
    pub fn dummy() -> (p: Self)
        ensures
            p == (PacketInfo { src_tuple: (0, 0), dst_tuple: (0, 0), size: 0 }),
    {
        Self { src_tuple: (0, 0), dst_tuple: (0, 0), size: 0 }
    }
}

/// What a table shows of one entry: the entry's names and the time at
/// which it can be dropped if no packet leaves through it before.
pub struct StatusLine<LK> {
    pub expires: u64,
    pub global_port: u16,
    pub local_tuple: (u32, u16),
    pub nat_key: LK,
}

/// What a table shows of the entry `e`. The time wraps around.
pub open spec fn status_line<LK>(e: NatEntry<LK>, idle_timeout: u64) -> StatusLine<LK> {
    StatusLine {
        expires: e.last_egress.wrapping_add(idle_timeout),
        global_port: e.global_port,
        local_tuple: e.local_tuple,
        nat_key: e.nat_key,
    }
}

/// What a table has to report of its work. Each record becomes one line of
/// the log.
pub enum LogRecord<LK> {
    /// A translation was created.
    Inserting { time: u64, global_port: u16, local_tuple: (u32, u16), nat_key: LK },
    /// A translation was dropped for being idle.
    Removing { time: u64, global_port: u16, local_tuple: (u32, u16), nat_key: LK },
    /// An outgoing packet was dropped because no external port was found
    /// for it.
    NoEmptyPort { time: u64, local_tuple: (u32, u16), nat_key: LK },
    /// An incoming packet was dropped because no translation matched it.
    IngressNotFound { time: u64, global_port: u16, remote_tuple: (u32, u16) },
}

/// The entry `e` after one more packet of `size` bytes has left through it.
pub open spec fn sent<LK>(e: NatEntry<LK>, size: u16) -> NatEntry<LK> {
    NatEntry {
        packets_sent: e.packets_sent.wrapping_add(1),
        bytes_sent: e.bytes_sent.wrapping_add(size as u32),
        ..e
    }
}

/// The entry `e` after one more packet of `size` bytes has come in through
/// it.
pub open spec fn received<LK>(e: NatEntry<LK>, size: u16) -> NatEntry<LK> {
    NatEntry {
        packets_received: e.packets_received.wrapping_add(1),
        bytes_received: e.bytes_received.wrapping_add(size as u32),
        ..e
    }
}

/// The entry `e` with `now` as the time a packet last left through it.
pub open spec fn refreshed<LK>(e: NatEntry<LK>, now: u64) -> NatEntry<LK> {
    NatEntry { last_egress: now, ..e }
}

/// The entry made at time `t` for `local_tuple`, `global_port` and
/// `nat_key`, with nothing counted yet.
pub open spec fn fresh<LK>(t: u64, nat_key: LK, local_tuple: (u32, u16), global_port: u16) -> NatEntry<
    LK,
> {
    NatEntry {
        create_at: t,
        last_egress: t,
        nat_key,
        local_tuple,
        global_port,
        packets_sent: 0,
        packets_received: 0,
        bytes_sent: 0,
        bytes_received: 0,
    }
}

/// Counts a packet that leaves through `entry`, and gives the external
/// port to send it from. The counters wrap around.
pub fn count_egress<LK>(p: PacketInfo, entry: &mut NatEntry<LK>) -> (port: u16)
    ensures
        *final(entry) == sent(*old(entry), p.size),
        port == old(entry).global_port,
{
    entry.packets_sent = entry.packets_sent.wrapping_add(1);
    entry.bytes_sent = entry.bytes_sent.wrapping_add(p.size as u32);
    entry.global_port
}

/// Counts a packet that comes in through `entry`, and gives the local
/// endpoint to deliver it to. The counters wrap around.
pub fn count_ingress<LK>(p: PacketInfo, entry: &mut NatEntry<LK>) -> (local: (u32, u16))
    ensures
        *final(entry) == received(*old(entry), p.size),
        local == old(entry).local_tuple,
{
    entry.packets_received = entry.packets_received.wrapping_add(1);
    entry.bytes_received = entry.bytes_received.wrapping_add(p.size as u32);
    entry.local_tuple
}

/// Whether the bytes handed out are the bytes expected, or none are handed
/// out where none are expected.
pub open spec fn same_bytes(r: Option<Vec<u8>>, expected: Option<Seq<u8>>) -> bool {
    match (r, expected) {
        (Some(v), Some(s)) => v@ == s,
        (None, None) => true,
        _ => false,
    }
}

/// Whether `packet` has the size of an IPv4 packet: twenty bytes at least,
/// 65535 at most.
pub open spec fn sized(packet: Seq<u8>) -> bool {
    MIN_HEADER <= packet.len() <= MAX_PACKET
}

/// How the translator reads and rewrites the packets of one protocol: the
/// two endpoints, of which the translator rewrites one, and the checksum.
/// What stands for a port is the protocol's own matter.
pub trait PortManager {
    /// Whether the packet can be read: its payload has room for the
    /// protocol's header, and with it for the ports.
    spec fn reads(packet: Seq<u8>) -> bool;

    /// The endpoints and the length of a packet.
    spec fn info(packet: Seq<u8>) -> PacketInfo;

    /// The packet with `val` for its source port, if it has room for one.
    spec fn with_src_port(packet: Seq<u8>, val: u16) -> Option<Seq<u8>>;

    /// The packet with `val` for its destination port, if it has room for
    /// one.
    spec fn with_dst_port(packet: Seq<u8>, val: u16) -> Option<Seq<u8>>;

    /// The packet with the checksum of its payload set right, if it has
    /// room for one.
    spec fn with_checksum(packet: Seq<u8>) -> Option<Seq<u8>>;

    /// Whether the packet can be read.
    fn can_read(packet: &[u8]) -> (b: bool)
        requires
            sized(packet@),
        ensures
            b == Self::reads(packet@),
    ;

    /// Reads the endpoints and the length of a packet.
    fn get_info(packet: &[u8]) -> (p: PacketInfo)
        requires
            sized(packet@),
        ensures
            p == Self::info(packet@),
    ;

    /// Writes `val` for the source port.
    fn set_src_port(packet: Vec<u8>, val: u16) -> (r: Option<Vec<u8>>)
        requires
            sized(packet@),
        ensures
            same_bytes(r, Self::with_src_port(packet@, val)),
            r is Some ==> r->0@.len() == packet@.len(),
    ;

    /// Writes `val` for the destination port.
    fn set_dst_port(packet: Vec<u8>, val: u16) -> (r: Option<Vec<u8>>)
        requires
            sized(packet@),
        ensures
            same_bytes(r, Self::with_dst_port(packet@, val)),
            r is Some ==> r->0@.len() == packet@.len(),
    ;

    /// Sets the checksum of the payload right.
    fn correct_checksum(packet: Vec<u8>) -> (r: Option<Vec<u8>>)
        requires
            sized(packet@),
        ensures
            same_bytes(r, Self::with_checksum(packet@)),
            r is Some ==> r->0@.len() == packet@.len(),
    ;
}

/// Whether the payload of a packet has `needed` bytes at least.
pub fn payload_has(packet: &[u8], needed: usize) -> (b: bool)
    requires
        sized(packet@),
    ensures
        b == (payload(packet@).len() >= needed),
{
    let (start, end) = payload_bounds(packet);
    end - start >= needed
}

/// The packet with the 16-bit number `val` written `offset` bytes into its
/// payload, if the payload has `needed` bytes at least.
pub open spec fn payload_with_be16(
    packet: Seq<u8>,
    needed: usize,
    offset: usize,
    val: u16,
) -> Option<Seq<u8>> {
    if payload(packet).len() >= needed {
        Some(with_be16(packet, payload_start(packet) + offset, val))
    } else {
        None
    }
}

/// Writes the 16-bit number `val` at `offset` bytes into the payload, if
/// the payload has `needed` bytes at least.
pub fn set_payload_be16(packet: Vec<u8>, needed: usize, offset: usize, val: u16) -> (r: Option<
    Vec<u8>,
>)
    requires
        sized(packet@),
        offset + 2 <= needed <= MAX_PACKET,
    ensures
        same_bytes(r, payload_with_be16(packet@, needed, offset, val)),
        r is Some ==> r->0@.len() == packet@.len(),
{
    let (start, end) = payload_bounds(packet.as_slice());
    if end - start >= needed {
        let mut packet = packet;
        write_be16(&mut packet, start + offset, val);
        Some(packet)
    } else {
        None
    }
}

/// The endpoints and the length of a packet whose payload carries the
/// source port in its first two bytes and the destination port in the
/// next two, if the payload has `needed` bytes at least; otherwise what
/// stands for a packet that could not be read.
pub open spec fn ported_info(packet: Seq<u8>, needed: usize) -> PacketInfo {
    let body = payload(packet);
    if body.len() >= needed {
        PacketInfo {
            src_tuple: (source(packet), be16(body, 0)),
            dst_tuple: (destination(packet), be16(body, 2)),
            size: total_length(packet),
        }
    } else {
        PacketInfo { src_tuple: (0, 0), dst_tuple: (0, 0), size: 0 }
    }
}

/// Reads the endpoints of a packet whose payload begins with the two
/// ports.
fn get_ported_info(packet: &[u8], needed: usize) -> (p: PacketInfo)
    requires
        sized(packet@),
        4 <= needed,
    ensures
        p == ported_info(packet@, needed),
{
    let (start, end) = payload_bounds(packet);
    if end - start >= needed {
        assert(payload(packet@)[0] == packet@[start + 0]);
        assert(payload(packet@)[1] == packet@[start + 1]);
        assert(payload(packet@)[2] == packet@[start + 2]);
        assert(payload(packet@)[3] == packet@[start + 3]);
        PacketInfo {
            src_tuple: (read_be32(packet, 12), read_be16(packet, start)),
            dst_tuple: (read_be32(packet, 16), read_be16(packet, start + 2)),
            size: read_be16(packet, 2),
        }
    } else {
        PacketInfo::dummy()
    }
}

/// TCP: the ports are the segment's ports.
pub struct TcpPortManager;

/// UDP: the ports are the datagram's ports.
pub struct UdpPortManager;

/// ICMP echo: the identifier of a request stands for its source port, that
/// of a reply for its destination port; the other port is zero.
pub struct IcmpEchoPortManager;

/// The shortest TCP header.
pub const TCP_HEADER: usize = 20;

/// The UDP header.
pub const UDP_HEADER: usize = 8;

/// The ICMP header that every message has.
pub const MESSAGE_HEADER: usize = 4;

/// The header of an ICMP echo request or reply.
pub const ECHO_HEADER: usize = 8;

/// The ICMP type of an echo request.
pub const ECHO_REQUEST: u8 = 8;

/// The ICMP type of an echo reply.
pub const ECHO_REPLY: u8 = 0;

impl PortManager for TcpPortManager {
    open spec fn reads(packet: Seq<u8>) -> bool {
        payload(packet).len() >= TCP_HEADER
    }

    fn can_read(packet: &[u8]) -> (b: bool) {
        payload_has(packet, TCP_HEADER)
    }

    open spec fn info(packet: Seq<u8>) -> PacketInfo {
        ported_info(packet, TCP_HEADER)
    }

    open spec fn with_src_port(packet: Seq<u8>, val: u16) -> Option<Seq<u8>> {
        payload_with_be16(packet, TCP_HEADER, 0, val)
    }

    open spec fn with_dst_port(packet: Seq<u8>, val: u16) -> Option<Seq<u8>> {
        payload_with_be16(packet, TCP_HEADER, 2, val)
    }

    open spec fn with_checksum(packet: Seq<u8>) -> Option<Seq<u8>> {
        payload_with_be16(
            packet,
            TCP_HEADER,
            16,
            tcp_sum(payload(packet), source(packet), destination(packet)),
        )
    }

    fn get_info(packet: &[u8]) -> (p: PacketInfo) {
        get_ported_info(packet, TCP_HEADER)
    }

    fn set_src_port(packet: Vec<u8>, val: u16) -> (r: Option<Vec<u8>>) {
        set_payload_be16(packet, TCP_HEADER, 0, val)
    }

    fn set_dst_port(packet: Vec<u8>, val: u16) -> (r: Option<Vec<u8>>) {
        set_payload_be16(packet, TCP_HEADER, 2, val)
    }

    fn correct_checksum(packet: Vec<u8>) -> (r: Option<Vec<u8>>) {
        let (start, end) = payload_bounds(packet.as_slice());
        if end - start < TCP_HEADER {
            return None;
        }
        let src = read_be32(packet.as_slice(), 12);
        let dst = read_be32(packet.as_slice(), 16);
        match tcp_checksum(part(&packet, start, end), src, dst) {
            Some(sum) => set_payload_be16(packet, TCP_HEADER, 16, sum),
            None => None,
        }
    }
}

impl PortManager for UdpPortManager {
    open spec fn reads(packet: Seq<u8>) -> bool {
        payload(packet).len() >= UDP_HEADER
    }

    fn can_read(packet: &[u8]) -> (b: bool) {
        payload_has(packet, UDP_HEADER)
    }

    open spec fn info(packet: Seq<u8>) -> PacketInfo {
        ported_info(packet, UDP_HEADER)
    }

    open spec fn with_src_port(packet: Seq<u8>, val: u16) -> Option<Seq<u8>> {
        payload_with_be16(packet, UDP_HEADER, 0, val)
    }

    open spec fn with_dst_port(packet: Seq<u8>, val: u16) -> Option<Seq<u8>> {
        payload_with_be16(packet, UDP_HEADER, 2, val)
    }

    open spec fn with_checksum(packet: Seq<u8>) -> Option<Seq<u8>> {
        payload_with_be16(
            packet,
            UDP_HEADER,
            6,
            udp_sum(payload(packet), source(packet), destination(packet)),
        )
    }

    fn get_info(packet: &[u8]) -> (p: PacketInfo) {
        get_ported_info(packet, UDP_HEADER)
    }

    fn set_src_port(packet: Vec<u8>, val: u16) -> (r: Option<Vec<u8>>) {
        set_payload_be16(packet, UDP_HEADER, 0, val)
    }

    fn set_dst_port(packet: Vec<u8>, val: u16) -> (r: Option<Vec<u8>>) {
        set_payload_be16(packet, UDP_HEADER, 2, val)
    }

    fn correct_checksum(packet: Vec<u8>) -> (r: Option<Vec<u8>>) {
        let (start, end) = payload_bounds(packet.as_slice());
        if end - start < UDP_HEADER {
            return None;
        }
        let src = read_be32(packet.as_slice(), 12);
        let dst = read_be32(packet.as_slice(), 16);
        match udp_checksum(part(&packet, start, end), src, dst) {
            Some(sum) => set_payload_be16(packet, UDP_HEADER, 6, sum),
            None => None,
        }
    }
}

impl PortManager for IcmpEchoPortManager {
    open spec fn reads(packet: Seq<u8>) -> bool {
        payload(packet).len() >= ECHO_HEADER
    }

    fn can_read(packet: &[u8]) -> (b: bool) {
        payload_has(packet, ECHO_HEADER)
    }

    open spec fn info(packet: Seq<u8>) -> PacketInfo {
        let body = payload(packet);
        if body.len() >= MESSAGE_HEADER {
            let echo = body.len() >= ECHO_HEADER;
            PacketInfo {
                src_tuple: (
                    source(packet),
                    if echo && body[0] == ECHO_REQUEST {
                        be16(body, 4)
                    } else {
                        0
                    },
                ),
                dst_tuple: (
                    destination(packet),
                    if echo && body[0] == ECHO_REPLY {
                        be16(body, 4)
                    } else {
                        0
                    },
                ),
                size: total_length(packet),
            }
        } else {
            PacketInfo { src_tuple: (0, 0), dst_tuple: (0, 0), size: 0 }
        }
    }

    open spec fn with_src_port(packet: Seq<u8>, val: u16) -> Option<Seq<u8>> {
        payload_with_be16(packet, ECHO_HEADER, 4, val)
    }

    open spec fn with_dst_port(packet: Seq<u8>, val: u16) -> Option<Seq<u8>> {
        payload_with_be16(packet, ECHO_HEADER, 4, val)
    }

    open spec fn with_checksum(packet: Seq<u8>) -> Option<Seq<u8>> {
        payload_with_be16(packet, MESSAGE_HEADER, 2, message_sum(payload(packet)))
    }

    fn get_info(packet: &[u8]) -> (p: PacketInfo) {
        let (start, end) = payload_bounds(packet);
        if end - start >= MESSAGE_HEADER {
            let echo = end - start >= ECHO_HEADER;
            assert(payload(packet@)[0] == packet@[start + 0]);
            let kind = packet[start];
            let id = if echo && (kind == ECHO_REQUEST || kind == ECHO_REPLY) {
                assert(payload(packet@)[4] == packet@[start + 4]);
                assert(payload(packet@)[5] == packet@[start + 5]);
                read_be16(packet, start + 4)
            } else {
                0
            };
            PacketInfo {
                src_tuple: (
                    read_be32(packet, 12),
                    if kind == ECHO_REQUEST {
                        id
                    } else {
                        0
                    },
                ),
                dst_tuple: (
                    read_be32(packet, 16),
                    if kind == ECHO_REPLY {
                        id
                    } else {
                        0
                    },
                ),
                size: read_be16(packet, 2),
            }
        } else {
            PacketInfo::dummy()
        }
    }

    fn set_src_port(packet: Vec<u8>, val: u16) -> (r: Option<Vec<u8>>) {
        set_payload_be16(packet, ECHO_HEADER, 4, val)
    }

    fn set_dst_port(packet: Vec<u8>, val: u16) -> (r: Option<Vec<u8>>) {
        set_payload_be16(packet, ECHO_HEADER, 4, val)
    }

    fn correct_checksum(packet: Vec<u8>) -> (r: Option<Vec<u8>>) {
        let (start, end) = payload_bounds(packet.as_slice());
        if end - start < MESSAGE_HEADER {
            return None;
        }
        match message_checksum(part(&packet, start, end)) {
            Some(sum) => set_payload_be16(packet, MESSAGE_HEADER, 2, sum),
            None => None,
        }
    }
}

} // verus!
