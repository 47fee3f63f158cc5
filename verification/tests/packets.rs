use rustnat::dispatch::{route, Dispatcher, Outcome, Route, STATUS_ADDR};
use rustnat::keygen::{FullCone, QuasiRestrictedCone, QuasiSymmetric};
use rustnat::nattable::HashNATTable;
use rustnat::natter::{rewrite_egress, rewrite_ingress, HashNATTer, NATter};
use rustnat::packet::{
    correct_header_checksum, payload_bounds, read_be16, read_be32, read_quote, segment_flags,
    write_be16, write_be32,
};
use rustnat::statenattable::TcpStateHashNATTable;
use rustnat::tcpstate::{ACK, SYN};
use rustnat::util::{IcmpEchoPortManager, PortManager, TcpPortManager, UdpPortManager};
use std::marker::PhantomData;

fn ip(a: u8, b: u8, c: u8, d: u8) -> u32 {
    u32::from_be_bytes([a, b, c, d])
}

fn global() -> u32 {
    ip(192, 168, 0, 135)
}

/// The sum of the 16-bit words of `data`, an odd last byte counting as a high byte.
fn word_sum(data: &[u8]) -> u32 {
    let mut sum = 0u32;
    let mut i = 0;
    while i + 1 < data.len() {
        sum += u32::from(data[i]) * 256 + u32::from(data[i + 1]);
        i += 2;
    }
    if i < data.len() {
        sum += u32::from(data[i]) * 256;
    }
    sum
}

fn fold(mut sum: u32) -> u16 {
    while sum >> 16 != 0 {
        sum = (sum >> 16) + (sum & 0xffff);
    }
    sum as u16
}

/// Whether the header checksum of an IPv4 packet is right.
fn header_is_sound(packet: &[u8]) -> bool {
    fold(word_sum(&packet[..20])) == 0xffff
}

/// Whether the checksum of the TCP or UDP payload is right.
fn payload_is_sound(packet: &[u8], proto: u8) -> bool {
    let body = &packet[20..];
    let pseudo = word_sum(&packet[12..20]) + u32::from(proto) + body.len() as u32;
    fold(pseudo + word_sum(body)) == 0xffff
}

/// Whether the checksum of a control message is right.
fn message_is_sound(packet: &[u8]) -> bool {
    fold(word_sum(&packet[20..])) == 0xffff
}

fn header(proto: u8, src: u32, dst: u32, body_len: usize) -> Vec<u8> {
    let mut p = vec![0u8; 20];
    p[0] = 0x45;
    let total = (20 + body_len) as u16;
    p[2..4].copy_from_slice(&total.to_be_bytes());
    p[8] = 64;
    p[9] = proto;
    p[12..16].copy_from_slice(&src.to_be_bytes());
    p[16..20].copy_from_slice(&dst.to_be_bytes());
    p
}

fn udp(src: (u32, u16), dst: (u32, u16), data: &[u8]) -> Vec<u8> {
    let mut p = header(17, src.0, dst.0, 8 + data.len());
    p.extend_from_slice(&src.1.to_be_bytes());
    p.extend_from_slice(&dst.1.to_be_bytes());
    p.extend_from_slice(&((8 + data.len()) as u16).to_be_bytes());
    p.extend_from_slice(&[0, 0]);
    p.extend_from_slice(data);
    p
}

fn tcp(src: (u32, u16), dst: (u32, u16), flags: u8) -> Vec<u8> {
    let mut p = header(6, src.0, dst.0, 20);
    p.extend_from_slice(&src.1.to_be_bytes());
    p.extend_from_slice(&dst.1.to_be_bytes());
    p.extend_from_slice(&[0, 0, 0, 1, 0, 0, 0, 0, 0x50, flags, 0x20, 0, 0, 0, 0, 0]);
    p
}

fn echo(kind: u8, src: u32, dst: u32, id: u16) -> Vec<u8> {
    let mut p = header(1, src, dst, 12);
    p.extend_from_slice(&[kind, 0, 0, 0]);
    p.extend_from_slice(&id.to_be_bytes());
    p.extend_from_slice(&[0, 1, b'p', b'i', b'n', b'g']);
    p
}

/// An ICMP error of type `kind` from `src` to `dst` that quotes `quoted`.
fn icmp_error(kind: u8, src: u32, dst: u32, quoted: &[u8]) -> Vec<u8> {
    let mut p = header(1, src, dst, 8 + quoted.len());
    p.extend_from_slice(&[kind, 0, 0, 0, 0, 0, 0, 0]);
    p.extend_from_slice(quoted);
    p
}

fn udp_natter(
    keygen: FullCone,
) -> HashNATTer<UdpPortManager, HashNATTable<rustnat::keygen::MyUnit, FullCone>> {
    HashNATTer {
        p: PhantomData,
        global_addr: global(),
        table: HashNATTable::new(String::from("udp"), 150, keygen),
    }
}

#[test]
fn udp_full_cone_rewrites_whole_packets() {
    let mut n = udp_natter(FullCone::new(vec![19900]));
    let local = (ip(10, 0, 0, 2), 5000);
    let out = n.transform(udp(local, (ip(8, 8, 8, 8), 53), b"query"), false, 1000).unwrap();
    assert_eq!(UdpPortManager::get_info(&out).src_tuple, (global(), 19900));
    assert_eq!(UdpPortManager::get_info(&out).dst_tuple, (ip(8, 8, 8, 8), 53));
    assert_eq!(&out[28..], b"query");
    assert!(payload_is_sound(&out, 17));
    let back = n
        .transform(udp((ip(9, 9, 9, 9), 53), (global(), 19900), b"answer"), true, 1001)
        .unwrap();
    assert_eq!(UdpPortManager::get_info(&back).src_tuple, (ip(9, 9, 9, 9), 53));
    assert_eq!(UdpPortManager::get_info(&back).dst_tuple, local);
    assert!(payload_is_sound(&back, 17));
    // nothing waits behind another port
    assert!(n.transform(udp((ip(9, 9, 9, 9), 53), (global(), 19901), b"x"), true, 1001).is_none());
}

#[test]
fn icmp_error_reflection() {
    let mut n = HashNATTer {
        p: PhantomData::<UdpPortManager>,
        global_addr: global(),
        table: HashNATTable::new(String::from("udp"), 150, QuasiRestrictedCone::new(vec![19900])),
    };
    let local = (ip(10, 0, 0, 2), 5000);
    let remote = (ip(8, 8, 8, 8), 53);
    let out = n.transform(udp(local, remote, b"query"), false, 1000).unwrap();
    // a router on the way sends the first 28 bytes back in a "time exceeded"
    let error = icmp_error(11, ip(6, 6, 6, 6), global(), &out[..28]);
    let r = n.transform_icmp(error).unwrap();
    assert_eq!(read_be32(&r, 12), ip(6, 6, 6, 6));
    assert_eq!(read_be32(&r, 16), local.0);
    let quoted = &r[28..];
    assert_eq!(read_be32(quoted, 12), local.0);
    assert_eq!(read_be32(quoted, 16), remote.0);
    assert_eq!(read_be16(quoted, 20), local.1);
    assert_eq!(read_be16(quoted, 22), remote.1);
    assert!(message_is_sound(&r));
    // an error about a packet that never went out through the table is dropped
    let stray = udp((global(), 19901), remote, b"query");
    assert!(n.transform_icmp(icmp_error(3, ip(6, 6, 6, 6), global(), &stray[..28])).is_none());
    // so is one that quotes too little
    assert!(n.transform_icmp(icmp_error(3, ip(6, 6, 6, 6), global(), &out[..20])).is_none());
    assert!(n.transform_icmp(vec![0x45; 10]).is_none());
}

#[test]
fn quote_of_an_error_with_header_options() {
    let local = (ip(10, 0, 0, 2), 5000);
    let remote = (ip(8, 8, 8, 8), 53);
    let plain = udp((global(), 19900), remote, b"");
    let mut quoted = plain[..20].to_vec();
    quoted[0] = 0x46;
    quoted.extend_from_slice(&[1, 1, 1, 1]);
    quoted.extend_from_slice(&plain[20..]);
    let error = icmp_error(3, ip(6, 6, 6, 6), global(), &quoted);
    let q = read_quote(&error).unwrap();
    assert_eq!(q.l4, 8 + 24);
    assert_eq!(q.src_port, 19900);
    assert_eq!(q.dst_addr, remote.0);
    assert_eq!(q.dst_port, 53);
    let _ = local;
}

#[test]
fn tcp_segments_are_rewritten_and_short_ones_dropped() {
    let mut n = HashNATTer {
        p: PhantomData::<TcpPortManager>,
        global_addr: global(),
        table: TcpStateHashNATTable::new(
            String::from("tcp"),
            2000,
            120,
            QuasiRestrictedCone::new(vec![19900]),
        ),
    };
    let local = (ip(10, 0, 0, 2), 5000);
    let remote = (ip(8, 8, 8, 8), 80);
    let out = n.transform(tcp(local, remote, SYN), false, 1000).unwrap();
    assert_eq!(TcpPortManager::get_info(&out).src_tuple, (global(), 19900));
    assert_eq!(segment_flags(&out), Some(SYN));
    assert!(payload_is_sound(&out, 6));
    let back = n.transform(tcp(remote, (global(), 19900), SYN | ACK), true, 1000).unwrap();
    assert_eq!(TcpPortManager::get_info(&back).dst_tuple, local);
    assert!(payload_is_sound(&back, 6));
    let mut short = tcp(local, remote, SYN);
    short.truncate(30);
    assert!(n.transform(short, false, 1000).is_none());
    assert!(n.transform(vec![0x45; 19], false, 1000).is_none());
    assert_eq!(n.table.len(), 1);
}

#[test]
fn echo_identifier_stands_for_the_port() {
    let request = echo(8, ip(10, 0, 0, 2), ip(8, 8, 8, 8), 77);
    let info = IcmpEchoPortManager::get_info(&request);
    assert_eq!(info.src_tuple, (ip(10, 0, 0, 2), 77));
    assert_eq!(info.dst_tuple, (ip(8, 8, 8, 8), 0));
    assert_eq!(info.size, 32);
    let reply = echo(0, ip(8, 8, 8, 8), global(), 78);
    let info = IcmpEchoPortManager::get_info(&reply);
    assert_eq!(info.src_tuple, (ip(8, 8, 8, 8), 0));
    assert_eq!(info.dst_tuple, (global(), 78));
    let other = echo(13, ip(8, 8, 8, 8), global(), 78);
    let info = IcmpEchoPortManager::get_info(&other);
    assert_eq!((info.src_tuple.1, info.dst_tuple.1), (0, 0));

    let mut n = HashNATTer {
        p: PhantomData::<IcmpEchoPortManager>,
        global_addr: global(),
        table: HashNATTable::new(String::from("icmp-echo"), 150, QuasiSymmetric::new(vec![300])),
    };
    let out = n.transform(request, false, 1000).unwrap();
    assert_eq!(IcmpEchoPortManager::get_info(&out).src_tuple, (global(), 300));
    assert!(message_is_sound(&out));
    let back = n.transform(echo(0, ip(8, 8, 8, 8), global(), 300), true, 1000).unwrap();
    assert_eq!(IcmpEchoPortManager::get_info(&back).dst_tuple, (ip(10, 0, 0, 2), 77));
    assert!(message_is_sound(&back));
}

#[test]
fn unreadable_packets_give_the_dummy() {
    let mut p = udp((1, 2), (3, 4), b"");
    p.truncate(24);
    let info = UdpPortManager::get_info(&p);
    assert_eq!((info.src_tuple, info.dst_tuple, info.size), ((0, 0), (0, 0), 0));
    assert!(UdpPortManager::set_src_port(p.clone(), 9).is_none());
    assert!(UdpPortManager::set_dst_port(p.clone(), 9).is_none());
    assert!(UdpPortManager::correct_checksum(p).is_none());
    let mut t = tcp((1, 2), (3, 4), 0);
    t.truncate(39);
    assert!(TcpPortManager::correct_checksum(t.clone()).is_none());
    assert_eq!(TcpPortManager::get_info(&t).size, 0);
    let mut e = echo(8, 1, 2, 3);
    e.truncate(27);
    assert!(IcmpEchoPortManager::set_src_port(e.clone(), 1).is_none());
    assert!(IcmpEchoPortManager::correct_checksum(e.clone()).is_some());
    assert_eq!(IcmpEchoPortManager::get_info(&e).src_tuple.1, 0);
    e.truncate(23);
    assert!(IcmpEchoPortManager::correct_checksum(e).is_none());
}

#[test]
fn the_payload_lies_where_the_header_says() {
    let p = udp((1, 2), (3, 4), b"abcd");
    assert_eq!(payload_bounds(&p), (20, 32));
    // trailing bytes past the length that the packet gives are no payload
    let mut long = p.clone();
    long.extend_from_slice(&[9, 9, 9]);
    assert_eq!(payload_bounds(&long), (20, 32));
    // a packet cut short ends where its bytes end
    assert_eq!(payload_bounds(&p[..25]), (20, 25));
    // options move the payload
    let mut opt = p.clone();
    opt[0] = 0x46;
    assert_eq!(payload_bounds(&opt), (24, 32));
    // a header length below five words counts as five
    let mut low = p.clone();
    low[0] = 0x42;
    assert_eq!(payload_bounds(&low), (20, 32));
    // a header that claims more than the packet holds leaves no payload
    let mut over = p[..20].to_vec();
    over[0] = 0x4f;
    assert_eq!(payload_bounds(&over), (60, 60));
}

#[test]
fn numbers_are_written_high_byte_first() {
    let mut v = vec![0u8; 8];
    write_be16(&mut v, 1, 0x1234);
    write_be32(&mut v, 4, 0xdead_beef);
    assert_eq!(v, vec![0, 0x12, 0x34, 0, 0xde, 0xad, 0xbe, 0xef]);
    assert_eq!(read_be16(&v, 1), 0x1234);
    assert_eq!(read_be32(&v, 4), 0xdead_beef);
}

#[test]
fn header_checksum_is_set() {
    let mut p = udp((ip(10, 0, 0, 2), 5000), (ip(8, 8, 8, 8), 53), b"abc");
    assert!(!header_is_sound(&p));
    assert!(correct_header_checksum(&mut p));
    assert!(header_is_sound(&p));
    assert_ne!(read_be16(&p, 10), 0);
    let mut short = vec![0x45u8; 19];
    assert!(!correct_header_checksum(&mut short));
    assert_eq!(short, vec![0x45u8; 19]);
}

#[test]
fn rewriting_sets_address_port_and_checksum() {
    let p = udp((ip(10, 0, 0, 2), 5000), (ip(8, 8, 8, 8), 53), b"abc");
    let out = rewrite_egress::<UdpPortManager>(p.clone(), global(), 19900).unwrap();
    assert_eq!(read_be32(&out, 12), global());
    assert_eq!(read_be16(&out, 20), 19900);
    assert_eq!(read_be16(&out, 22), 53);
    assert!(payload_is_sound(&out, 17));
    let back = rewrite_ingress::<UdpPortManager>(p, (ip(10, 0, 0, 9), 7)).unwrap();
    assert_eq!(read_be32(&back, 16), ip(10, 0, 0, 9));
    assert_eq!(read_be16(&back, 20), 5000);
    assert_eq!(read_be16(&back, 22), 7);
    assert!(payload_is_sound(&back, 17));
}

#[test]
fn routes() {
    let g = global();
    let inside = (ip(10, 0, 0, 2), 5000);
    let remote = (ip(8, 8, 8, 8), 53);
    assert_eq!(route(&udp(inside, remote, b""), g), Route::Udp { ingress: false });
    assert_eq!(route(&udp(remote, (g, 19900), b""), g), Route::Udp { ingress: true });
    assert_eq!(route(&tcp(inside, remote, SYN), g), Route::Tcp { ingress: false });
    assert_eq!(route(&tcp(remote, (g, 1), SYN), g), Route::Tcp { ingress: true });
    assert_eq!(route(&udp(inside, (STATUS_ADDR, 1), b""), g), Route::Status);
    assert_eq!(route(&tcp(inside, (ip(192, 0, 2, 2), 1), 0), g), Route::Status);
    assert_eq!(route(&echo(8, inside.0, remote.0, 1), g), Route::Echo { ingress: false });
    assert_eq!(route(&echo(8, remote.0, g, 1), g), Route::Drop);
    assert_eq!(route(&echo(0, remote.0, g, 1), g), Route::Echo { ingress: true });
    assert_eq!(route(&echo(0, inside.0, remote.0, 1), g), Route::Drop);
    assert_eq!(route(&echo(13, inside.0, remote.0, 1), g), Route::Drop);
    let quoted_udp = udp((g, 19900), remote, b"");
    let quoted_tcp = tcp((g, 19900), remote, SYN);
    assert_eq!(route(&icmp_error(3, ip(6, 6, 6, 6), g, &quoted_udp), g), Route::UdpError);
    assert_eq!(route(&icmp_error(11, ip(6, 6, 6, 6), g, &quoted_tcp[..28]), g), Route::TcpError);
    assert_eq!(route(&icmp_error(11, inside.0, remote.0, &quoted_tcp[..28]), g), Route::TcpError);
    assert_eq!(route(&icmp_error(3, ip(6, 6, 6, 6), g, &quoted_udp[..9]), g), Route::Drop);
    assert_eq!(
        route(&icmp_error(3, ip(6, 6, 6, 6), g, &echo(8, g, remote.0, 1)), g),
        Route::Drop
    );
    let mut v6 = udp(inside, remote, b"");
    v6[0] = 0x60;
    assert_eq!(route(&v6, g), Route::Drop);
    assert_eq!(route(&[], g), Route::Drop);
    assert_eq!(route(&[0x45; 19], g), Route::Drop);
    let mut gre = udp(inside, remote, b"");
    gre[9] = 47;
    assert_eq!(route(&gre, g), Route::Drop);
    assert_eq!(route(&vec![0x45; 65536], g), Route::Drop);
}

#[test]
fn the_dispatcher_forwards_with_a_sound_header() {
    let tcp_n = HashNATTer {
        p: PhantomData::<TcpPortManager>,
        global_addr: global(),
        table: TcpStateHashNATTable::new(
            String::from("tcp"),
            2000,
            120,
            QuasiRestrictedCone::new(vec![19900]),
        ),
    };
    let udp_n = udp_natter(FullCone::new(vec![19900]));
    let echo_n = HashNATTer {
        p: PhantomData::<IcmpEchoPortManager>,
        global_addr: global(),
        table: HashNATTable::new(String::from("icmp-echo"), 150, QuasiSymmetric::new(vec![19900])),
    };
    let mut d = Dispatcher::new(global(), tcp_n, udp_n, echo_n);
    let local = (ip(10, 0, 0, 2), 5000);
    let remote = (ip(8, 8, 8, 8), 53);
    match d.handle(udp(local, remote, b"query"), 1000) {
        Outcome::Forward(out) => {
            assert_eq!(read_be32(&out, 12), global());
            assert_eq!(read_be16(&out, 20), 19900);
            assert!(header_is_sound(&out));
            assert!(payload_is_sound(&out, 17));
        },
        _ => panic!("the packet should be forwarded"),
    }
    assert!(matches!(d.handle(udp(local, (STATUS_ADDR, 9), b""), 1000), Outcome::Status));
    assert!(matches!(d.handle(udp(remote, (global(), 5), b""), 1000), Outcome::Drop));
    assert!(matches!(d.handle(vec![1, 2, 3], 1000), Outcome::Drop));
    match d.handle(tcp(local, remote, SYN), 1000) {
        Outcome::Forward(out) => {
            assert!(header_is_sound(&out));
            assert!(payload_is_sound(&out, 6));
        },
        _ => panic!("the segment should be forwarded"),
    }
    match d.handle(echo(8, local.0, remote.0, 5), 1000) {
        Outcome::Forward(out) => {
            assert!(header_is_sound(&out));
            assert!(message_is_sound(&out));
            assert_eq!(read_be16(&out, 24), 19900);
        },
        _ => panic!("the request should be forwarded"),
    }
    assert_eq!(d.udp.table.len(), 1);
    assert_eq!(d.tcp.table.len(), 1);
    assert_eq!(d.echo.table.len(), 1);
}

#[test]
fn the_dispatcher_reflects_errors() {
    let tcp_n = HashNATTer {
        p: PhantomData::<TcpPortManager>,
        global_addr: global(),
        table: TcpStateHashNATTable::new(
            String::from("tcp"),
            2000,
            120,
            QuasiRestrictedCone::new(vec![19900]),
        ),
    };
    let udp_n = udp_natter(FullCone::new(vec![19900]));
    let echo_n = HashNATTer {
        p: PhantomData::<IcmpEchoPortManager>,
        global_addr: global(),
        table: HashNATTable::new(String::from("icmp-echo"), 150, QuasiSymmetric::new(vec![19900])),
    };
    let mut d = Dispatcher::new(global(), tcp_n, udp_n, echo_n);
    let local = (ip(10, 0, 0, 2), 5000);
    let remote = (ip(8, 8, 8, 8), 80);
    let sent = match d.handle(tcp(local, remote, SYN), 1000) {
        Outcome::Forward(out) => out,
        _ => panic!("the segment should be forwarded"),
    };
    let error = icmp_error(3, ip(6, 6, 6, 6), global(), &sent[..28]);
    match d.handle(error.clone(), 1001) {
        Outcome::Forward(out) => {
            assert_eq!(read_be32(&out, 16), local.0);
            assert_eq!(read_be32(&out, 28 + 12), local.0);
            assert_eq!(read_be16(&out, 28 + 20), local.1);
            assert_eq!(read_be16(&out, 28 + 22), remote.1);
            assert!(header_is_sound(&out));
            assert!(message_is_sound(&out));
        },
        _ => panic!("the error should be forwarded"),
    }
    // the same error about a datagram finds nothing in the UDP table
    let mut about_udp = error;
    about_udp[28 + 9] = 17;
    assert!(matches!(d.handle(about_udp, 1001), Outcome::Drop));
}

#[test]
fn packets_that_cannot_be_read_never_reach_the_table() {
    let mut n = udp_natter(FullCone::new(vec![19900]));
    let local = (ip(10, 0, 0, 2), 5000);
    let mut short = udp(local, (ip(8, 8, 8, 8), 53), b"");
    short.truncate(27);
    assert!(n.transform(short.clone(), false, 1000).is_none());
    assert!(n.transform(short, true, 1000).is_none());
    assert_eq!(n.table.len(), 0);
    assert!(n.table.take_log().is_empty());
    let mut e = HashNATTer {
        p: PhantomData::<IcmpEchoPortManager>,
        global_addr: global(),
        table: HashNATTable::new(String::from("icmp-echo"), 150, QuasiSymmetric::new(vec![300])),
    };
    let mut request = echo(8, local.0, ip(8, 8, 8, 8), 77);
    request.truncate(26);
    assert!(!IcmpEchoPortManager::can_read(&request));
    assert!(e.transform(request, false, 1000).is_none());
    assert_eq!(e.table.len(), 0);
    assert!(e.table.take_log().is_empty());
    assert!(UdpPortManager::can_read(&udp(local, local, b"")));
    assert!(TcpPortManager::can_read(&tcp(local, local, 0)));
    assert!(!TcpPortManager::can_read(&udp(local, local, b"0123456789")));
}

#[test]
fn an_error_leaves_the_table_as_it_is() {
    let mut n = udp_natter(FullCone::new(vec![19900]));
    let local = (ip(10, 0, 0, 2), 5000);
    let remote = (ip(8, 8, 8, 8), 53);
    let out = n.transform(udp(local, remote, b"query"), false, 1000).unwrap();
    n.table.take_log();
    let shown = n.table.status();
    let stray = udp((global(), 19901), remote, b"query");
    assert!(n.transform_icmp(icmp_error(3, ip(6, 6, 6, 6), global(), &stray[..28])).is_none());
    assert!(n.transform_icmp(icmp_error(3, ip(6, 6, 6, 6), global(), &out[..28])).is_some());
    assert!(n.table.take_log().is_empty());
    let after = n.table.status();
    assert_eq!(after.len(), shown.len());
    assert_eq!(after[0].expires, shown[0].expires);
    assert_eq!(after[0].global_port, shown[0].global_port);
}
