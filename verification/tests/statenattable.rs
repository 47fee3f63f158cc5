use rustnat::keygen::{FullCone, QuasiPortRestrictedCone, QuasiRestrictedCone};
use rustnat::statenattable::TcpStateHashNATTable;
use rustnat::tcpstate::{ACK, FIN, RST, SYN};
use rustnat::util::{LogRecord, PacketInfo};

fn ip(a: u8, b: u8, c: u8, d: u8) -> u32 {
    u32::from_be_bytes([a, b, c, d])
}

fn pkt(src: (u32, u16), dst: (u32, u16), size: u16) -> PacketInfo {
    PacketInfo { src_tuple: src, dst_tuple: dst, size }
}

fn global() -> u32 {
    ip(192, 168, 0, 135)
}

#[test]
fn tcp_dual_timeout() {
    let mut t = TcpStateHashNATTable::new(
        String::from("tcp"),
        100,
        10,
        QuasiRestrictedCone::new(vec![19900, 19901]),
    );
    let local = (ip(10, 0, 0, 2), 5000);
    let remote = (ip(8, 8, 8, 8), 80);
    let port = t.my_transform_egress(pkt(local, remote, 60), SYN, 1000).unwrap();
    assert_eq!(
        t.my_transform_ingress(pkt(remote, (global(), port), 60), SYN | ACK, 1000),
        Some(local)
    );
    assert_eq!(t.my_transform_egress(pkt(local, remote, 52), ACK, 1000), Some(port));
    assert_eq!(t.len(), 1);
    assert_eq!(t.conn_len(), 1);
    t.take_log();
    // twenty seconds later another local endpoint makes the table collect:
    // the established connection has outlived the short timeout
    let other = (ip(10, 0, 0, 3), 6000);
    t.my_transform_egress(pkt(other, (ip(9, 9, 9, 1), 80), 60), SYN, 1020).unwrap();
    assert_eq!(t.len(), 2);
    assert_eq!(t.conn_len(), 2);
    assert!(t.take_log().iter().all(|r| !matches!(r, LogRecord::Removing { .. })));
    assert_eq!(t.my_transform_icmp_error(port, remote.0, remote.1), Some(local));
    // the connection is closed from both sides
    assert_eq!(t.my_transform_egress(pkt(local, remote, 52), FIN | ACK, 1020), Some(port));
    assert_eq!(
        t.my_transform_ingress(pkt(remote, (global(), port), 52), FIN | ACK, 1020),
        Some(local)
    );
    t.take_log();
    // ten seconds later the record is still good, one second more and it has expired
    let third = (ip(10, 0, 0, 4), 7000);
    t.my_transform_egress(pkt(third, (ip(9, 9, 9, 2), 80), 60), SYN, 1030).unwrap();
    assert_eq!(t.my_transform_icmp_error(port, remote.0, remote.1), Some(local));
    let fourth = (ip(10, 0, 0, 5), 8000);
    t.my_transform_egress(pkt(fourth, (ip(9, 9, 9, 3), 80), 60), SYN, 1031).unwrap();
    assert_eq!(t.my_transform_icmp_error(port, remote.0, remote.1), None);
    let records = t.take_log();
    assert!(records.iter().any(|r| matches!(r,
        LogRecord::Removing { time: 1031, global_port, local_tuple, .. }
            if *global_port == port && *local_tuple == local)));
}

#[test]
fn an_entry_lives_as_long_as_one_of_its_connections() {
    let mut t =
        TcpStateHashNATTable::new(String::from("tcp"), 100, 10, FullCone::new((19900..20000).collect()));
    let local = (ip(10, 0, 0, 2), 5000);
    let a = (ip(8, 8, 8, 8), 80);
    let b = (ip(9, 9, 9, 9), 80);
    let port = t.my_transform_egress(pkt(local, a, 60), SYN, 1000).unwrap();
    // full cone: the second remote endpoint shares the entry, as a second connection
    assert_eq!(t.my_transform_egress(pkt(local, b, 60), SYN, 1005), Some(port));
    assert_eq!(t.len(), 1);
    assert_eq!(t.conn_len(), 2);
    t.take_log();
    // at 1012 the first connection has expired, the second has not
    let other = (ip(10, 0, 0, 3), 6000);
    let other_port = t.my_transform_egress(pkt(other, a, 60), SYN, 1012).unwrap();
    assert_ne!(other_port, port);
    assert_eq!(t.len(), 2);
    assert_eq!(t.conn_len(), 2);
    assert!(t.take_log().iter().all(|r| !matches!(r, LogRecord::Removing { .. })));
    assert_eq!(t.my_transform_icmp_error(port, 0, 0), Some(local));
    // at 1016 the second has expired too, and the entry goes with it
    let third = (ip(10, 0, 0, 4), 7000);
    t.my_transform_egress(pkt(third, a, 60), SYN, 1016).unwrap();
    let records = t.take_log();
    assert_eq!(records.iter().filter(|r| matches!(r, LogRecord::Removing { .. })).count(), 1);
    assert!(matches!(records[0],
        LogRecord::Removing { time: 1016, global_port, local_tuple, .. }
            if global_port == port && local_tuple == local));
    assert_eq!(t.conn_len(), 2);
    assert_eq!(t.len(), 2);
}

#[test]
fn incoming_segments_renew_nothing() {
    let mut t = TcpStateHashNATTable::new(
        String::from("tcp"),
        100,
        10,
        QuasiPortRestrictedCone::new(vec![19900, 19901]),
    );
    let local = (ip(10, 0, 0, 2), 5000);
    let remote = (ip(8, 8, 8, 8), 80);
    let port = t.my_transform_egress(pkt(local, remote, 60), SYN, 1000).unwrap();
    for now in 1001..1010 {
        assert_eq!(
            t.my_transform_ingress(pkt(remote, (global(), port), 60), ACK, now),
            Some(local)
        );
    }
    let other = (ip(10, 0, 0, 3), 6000);
    t.my_transform_egress(pkt(other, (ip(9, 9, 9, 9), 80), 60), SYN, 1011).unwrap();
    assert_eq!(t.my_transform_icmp_error(port, remote.0, remote.1), None);
    assert_eq!(t.my_transform_ingress(pkt(remote, (global(), port), 60), ACK, 1011), None);
    let records = t.take_log();
    assert!(matches!(records[records.len() - 1],
        LogRecord::IngressNotFound { time: 1011, global_port, remote_tuple }
            if global_port == port && remote_tuple == remote));
}

#[test]
fn a_reset_puts_an_established_connection_back_on_the_short_timeout() {
    let mut t = TcpStateHashNATTable::new(
        String::from("tcp"),
        100,
        10,
        QuasiRestrictedCone::new(vec![19900, 19901, 19902]),
    );
    let local = (ip(10, 0, 0, 2), 5000);
    let remote = (ip(8, 8, 8, 8), 80);
    let port = t.my_transform_egress(pkt(local, remote, 60), SYN, 1000).unwrap();
    t.my_transform_ingress(pkt(remote, (global(), port), 60), SYN | ACK, 1000);
    t.my_transform_egress(pkt(local, remote, 52), ACK, 1000);
    t.my_transform_egress(pkt(local, remote, 52), RST, 1050);
    let other = (ip(10, 0, 0, 3), 6000);
    t.my_transform_egress(pkt(other, (ip(9, 9, 9, 1), 80), 60), SYN, 1060).unwrap();
    assert_eq!(t.my_transform_icmp_error(port, remote.0, remote.1), Some(local));
    let third = (ip(10, 0, 0, 4), 7000);
    t.my_transform_egress(pkt(third, (ip(9, 9, 9, 2), 80), 60), SYN, 1061).unwrap();
    assert_eq!(t.my_transform_icmp_error(port, remote.0, remote.1), None);
}

#[test]
fn an_expired_record_starts_anew() {
    let mut t = TcpStateHashNATTable::new(
        String::from("tcp"),
        100,
        10,
        QuasiRestrictedCone::new(vec![19900]),
    );
    let local = (ip(10, 0, 0, 2), 5000);
    let remote = (ip(8, 8, 8, 8), 80);
    let port = t.my_transform_egress(pkt(local, remote, 60), SYN, 1000).unwrap();
    t.my_transform_ingress(pkt(remote, (global(), port), 60), SYN | ACK, 1000);
    t.my_transform_egress(pkt(local, remote, 52), ACK, 1000);
    // long after the long timeout a plain ACK arrives: the old connection is gone,
    // and an ACK alone opens nothing that lasts
    assert_eq!(t.my_transform_egress(pkt(local, remote, 52), ACK, 2000), Some(port));
    let other = (ip(10, 0, 0, 3), 6000);
    assert_eq!(t.my_transform_egress(pkt(other, (ip(9, 9, 9, 9), 80), 60), SYN, 2011), Some(port));
    assert_eq!(t.my_transform_icmp_error(port, remote.0, remote.1), None);
    assert_eq!(t.my_transform_icmp_error(port, ip(9, 9, 9, 9), 80), Some(other));
}

#[test]
fn tcp_port_exhaustion_drops_and_reports() {
    let mut t = TcpStateHashNATTable::new(
        String::from("tcp"),
        100,
        10,
        QuasiPortRestrictedCone::new(vec![19900]),
    );
    let remote = (ip(8, 8, 8, 8), 80);
    assert_eq!(t.my_transform_egress(pkt((ip(10, 0, 0, 2), 5000), remote, 60), SYN, 1000), Some(19900));
    t.take_log();
    assert_eq!(t.my_transform_egress(pkt((ip(10, 0, 0, 3), 5000), remote, 60), SYN, 1000), None);
    let records = t.take_log();
    assert_eq!(records.len(), 1);
    assert!(matches!(records[0], LogRecord::NoEmptyPort { time: 1000, .. }));
}

/// The connections in the order of the list, each with its entry's external port.
fn order(t: &TcpStateHashNATTable<rustnat::keygen::MyUnit, FullCone>) -> Vec<((u32, u16), u64)> {
    // the table shows its connections entry by entry; with one entry that is the list
    let shown = t.status();
    assert!(shown.len() <= 1);
    shown.iter().flat_map(|e| e.conns.iter().map(|c| (c.remote_tuple, c.will_expire))).collect()
}

#[test]
fn established_connections_stand_behind_the_pivot() {
    let mut t =
        TcpStateHashNATTable::new(String::from("tcp"), 100, 10, FullCone::new(vec![19900]));
    let local = (ip(10, 0, 0, 2), 5000);
    let a = (ip(8, 8, 8, 1), 80);
    let b = (ip(8, 8, 8, 2), 80);
    let c = (ip(8, 8, 8, 3), 80);
    let port = t.my_transform_egress(pkt(local, a, 60), SYN, 1000).unwrap();
    t.my_transform_egress(pkt(local, b, 60), SYN, 1001).unwrap();
    assert_eq!(order(&t), vec![(a, 1010), (b, 1011)]);
    // a is established: it goes to the end and lives long
    t.my_transform_ingress(pkt(a, (global(), port), 60), SYN | ACK, 1002).unwrap();
    assert_eq!(order(&t), vec![(a, 1010), (b, 1011)]);
    t.my_transform_egress(pkt(local, a, 60), ACK, 1002).unwrap();
    assert_eq!(order(&t), vec![(b, 1011), (a, 1102)]);
    // a new connection is filed before the established one
    t.my_transform_egress(pkt(local, c, 60), SYN, 1003).unwrap();
    assert_eq!(order(&t), vec![(b, 1011), (c, 1013), (a, 1102)]);
    // b is renewed: it goes behind c, and still before a
    t.my_transform_egress(pkt(local, b, 60), ACK, 1004).unwrap();
    assert_eq!(order(&t), vec![(c, 1013), (b, 1014), (a, 1102)]);
    // an incoming segment moves nothing and renews nothing
    t.my_transform_ingress(pkt(c, (global(), port), 60), SYN | ACK, 1005).unwrap();
    assert_eq!(order(&t), vec![(c, 1013), (b, 1014), (a, 1102)]);
    // c is established now, and its own next segment sends it to the end
    t.my_transform_egress(pkt(local, c, 60), ACK, 1006).unwrap();
    assert_eq!(order(&t), vec![(b, 1014), (a, 1102), (c, 1106)]);
    // shortly before a expires it stands before the pivot with the rest
    t.my_transform_egress(pkt(local, b, 60), ACK, 1095).unwrap();
    assert_eq!(order(&t), vec![(a, 1102), (b, 1105), (c, 1106)]);
    assert_eq!(t.len(), 1);
    assert_eq!(t.status()[0].connections, 3);
}

#[test]
fn an_entry_counts_its_connections() {
    let mut t =
        TcpStateHashNATTable::new(String::from("tcp"), 100, 10, FullCone::new(vec![19900]));
    let local = (ip(10, 0, 0, 2), 5000);
    let port = t.my_transform_egress(pkt(local, (ip(8, 8, 8, 1), 80), 60), SYN, 1000).unwrap();
    assert_eq!(t.status()[0].connections, 1);
    // full cone: anyone may open a connection from outside
    t.my_transform_ingress(pkt((ip(9, 9, 9, 9), 7), (global(), port), 60), SYN, 1001).unwrap();
    t.my_transform_ingress(pkt((ip(9, 9, 9, 9), 8), (global(), port), 60), SYN, 1002).unwrap();
    t.my_transform_ingress(pkt((ip(9, 9, 9, 9), 8), (global(), port), 60), ACK, 1003).unwrap();
    assert_eq!(t.status()[0].connections, 3);
    assert_eq!(t.conn_len(), 3);
    let shown = t.status();
    assert_eq!(shown[0].conns.len(), 3);
    // a miss from another local endpoint collects: at 1012 two records have expired;
    // the pool has one port, and it is still held
    assert_eq!(t.my_transform_egress(pkt((ip(10, 0, 0, 3), 1), (1, 1), 60), SYN, 1012), None);
    assert_eq!(t.conn_len(), 1);
    assert_eq!(t.status()[0].connections, 1);
    assert_eq!(t.len(), 1);
    assert_eq!(t.my_transform_egress(pkt((ip(10, 0, 0, 3), 1), (1, 1), 60), SYN, 1013), Some(port));
    assert_eq!(t.len(), 1);
    assert_eq!(t.status()[0].local_tuple, (ip(10, 0, 0, 3), 1));
}
