use rustnat::keygen::{
    AddressDependent, AddressPortDependent, FullCone, MyAddr, MyAddrPort, MyUnit,
    QuasiPortRestrictedCone, QuasiRestrictedCone, QuasiSymmetric,
};
use rustnat::nattable::HashNATTable;
use rustnat::util::{LogRecord, PacketInfo};

fn ip(a: u8, b: u8, c: u8, d: u8) -> u32 {
    u32::from_be_bytes([a, b, c, d])
}

fn pkt(src: (u32, u16), dst: (u32, u16), size: u16) -> PacketInfo {
    PacketInfo { src_tuple: src, dst_tuple: dst, size }
}

const GLOBAL: (u8, u8, u8, u8) = (192, 168, 0, 135);

fn global() -> u32 {
    ip(GLOBAL.0, GLOBAL.1, GLOBAL.2, GLOBAL.3)
}

fn cycle3(p: u16) -> u16 {
    19900 + ((p.wrapping_sub(19900).wrapping_add(1)) % 3)
}

#[test]
fn udp_full_cone_accepts_any_remote() {
    let mut t = HashNATTable::new(String::from("udp"), 150, FullCone::new(vec![19900]));
    let out = t.my_transform_egress(pkt((ip(10, 0, 0, 2), 5000), (ip(8, 8, 8, 8), 53), 60), 1000);
    assert_eq!(out, Some(19900));
    let back = t.my_transform_ingress(pkt((ip(9, 9, 9, 9), 53), (global(), 19900), 80), 1001);
    assert_eq!(back, Some((ip(10, 0, 0, 2), 5000)));
    let back = t.my_transform_ingress(pkt((ip(8, 8, 8, 8), 53), (global(), 19900), 80), 1001);
    assert_eq!(back, Some((ip(10, 0, 0, 2), 5000)));
    let records = t.take_log();
    assert_eq!(records.len(), 1);
    assert!(matches!(
        records[0],
        LogRecord::Inserting { time: 1000, global_port: 19900, nat_key: MyUnit(), .. }
    ));
}

#[test]
fn quasi_restricted_cone_rejects_wrong_remote_address() {
    let mut t = HashNATTable::new(String::from("udp"), 150, QuasiRestrictedCone::new(vec![19900]));
    let out = t.my_transform_egress(pkt((ip(10, 0, 0, 2), 5000), (ip(8, 8, 8, 8), 53), 60), 1000);
    assert_eq!(out, Some(19900));
    t.take_log();
    let back = t.my_transform_ingress(pkt((ip(9, 9, 9, 9), 53), (global(), 19900), 80), 1001);
    assert_eq!(back, None);
    let records = t.take_log();
    assert_eq!(records.len(), 1);
    match &records[0] {
        LogRecord::IngressNotFound { time, global_port, remote_tuple } => {
            assert_eq!(*time, 1001);
            assert_eq!(*global_port, 19900);
            assert_eq!(*remote_tuple, (ip(9, 9, 9, 9), 53));
        },
        _ => panic!("expected an ingress_not_found record"),
    }
    let back = t.my_transform_ingress(pkt((ip(8, 8, 8, 8), 53), (global(), 19900), 80), 1001);
    assert_eq!(back, Some((ip(10, 0, 0, 2), 5000)));
    let back = t.my_transform_ingress(pkt((ip(8, 8, 8, 8), 999), (global(), 19900), 80), 1001);
    assert_eq!(back, Some((ip(10, 0, 0, 2), 5000)));
    assert!(t.take_log().is_empty());
}

#[test]
fn quasi_port_restricted_cone_checks_address_and_port() {
    let mut t =
        HashNATTable::new(String::from("udp"), 150, QuasiPortRestrictedCone::new(vec![19900]));
    let out = t.my_transform_egress(pkt((ip(10, 0, 0, 2), 5000), (ip(8, 8, 8, 8), 53), 60), 1000);
    assert_eq!(out, Some(19900));
    assert_eq!(
        t.my_transform_ingress(pkt((ip(8, 8, 8, 8), 53), (global(), 19900), 80), 1001),
        Some((ip(10, 0, 0, 2), 5000))
    );
    assert_eq!(t.my_transform_ingress(pkt((ip(8, 8, 8, 8), 54), (global(), 19900), 80), 1001), None);
    assert_eq!(t.my_transform_ingress(pkt((ip(9, 9, 9, 9), 53), (global(), 19900), 80), 1001), None);
    assert_eq!(t.my_transform_ingress(pkt((ip(8, 8, 8, 8), 53), (global(), 19901), 80), 1001), None);
}

#[test]
fn address_port_dependent_never_reuses_a_port_for_one_local_endpoint() {
    let mut t = HashNATTable::new(
        String::from("udp"),
        150,
        AddressPortDependent::new(vec![19900, 19901, 19902], cycle3),
    );
    let local = (ip(10, 0, 0, 2), 5000);
    let first = t.my_transform_egress(pkt(local, (ip(8, 8, 8, 8), 53), 60), 1000).unwrap();
    let second = t.my_transform_egress(pkt(local, (ip(8, 8, 8, 8), 54), 60), 1000).unwrap();
    assert!((19900..=19902).contains(&first));
    assert_ne!(first, second);
    assert_eq!(second, cycle3(first));
    let third = t.my_transform_egress(pkt(local, (ip(8, 8, 8, 8), 55), 60), 1000).unwrap();
    assert_eq!(third, cycle3(second));
    assert!(third != first && third != second);
    // every port of the pool is now in use by this local endpoint
    assert_eq!(t.my_transform_egress(pkt(local, (ip(8, 8, 8, 8), 56), 60), 1000), None);
    assert_eq!(t.len(), 3);
}

#[test]
fn address_dependent_keys_by_remote_address_only() {
    let mut t = HashNATTable::new(
        String::from("udp"),
        150,
        AddressDependent::new(vec![19900, 19901, 19902], cycle3),
    );
    let local = (ip(10, 0, 0, 2), 5000);
    let first = t.my_transform_egress(pkt(local, (ip(8, 8, 8, 8), 53), 60), 1000).unwrap();
    // another port of the same remote address: the same translation
    let again = t.my_transform_egress(pkt(local, (ip(8, 8, 8, 8), 54), 60), 1000).unwrap();
    assert_eq!(first, again);
    assert_eq!(t.len(), 1);
    let other = t.my_transform_egress(pkt(local, (ip(9, 9, 9, 9), 53), 60), 1000).unwrap();
    assert_eq!(other, cycle3(first));
    assert_eq!(t.len(), 2);
    assert_eq!(
        t.my_transform_ingress(pkt((ip(9, 9, 9, 9), 4444), (global(), other), 80), 1001),
        Some(local)
    );
    assert_eq!(t.my_transform_ingress(pkt((ip(8, 8, 8, 8), 53), (global(), other), 80), 1001), None);
}

#[test]
fn port_exhaustion_drops_and_reports() {
    let mut t =
        HashNATTable::new(String::from("udp"), 150, QuasiPortRestrictedCone::new(vec![19900]));
    let remote = (ip(8, 8, 8, 8), 53);
    assert_eq!(t.my_transform_egress(pkt((ip(10, 0, 0, 2), 5000), remote, 60), 1000), Some(19900));
    t.take_log();
    assert_eq!(t.my_transform_egress(pkt((ip(10, 0, 0, 3), 5000), remote, 60), 1000), None);
    let records = t.take_log();
    assert_eq!(records.len(), 1);
    match &records[0] {
        LogRecord::NoEmptyPort { time, local_tuple, nat_key } => {
            assert_eq!(*time, 1000);
            assert_eq!(*local_tuple, (ip(10, 0, 0, 3), 5000));
            assert!(*nat_key == MyAddrPort(ip(8, 8, 8, 8), 53));
        },
        _ => panic!("expected a no_empty_port record"),
    }
    assert_eq!(t.len(), 1);
}

#[test]
fn the_same_port_serves_different_filter_keys() {
    let mut t = HashNATTable::new(String::from("udp"), 150, QuasiSymmetric::new(vec![19900]));
    let a = (ip(10, 0, 0, 2), 5000);
    let b = (ip(10, 0, 0, 3), 6000);
    assert_eq!(t.my_transform_egress(pkt(a, (ip(8, 8, 8, 8), 53), 60), 1000), Some(19900));
    assert_eq!(t.my_transform_egress(pkt(b, (ip(9, 9, 9, 9), 53), 60), 1000), Some(19900));
    assert_eq!(
        t.my_transform_ingress(pkt((ip(8, 8, 8, 8), 53), (global(), 19900), 1), 1000),
        Some(a)
    );
    assert_eq!(
        t.my_transform_ingress(pkt((ip(9, 9, 9, 9), 53), (global(), 19900), 1), 1000),
        Some(b)
    );
}

#[test]
fn the_hinted_port_is_taken_when_free() {
    let mut t = HashNATTable::new(
        String::from("udp"),
        150,
        QuasiRestrictedCone::new((19900..20000).collect()),
    );
    let local = (ip(10, 0, 0, 2), 5000);
    let first = t.my_transform_egress(pkt(local, (ip(8, 8, 8, 8), 53), 60), 1000).unwrap();
    // one local endpoint, another remote address: the port last assigned is free there
    for last in 1..=20u8 {
        let port = t.my_transform_egress(pkt(local, (ip(9, 9, 9, last), 53), 60), 1000);
        assert_eq!(port, Some(first));
    }
    assert_eq!(t.len(), 21);
}

#[test]
fn idle_entries_are_collected_on_the_next_miss() {
    let mut t =
        HashNATTable::new(String::from("udp"), 150, QuasiSymmetric::new((19900..20000).collect()));
    let remote = (ip(8, 8, 8, 8), 53);
    let a = (ip(10, 0, 0, 1), 1);
    let b = (ip(10, 0, 0, 2), 2);
    let c = (ip(10, 0, 0, 3), 3);
    let pa = t.my_transform_egress(pkt(a, remote, 10), 1000).unwrap();
    let pb = t.my_transform_egress(pkt(b, remote, 10), 1010).unwrap();
    let pc = t.my_transform_egress(pkt(c, remote, 10), 1020).unwrap();
    assert!(pa != pb && pb != pc && pa != pc);
    // b is used again, and counts a packet from outside
    assert_eq!(t.my_transform_egress(pkt(b, remote, 10), 1100), Some(pb));
    assert_eq!(t.my_transform_ingress(pkt(remote, (global(), pb), 7), 1100), Some(b));
    t.take_log();
    // a hit collects nothing, however late
    assert_eq!(t.my_transform_egress(pkt(b, remote, 10), 1171), Some(pb));
    assert_eq!(t.len(), 3);
    // at 1171 an entry unused since before 1021 has expired: a and c
    let d = (ip(10, 0, 0, 4), 4);
    let pd = t.my_transform_egress(pkt(d, remote, 10), 1171).unwrap();
    assert_eq!(t.len(), 2);
    let records = t.take_log();
    assert_eq!(records.len(), 3);
    assert!(matches!(records[0], LogRecord::Removing { time: 1171, global_port, local_tuple, .. }
        if global_port == pa && local_tuple == a));
    assert!(matches!(records[1], LogRecord::Removing { time: 1171, global_port, local_tuple, .. }
        if global_port == pc && local_tuple == c));
    assert!(matches!(records[2], LogRecord::Inserting { time: 1171, global_port, local_tuple, .. }
        if global_port == pd && local_tuple == d));
    // neither index finds the collected entries
    assert_eq!(t.my_transform_ingress(pkt(remote, (global(), pc), 7), 1171).is_some(), pd == pc);
    assert_eq!(t.my_transform_icmp_error(pb, remote.0, remote.1), Some(b));
    assert_eq!(t.my_transform_icmp_error(pd, remote.0, remote.1), Some(d));
}

#[test]
fn an_entry_exactly_at_the_timeout_survives() {
    let mut t =
        HashNATTable::new(String::from("udp"), 150, QuasiSymmetric::new((19900..20000).collect()));
    let remote = (ip(8, 8, 8, 8), 53);
    let a = (ip(10, 0, 0, 1), 1);
    let b = (ip(10, 0, 0, 2), 2);
    t.my_transform_egress(pkt(a, remote, 10), 1000).unwrap();
    t.my_transform_egress(pkt(b, remote, 10), 1150).unwrap();
    assert_eq!(t.len(), 2);
    t.take_log();
    let mut t2 = HashNATTable::new(String::from("udp"), 150, QuasiSymmetric::new(vec![19900]));
    t2.my_transform_egress(pkt(a, remote, 10), 1000).unwrap();
    // 1000 + 150 is not before 1150: the entry stays, and the pool is exhausted
    assert_eq!(t2.my_transform_egress(pkt(b, remote, 10), 1150), None);
    assert_eq!(t2.len(), 1);
    // one second later it has expired, and its port is free again
    assert_eq!(t2.my_transform_egress(pkt(b, remote, 10), 1151), Some(19900));
    assert_eq!(t2.len(), 1);
}

#[test]
fn a_clock_behind_the_timeout_collects_nothing() {
    let mut t =
        HashNATTable::new(String::from("udp"), 150, QuasiSymmetric::new((19900..20000).collect()));
    let remote = (ip(8, 8, 8, 8), 53);
    t.my_transform_egress(pkt((ip(10, 0, 0, 1), 1), remote, 10), 0).unwrap();
    t.my_transform_egress(pkt((ip(10, 0, 0, 2), 2), remote, 10), 100).unwrap();
    assert_eq!(t.len(), 2);
}

#[test]
fn icmp_error_lookup_counts_nothing_and_finds_the_entry() {
    let mut t = HashNATTable::new(String::from("udp"), 150, QuasiRestrictedCone::new(vec![19900]));
    let local = (ip(10, 0, 0, 2), 5000);
    t.my_transform_egress(pkt(local, (ip(8, 8, 8, 8), 53), 60), 1000).unwrap();
    assert_eq!(t.my_transform_icmp_error(19900, ip(8, 8, 8, 8), 53), Some(local));
    assert_eq!(t.my_transform_icmp_error(19900, ip(8, 8, 8, 8), 1), Some(local));
    assert_eq!(t.my_transform_icmp_error(19900, ip(9, 9, 9, 9), 53), None);
    assert_eq!(t.my_transform_icmp_error(19901, ip(8, 8, 8, 8), 53), None);
    assert!(MyAddr(1) == MyAddr(1));
}

#[test]
fn the_entries_stand_in_the_order_of_their_last_use() {
    let mut t = HashNATTable::new(
        String::from("udp"),
        150,
        QuasiRestrictedCone::new((19900..20000).collect()),
    );
    let a = (ip(10, 0, 0, 1), 1);
    let b = (ip(10, 0, 0, 2), 2);
    let c = (ip(10, 0, 0, 3), 3);
    let remote = (ip(8, 8, 8, 8), 53);
    let locals = |t: &HashNATTable<MyAddr, QuasiRestrictedCone>| -> Vec<(u32, u16)> {
        t.status().iter().map(|l| l.local_tuple).collect()
    };
    let pa = t.my_transform_egress(pkt(a, remote, 1), 1000).unwrap();
    t.my_transform_egress(pkt(b, remote, 1), 1001).unwrap();
    t.my_transform_egress(pkt(c, remote, 1), 1002).unwrap();
    assert_eq!(locals(&t), vec![a, b, c]);
    // an outgoing packet makes its entry the most recently used
    t.my_transform_egress(pkt(a, remote, 1), 1003).unwrap();
    assert_eq!(locals(&t), vec![b, c, a]);
    t.my_transform_egress(pkt(a, remote, 1), 1004).unwrap();
    assert_eq!(locals(&t), vec![b, c, a]);
    // an incoming packet does not
    assert_eq!(t.my_transform_ingress(pkt(remote, (global(), pa), 1), 1005), Some(a));
    assert_eq!(t.my_transform_icmp_error(pa, remote.0, remote.1), Some(a));
    assert_eq!(locals(&t), vec![b, c, a]);
    let expires: Vec<u64> = t.status().iter().map(|l| l.expires).collect();
    assert_eq!(expires, vec![1151, 1152, 1154]);
}

#[test]
fn the_first_packet_of_a_new_flow_gets_a_port_of_a_free_pool() {
    for _ in 0..100 {
        let mut t =
            HashNATTable::new(String::from("udp"), 150, QuasiPortRestrictedCone::new(vec![19900]));
        let p = pkt((ip(10, 0, 0, 2), 5000), (ip(8, 8, 8, 8), 53), 100);
        assert_eq!(t.my_transform_egress(p, 1000), Some(19900));
        let mut f = HashNATTable::new(String::from("udp"), 150, FullCone::new(vec![7, 8, 9]));
        assert!(matches!(f.my_transform_egress(p, 1000), Some(7..=9)));
    }
}

#[test]
fn the_successor_is_asked_only_of_ports_that_were_assigned() {
    let mut t = HashNATTable::new(
        String::from("udp"),
        150,
        AddressPortDependent::new((19900..20000).collect(), rustnat::util::port_range::get_next_port),
    );
    let local = (ip(10, 0, 0, 2), 5000);
    let mut last = t.my_transform_egress(pkt(local, (ip(8, 8, 8, 8), 1), 60), 1000).unwrap();
    for port in 2..=99u16 {
        let next = t.my_transform_egress(pkt(local, (ip(8, 8, 8, 8), port), 60), 1000).unwrap();
        assert_eq!(next, (last - 19900 + 1) % 100 + 19900);
        last = next;
    }
    assert_eq!(t.len(), 99);
    t.gc(1149);
    assert_eq!(t.len(), 99);
    t.gc(1151);
    assert_eq!(t.len(), 0);
    assert_eq!(t.take_log().len(), 99 + 99);
}
