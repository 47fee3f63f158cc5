use rustnat::arena::{Arena, CAPACITY, NULL};
use rustnat::keygen::{
    encode_tuple, encode_used, port_at, try_port, FilterKey, FullCone, KeyGen, MyAddr, MyAddrPort,
    MyUnit, QuasiRestrictedCone, QuasiSymmetric, LI, RI,
};
use rustnat::nattable::HashNATTable;
use rustnat::tcpstate::TcpState::{
    Closed, Established, Fin1Local, Fin1Remote, Fin2Local, Fin2Remote, SynBoth, SynLocal,
    SynRemote,
};
use rustnat::statenattable::TcpStateHashNATTable;
use rustnat::tcpstate::{TcpState, TcpStateMachine, ACK, FIN, RST, SYN};
use rustnat::util::port_range::{gen, gen_ocn_vc, gen_v6plus};
use rustnat::util::{count_egress, count_ingress, NatEntry, PacketInfo};
use std::collections::HashMap;

#[test]
fn arena_hands_out_fresh_handles() {
    let mut a = Arena::new();
    let h1 = a.insert("one");
    let h2 = a.insert("two");
    assert!(h1 != NULL && h2 != NULL && h1 != h2);
    assert_eq!(a.len(), 2);
    assert_eq!(a.get(h1), Some(&"one"));
    assert_eq!(a.remove(h1), Some("one"));
    assert_eq!(a.remove(h1), None);
    assert_eq!(a.get(h1), None);
    let h3 = a.insert("three");
    assert!(h3 != h1 && h3 != h2);
    assert_eq!(a.get(h1), None);
    if let Some(v) = a.get_mut(h2) {
        *v = "zwei";
    }
    assert_eq!(a.get(h2), Some(&"zwei"));
    assert!(a.get_mut(NULL).is_none());
    assert_eq!(a.remove(NULL), None);
    assert_eq!(a.len(), 2);
    assert_eq!(CAPACITY, 0xffff_fffe);
}

#[test]
fn port_pools() {
    assert_eq!(gen(10, 2, 100, 3, 4), vec![103, 104, 105, 113, 114, 115]);
    assert_eq!(gen(10, 0, 100, 3, 4), Vec::<u16>::new());
    assert_eq!(gen(10, 2, 100, 3, 1), Vec::<u16>::new());
    assert_eq!(gen(10, 2, 100, 3, 0), Vec::<u16>::new());
    assert_eq!(gen(1, 3, 7, 0, 2), vec![7, 8, 9]);
    let v = gen_v6plus(1);
    assert_eq!(v.len(), 15 * 15);
    assert_eq!(&v[..3], &[4112, 4113, 4114]);
    assert_eq!(v[15], 8208);
    assert_eq!(*gen_v6plus(255).last().unwrap(), 65534);
    let o = gen_ocn_vc(63);
    assert_eq!(o.len(), 63 * 15);
    assert_eq!(o[0], 2032);
    assert_eq!(*o.last().unwrap(), 65534);
    assert_eq!(gen_ocn_vc(0)[0], 1024);
}

#[test]
fn codes_tell_names_apart() {
    assert_eq!(MyUnit().encode(), 0);
    assert_eq!(MyAddr(7).encode(), 7);
    assert_eq!(MyAddrPort::from_t((1, 2)).encode(), 0x1_0002);
    assert_eq!(encode_tuple((0xffff_ffff, 0xffff)), 0xffff_ffff_ffff);
    assert_eq!(encode_used((1, 2), 3), 0x1_0002_0003);
    let a = RI { global_port: 1, nat_key: MyAddrPort(0, 0) }.encode();
    let b = RI { global_port: 0, nat_key: MyAddrPort(0xffff_ffff, 0xffff) }.encode();
    assert_eq!(a, 1 << 48);
    assert_eq!(b, (1 << 48) - 1);
    let c = LI { local_tuple: (1, 0), lk: MyAddr(5) }.encode();
    let d = LI { local_tuple: (0, 1), lk: MyAddr(5) }.encode();
    assert_eq!(c, (0x1_0000u128 << 48) + 5);
    assert_eq!(d, (1u128 << 48) + 5);
    assert_eq!(
        LI { local_tuple: (0xffff_ffff, 0xffff), lk: MyAddrPort(0xffff_ffff, 0xffff) }.encode(),
        (1u128 << 96) - 1
    );
}

#[test]
fn a_candidate_is_taken_if_it_is_free() {
    let mut used = HashMap::new();
    let mut remotes = HashMap::new();
    let key = MyAddr(9).encode();
    let local = (1, 2);
    assert!(try_port(&mut used, &remotes, key, local, false, 100));
    assert!(used.is_empty());
    assert!(try_port(&mut used, &remotes, key, local, true, 100));
    assert_eq!(used.len(), 1);
    assert!(used.contains_key(&encode_used(local, 100)));
    // under a strict policy the same pair is not free twice
    assert!(!try_port(&mut used, &remotes, key, local, true, 100));
    assert!(try_port(&mut used, &remotes, key, local, false, 100));
    assert!(try_port(&mut used, &remotes, key, (1, 3), true, 100));
    // a port held under the same filter key is not free
    remotes.insert(RI { global_port: 200, nat_key: MyAddr(9) }.encode(), 1u64);
    assert!(!try_port(&mut used, &remotes, key, local, false, 200));
    assert!(!try_port(&mut used, &remotes, key, local, true, 200));
    assert!(try_port(&mut used, &remotes, MyAddr(8).encode(), local, false, 200));
    assert_eq!(used.len(), 2);
}

#[test]
fn a_drawn_number_selects_a_port_of_the_pool() {
    let pool = vec![10, 20, 30];
    assert_eq!(port_at(&pool, 0), 10);
    assert_eq!(port_at(&pool, 4), 20);
    assert_eq!(port_at(&pool, usize::MAX), pool[usize::MAX % 3]);
}

#[test]
fn counters_wrap_around() {
    let mut e = NatEntry::new(5, MyUnit(), (1, 2), 3);
    assert_eq!((e.create_at, e.last_egress, e.local_tuple, e.global_port), (5, 5, (1, 2), 3));
    assert_eq!((e.packets_sent, e.packets_received, e.bytes_sent, e.bytes_received), (0, 0, 0, 0));
    let p = PacketInfo { src_tuple: (1, 2), dst_tuple: (3, 4), size: 100 };
    assert_eq!(count_egress(p, &mut e), 3);
    assert_eq!(count_ingress(p, &mut e), (1, 2));
    assert_eq!((e.packets_sent, e.bytes_sent, e.packets_received, e.bytes_received), (1, 100, 1, 100));
    e.packets_sent = u32::MAX;
    e.bytes_sent = u32::MAX - 50;
    count_egress(p, &mut e);
    assert_eq!((e.packets_sent, e.bytes_sent), (0, 49));
    let d = PacketInfo::dummy();
    assert_eq!((d.src_tuple, d.dst_tuple, d.size), ((0, 0), (0, 0), 0));
}

#[test]
fn every_transition_of_the_tracker() {
    let step = |s: TcpState, flags: u8, ingress: bool| {
        let mut m = TcpStateMachine { state: s };
        let relevant = m.update(flags, ingress);
        (m.state, relevant)
    };
    assert_eq!(TcpStateMachine::new(SYN, false).state, SynLocal);
    assert_eq!(TcpStateMachine::new(SYN | ACK, true).state, SynRemote);
    assert_eq!(TcpStateMachine::new(ACK, true).state, Closed);
    assert_eq!(step(Closed, SYN, true), (SynRemote, true));
    assert_eq!(step(Closed, SYN, false), (SynLocal, true));
    assert_eq!(step(Closed, ACK, false), (Closed, false));
    assert_eq!(step(SynLocal, SYN | ACK, true), (Established, true));
    assert_eq!(step(SynLocal, SYN, true), (SynBoth, true));
    assert_eq!(step(SynLocal, SYN, false), (SynLocal, true));
    assert_eq!(step(SynLocal, ACK, true), (SynLocal, false));
    assert_eq!(step(SynRemote, SYN | ACK, false), (Established, true));
    assert_eq!(step(SynRemote, SYN, false), (SynBoth, true));
    assert_eq!(step(SynRemote, SYN | ACK, true), (SynRemote, true));
    assert_eq!(step(SynBoth, SYN | ACK, true), (Established, true));
    assert_eq!(step(SynBoth, SYN | ACK, false), (Established, true));
    assert_eq!(step(SynBoth, SYN, false), (SynBoth, false));
    assert_eq!(step(Established, FIN, false), (Fin1Local, true));
    assert_eq!(step(Established, FIN | ACK, true), (Fin1Remote, true));
    assert_eq!(step(Established, SYN, true), (Established, false));
    assert_eq!(step(Established, 0, true), (Established, false));
    assert_eq!(step(Established, ACK, true), (Established, true));
    assert_eq!(step(Fin1Local, FIN, true), (Fin2Local, true));
    assert_eq!(step(Fin1Local, FIN, false), (Fin1Local, true));
    assert_eq!(step(Fin1Local, ACK, true), (Fin1Local, false));
    assert_eq!(step(Fin1Remote, FIN, false), (Fin2Remote, true));
    assert_eq!(step(Fin1Remote, FIN, true), (Fin1Remote, true));
    assert_eq!(step(Fin2Local, ACK, false), (Closed, true));
    assert_eq!(step(Fin2Local, ACK, true), (Fin2Local, true));
    assert_eq!(step(Fin2Local, FIN, false), (Fin2Local, false));
    assert_eq!(step(Fin2Remote, ACK, true), (Closed, true));
    assert_eq!(step(Fin2Remote, ACK, false), (Fin2Remote, true));
    assert_eq!(step(Fin2Remote, RST, false), (Closed, true));
}

#[test]
fn the_tables_show_their_entries() {
    let pkt = |src, dst| PacketInfo { src_tuple: src, dst_tuple: dst, size: 10 };
    let mut t = HashNATTable::new(String::from("udp"), 150, QuasiRestrictedCone::new(vec![19900]));
    assert_eq!(t.name(), "udp");
    assert_eq!(t.idle_timeout(), 150);
    assert!(t.has_room());
    t.my_transform_egress(pkt((1, 1), (100, 5)), 1000).unwrap();
    t.my_transform_egress(pkt((2, 2), (200, 5)), 1010).unwrap();
    t.my_transform_egress(pkt((1, 1), (100, 6)), 1020).unwrap();
    let lines = t.status();
    assert_eq!(lines.len(), 2);
    assert_eq!((lines[0].expires, lines[0].global_port, lines[0].local_tuple), (1160, 19900, (2, 2)));
    assert!(lines[0].nat_key == MyAddr(200));
    assert_eq!((lines[1].expires, lines[1].global_port, lines[1].local_tuple), (1170, 19900, (1, 1)));

    let mut c =
        TcpStateHashNATTable::new(String::from("tcp"), 2000, 120, QuasiRestrictedCone::new(vec![7]));
    assert_eq!(c.name(), "tcp");
    assert!(c.has_room(1000));
    assert!(!c.has_room(u64::MAX - 100));
    c.my_transform_egress(pkt((1, 1), (100, 5)), SYN, 1000).unwrap();
    c.my_transform_egress(pkt((1, 1), (100, 6)), SYN, 1001).unwrap();
    c.my_transform_ingress(pkt((100, 5), (0, 7)), SYN | ACK, 1002).unwrap();
    c.my_transform_egress(pkt((1, 1), (100, 5)), ACK, 1003).unwrap();
    let shown = c.status();
    assert_eq!(shown.len(), 1);
    assert_eq!((shown[0].connections, shown[0].global_port, shown[0].local_tuple), (2, 7, (1, 1)));
    assert!(shown[0].nat_key == MyAddr(100));
    let conns = &shown[0].conns;
    assert_eq!(conns.len(), 2);
    assert_eq!(conns[0].remote_tuple, (100, 6));
    assert_eq!((conns[0].state, conns[0].will_expire), (TcpState::SynLocal, 1121));
    assert_eq!(conns[1].remote_tuple, (100, 5));
    assert_eq!((conns[1].state, conns[1].will_expire), (TcpState::Established, 3003));
}

#[test]
fn a_port_is_found_where_the_whole_pool_is_free() {
    let remotes: HashMap<u64, u64> = HashMap::new();
    for _ in 0..200 {
        let mut used = HashMap::new();
        let mut full = FullCone::new(vec![10, 20, 30]);
        let r = full.empty_port(&mut used, &remotes, (1, 2), (3, 4), None);
        assert!(matches!(r, Some(10) | Some(20) | Some(30)));
        let mut symmetric = QuasiSymmetric::new(vec![7]);
        assert_eq!(symmetric.empty_port(&mut used, &remotes, (1, 2), (3, 4), Some(9)), Some(7));
        assert!(used.is_empty());
    }
}
