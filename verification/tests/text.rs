use rustnat::keygen::{FilterKey, MyAddr, MyAddrPort, MyUnit};
use rustnat::statenattable::{ConnLine, EntryStatus};
use rustnat::tcpstate::TcpState;
use rustnat::text::{
    conn_text, decimal_text, dotted_text, endpoint_text, entry_text, header_text, log_text,
    parent_text, state_text, time_text,
};
use rustnat::util::{LogRecord, StatusLine};

fn ip(a: u8, b: u8, c: u8, d: u8) -> u32 {
    u32::from_be_bytes([a, b, c, d])
}

#[test]
fn numbers_in_decimal() {
    assert_eq!(decimal_text(0), "0");
    assert_eq!(decimal_text(9), "9");
    assert_eq!(decimal_text(10), "10");
    assert_eq!(decimal_text(19900), "19900");
    assert_eq!(decimal_text(1_000_000_007), "1000000007");
    assert_eq!(decimal_text(u64::MAX), "18446744073709551615");
}

#[test]
fn addresses_and_endpoints() {
    assert_eq!(dotted_text(0), "0.0.0.0");
    assert_eq!(dotted_text(ip(192, 168, 0, 135)), "192.168.0.135");
    assert_eq!(dotted_text(u32::MAX), "255.255.255.255");
    assert_eq!(endpoint_text((ip(10, 0, 0, 2), 5000)), "10.0.0.2:5000");
    assert_eq!(endpoint_text((ip(8, 8, 8, 8), 0)), "8.8.8.8:0");
}

#[test]
fn filter_keys_show_what_they_remember() {
    assert_eq!(MyAddrPort::from_t((ip(8, 8, 8, 8), 53)).to_text(), "8.8.8.8:53");
    assert_eq!(MyAddr(ip(8, 8, 8, 8)).to_text(), "8.8.8.8:*");
    assert_eq!(MyUnit().to_text(), "*:*");
}

#[test]
fn the_lines_of_the_log() {
    let local = (ip(10, 0, 0, 2), 5000);
    let inserting =
        LogRecord::Inserting { time: 1700000000, global_port: 19900, local_tuple: local, nat_key: MyUnit() };
    assert_eq!(log_text("udp", &inserting), "[udp]1700000000 inserting: via 19900: 10.0.0.2:5000 -> *:*\n");
    let removing = LogRecord::Removing {
        time: 1700000150,
        global_port: 19901,
        local_tuple: local,
        nat_key: MyAddr(ip(8, 8, 8, 8)),
    };
    assert_eq!(
        log_text("tcp", &removing),
        "[tcp]1700000150 removing: via 19901: 10.0.0.2:5000 -> 8.8.8.8:*\n"
    );
    let none = LogRecord::NoEmptyPort {
        time: 5,
        local_tuple: local,
        nat_key: MyAddrPort(ip(8, 8, 8, 8), 53),
    };
    assert_eq!(log_text("icmp-echo", &none), "[icmp-echo]5 no_empty_port: 10.0.0.2:5000 -> 8.8.8.8:53\n");
    let stray: LogRecord<MyUnit> = LogRecord::IngressNotFound {
        time: 6,
        global_port: 19900,
        remote_tuple: (ip(9, 9, 9, 9), 53),
    };
    assert_eq!(log_text("udp", &stray), "[udp]6 ingress_not_found: via 19900 from 9.9.9.9:53\n");
}

#[test]
fn times_as_dates() {
    assert_eq!(time_text(0), "1970-01-01 00:00:00");
    assert_eq!(time_text(1431648000), "2015-05-15 00:00:00");
    assert_eq!(time_text(1700000150), "2023-11-14 22:15:50");
    // no calendar reaches this far
    assert_eq!(time_text(u64::MAX), "@18446744073709551615");
    assert_eq!(time_text(i64::MAX as u64), "@9223372036854775807");
}

#[test]
fn what_the_tables_show() {
    assert_eq!(header_text("udp"), "***************udp***************");
    let line = StatusLine {
        expires: 1431648000,
        global_port: 19900,
        local_tuple: (ip(10, 0, 0, 2), 5000),
        nat_key: MyAddr(ip(8, 8, 8, 8)),
    };
    assert_eq!(entry_text(&line), "2015-05-15 00:00:00[19900]10.0.0.2:5000->8.8.8.8:*");
    let conn = ConnLine {
        state: TcpState::Established,
        will_expire: 1431648000,
        remote_tuple: (ip(8, 8, 8, 8), 443),
    };
    assert_eq!(conn_text(&conn), "  2015-05-15 00:00:00[Established]8.8.8.8:443");
    let shown = EntryStatus {
        connections: 2,
        global_port: 19900,
        local_tuple: (ip(10, 0, 0, 2), 5000),
        nat_key: MyUnit(),
        conns: vec![conn],
    };
    assert_eq!(parent_text(&shown), "2[19900]10.0.0.2:5000->*:*");
    let names = [
        (TcpState::SynLocal, "SynLocal"),
        (TcpState::SynRemote, "SynRemote"),
        (TcpState::SynBoth, "SynBoth"),
        (TcpState::Established, "Established"),
        (TcpState::Fin1Local, "Fin1Local"),
        (TcpState::Fin1Remote, "Fin1Remote"),
        (TcpState::Fin2Local, "Fin2Local"),
        (TcpState::Fin2Remote, "Fin2Remote"),
        (TcpState::Closed, "Closed"),
    ];
    for (state, name) in names {
        assert_eq!(state_text(state), name);
        assert_eq!(format!("{:?}", state), name);
    }
}
