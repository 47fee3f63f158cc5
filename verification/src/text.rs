//! The printable forms: numbers, addresses and endpoints, the lines of the
//! log, and the lines that the tables show of themselves.

use crate::keygen::FilterKey;
use crate::statenattable::{ConnLine, EntryStatus};
use crate::tcpstate::TcpState;
use crate::util::{LogRecord, StatusLine};
use chrono::DateTime;
use vstd::prelude::*;

verus! {

/// The digit `d`.
pub open spec fn digit(d: int) -> Seq<char> {
    if d == 0 {
        "0"@
    } else if d == 1 {
        "1"@
    } else if d == 2 {
        "2"@
    } else if d == 3 {
        "3"@
    } else if d == 4 {
        "4"@
    } else if d == 5 {
        "5"@
    } else if d == 6 {
        "6"@
    } else if d == 7 {
        "7"@
    } else if d == 8 {
        "8"@
    } else {
        "9"@
    }
}

/// The digit `d`.
fn digit_text(d: u64) -> (r: &'static str)
    requires
        d < 10,
    ensures
        r@ == digit(d as int),
{
    if d == 0 {
        "0"
    } else if d == 1 {
        "1"
    } else if d == 2 {
        "2"
    } else if d == 3 {
        "3"
    } else if d == 4 {
        "4"
    } else if d == 5 {
        "5"
    } else if d == 6 {
        "6"
    } else if d == 7 {
        "7"
    } else if d == 8 {
        "8"
    } else {
        "9"
    }
}

/// The number `n` in decimal digits, without leading zeros.
pub open spec fn decimal(n: nat) -> Seq<char>
    decreases n,
{
    if n < 10 {
        digit(n as int)
    } else {
        decimal(n / 10) + digit((n % 10) as int)
    }
}

/// Writes a number in decimal digits.
pub fn decimal_text(n: u64) -> (r: String)
    ensures
        r@ == decimal(n as nat),
    decreases n,
{
    if n < 10 {
        String::from_str(digit_text(n))
    } else {
        let mut s = decimal_text(n / 10);
        s.append(digit_text(n % 10));
        s
    }
}

/// The address `addr` as four decimal numbers with dots between them, the
/// highest byte first.
pub open spec fn dotted(addr: u32) -> Seq<char> {
    decimal((addr / 0x100_0000) as nat) + "."@ + decimal((addr / 0x1_0000 % 256) as nat) + "."@
        + decimal((addr / 0x100 % 256) as nat) + "."@ + decimal((addr % 256) as nat)
}

/// Writes an address.
pub fn dotted_text(addr: u32) -> (r: String)
    ensures
        r@ == dotted(addr),
{
    let mut s = decimal_text((addr / 0x100_0000) as u64);
    s.append(".");
    s.append(decimal_text((addr / 0x1_0000 % 256) as u64).as_str());
    s.append(".");
    s.append(decimal_text((addr / 0x100 % 256) as u64).as_str());
    s.append(".");
    s.append(decimal_text((addr % 256) as u64).as_str());
    s
}

/// The endpoint `tuple` as `ip:port`.
pub open spec fn endpoint(tuple: (u32, u16)) -> Seq<char> {
    dotted(tuple.0) + ":"@ + decimal(tuple.1 as nat)
}

/// Writes an endpoint.
pub fn endpoint_text(tuple: (u32, u16)) -> (r: String)
    ensures
        r@ == endpoint(tuple),
{
    let mut s = dotted_text(tuple.0);
    s.append(":");
    s.append(decimal_text(tuple.1 as u64).as_str());
    s
}

/// The date and the time of day, in UTC, of the second `seconds` after the
/// beginning of 1970, as `chrono` writes it in the form
/// `%Y-%m-%d %H:%M:%S`; nothing for a second that `chrono` has no date
/// for.
pub uninterp spec fn date(seconds: i64) -> Option<Seq<char>>;

/// `chrono::DateTime::from_timestamp` with no nanoseconds, and the date
/// written by `DateTime::format` with `%Y-%m-%d %H:%M:%S`. Both are
/// functions of the number of seconds alone: the time is taken in UTC, and
/// the form names no month or weekday.
#[verifier::external_body]
fn date_text(seconds: i64) -> (r: Option<String>)
    ensures
        match (r, date(seconds)) {
            (Some(s), Some(t)) => s@ == t,
            (None, None) => true,
            _ => false,
        },
{
    DateTime::from_timestamp(seconds, 0).map(|d| d.format("%Y-%m-%d %H:%M:%S").to_string())
}

/// A time in seconds since the beginning of 1970 as the tables show it: as
/// date and time of day where there is a date for it, otherwise as `@` and
/// the number of seconds.
pub open spec fn time(seconds: u64) -> Seq<char> {
    if seconds <= i64::MAX && date(seconds as i64) is Some {
        date(seconds as i64)->0
    } else {
        "@"@ + decimal(seconds as nat)
    }
}

/// Writes a time.
pub fn time_text(seconds: u64) -> (r: String)
    ensures
        r@ == time(seconds),
{
    if seconds <= i64::MAX as u64 {
        match date_text(seconds as i64) {
            Some(s) => {
                return s;
            },
            None => {},
        }
    }
    let mut s = String::from_str("@");
    s.append(decimal_text(seconds).as_str());
    s
}

/// The name of a phase.
pub open spec fn state_name(state: TcpState) -> Seq<char> {
    match state {
        TcpState::SynLocal => "SynLocal"@,
        TcpState::SynRemote => "SynRemote"@,
        TcpState::SynBoth => "SynBoth"@,
        TcpState::Established => "Established"@,
        TcpState::Fin1Local => "Fin1Local"@,
        TcpState::Fin1Remote => "Fin1Remote"@,
        TcpState::Fin2Local => "Fin2Local"@,
        TcpState::Fin2Remote => "Fin2Remote"@,
        TcpState::Closed => "Closed"@,
    }
}

/// The name of a phase.
pub fn state_text(state: TcpState) -> (r: &'static str)
    ensures
        r@ == state_name(state),
{
    match state {
        TcpState::SynLocal => "SynLocal",
        TcpState::SynRemote => "SynRemote",
        TcpState::SynBoth => "SynBoth",
        TcpState::Established => "Established",
        TcpState::Fin1Local => "Fin1Local",
        TcpState::Fin1Remote => "Fin1Remote",
        TcpState::Fin2Local => "Fin2Local",
        TcpState::Fin2Remote => "Fin2Remote",
        TcpState::Closed => "Closed",
    }
}

/// The line of the log that the record `r` of the table `name` stands
/// for, with the line feed that ends it.
pub open spec fn log_line<LK: FilterKey>(name: Seq<char>, r: LogRecord<LK>) -> Seq<char> {
    match r {
        LogRecord::Inserting { time, global_port, local_tuple, nat_key } => "["@ + name + "]"@
            + decimal(time as nat) + " inserting: via "@ + decimal(global_port as nat) + ": "@
            + endpoint(local_tuple) + " -> "@ + nat_key.text() + "\n"@,
        LogRecord::Removing { time, global_port, local_tuple, nat_key } => "["@ + name + "]"@
            + decimal(time as nat) + " removing: via "@ + decimal(global_port as nat) + ": "@
            + endpoint(local_tuple) + " -> "@ + nat_key.text() + "\n"@,
        LogRecord::NoEmptyPort { time, local_tuple, nat_key } => "["@ + name + "]"@ + decimal(
            time as nat,
        ) + " no_empty_port: "@ + endpoint(local_tuple) + " -> "@ + nat_key.text() + "\n"@,
        LogRecord::IngressNotFound { time, global_port, remote_tuple } => "["@ + name + "]"@
            + decimal(time as nat) + " ingress_not_found: via "@ + decimal(global_port as nat)
            + " from "@ + endpoint(remote_tuple) + "\n"@,
    }
}

/// Begins a line of the log: the table's name in brackets and the time.
fn log_head(name: &str, time: u64, event: &str) -> (s: String)
    ensures
        s@ == "["@ + name@ + "]"@ + decimal(time as nat) + event@,
{
    let mut s = String::from_str("[");
    s.append(name);
    s.append("]");
    s.append(decimal_text(time).as_str());
    s.append(event);
    s
}

/// Ends a line of the log that is about an entry: the entry's local
/// endpoint and filter key.
fn log_tail<LK: FilterKey>(s: &mut String, local_tuple: (u32, u16), nat_key: &LK)
    ensures
        final(s)@ == old(s)@ + endpoint(local_tuple) + " -> "@ + nat_key.text() + "\n"@,
{
    s.append(endpoint_text(local_tuple).as_str());
    s.append(" -> ");
    s.append(nat_key.to_text().as_str());
    s.append("\n");
}

/// Writes the line of the log that a record stands for.
pub fn log_text<LK: FilterKey>(name: &str, r: &LogRecord<LK>) -> (s: String)
    ensures
        s@ == log_line(name@, *r),
{
    match r {
        LogRecord::Inserting { time, global_port, local_tuple, nat_key } => {
            let mut s = log_head(name, *time, " inserting: via ");
            s.append(decimal_text(*global_port as u64).as_str());
            s.append(": ");
            log_tail(&mut s, *local_tuple, nat_key);
            s
        },
        LogRecord::Removing { time, global_port, local_tuple, nat_key } => {
            let mut s = log_head(name, *time, " removing: via ");
            s.append(decimal_text(*global_port as u64).as_str());
            s.append(": ");
            log_tail(&mut s, *local_tuple, nat_key);
            s
        },
        LogRecord::NoEmptyPort { time, local_tuple, nat_key } => {
            let mut s = log_head(name, *time, " no_empty_port: ");
            log_tail(&mut s, *local_tuple, nat_key);
            s
        },
        LogRecord::IngressNotFound { time, global_port, remote_tuple } => {
            let mut s = log_head(name, *time, " ingress_not_found: via ");
            s.append(decimal_text(*global_port as u64).as_str());
            s.append(" from ");
            s.append(endpoint_text(*remote_tuple).as_str());
            s.append("\n");
            s
        },
    }
}

/// The line that begins what a table shows of itself.
pub open spec fn header(name: Seq<char>) -> Seq<char> {
    "***************"@ + name + "***************"@
}

/// Writes the line that begins what a table shows of itself.
pub fn header_text(name: &str) -> (s: String)
    ensures
        s@ == header(name@),
{
    let mut s = String::from_str("***************");
    s.append(name);
    s.append("***************");
    s
}

/// Adds an entry's names to a line: the external port in brackets, the
/// local endpoint, an arrow and the filter key.
fn names_text<LK: FilterKey>(s: &mut String, global_port: u16, local_tuple: (u32, u16), nat_key: &LK)
    ensures
        final(s)@ == old(s)@ + "["@ + decimal(global_port as nat) + "]"@ + endpoint(local_tuple)
            + "->"@ + nat_key.text(),
{
    s.append("[");
    s.append(decimal_text(global_port as u64).as_str());
    s.append("]");
    s.append(endpoint_text(local_tuple).as_str());
    s.append("->");
    s.append(nat_key.to_text().as_str());
}

/// What a table without connection state shows of an entry: the time at
/// which the entry can be dropped, and the entry's names.
pub open spec fn entry_line<LK: FilterKey>(line: StatusLine<LK>) -> Seq<char> {
    time(line.expires) + "["@ + decimal(line.global_port as nat) + "]"@ + endpoint(
        line.local_tuple,
    ) + "->"@ + line.nat_key.text()
}

/// Writes what a table without connection state shows of an entry.
pub fn entry_text<LK: FilterKey>(line: &StatusLine<LK>) -> (s: String)
    ensures
        s@ == entry_line(*line),
{
    let mut s = time_text(line.expires);
    names_text(&mut s, line.global_port, line.local_tuple, &line.nat_key);
    s
}

/// What the TCP table shows of an entry, before the entry's connections:
/// the number of the connections, and the entry's names.
pub open spec fn parent_line<LK: FilterKey>(shown: EntryStatus<LK>) -> Seq<char> {
    decimal(shown.connections as nat) + "["@ + decimal(shown.global_port as nat) + "]"@
        + endpoint(shown.local_tuple) + "->"@ + shown.nat_key.text()
}

/// Writes what the TCP table shows of an entry.
pub fn parent_text<LK: FilterKey>(shown: &EntryStatus<LK>) -> (s: String)
    ensures
        s@ == parent_line(*shown),
{
    let mut s = decimal_text(shown.connections);
    names_text(&mut s, shown.global_port, shown.local_tuple, &shown.nat_key);
    s
}

/// What the TCP table shows of a connection: behind two blanks the time
/// of expiry, the phase in brackets, and the remote endpoint.
pub open spec fn conn_line_text(conn: ConnLine) -> Seq<char> {
    "  "@ + time(conn.will_expire) + "["@ + state_name(conn.state) + "]"@ + endpoint(
        conn.remote_tuple,
    )
}

/// Writes what the TCP table shows of a connection.
pub fn conn_text(conn: &ConnLine) -> (s: String)
    ensures
        s@ == conn_line_text(*conn),
{
    let mut s = String::from_str("  ");
    s.append(time_text(conn.will_expire).as_str());
    s.append("[");
    s.append(state_text(conn.state));
    s.append("]");
    s.append(endpoint_text(conn.remote_tuple).as_str());
    s
}

} // verus!
