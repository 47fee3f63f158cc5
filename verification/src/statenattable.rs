//! The translation table for TCP. Besides its entries it keeps one record
//! for each connection seen through an entry, with the connection's phase
//! and the time at which the record expires: `idle_timeout_long` seconds
//! after the last outgoing segment of an established connection,
//! `idle_timeout_short` seconds after that of any other. An entry lives as
//! long as one of its connections does.
//!
//! The connection records stand in one list in the order of their expiry.
//! A marker, the pivot, names the first record that will live for more than
//! the short timeout; a connection that is not established is filed just
//! before it, an established one at the end.

use crate::arena::{Arena, CAPACITY, NULL};
use crate::keygen::{
    claimed, li_code, port_is_free, ri_code, tuple_code, FilterKey, KeyGen, MyUnit, LI, RI,
};
use crate::ll::{
    as_map, distinct_handles, handle_after, holds, LLIter, lemma_as_map_at, lemma_as_map_remove,
    lemma_as_map_update, lemma_moved_before, lemma_position_unique, lemma_put_before, moved_before,
    position, put_before, LList,
};
use crate::nattable::{
    hints_noted, hints_taken, indexed, lemma_coherent_insert, lemma_coherent_remove, lemma_coherent_update,
    li_of, ports_noted, removal, ri_of, used_of, RLHash,
};
use crate::tcpstate::{initial_state, next_state, TcpState, TcpStateMachine};
use crate::util::{
    count_egress, count_ingress, fresh, received, refreshed, sent, LogRecord, NatEntry, PacketInfo,
};
use crate::timing::{keeps_time, lemma_step_keeps, lemma_sweep_and_step_keep, timely};
use std::collections::HashMap;
use vstd::prelude::*;

verus! {

/// What the table knows of one connection.
pub struct ConnInfo {
    pub state_m: TcpStateMachine,
    pub will_expire: u64,
    pub belongs_to: u64,
    pub remote_tuple: (u32, u16),
}

/// The place of the first record at or behind place `i` that expires at
/// `limit` or later; the number of records where there is none.
pub open spec fn settle_index(items: Seq<(u64, ConnInfo)>, i: int, limit: int) -> int
    decreases items.len() - i,
{
    if i < 0 || i >= items.len() {
        items.len() as int
    } else if items[i].1.will_expire >= limit {
        i
    } else {
        settle_index(items, i + 1, limit)
    }
}

/// The handle of the record at place `i`, or the null handle behind the
/// last place.
pub open spec fn handle_at(items: Seq<(u64, ConnInfo)>, i: int) -> u64 {
    if 0 <= i < items.len() {
        items[i].0
    } else {
        NULL
    }
}

/// The place that a pivot names: that of its record, or the number of
/// records for the null handle.
pub open spec fn pivot_index(items: Seq<(u64, ConnInfo)>, pivot: u64) -> int {
    if holds(items, pivot) {
        position(items, pivot)
    } else {
        items.len() as int
    }
}

/// The pivot moved on from `pivot` to the first record that expires at
/// `limit` or later, or the null handle where there is none.
pub open spec fn settle(items: Seq<(u64, ConnInfo)>, pivot: u64, limit: int) -> u64 {
    handle_at(items, settle_index(items, pivot_index(items, pivot), limit))
}

/// The number of records of `items` that belong to the entry under `h`.
pub open spec fn count_of(items: Seq<(u64, ConnInfo)>, h: u64) -> nat
    decreases items.len(),
{
    if items.len() == 0 {
        0
    } else {
        count_of(items.drop_last(), h) + if items.last().1.belongs_to == h {
            1nat
        } else {
            0nat
        }
    }
}

/// The code under which a connection record is indexed: that of its
/// entry's external port with the connection's remote endpoint.
pub open spec fn conn_code_of<LK>(parents: Map<u64, (NatEntry<LK>, u64)>, c: ConnInfo) -> u64 {
    ri_code(parents[c.belongs_to].0.global_port, tuple_code(c.remote_tuple))
}

/// Every connection record belongs to an entry held and is indexed under
/// its code, and the index holds nothing else.
pub open spec fn conn_indexed<LK>(
    cm: Map<u64, ConnInfo>,
    parents: Map<u64, (NatEntry<LK>, u64)>,
    connhash: Map<u64, u64>,
) -> bool {
    &&& forall|k: u64| #[trigger]
        cm.contains_key(k) ==> parents.contains_key(cm[k].belongs_to) && connhash.contains_key(
            conn_code_of(parents, cm[k]),
        ) && connhash[conn_code_of(parents, cm[k])] == k
    &&& forall|c: u64| #[trigger]
        connhash.contains_key(c) ==> cm.contains_key(connhash[c]) && conn_code_of(
            parents,
            cm[connhash[c]],
        ) == c
}

/// Every connection's entry has the filter key that the policy gives the
/// connection's remote endpoint.
pub open spec fn conn_keyed<LK: FilterKey, C: KeyGen<LK>>(
    cm: Map<u64, ConnInfo>,
    parents: Map<u64, (NatEntry<LK>, u64)>,
    keygen: C,
) -> bool {
    forall|k: u64| #[trigger]
        cm.contains_key(k) ==> parents[cm[k].belongs_to].0.nat_key == keygen.key_of(
            cm[k].remote_tuple,
        )
}

/// The entries of a table by their handles, without the counts.
pub open spec fn entry_map<LK>(parents: Map<u64, (NatEntry<LK>, u64)>) -> Map<u64, NatEntry<LK>> {
    Map::new(|h: u64| parents.contains_key(h), |h: u64| parents[h].0)
}

/// Every entry's count is the number of connection records that belong to
/// it, but for the entry under `ahead`, whose count is one more. No count
/// is zero.
pub open spec fn counted<LK>(
    parents: Map<u64, (NatEntry<LK>, u64)>,
    items: Seq<(u64, ConnInfo)>,
    ahead: Option<u64>,
) -> bool {
    forall|h: u64| #[trigger]
        parents.contains_key(h) ==> parents[h].1 >= 1 && parents[h].1 == count_of(items, h) + (
        if ahead == Some(h) {
            1nat
        } else {
            0nat
        })
}

/// A record put in at place `j` counts for its entry and for no other.
pub proof fn lemma_count_insert(items: Seq<(u64, ConnInfo)>, j: int, x: (u64, ConnInfo), h: u64)
    requires
        0 <= j <= items.len(),
    ensures
        count_of(items.insert(j, x), h) == count_of(items, h) + if x.1.belongs_to == h {
            1nat
        } else {
            0nat
        },
    decreases items.len() - j,
{
    let s2 = items.insert(j, x);
    if j == items.len() {
        assert(s2.drop_last() =~= items);
    } else {
        assert(s2.drop_last() =~= items.drop_last().insert(j, x));
        assert(s2.last() == items.last());
        lemma_count_insert(items.drop_last(), j, x, h);
    }
}

/// A record taken out no longer counts for its entry.
pub proof fn lemma_count_remove(items: Seq<(u64, ConnInfo)>, i: int, h: u64)
    requires
        0 <= i < items.len(),
    ensures
        count_of(items, h) == count_of(items.remove(i), h) + if items[i].1.belongs_to == h {
            1nat
        } else {
            0nat
        },
{
    assert(items.remove(i).insert(i, items[i]) =~= items);
    lemma_count_insert(items.remove(i), i, items[i], h);
}

/// An entry's records are no more than all records; an entry that counts
/// none has none, and one that has one counts one at least.
pub proof fn lemma_count_bounds(items: Seq<(u64, ConnInfo)>, h: u64)
    ensures
        count_of(items, h) <= items.len(),
        count_of(items, h) == 0 <==> forall|i: int|
            0 <= i < items.len() ==> (#[trigger] items[i]).1.belongs_to != h,
    decreases items.len(),
{
    if items.len() > 0 {
        lemma_count_bounds(items.drop_last(), h);
        if forall|i: int| 0 <= i < items.len() ==> (#[trigger] items[i]).1.belongs_to != h {
            assert forall|i: int| 0 <= i < items.drop_last().len() implies (
            #[trigger] items.drop_last()[i]).1.belongs_to != h by {
                assert(items.drop_last()[i] == items[i]);
            }
            assert(items.last() == items[items.len() - 1]);
        }
        if count_of(items, h) == 0 {
            assert forall|i: int| 0 <= i < items.len() implies (#[trigger] items[i]).1.belongs_to
                != h by {
                if i < items.len() - 1 {
                    assert(items.drop_last()[i] == items[i]);
                }
            }
        }
    }
}

/// A record moved within the list, with its entry unchanged, counts as
/// before.
pub proof fn lemma_count_moved(
    items: Seq<(u64, ConnInfo)>,
    before: u64,
    key: u64,
    v: ConnInfo,
    h: u64,
)
    requires
        distinct_handles(items),
        holds(items, key),
        before == NULL || holds(items, before),
        v.belongs_to == items[position(items, key)].1.belongs_to,
    ensures
        count_of(moved_before(items, before, key, v), h) == count_of(items, h),
{
    let i = position(items, key);
    let rest = items.remove(i);
    lemma_count_remove(items, i, h);
    if before == NULL {
        assert(rest.push((key, v)) =~= rest.insert(rest.len() as int, (key, v)));
        lemma_count_insert(rest, rest.len() as int, (key, v), h);
    } else if before == key {
        assert(items.update(i, (key, v)) =~= rest.insert(i, (key, v)));
        lemma_count_insert(rest, i, (key, v), h);
    } else {
        let b = position(items, before);
        let j = if b < i { b } else { b - 1 };
        assert(rest[j] == items[b]);
        lemma_as_map_remove(items, i);
        lemma_position_unique(rest, before, j);
        lemma_count_insert(rest, j, (key, v), h);
    }
}

/// A new record put before another counts for its entry and for no other.
pub proof fn lemma_count_put(items: Seq<(u64, ConnInfo)>, before: u64, k: u64, v: ConnInfo, h: u64)
    requires
        before == NULL || holds(items, before),
    ensures
        count_of(put_before(items, before, k, v), h) == count_of(items, h) + if v.belongs_to == h {
            1nat
        } else {
            0nat
        },
{
    if before == NULL {
        assert(items.push((k, v)) =~= items.insert(items.len() as int, (k, v)));
        lemma_count_insert(items, items.len() as int, (k, v), h);
    } else {
        lemma_count_insert(items, position(items, before), (k, v), h);
    }
}

/// Settling stops at a record that expires at `limit` or later, or behind
/// the last record, and passes only records that expire before `limit`.
pub proof fn lemma_settle_index(items: Seq<(u64, ConnInfo)>, i: int, limit: int)
    requires
        0 <= i <= items.len(),
    ensures
        i <= settle_index(items, i, limit) <= items.len(),
        settle_index(items, i, limit) < items.len() ==> items[settle_index(
            items,
            i,
            limit,
        )].1.will_expire >= limit,
        forall|j: int|
            i <= j < settle_index(items, i, limit) ==> (#[trigger] items[j]).1.will_expire < limit,
    decreases items.len() - i,
{
    if i < items.len() && items[i].1.will_expire < limit {
        lemma_settle_index(items, i + 1, limit);
    }
}

/// The record of a connection first seen at time `now` in a segment with
/// `flags`: it expires after the short timeout.
pub open spec fn opened(
    flags: u8,
    is_ingress: bool,
    now: u64,
    short_timeout: u64,
    entry_key: u64,
    remote_tuple: (u32, u16),
) -> ConnInfo {
    ConnInfo {
        state_m: TcpStateMachine { state: initial_state(flags, is_ingress) },
        will_expire: (now + short_timeout) as u64,
        belongs_to: entry_key,
        remote_tuple,
    }
}

/// The phase of the connection `c` after a segment with `flags` seen at
/// time `now`. A record that has expired starts anew.
pub open spec fn phase_after(c: ConnInfo, flags: u8, is_ingress: bool, now: u64) -> TcpState {
    if c.will_expire < now {
        initial_state(flags, is_ingress)
    } else {
        next_state(c.state_m.state, flags, is_ingress)
    }
}

/// The record `c` in phase `state`.
pub open spec fn in_phase(c: ConnInfo, state: TcpState) -> ConnInfo {
    ConnInfo { state_m: TcpStateMachine { state }, ..c }
}

/// The record `c` with `will_expire` as its time of expiry.
pub open spec fn expiring(c: ConnInfo, will_expire: int) -> ConnInfo {
    ConnInfo { will_expire: will_expire as u64, ..c }
}

/// The pivot once the record under `key` is about to move: where the pivot
/// named that record, it names the next one.
pub open spec fn pivot_off(items: Seq<(u64, ConnInfo)>, pivot: u64, key: u64) -> u64 {
    if pivot == key {
        handle_after(items, position(items, key))
    } else {
        pivot
    }
}

/// The list and the pivot after an outgoing segment, seen at time `now`,
/// has put the connection under `key` into phase `state`. An established
/// connection goes to the end of the list and expires after the long
/// timeout. Any other goes just before the pivot, which is first moved on
/// to the first record that outlives the short timeout, and expires after
/// the short timeout.
pub open spec fn refiled(
    items: Seq<(u64, ConnInfo)>,
    pivot: u64,
    key: u64,
    state: TcpState,
    now: u64,
    long_timeout: u64,
    short_timeout: u64,
) -> (Seq<(u64, ConnInfo)>, u64) {
    let i = position(items, key);
    let c = in_phase(items[i].1, state);
    let marked = items.update(i, (key, c));
    let pv1 = pivot_off(items, pivot, key);
    if state == TcpState::Established {
        (
            moved_before(marked, NULL, key, expiring(c, now + long_timeout)),
            if pv1 == NULL {
                key
            } else {
                pv1
            },
        )
    } else {
        let pv2 = settle(marked, pv1, now + short_timeout);
        (moved_before(marked, pv2, key, expiring(c, now + short_timeout)), pv2)
    }
}

/// How many records at the front of `conns` have expired before `now`, up
/// to the first that has not.
pub open spec fn expired_conns(conns: Seq<(u64, ConnInfo)>, now: u64) -> nat
    decreases conns.len(),
{
    if conns.len() > 0 && conns[0].1.will_expire < now {
        1 + expired_conns(conns.skip(1), now)
    } else {
        0
    }
}

/// The expired records at the front of a list are no more than the list.
pub proof fn lemma_expired_conns_bound(conns: Seq<(u64, ConnInfo)>, now: u64)
    ensures
        expired_conns(conns, now) <= conns.len(),
    decreases conns.len(),
{
    if conns.len() > 0 && conns[0].1.will_expire < now {
        lemma_expired_conns_bound(conns.skip(1), now);
    }
}

/// The entries that are left when only the connection records `rest` are:
/// those that have a record among them, each with the number of its
/// records.
pub open spec fn surviving<LK>(
    parents: Map<u64, (NatEntry<LK>, u64)>,
    rest: Seq<(u64, ConnInfo)>,
) -> Map<u64, (NatEntry<LK>, u64)> {
    Map::new(
        |h: u64| parents.contains_key(h) && count_of(rest, h) > 0,
        |h: u64| (parents[h].0, count_of(rest, h) as u64),
    )
}

/// The index of the connection records that are left when only `rest` are.
pub open spec fn surviving_index(conn_index: Map<u64, u64>, rest: Seq<(u64, ConnInfo)>) -> Map<
    u64,
    u64,
> {
    Map::new(
        |c: u64| conn_index.contains_key(c) && holds(rest, conn_index[c]),
        |c: u64| conn_index[c],
    )
}

/// The records of the entries removed while the first `k` connection
/// records of `conns` are dropped one by one: an entry goes with the last
/// of its records.
pub open spec fn reaped<LK>(
    parents: Map<u64, (NatEntry<LK>, u64)>,
    conns: Seq<(u64, ConnInfo)>,
    k: nat,
    now: u64,
) -> Seq<LogRecord<LK>>
    decreases k,
{
    if k == 0 {
        Seq::empty()
    } else {
        let h = conns[k - 1].1.belongs_to;
        reaped(parents, conns, (k - 1) as nat, now) + if count_of(conns.skip(k as int), h) == 0 {
            seq![removal(parents[h].0, now)]
        } else {
            Seq::empty()
        }
    }
}

/// Some entry holds the external port `global_port` under the filter key
/// `key`.
pub open spec fn holds_port<LK>(
    parents: Map<u64, (NatEntry<LK>, u64)>,
    global_port: u16,
    key: LK,
) -> bool {
    exists|h: u64| #[trigger]
        parents.contains_key(h) && parents[h].0.global_port == global_port && parents[h].0.nat_key
            == key
}

/// Some entry maps `local_tuple` to the external port `global_port`.
pub open spec fn holds_pair<LK>(
    parents: Map<u64, (NatEntry<LK>, u64)>,
    local_tuple: (u32, u16),
    global_port: u16,
) -> bool {
    exists|h: u64| #[trigger]
        parents.contains_key(h) && parents[h].0.local_tuple == local_tuple
            && parents[h].0.global_port == global_port
}

/// Whether `p` may be given to a new entry for `local_tuple` under `key`,
/// said of the entries: none holds `p` under `key`, and under a strict
/// policy none maps `local_tuple` to `p`.
pub open spec fn port_vacant<LK>(
    parents: Map<u64, (NatEntry<LK>, u64)>,
    key: LK,
    local_tuple: (u32, u16),
    strict: bool,
    p: u16,
) -> bool {
    &&& !holds_port(parents, p, key)
    &&& strict ==> !holds_pair(parents, local_tuple, p)
}

/// The index of inside names finds exactly the entries held, each under
/// its own name.
pub proof fn lemma_entry_by_local<LK: FilterKey>(
    parents: Map<u64, (NatEntry<LK>, u64)>,
    locals: Map<u128, u64>,
    remotes: Map<u64, u64>,
    local_tuple: (u32, u16),
    key: LK,
)
    requires
        indexed(entry_map(parents), locals, remotes),
    ensures
        ({
            let c = li_code(local_tuple, key.code());
            &&& locals.contains_key(c) ==> parents.contains_key(locals[c])
                && parents[locals[c]].0.local_tuple == local_tuple
                && parents[locals[c]].0.nat_key == key
            &&& forall|h: u64| #[trigger]
                parents.contains_key(h) && parents[h].0.local_tuple == local_tuple
                    && parents[h].0.nat_key == key ==> locals.contains_key(c) && locals[c] == h
        }),
{
    let m = entry_map(parents);
    let c = li_code(local_tuple, key.code());
    if locals.contains_key(c) {
        let h = locals[c];
        assert(m.contains_key(h));
        LI::lemma_code_is_one_to_one(
            LI { local_tuple: m[h].local_tuple, lk: m[h].nat_key },
            LI { local_tuple, lk: key },
        );
    }
    assert forall|h: u64| #[trigger]
        parents.contains_key(h) && parents[h].0.local_tuple == local_tuple
            && parents[h].0.nat_key == key implies locals.contains_key(c) && locals[c] == h by {
        assert(m.contains_key(h));
    }
}

/// The index of outside names finds exactly the entries held, each under
/// its own name.
pub proof fn lemma_entry_by_remote<LK: FilterKey>(
    parents: Map<u64, (NatEntry<LK>, u64)>,
    locals: Map<u128, u64>,
    remotes: Map<u64, u64>,
    global_port: u16,
    key: LK,
)
    requires
        indexed(entry_map(parents), locals, remotes),
    ensures
        ({
            let c = ri_code(global_port, key.code());
            &&& remotes.contains_key(c) == holds_port(parents, global_port, key)
            &&& remotes.contains_key(c) ==> parents.contains_key(remotes[c])
                && parents[remotes[c]].0.global_port == global_port
                && parents[remotes[c]].0.nat_key == key
        }),
{
    let m = entry_map(parents);
    let c = ri_code(global_port, key.code());
    if remotes.contains_key(c) {
        let h = remotes[c];
        assert(m.contains_key(h));
        RI::lemma_code_is_one_to_one(
            RI { global_port: m[h].global_port, nat_key: m[h].nat_key },
            RI { global_port, nat_key: key },
        );
        assert(parents.contains_key(h) && parents[h].0.global_port == global_port
            && parents[h].0.nat_key == key);
    }
    if holds_port(parents, global_port, key) {
        let h = choose|h: u64| #[trigger]
            parents.contains_key(h) && parents[h].0.global_port == global_port
                && parents[h].0.nat_key == key;
        assert(m.contains_key(h));
    }
}

/// Under a strict policy a pair of local endpoint and external port is
/// noted as used exactly if some entry has it.
pub proof fn lemma_entry_by_pair<LK: FilterKey>(
    parents: Map<u64, (NatEntry<LK>, u64)>,
    used: Map<u64, MyUnit>,
    local_tuple: (u32, u16),
    global_port: u16,
)
    requires
        ports_noted(entry_map(parents), used, true),
    ensures
        used.contains_key(crate::keygen::used_code(local_tuple, global_port)) == holds_pair(
            parents,
            local_tuple,
            global_port,
        ),
{
    let m = entry_map(parents);
    let c = crate::keygen::used_code(local_tuple, global_port);
    if used.contains_key(c) {
        let h = choose|h: u64| #[trigger] m.contains_key(h) && used_of(m[h]) == c;
        crate::keygen::lemma_used_code_is_one_to_one(
            m[h].local_tuple,
            m[h].global_port,
            local_tuple,
            global_port,
        );
        assert(parents.contains_key(h) && parents[h].0.local_tuple == local_tuple
            && parents[h].0.global_port == global_port);
    }
    if holds_pair(parents, local_tuple, global_port) {
        let h = choose|h: u64| #[trigger]
            parents.contains_key(h) && parents[h].0.local_tuple == local_tuple
                && parents[h].0.global_port == global_port;
        assert(m.contains_key(h));
    }
}

/// What the TCP table shows of one connection: its phase, its expiry and
/// its remote endpoint.
pub struct ConnLine {
    pub state: TcpState,
    pub will_expire: u64,
    pub remote_tuple: (u32, u16),
}

/// What the TCP table shows of one entry: the number of its connections,
/// its names, and its connections in the order of the list.
pub struct EntryStatus<LK> {
    pub connections: u64,
    pub global_port: u16,
    pub local_tuple: (u32, u16),
    pub nat_key: LK,
    pub conns: Vec<ConnLine>,
}

/// What the table shows of the connection record `c`.
pub open spec fn conn_line(c: ConnInfo) -> ConnLine {
    ConnLine { state: c.state_m.state, will_expire: c.will_expire, remote_tuple: c.remote_tuple }
}

/// The entries that have records among `conns`, by their handles, each
/// where its first record stands among the first records of the others.
pub open spec fn owners(conns: Seq<(u64, ConnInfo)>) -> Seq<u64>
    decreases conns.len(),
{
    if conns.len() == 0 {
        Seq::empty()
    } else {
        let before = owners(conns.drop_last());
        let h = conns.last().1.belongs_to;
        if before.contains(h) {
            before
        } else {
            before.push(h)
        }
    }
}

/// What the table shows of the records of `conns` that belong to the
/// entry under `h`, in their order.
pub open spec fn lines_of(conns: Seq<(u64, ConnInfo)>, h: u64) -> Seq<ConnLine>
    decreases conns.len(),
{
    if conns.len() == 0 {
        Seq::empty()
    } else {
        let before = lines_of(conns.drop_last(), h);
        if conns.last().1.belongs_to == h {
            before.push(conn_line(conns.last().1))
        } else {
            before
        }
    }
}

/// Whether `shown` is what the table shows of the entry under `h`.
pub open spec fn shows<LK>(
    shown: EntryStatus<LK>,
    parents: Map<u64, (NatEntry<LK>, u64)>,
    conns: Seq<(u64, ConnInfo)>,
    h: u64,
) -> bool {
    &&& shown.connections == parents[h].1
    &&& shown.global_port == parents[h].0.global_port
    &&& shown.local_tuple == parents[h].0.local_tuple
    &&& shown.nat_key == parents[h].0.nat_key
    &&& shown.conns@ == lines_of(conns, h)
}

/// Every owner has a record.
pub proof fn lemma_owners(conns: Seq<(u64, ConnInfo)>, h: u64)
    ensures
        owners(conns).contains(h) <==> exists|i: int|
            0 <= i < conns.len() && (#[trigger] conns[i]).1.belongs_to == h,
    decreases conns.len(),
{
    if conns.len() > 0 {
        let rest = conns.drop_last();
        lemma_owners(rest, h);
        let last = conns.last().1.belongs_to;
        if owners(conns).contains(h) {
            if owners(rest).contains(h) {
                let i = choose|i: int| 0 <= i < rest.len() && (#[trigger] rest[i]).1.belongs_to == h;
                assert(conns[i] == rest[i]);
            } else {
                let j = choose|j: int| 0 <= j < owners(conns).len() && owners(conns)[j] == h;
                if j < owners(rest).len() {
                    assert(owners(rest)[j] == h);
                }
                assert(conns[conns.len() - 1].1.belongs_to == h);
            }
        }
        if exists|i: int| 0 <= i < conns.len() && (#[trigger] conns[i]).1.belongs_to == h {
            let i = choose|i: int| 0 <= i < conns.len() && (#[trigger] conns[i]).1.belongs_to == h;
            if i < rest.len() {
                assert(rest[i] == conns[i]);
                let j = choose|j: int| 0 <= j < owners(rest).len() && owners(rest)[j] == h;
                assert(owners(conns)[j] == h);
            } else if owners(rest).contains(h) {
                let j = choose|j: int| 0 <= j < owners(rest).len() && owners(rest)[j] == h;
                assert(owners(conns)[j] == h);
            } else {
                assert(owners(conns)[owners(rest).len() as int] == h);
            }
        }
    }
}

/// Whether `h` is among `v`.
fn contains_handle(v: &Vec<u64>, h: u64) -> (found: bool)
    ensures
        found == v@.contains(h),
{
    let mut i: usize = 0;
    while i < v.len()
        invariant
            i <= v.len(),
            forall|j: int| 0 <= j < i ==> v@[j] != h,
        decreases v.len() - i,
    {
        if v[i] == h {
            return true;
        }
        i = i + 1;
    }
    false
}

/// The TCP translation table.
pub struct TcpStateHashNATTable<LK: FilterKey, C: KeyGen<LK>> {
    idle_timeout_long: u64,
    idle_timeout_short: u64,
    name: String,
    entrylist: Arena<(NatEntry<LK>, u64)>,
    connlist: LList<ConnInfo>,
    connhash: HashMap<u64, u64>,
    conn_least_longer_than_short_timeout: u64,
    rlhash: RLHash<LK, C>,
    log: Vec<LogRecord<LK>>,
}

impl<LK: FilterKey, C: KeyGen<LK>> TcpStateHashNATTable<LK, C> {
    /// The entries by their handles, each with the number of its
    /// connections.
    pub closed spec fn parents(&self) -> Map<u64, (NatEntry<LK>, u64)> {
        self.entrylist@
    }

    /// The connection records in the order of the list, each with its
    /// handle.
    pub closed spec fn conns(&self) -> Seq<(u64, ConnInfo)> {
        self.connlist@
    }

    /// The handle of the pivot, or the null handle.
    pub closed spec fn pivot(&self) -> u64 {
        self.conn_least_longer_than_short_timeout
    }

    /// The handles of connection records by their codes.
    pub closed spec fn conn_index(&self) -> Map<u64, u64> {
        self.connhash@
    }

    /// The records not yet taken by `take_log`, the oldest first.
    pub closed spec fn log(&self) -> Seq<LogRecord<LK>> {
        self.log@
    }

    /// The indices of the entries.
    pub closed spec fn indices(&self) -> RLHash<LK, C> {
        self.rlhash
    }

    /// The seconds that an established connection may stay silent.
    pub closed spec fn long_timeout(&self) -> u64 {
        self.idle_timeout_long
    }

    /// The seconds that any other connection may stay silent.
    pub closed spec fn short_timeout(&self) -> u64 {
        self.idle_timeout_short
    }

    /// The table's name.
    pub closed spec fn label(&self) -> String {
        self.name
    }

    /// The filter key of a remote endpoint.
    pub open spec fn key_of(&self, remote_tuple: (u32, u16)) -> LK {
        self.indices().key_of(remote_tuple)
    }

    /// The port last assigned to a local endpoint.
    pub open spec fn hint(&self, local_tuple: (u32, u16)) -> Option<u16> {
        self.indices().last_assigned().get(tuple_code(local_tuple))
    }

    /// Name, timeouts and policy are those of `other`.
    pub open spec fn same_setup(&self, other: &Self) -> bool {
        &&& self.long_timeout() == other.long_timeout()
        &&& self.short_timeout() == other.short_timeout()
        &&& self.label() == other.label()
        &&& self.indices().same_policy(&other.indices())
    }

    /// As `wf_ahead`, without what it says of the record of used ports.
    spec fn wf_core(&self, ahead: Option<u64>) -> bool {
        let m = entry_map(self.entrylist@);
        &&& self.entrylist.wf()
        &&& self.connlist.wf()
        &&& self.rlhash.keygen().wf()
        &&& indexed(m, self.rlhash.locals(), self.rlhash.remotes())
        &&& hints_noted(m, self.rlhash.last_assigned())
        &&& hints_taken(self.rlhash.last_assigned(), self.rlhash.keygen())
        &&& conn_indexed(as_map(self.connlist@), self.entrylist@, self.connhash@)
        &&& conn_keyed(as_map(self.connlist@), self.entrylist@, self.rlhash.keygen())
        &&& counted(self.entrylist@, self.connlist@, ahead)
        &&& self.conn_least_longer_than_short_timeout == NULL || holds(
            self.connlist@,
            self.conn_least_longer_than_short_timeout,
        )
    }

    /// As `wf`, but that the entry under `ahead`, if any, counts one
    /// connection more than it has records.
    spec fn wf_ahead(&self, ahead: Option<u64>) -> bool {
        &&& self.wf_core(ahead)
        &&& ports_noted(
            entry_map(self.entrylist@),
            self.rlhash.used(),
            self.rlhash.keygen().strict(),
        )
    }

    /// The entries and the connection records are well formed, the indices
    /// name exactly what is held, every entry counts its connections, and
    /// the pivot names a record or nothing.
    pub closed spec fn wf(&self) -> bool {
        self.wf_ahead(None)
    }

    /// An empty table over the policy `keygen`, which must be able to give
    /// ports.
    pub fn new(name: String, idle_timeout_long: u64, idle_timeout_short: u64, keygen: C) -> (t:
        Self)
        requires
            keygen.wf(),
        ensures
            t.wf(),
            t.parents() == Map::<u64, (NatEntry<LK>, u64)>::empty(),
            t.conns() == Seq::<(u64, ConnInfo)>::empty(),
            t.pivot() == NULL,
            t.log() == Seq::<LogRecord<LK>>::empty(),
            t.long_timeout() == idle_timeout_long,
            t.short_timeout() == idle_timeout_short,
            t.label() == name,
            t.indices().keygen() == keygen,
            t.indices().locals() == Map::<u128, u64>::empty(),
            t.indices().remotes() == Map::<u64, u64>::empty(),
            t.indices().last_assigned() == Map::<u64, u16>::empty(),
            t.indices().used() == Map::<u64, MyUnit>::empty(),
            t.conn_index() == Map::<u64, u64>::empty(),
            idle_timeout_short <= idle_timeout_long ==> timely(
                t.model(),
                0,
                0,
                idle_timeout_long,
                idle_timeout_short,
            ),
    {
        let t = Self {
            name,
            idle_timeout_long,
            idle_timeout_short,
            rlhash: RLHash::new(keygen),
            entrylist: Arena::new(),
            conn_least_longer_than_short_timeout: NULL,
            connhash: HashMap::new(),
            connlist: LList::new(),
            log: Vec::new(),
        };
        assert(as_map(t.connlist@) =~= Map::<u64, ConnInfo>::empty());
        t
    }

    /// Moves the pivot on to the first record that will still live
    /// `idle_timeout_short` seconds after `now`.
    fn update_least_longer(&mut self, now: u64)
        requires
            old(self).connlist.wf(),
            old(self).conn_least_longer_than_short_timeout == NULL || holds(
                old(self).connlist@,
                old(self).conn_least_longer_than_short_timeout,
            ),
            now + old(self).idle_timeout_short <= u64::MAX,
        ensures
            final(self).conn_least_longer_than_short_timeout == settle(
                old(self).connlist@,
                old(self).conn_least_longer_than_short_timeout,
                now + old(self).idle_timeout_short,
            ),
            final(self).conn_least_longer_than_short_timeout == NULL || holds(
                old(self).connlist@,
                final(self).conn_least_longer_than_short_timeout,
            ),
            final(self).idle_timeout_long == old(self).idle_timeout_long,
            final(self).idle_timeout_short == old(self).idle_timeout_short,
            final(self).name == old(self).name,
            final(self).entrylist == old(self).entrylist,
            final(self).connlist == old(self).connlist,
            final(self).connhash == old(self).connhash,
            final(self).rlhash == old(self).rlhash,
            final(self).log == old(self).log,
    {
        let limit = now + self.idle_timeout_short;
        let mut cursor = self.conn_least_longer_than_short_timeout;
        let ghost items = self.connlist@;
        let ghost target = settle_index(items, pivot_index(items, cursor), limit as int);
        let ghost i = pivot_index(items, cursor);
        proof {
            self.connlist.lemma_distinct();
        }
        let mut walking = true;
        while walking
            invariant
                self.connlist.wf(),
                items == self.connlist@,
                distinct_handles(items),
                0 <= i <= items.len(),
                cursor == handle_at(items, i),
                settle_index(items, i, limit as int) == target,
                !walking ==> i == target,
            decreases items.len() - i + if walking { 1int } else { 0int },
        {
            proof {
                if i < items.len() {
                    lemma_position_unique(items, cursor, i);
                }
            }
            match self.connlist.get2(cursor) {
                Some((dat, nex)) => {
                    if dat.will_expire >= limit {
                        walking = false;
                    } else {
                        cursor = nex;
                        proof {
                            i = i + 1;
                        }
                    }
                },
                None => {
                    walking = false;
                },
            }
        }
        self.conn_least_longer_than_short_timeout = cursor;
    }

    /// Files the record of a connection first seen at time `now`, of the
    /// entry under `entry_key`, whose count is one ahead for it.
    fn push_connstate(
        &mut self,
        is_ingress: bool,
        conntuple: (u16, (u32, u16)),
        flags: u8,
        now: u64,
        entry_key: u64,
    )
        requires
            old(self).wf_ahead(Some(entry_key)),
            old(self).entrylist@.contains_key(entry_key),
            old(self).entrylist@[entry_key].0.global_port == conntuple.0,
            old(self).entrylist@[entry_key].0.nat_key == old(self).rlhash.keygen().key_of(
                conntuple.1,
            ),
            !old(self).connhash@.contains_key(ri_code(conntuple.0, tuple_code(conntuple.1))),
            old(self).connlist@.len() < CAPACITY,
            now + old(self).idle_timeout_short <= u64::MAX,
            now + old(self).idle_timeout_long <= u64::MAX,
        ensures
            final(self).wf(),
            final(self).idle_timeout_long == old(self).idle_timeout_long,
            final(self).idle_timeout_short == old(self).idle_timeout_short,
            final(self).name == old(self).name,
            final(self).entrylist == old(self).entrylist,
            final(self).rlhash == old(self).rlhash,
            final(self).log == old(self).log,
            ({
                let code = ri_code(conntuple.0, tuple_code(conntuple.1));
                let k = final(self).connhash@[code];
                let pv = settle(
                    old(self).connlist@,
                    old(self).conn_least_longer_than_short_timeout,
                    now + old(self).idle_timeout_short,
                );
                &&& k != NULL
                &&& !holds(old(self).connlist@, k)
                &&& final(self).connhash@ == old(self).connhash@.insert(code, k)
                &&& final(self).connlist@ == put_before(
                    old(self).connlist@,
                    pv,
                    k,
                    opened(
                        flags,
                        is_ingress,
                        now,
                        old(self).idle_timeout_short,
                        entry_key,
                        conntuple.1,
                    ),
                )
                &&& final(self).conn_least_longer_than_short_timeout == pv
            }),
    {
        let ghost items = self.connlist@;
        let ghost limit = now + self.idle_timeout_short;
        proof {
            self.connlist.lemma_distinct();
        }
        let m = TcpStateMachine::new(flags, is_ingress);
        let long = m.state == TcpState::Established;
        assert(!long);
        let key = if long {
            let k = self.connlist.push_tail(
                ConnInfo {
                    state_m: m,
                    will_expire: now + self.idle_timeout_long,
                    belongs_to: entry_key,
                    remote_tuple: conntuple.1,
                },
            );
            if self.conn_least_longer_than_short_timeout == NULL {
                self.conn_least_longer_than_short_timeout = k;
            }
            k
        } else {
            self.update_least_longer(now);
            let ghost pv = self.conn_least_longer_than_short_timeout;
            let k = self.connlist.push_before(
                self.conn_least_longer_than_short_timeout,
                ConnInfo {
                    state_m: m,
                    will_expire: now + self.idle_timeout_short,
                    belongs_to: entry_key,
                    remote_tuple: conntuple.1,
                },
            );
            proof {
                let c = opened(
                    flags,
                    is_ingress,
                    now,
                    self.idle_timeout_short,
                    entry_key,
                    conntuple.1,
                );
                lemma_pivot_settled(items, old(self).conn_least_longer_than_short_timeout, limit);
                lemma_put_keeps_settled(items, pv, k, c, limit);
                lemma_put_before(items, pv, k, c);
            }
            self.update_least_longer(now);
            k
        };
        let code = (RI {
            global_port: conntuple.0,
            nat_key: crate::keygen::MyAddrPort::from_t(conntuple.1),
        }).encode();
        self.connhash.insert(code, key);
        proof {
            let c = opened(flags, is_ingress, now, self.idle_timeout_short, entry_key, conntuple.1);
            self.lemma_conn_pushed(old(self), key, c, code);
        }
    }

    /// The table is well formed once the record that an entry's count was
    /// ahead for is filed and indexed.
    proof fn lemma_conn_pushed(&self, before: &Self, key: u64, c: ConnInfo, code: u64)
        requires
            before.wf_ahead(Some(c.belongs_to)),
            before.entrylist@.contains_key(c.belongs_to),
            before.entrylist@[c.belongs_to].0.nat_key == before.rlhash.keygen().key_of(
                c.remote_tuple,
            ),
            code == conn_code_of(before.entrylist@, c),
            !before.connhash@.contains_key(code),
            key != NULL,
            !holds(before.connlist@, key),
            self.connlist.wf(),
            self.conn_least_longer_than_short_timeout == NULL || holds(
                before.connlist@,
                self.conn_least_longer_than_short_timeout,
            ),
            self.connlist@ == put_before(
                before.connlist@,
                self.conn_least_longer_than_short_timeout,
                key,
                c,
            ),
            self.connhash@ == before.connhash@.insert(code, key),
            self.entrylist == before.entrylist,
            self.rlhash == before.rlhash,
        ensures
            self.wf(),
    {
        let items = before.connlist@;
        let pv = self.conn_least_longer_than_short_timeout;
        before.connlist.lemma_distinct();
        lemma_put_before(items, pv, key, c);
        let cm = as_map(items);
        let cm2 = as_map(self.connlist@);
        let parents = self.entrylist@;
        assert(cm2 == cm.insert(key, c));
        assert forall|k: u64| #[trigger] cm2.contains_key(k) implies parents.contains_key(
            cm2[k].belongs_to,
        ) && self.connhash@.contains_key(conn_code_of(parents, cm2[k]))
            && self.connhash@[conn_code_of(parents, cm2[k])] == k by {
            if k != key {
                assert(cm.contains_key(k));
            }
        }
        assert forall|x: u64| #[trigger] self.connhash@.contains_key(x) implies cm2.contains_key(
            self.connhash@[x],
        ) && conn_code_of(parents, cm2[self.connhash@[x]]) == x by {
            if x != code {
                assert(before.connhash@.contains_key(x));
            }
        }
        assert forall|h: u64| #[trigger] parents.contains_key(h) implies parents[h].1 >= 1
            && parents[h].1 == count_of(self.connlist@, h) by {
            lemma_count_put(items, pv, key, c, h);
        }
        if pv != NULL {
            assert(cm.contains_key(pv));
            assert(cm2.contains_key(pv));
        }
    }

    /// Takes a segment of the connection between the external port
    /// `conntuple.0` and the remote endpoint `conntuple.1`, seen at time
    /// `now`, into account. A connection not seen before gets a record, and
    /// counts for the entry under `entry_key`. An outgoing segment renews
    /// the record's time of expiry and files it anew; an incoming one only
    /// changes its phase.
    fn update_connstate(
        &mut self,
        is_ingress: bool,
        conntuple: (u16, (u32, u16)),
        flags: u8,
        now: u64,
        entry_key: u64,
    )
        requires
            old(self).wf(),
            old(self).entrylist@.contains_key(entry_key),
            old(self).entrylist@[entry_key].0.global_port == conntuple.0,
            old(self).entrylist@[entry_key].0.nat_key == old(self).rlhash.keygen().key_of(
                conntuple.1,
            ),
            old(self).connlist@.len() < CAPACITY,
            now + old(self).idle_timeout_short <= u64::MAX,
            now + old(self).idle_timeout_long <= u64::MAX,
        ensures
            final(self).wf(),
            final(self).idle_timeout_long == old(self).idle_timeout_long,
            final(self).idle_timeout_short == old(self).idle_timeout_short,
            final(self).name == old(self).name,
            final(self).rlhash == old(self).rlhash,
            final(self).log == old(self).log,
            final(self).entrylist@ == recount(
                old(self).entrylist@,
                old(self).connhash@,
                ri_code(conntuple.0, tuple_code(conntuple.1)),
                entry_key,
            ),
            stepped(
                old(self).model(),
                final(self).model(),
                is_ingress,
                conntuple,
                flags,
                now,
                entry_key,
                old(self).idle_timeout_long,
                old(self).idle_timeout_short,
            ),
    {
        let ghost items = self.connlist@;
        let ghost parents = self.entrylist@;
        let code = (RI {
            global_port: conntuple.0,
            nat_key: crate::keygen::MyAddrPort::from_t(conntuple.1),
        }).encode();
        proof {
            self.connlist.lemma_distinct();
        }
        let found = match self.connhash.get(&code) {
            Some(k) => Some(*k),
            None => None,
        };
        match found {
            Some(conn_key) => {
                let ghost i = position(items, conn_key);
                let ghost c0 = items[i].1;
                let ghost st = phase_after(c0, flags, is_ingress, now);
                let ghost c1 = in_phase(c0, st);
                let ghost marked = items.update(i, (conn_key, c1));
                proof {
                    assert(as_map(items).contains_key(conn_key));
                    lemma_as_map_update(items, i, c1);
                    lemma_position_unique(marked, conn_key, i);
                }
                let long = match self.connlist.get_mut(conn_key) {
                    Some(conn) => {
                        //a record that has expired stands for a connection that is gone
                        if conn.will_expire < now {
                            conn.state_m = TcpStateMachine::new(flags, is_ingress);
                        } else {
                            conn.state_m.update(flags, is_ingress);
                        }
                        conn.state_m.state == TcpState::Established
                    },
                    None => vstd::pervasive::unreached(),
                };
                assert(self.connlist@ =~= marked);
                proof {
                    self.lemma_conn_updated(old(self), conn_key, c1);
                }
                if is_ingress {
                    //an incoming segment renews nothing
                    return ;
                }
                if self.conn_least_longer_than_short_timeout == conn_key {
                    self.conn_least_longer_than_short_timeout =
                    match self.connlist.next(self.conn_least_longer_than_short_timeout) {
                        Some(next) => next,
                        None => vstd::pervasive::unreached(),
                    };
                }
                let ghost pv1 = self.conn_least_longer_than_short_timeout;
                assert(pv1 == pivot_off(items, old(self).conn_least_longer_than_short_timeout, conn_key));
                proof {
                    if pv1 != NULL && pv1 != old(self).conn_least_longer_than_short_timeout {
                        assert(marked[i + 1].0 == pv1);
                    }
                    assert(pv1 == NULL || holds(marked, pv1));
                }
                let ghost mid = *self;
                if long {
                    let new = self.connlist.move_to_tail_and_get(conn_key);
                    new.will_expire = now + self.idle_timeout_long;
                    if self.conn_least_longer_than_short_timeout == NULL {
                        self.conn_least_longer_than_short_timeout = conn_key;
                    }
                    proof {
                        let c2 = expiring(c1, now + self.idle_timeout_long);
                        lemma_moved_before(marked, NULL, conn_key, c2);
                        self.lemma_conn_moved(&mid, NULL, conn_key, c2);
                    }
                } else {
                    self.update_least_longer(now);
                    let ghost pv2 = self.conn_least_longer_than_short_timeout;
                    let new = self.connlist.move_before_and_get(
                        self.conn_least_longer_than_short_timeout,
                        conn_key,
                    );
                    new.will_expire = now + self.idle_timeout_short;
                    proof {
                        let c2 = expiring(c1, now + self.idle_timeout_short);
                        lemma_moved_before(marked, pv2, conn_key, c2);
                        self.lemma_conn_moved(&mid, pv2, conn_key, c2);
                    }
                }
            },
            None => {
                proof {
                    lemma_count_bounds(items, entry_key);
                }
                match self.entrylist.get_mut(entry_key) {
                    Some(entry) => {
                        entry.1 = entry.1 + 1;
                    },
                    None => vstd::pervasive::unreached(),
                }
                proof {
                    self.lemma_parent_replaced(
                        old(self),
                        entry_key,
                        parents[entry_key].0,
                        (parents[entry_key].1 + 1) as u64,
                        None,
                        Some(entry_key),
                    );
                }
                self.push_connstate(is_ingress, conntuple, flags, now, entry_key);
            },
        }
    }

    /// Drops the first connection record, and with it its entry if that
    /// has no other.
    fn reap_head(&mut self, now: u64)
        requires
            old(self).wf(),
            old(self).connlist@.len() > 0,
            old(self).conn_least_longer_than_short_timeout != old(self).connlist@[0].0,
        ensures
            final(self).wf(),
            final(self).same_setup(old(self)),
            final(self).rlhash.last_assigned() == old(self).rlhash.last_assigned(),
            final(self).conn_least_longer_than_short_timeout == old(
                self,
            ).conn_least_longer_than_short_timeout,
            final(self).connlist@ == old(self).connlist@.remove(0),
            final(self).entrylist@ == surviving(old(self).entrylist@, old(self).connlist@.remove(0)),
            final(self).connhash@ == surviving_index(
                old(self).connhash@,
                old(self).connlist@.remove(0),
            ),
            final(self).log@ == old(self).log@ + if count_of(
                old(self).connlist@.remove(0),
                old(self).connlist@[0].1.belongs_to,
            ) == 0 {
                seq![
                    removal(
                        old(self).entrylist@[old(self).connlist@[0].1.belongs_to].0,
                        now,
                    ),
                ]
            } else {
                Seq::empty()
            },
    {
        let ghost items = self.connlist@;
        let ghost parents = self.entrylist@;
        proof {
            self.connlist.lemma_distinct();
            lemma_as_map_at(items, 0);
            lemma_as_map_remove(items, 0);
            lemma_count_remove(items, 0, items[0].1.belongs_to);
        }
        let t = match self.connlist.pop_head() {
            Some(t) => t,
            None => vstd::pervasive::unreached(),
        };
        let (global_port, last) = match self.entrylist.get(t.belongs_to) {
            Some(entry) => (entry.0.global_port, entry.1 == 1),
            None => vstd::pervasive::unreached(),
        };
        let code = (RI {
            global_port,
            nat_key: crate::keygen::MyAddrPort::from_t(t.remote_tuple),
        }).encode();
        self.connhash.remove(&code);
        if last {
            match self.entrylist.remove(t.belongs_to) {
                Some(ee) => {
                    self.log.push(
                        LogRecord::Removing {
                            time: now,
                            global_port: ee.0.global_port,
                            local_tuple: ee.0.local_tuple,
                            nat_key: ee.0.nat_key,
                        },
                    );
                    proof {
                        lemma_coherent_remove(
                            entry_map(parents),
                            t.belongs_to,
                            self.rlhash.locals(),
                            self.rlhash.remotes(),
                            self.rlhash.used(),
                            self.rlhash.keygen().strict(),
                            self.rlhash.last_assigned(),
                        );
                        assert(entry_map(self.entrylist@) =~= entry_map(parents).remove(
                            t.belongs_to,
                        ));
                    }
                    self.rlhash.remove(ee.0.local_tuple, ee.0.global_port, ee.0.nat_key);
                },
                None => vstd::pervasive::unreached(),
            }
        } else {
            match self.entrylist.get_mut(t.belongs_to) {
                Some(entry) => {
                    entry.1 = entry.1 - 1;
                },
                None => vstd::pervasive::unreached(),
            }
            proof {
                assert(entry_map(self.entrylist@) =~= entry_map(parents));
            }
        }
        proof {
            self.lemma_reaped(old(self), code);
        }
    }

    /// The table is well formed once the first connection record is gone
    /// from list and index, and its entry has gone with it or counts one
    /// less.
    proof fn lemma_reaped(&self, before: &Self, code: u64)
        requires
            before.wf(),
            before.connlist@.len() > 0,
            before.conn_least_longer_than_short_timeout != before.connlist@[0].0,
            code == conn_code_of(before.entrylist@, before.connlist@[0].1),
            self.connlist.wf(),
            self.entrylist.wf(),
            self.connlist@ == before.connlist@.remove(0),
            self.connhash@ == before.connhash@.remove(code),
            self.conn_least_longer_than_short_timeout
                == before.conn_least_longer_than_short_timeout,
            self.rlhash.keygen() == before.rlhash.keygen(),
            self.rlhash.last_assigned() == before.rlhash.last_assigned(),
            ({
                let h = before.connlist@[0].1.belongs_to;
                let e = before.entrylist@[h];
                if e.1 == 1 {
                    self.entrylist@ == before.entrylist@.remove(h)
                } else {
                    self.entrylist@ == before.entrylist@.insert(h, (e.0, (e.1 - 1) as u64))
                }
            }),
            indexed(entry_map(self.entrylist@), self.rlhash.locals(), self.rlhash.remotes()),
            ports_noted(
                entry_map(self.entrylist@),
                self.rlhash.used(),
                self.rlhash.keygen().strict(),
            ),
            hints_noted(entry_map(self.entrylist@), self.rlhash.last_assigned()),
        ensures
            self.wf(),
            self.entrylist@ == surviving(before.entrylist@, before.connlist@.remove(0)),
            self.connhash@ == surviving_index(before.connhash@, before.connlist@.remove(0)),
    {
        let items = before.connlist@;
        let rest = items.remove(0);
        let k0 = items[0].0;
        let h = items[0].1.belongs_to;
        let held0 = before.entrylist@;
        let held = self.entrylist@;
        let cm = as_map(items);
        let cm2 = as_map(rest);
        before.connlist.lemma_distinct();
        lemma_as_map_at(items, 0);
        lemma_as_map_remove(items, 0);
        assert(cm2 == cm.remove(k0));
        assert(cm.contains_key(k0));
        assert forall|x: u64| #[trigger] held0.contains_key(x) implies count_of(rest, x) + (if x
            == h {
            1nat
        } else {
            0nat
        }) == held0[x].1 by {
            lemma_count_remove(items, 0, x);
        }
        lemma_count_bounds(rest, h);
        assert forall|k: u64| #[trigger] cm2.contains_key(k) implies held.contains_key(
            cm2[k].belongs_to,
        ) && self.connhash@.contains_key(conn_code_of(held, cm2[k])) && self.connhash@[conn_code_of(
            held,
            cm2[k],
        )] == k && held[cm2[k].belongs_to].0.nat_key == self.rlhash.keygen().key_of(
            cm2[k].remote_tuple,
        ) by {
            assert(cm.contains_key(k));
            let i = position(rest, k);
            assert(rest[i].1 == cm2[k]);
            if cm2[k].belongs_to == h {
                assert(count_of(rest, h) > 0);
            }
            assert(conn_code_of(held, cm2[k]) == conn_code_of(held0, cm[k]));
        }
        assert forall|x: u64| #[trigger] self.connhash@.contains_key(x) implies cm2.contains_key(
            self.connhash@[x],
        ) && conn_code_of(held, cm2[self.connhash@[x]]) == x by {
            assert(before.connhash@.contains_key(x));
            let k = before.connhash@[x];
            assert(cm.contains_key(k));
            assert(k != k0);
            let i = position(rest, k);
            assert(rest[i].1 == cm2[k]);
            if cm2[k].belongs_to == h {
                assert(count_of(rest, h) > 0);
            }
            assert(conn_code_of(held, cm2[k]) == conn_code_of(held0, cm[k]));
        }
        assert forall|x: u64| #[trigger] held.contains_key(x) implies held[x].1 >= 1 && held[x].1
            == count_of(rest, x) by {
            assert(held0.contains_key(x));
        }
        let pv = self.conn_least_longer_than_short_timeout;
        if pv != NULL {
            assert(cm.contains_key(pv));
            assert(cm2.contains_key(pv));
        }
        assert(held =~= surviving(held0, rest)) by {
            assert forall|x: u64| held.contains_key(x) == surviving(held0, rest).contains_key(x) by {
                if held0.contains_key(x) {
                    assert(count_of(rest, x) + (if x == h { 1nat } else { 0nat }) == held0[x].1);
                }
            }
        }
        assert(self.connhash@ =~= surviving_index(before.connhash@, rest)) by {
            assert forall|x: u64|
                self.connhash@.contains_key(x) == surviving_index(
                    before.connhash@,
                    rest,
                ).contains_key(x) by {
                if before.connhash@.contains_key(x) {
                    let k = before.connhash@[x];
                    assert(cm.contains_key(k));
                    if x != code {
                        assert(k != k0);
                        assert(cm2.contains_key(k));
                    } else {
                        assert(k == k0);
                    }
                }
            }
        }
    }

    /// Drops the connection records at the front of the list that have
    /// expired, up to the first that has not, and the entries left without
    /// a record, and reports each entry dropped. An entry stays exactly if
    /// one of its records does, and then counts the records that stay. The
    /// pivot moves on to the first record that outlives the short timeout.
    pub fn gc(&mut self, now: u64)
        requires
            old(self).wf(),
            now + old(self).short_timeout() <= u64::MAX,
        ensures
            final(self).wf(),
            final(self).same_setup(old(self)),
            final(self).indices().last_assigned() == old(self).indices().last_assigned(),
            final(self).model() == swept(old(self).model(), now, old(self).short_timeout()),
            ({
                let k = expired_conns(old(self).conns(), now);
                let rest = old(self).conns().skip(k as int);
                &&& k <= old(self).conns().len()
                &&& final(self).parents() == surviving(old(self).parents(), rest)
                &&& final(self).log() == old(self).log() + reaped(
                    old(self).parents(),
                    old(self).conns(),
                    k,
                    now,
                )
            }),
    {
        let ghost items0 = self.connlist@;
        let ghost parents0 = self.entrylist@;
        let ghost index0 = self.connhash@;
        let ghost k = expired_conns(items0, now);
        let ghost limit = now + self.idle_timeout_short;
        proof {
            self.connlist.lemma_distinct();
            lemma_expired_conns_bound(items0, now);
            lemma_pivot_settled(items0, self.conn_least_longer_than_short_timeout, limit);
        }
        self.update_least_longer(now);
        let ghost pv = self.conn_least_longer_than_short_timeout;
        proof {
            if pv != NULL {
                lemma_as_map_at(items0, position(items0, pv));
            }
            assert(self.wf());
            assert(items0.skip(0) =~= items0);
            assert(parents0 =~= surviving(parents0, items0)) by {
                assert forall|x: u64| parents0.contains_key(x) implies count_of(items0, x) > 0
                    && parents0[x] == (parents0[x].0, count_of(items0, x) as u64) by {}
            }
            assert(index0 =~= surviving_index(index0, items0)) by {
                assert forall|x: u64| index0.contains_key(x) implies holds(items0, index0[x]) by {
                    assert(as_map(items0).contains_key(index0[x]));
                }
            }
            assert(self.log@ + reaped(parents0, items0, 0, now) =~= self.log@);
        }
        let ghost c: nat = 0;
        let mut running = true;
        while running
            invariant
                self.wf(),
                self.same_setup(old(self)),
                self.rlhash.last_assigned() == old(self).rlhash.last_assigned(),
                items0 == old(self).connlist@,
                parents0 == old(self).entrylist@,
                index0 == old(self).connhash@,
                old(self).wf(),
                k == expired_conns(items0, now),
                c <= k <= items0.len(),
                self.connlist@ == items0.skip(c as int),
                c + expired_conns(self.connlist@, now) == k,
                self.entrylist@ == surviving(parents0, items0.skip(c as int)),
                self.connhash@ == surviving_index(index0, items0.skip(c as int)),
                self.log@ == old(self).log@ + reaped(parents0, items0, c, now),
                self.conn_least_longer_than_short_timeout == pv,
                pv != NULL ==> as_map(items0).contains_key(pv) && as_map(items0)[pv].will_expire
                    >= limit,
                limit == now + self.idle_timeout_short,
                !running ==> c == k,
            decreases self.connlist@.len() + (if running { 1nat } else { 0nat }),
        {
            let ghost items = self.connlist@;
            proof {
                self.connlist.lemma_distinct();
                old(self).connlist.lemma_distinct();
                if items.len() > 0 {
                    lemma_position_unique(items, items[0].0, 0);
                    lemma_as_map_at(items0, c as int);
                    assert(items[0] == items0[c as int]);
                }
            }
            let head = self.connlist.head();
            let stale = match self.connlist.get(head) {
                Some(e) => e.will_expire < now,
                None => false,
            };
            if stale {
                self.reap_head(now);
                proof {
                    let rest = items0.skip(c as int + 1);
                    assert(items.remove(0) =~= rest);
                    assert(items.skip(1) =~= rest);
                    let h = items0[c as int].1.belongs_to;
                    assert(surviving(surviving(parents0, items), rest) =~= surviving(
                        parents0,
                        rest,
                    )) by {
                        assert forall|x: u64| count_of(rest, x) > 0 implies count_of(items, x)
                            > 0 by {
                            lemma_count_remove(items, 0, x);
                        }
                    }
                    assert(surviving_index(surviving_index(index0, items), rest)
                        =~= surviving_index(index0, rest)) by {
                        assert forall|x: u64|
                            index0.contains_key(x) && holds(rest, index0[x]) implies holds(
                            items,
                            index0[x],
                        ) by {
                            let j = position(rest, index0[x]);
                            assert(items[j + 1] == rest[j]);
                        }
                    }
                    assert(as_map(items0).contains_key(items0[c as int].0));
                    assert(parents0.contains_key(h));
                    lemma_count_remove(items, 0, h);
                    assert(surviving(parents0, items)[h].0 == parents0[h].0);
                    c = c + 1;
                    assert(self.log@ =~= old(self).log@ + reaped(parents0, items0, c, now));
                }
            } else {
                running = false;
            }
        }
        proof {
            // the pivot named a record that is still there, or nothing
            let rest = self.connlist@;
            self.connlist.lemma_distinct();
            if pv != NULL {
                assert(holds(rest, pv));
                let j = position(rest, pv);
                assert(rest[j] == items0[j + k]);
                lemma_as_map_at(items0, j + k);
            }
            lemma_settle_stays(rest, pv, limit);
        }
        self.update_least_longer(now);
    }

    /// Every entry counts exactly the connection records that belong to
    /// it, and has one at least.
    pub proof fn lemma_counts_are_exact(&self, h: u64)
        requires
            self.wf(),
            self.parents().contains_key(h),
        ensures
            self.parents()[h].1 == count_of(self.conns(), h),
            self.parents()[h].1 >= 1,
    {
    }

    /// Every connection record belongs to an entry of the table, is found
    /// in the index under the code of its connection, and has the filter
    /// key of its remote endpoint in common with its entry.
    pub proof fn lemma_records_have_entries(&self, i: int)
        requires
            self.wf(),
            0 <= i < self.conns().len(),
        ensures
            ({
                let c = self.conns()[i].1;
                &&& self.parents().contains_key(c.belongs_to)
                &&& self.conn_index().get(conn_code_of(self.parents(), c)) == Some(
                    self.conns()[i].0,
                )
                &&& self.parents()[c.belongs_to].0.nat_key == self.key_of(c.remote_tuple)
            }),
    {
        self.connlist.lemma_distinct();
        lemma_as_map_at(self.connlist@, i);
    }

    /// The index of the connection records finds records of the table
    /// only, and the pivot names one of them or nothing.
    pub proof fn lemma_model_is_sound(&self)
        requires
            self.wf(),
        ensures
            model_ok(self.model()),
    {
        self.connlist.lemma_distinct();
        assert forall|c: u64| #[trigger] self.connhash@.contains_key(c) implies holds(
            self.connlist@,
            self.connhash@[c],
        ) by {
            assert(as_map(self.connlist@).contains_key(self.connhash@[c]));
        }
    }

    /// Both indices find every entry, under its handle.
    pub proof fn lemma_indices_agree(&self, h: u64)
        requires
            self.wf(),
            self.parents().contains_key(h),
        ensures
            ({
                let e = self.parents()[h].0;
                &&& self.local_lookup(e.local_tuple, e.nat_key) == Some(h)
                &&& self.remote_lookup(e.global_port, e.nat_key) == Some(h)
            }),
    {
        assert(entry_map(self.entrylist@).contains_key(h));
    }

    /// The indices find nothing but the entries of the table, each under
    /// its own names.
    pub proof fn lemma_indices_hold_entries_only(
        &self,
        local_tuple: (u32, u16),
        global_port: u16,
        key: LK,
    )
        requires
            self.wf(),
        ensures
            match self.local_lookup(local_tuple, key) {
                Some(h) => self.parents().contains_key(h) && self.parents()[h].0.local_tuple
                    == local_tuple && self.parents()[h].0.nat_key == key,
                None => forall|h: u64| #[trigger]
                    self.parents().contains_key(h) ==> !(self.parents()[h].0.local_tuple
                        == local_tuple && self.parents()[h].0.nat_key == key),
            },
            match self.remote_lookup(global_port, key) {
                Some(h) => self.parents().contains_key(h) && self.parents()[h].0.global_port
                    == global_port && self.parents()[h].0.nat_key == key,
                None => !holds_port(self.parents(), global_port, key),
            },
    {
        lemma_entry_by_local(
            self.entrylist@,
            self.rlhash.locals(),
            self.rlhash.remotes(),
            local_tuple,
            key,
        );
        lemma_entry_by_remote(
            self.entrylist@,
            self.rlhash.locals(),
            self.rlhash.remotes(),
            global_port,
            key,
        );
    }

    /// Under a strict policy no two entries map one local endpoint to one
    /// external port, whatever their filter keys.
    pub proof fn lemma_strict_uniqueness(&self, h1: u64, h2: u64)
        requires
            self.wf(),
            self.indices().keygen().strict(),
            self.parents().contains_key(h1),
            self.parents().contains_key(h2),
            h1 != h2,
        ensures
            ({
                let a = self.parents()[h1].0;
                let b = self.parents()[h2].0;
                !(a.local_tuple == b.local_tuple && a.global_port == b.global_port)
            }),
    {
        let m = entry_map(self.entrylist@);
        assert(m.contains_key(h1) && m.contains_key(h2));
    }

    /// Under a strict policy the record of used ports notes exactly the
    /// pairs of local endpoint and external port that the entries have;
    /// under any other it notes nothing.
    pub proof fn lemma_used_ports_are_noted(&self, local_tuple: (u32, u16), global_port: u16)
        requires
            self.wf(),
        ensures
            self.indices().used().contains_key(crate::keygen::used_code(local_tuple, global_port))
                == (self.indices().keygen().strict() && holds_pair(
                self.parents(),
                local_tuple,
                global_port,
            )),
    {
        if self.rlhash.keygen().strict() {
            lemma_entry_by_pair(self.entrylist@, self.rlhash.used(), local_tuple, global_port);
        }
    }

    /// The number of entries.
    pub fn len(&self) -> (n: usize)
        requires
            self.wf(),
        ensures
            n == self.parents().len(),
    {
        self.entrylist.len()
    }

    /// The number of connection records.
    pub fn conn_len(&self) -> (n: usize)
        requires
            self.wf(),
        ensures
            n == self.conns().len(),
    {
        self.connlist.len()
    }

    /// The table's name.
    pub fn name(&self) -> (n: &String)
        ensures
            *n == self.label(),
    {
        &self.name
    }

    /// The handles of the entries in the order in which the table shows
    /// them.
    fn owner_handles(&self) -> (order: Vec<u64>)
        requires
            self.wf(),
        ensures
            order@ == owners(self.connlist@),
    {
        let mut order: Vec<u64> = Vec::new();
        let mut it = LLIter(&self.connlist, self.connlist.head());
        let ghost items = self.connlist@;
        let ghost n: int = 0;
        proof {
            self.connlist.lemma_distinct();
            assert(items.take(0) =~= Seq::<(u64, ConnInfo)>::empty());
        }
        loop
            invariant
                self.wf(),
                it.0 == &self.connlist,
                items == self.connlist@,
                distinct_handles(items),
                0 <= n <= items.len(),
                it.1 == if n < items.len() {
                    items[n].0
                } else {
                    NULL
                },
                order@ == owners(items.take(n)),
            ensures
                n == items.len(),
                order@ == owners(items.take(n)),
            decreases items.len() - n,
        {
            proof {
                if n < items.len() {
                    lemma_position_unique(items, items[n].0, n);
                }
            }
            match it.next() {
                Some((c, _k)) => {
                    if !contains_handle(&order, c.belongs_to) {
                        order.push(c.belongs_to);
                    }
                    proof {
                        assert(items.take(n + 1).drop_last() =~= items.take(n));
                        n = n + 1;
                    }
                },
                None => {
                    break ;
                },
            }
        }
        assert(items.take(n) =~= items);
        order
    }

    /// What the table shows of the connections of the entry under `h`.
    fn conn_lines(&self, h: u64) -> (lines: Vec<ConnLine>)
        requires
            self.wf(),
        ensures
            lines@ == lines_of(self.connlist@, h),
    {
        let mut lines: Vec<ConnLine> = Vec::new();
        let mut it = LLIter(&self.connlist, self.connlist.head());
        let ghost items = self.connlist@;
        let ghost n: int = 0;
        proof {
            self.connlist.lemma_distinct();
            assert(items.take(0) =~= Seq::<(u64, ConnInfo)>::empty());
        }
        loop
            invariant
                self.wf(),
                it.0 == &self.connlist,
                items == self.connlist@,
                distinct_handles(items),
                0 <= n <= items.len(),
                it.1 == if n < items.len() {
                    items[n].0
                } else {
                    NULL
                },
                lines@ == lines_of(items.take(n), h),
            ensures
                n == items.len(),
                lines@ == lines_of(items.take(n), h),
            decreases items.len() - n,
        {
            proof {
                if n < items.len() {
                    lemma_position_unique(items, items[n].0, n);
                }
            }
            match it.next() {
                Some((c, _k)) => {
                    if c.belongs_to == h {
                        lines.push(
                            ConnLine {
                                state: c.state_m.state,
                                will_expire: c.will_expire,
                                remote_tuple: c.remote_tuple,
                            },
                        );
                    }
                    proof {
                        assert(items.take(n + 1).drop_last() =~= items.take(n));
                        n = n + 1;
                    }
                },
                None => {
                    break ;
                },
            }
        }
        assert(items.take(n) =~= items);
        lines
    }

    /// What the table shows of itself: every entry with its connections.
    /// The entries stand in the order of their first connection records,
    /// the connections of each in the order of the list.
    pub fn status(&self) -> (shown: Vec<EntryStatus<LK>>)
        requires
            self.wf(),
        ensures
            shown@.len() == owners(self.conns()).len(),
            forall|j: int|
                0 <= j < shown@.len() ==> shows(
                    #[trigger] shown@[j],
                    self.parents(),
                    self.conns(),
                    owners(self.conns())[j],
                ),
    {
        let order = self.owner_handles();
        let mut shown: Vec<EntryStatus<LK>> = Vec::new();
        let mut j: usize = 0;
        while j < order.len()
            invariant
                self.wf(),
                order@ == owners(self.connlist@),
                j <= order.len(),
                shown@.len() == j,
                forall|t: int|
                    0 <= t < j ==> shows(
                        #[trigger] shown@[t],
                        self.entrylist@,
                        self.connlist@,
                        order@[t],
                    ),
            decreases order.len() - j,
        {
            let h = order[j];
            proof {
                lemma_owners(self.connlist@, h);
                let i = choose|i: int|
                    0 <= i < self.connlist@.len() && (#[trigger] self.connlist@[i]).1.belongs_to
                        == h;
                self.lemma_records_have_entries(i);
            }
            let conns = self.conn_lines(h);
            match self.entrylist.get(h) {
                Some(entry) => {
                    shown.push(
                        EntryStatus {
                            connections: entry.1,
                            global_port: entry.0.global_port,
                            local_tuple: entry.0.local_tuple,
                            nat_key: entry.0.nat_key,
                            conns,
                        },
                    );
                },
                None => vstd::pervasive::unreached(),
            }
            j = j + 1;
        }
        shown
    }

    /// Hands out the records made since the last call, the oldest first.
    pub fn take_log(&mut self) -> (records: Vec<LogRecord<LK>>)
        requires
            old(self).wf(),
        ensures
            final(self).wf(),
            records@ == old(self).log(),
            final(self).log() == Seq::<LogRecord<LK>>::empty(),
            final(self).parents() == old(self).parents(),
            final(self).model() == old(self).model(),
            final(self).indices() == old(self).indices(),
            final(self).same_setup(old(self)),
    {
        let mut records = Vec::new();
        std::mem::swap(&mut self.log, &mut records);
        records
    }

    /// The handle under which the indices hold the entry for `local_tuple`
    /// under `key`.
    pub open spec fn local_lookup(&self, local_tuple: (u32, u16), key: LK) -> Option<u64> {
        self.indices().locals().get(li_code(local_tuple, key.code()))
    }

    /// The handle under which the indices hold the entry with the external
    /// port `global_port` under `key`.
    pub open spec fn remote_lookup(&self, global_port: u16, key: LK) -> Option<u64> {
        self.indices().remotes().get(ri_code(global_port, key.code()))
    }

    /// What `my_transform_egress` does with the segment `p` at time `now`:
    /// it takes the table from `pre` to `post` and gives `r`.
    pub open spec fn egressed(
        pre: &Self,
        post: &Self,
        p: PacketInfo,
        flags: u8,
        now: u64,
        r: Option<u16>,
    ) -> bool {
        let lk = pre.key_of(p.dst_tuple);
        let long = pre.long_timeout();
        let short = pre.short_timeout();
        match pre.local_lookup(p.src_tuple, lk) {
            Some(h) => {
                let e = pre.parents()[h].0;
                let code = ri_code(e.global_port, tuple_code(p.dst_tuple));
                let counts = recount(pre.parents(), pre.conn_index(), code, h);
                &&& r == Some(e.global_port)
                &&& stepped(
                    pre.model(),
                    post.model(),
                    false,
                    (e.global_port, p.dst_tuple),
                    flags,
                    now,
                    h,
                    long,
                    short,
                )
                &&& post.parents() == counts.insert(
                    h,
                    (sent(refreshed(e, now), p.size), counts[h].1),
                )
                &&& post.log() == pre.log()
                &&& post.indices() == pre.indices()
            },
            None => {
                let k = expired_conns(pre.conns(), now);
                let rest = pre.conns().skip(k as int);
                let left = surviving(pre.parents(), rest);
                let swept = swept(pre.model(), now, short);
                let log = pre.log() + reaped(
                    pre.parents(),
                    pre.conns(),
                    k,
                    now,
                );
                let hint = pre.hint(p.src_tuple);
                let policy = pre.indices().keygen();
                &&& match r {
                    Some(port) => {
                        let h = post.local_lookup(p.src_tuple, lk)->0;
                        &&& post.local_lookup(p.src_tuple, lk) is Some
                        &&& h != NULL
                        &&& !left.contains_key(h)
                        &&& post.parents() == left.insert(
                            h,
                            (sent(fresh(now, lk, p.src_tuple, port), p.size), 1),
                        )
                        &&& stepped(
                            swept,
                            post.model(),
                            false,
                            (port, p.dst_tuple),
                            flags,
                            now,
                            h,
                            long,
                            short,
                        )
                        &&& !swept.conn_index.contains_key(
                            ri_code(port, tuple_code(p.dst_tuple)),
                        )
                        &&& port_vacant(left, lk, p.src_tuple, policy.strict(), port)
                        &&& policy.pool().contains(port) || policy.hinted(hint, port)
                        &&& post.log() == log.push(
                            LogRecord::Inserting {
                                time: now,
                                global_port: port,
                                local_tuple: p.src_tuple,
                                nat_key: lk,
                            },
                        )
                        &&& post.indices().last_assigned() == pre.indices().last_assigned().insert(
                            tuple_code(p.src_tuple),
                            port,
                        )
                    },
                    None => {
                        &&& post.parents() == left
                        &&& post.model() == swept
                        &&& post.log() == log.push(
                            LogRecord::NoEmptyPort {
                                time: now,
                                local_tuple: p.src_tuple,
                                nat_key: lk,
                            },
                        )
                        &&& post.indices().last_assigned() == pre.indices().last_assigned()
                    },
                }
                &&& (exists|c: u16| policy.hinted(hint, c)) && (forall|c: u16|
                    policy.hinted(hint, c) ==> port_vacant(
                        left,
                        lk,
                        p.src_tuple,
                        policy.strict(),
                        c,
                    )) ==> r is Some && policy.hinted(hint, r->0)
                &&& (forall|c: u16|
                    policy.pool().contains(c) || policy.hinted(hint, c) ==> !port_vacant(
                        left,
                        lk,
                        p.src_tuple,
                        policy.strict(),
                        c,
                    )) ==> r is None
                &&& (forall|c: u16| #[trigger]
                    policy.pool().contains(c) ==> port_vacant(
                        left,
                        lk,
                        p.src_tuple,
                        policy.strict(),
                        c,
                    )) ==> r is Some
            },
        }
    }

    /// What `my_transform_ingress` does with the segment `p` at time `now`:
    /// it takes the table from `pre` to `post` and gives `r`.
    pub open spec fn ingressed(
        pre: &Self,
        post: &Self,
        p: PacketInfo,
        flags: u8,
        now: u64,
        r: Option<(u32, u16)>,
    ) -> bool {
        let key = pre.key_of(p.src_tuple);
        match pre.remote_lookup(p.dst_tuple.1, key) {
            Some(h) => {
                let e = pre.parents()[h].0;
                let code = ri_code(e.global_port, tuple_code(p.src_tuple));
                let counts = recount(pre.parents(), pre.conn_index(), code, h);
                &&& r == Some(e.local_tuple)
                &&& stepped(
                    pre.model(),
                    post.model(),
                    true,
                    (e.global_port, p.src_tuple),
                    flags,
                    now,
                    h,
                    pre.long_timeout(),
                    pre.short_timeout(),
                )
                &&& post.parents() == counts.insert(
                    h,
                    (received(e, p.size), counts[h].1),
                )
                &&& post.log() == pre.log()
            },
            None => {
                &&& r is None
                &&& post.parents() == pre.parents()
                &&& post.model() == pre.model()
                &&& post.log() == pre.log().push(
                    LogRecord::IngressNotFound {
                        time: now,
                        global_port: p.dst_tuple.1,
                        remote_tuple: p.src_tuple,
                    },
                )
            },
        }
    }

    /// The local endpoint that an ICMP error is for: that of the entry
    /// which holds the external port `local_port` under the filter key of
    /// the remote endpoint.
    pub open spec fn error_target(
        &self,
        local_port: u16,
        remote_addr: u32,
        remote_port: u16,
    ) -> Option<(u32, u16)> {
        match self.remote_lookup(local_port, self.key_of((remote_addr, remote_port))) {
            Some(h) => Some(self.parents()[h].0.local_tuple),
            None => None,
        }
    }

    /// Whether the table can take a segment at time `now`: it has room for
    /// one more entry and one more connection record, and the times of
    /// expiry can be told.
    pub open spec fn accepts(&self, now: u64) -> bool {
        &&& self.parents().len() < CAPACITY
        &&& self.conns().len() < CAPACITY
        &&& now + self.long_timeout() <= u64::MAX
        &&& now + self.short_timeout() <= u64::MAX
    }

    /// Whether the table can take a segment at time `now`.
    pub fn has_room(&self, now: u64) -> (b: bool)
        requires
            self.wf(),
        ensures
            b == self.accepts(now),
    {
        self.entrylist.len() < CAPACITY && self.connlist.len() < CAPACITY && now <= u64::MAX
            - self.idle_timeout_long && now <= u64::MAX - self.idle_timeout_short
    }

    /// The external port that stands for `local_tuple` under the filter
    /// key `key`, if an entry maps it.
    pub open spec fn mapped_port(&self, local_tuple: (u32, u16), key: LK) -> Option<u16> {
        match self.local_lookup(local_tuple, key) {
            Some(h) => Some(self.parents()[h].0.global_port),
            None => None,
        }
    }

    /// What `my_transform_egress` gives is the external port that the
    /// table maps the segment's source to afterwards, if it does.
    pub proof fn lemma_egress_answer(
        pre: &Self,
        post: &Self,
        p: PacketInfo,
        flags: u8,
        now: u64,
        r: Option<u16>,
    )
        requires
            pre.wf(),
            post.wf(),
            post.same_setup(pre),
            Self::egressed(pre, post, p, flags, now, r),
        ensures
            r == post.mapped_port(p.src_tuple, pre.key_of(p.dst_tuple)),
    {
        let lk = pre.key_of(p.dst_tuple);
        pre.lemma_indices_hold_entries_only(p.src_tuple, 0, lk);
        post.lemma_indices_hold_entries_only(p.src_tuple, 0, lk);
        if pre.local_lookup(p.src_tuple, lk) is None && r is None {
            if post.local_lookup(p.src_tuple, lk) is Some {
                let h = post.local_lookup(p.src_tuple, lk)->0;
                assert(pre.parents().contains_key(h));
            }
        }
    }

    /// Translates an outgoing segment with `flags`, seen at time `now`:
    /// gives the external port to send it from, or nothing if the segment
    /// must be dropped.
    ///
    /// Where an entry maps the segment's source under the filter key of its
    /// destination, that entry is used, and the connection's record is
    /// brought up to date (see `stepped`). Otherwise the expired connection
    /// records at the front of the list are dropped first, with the entries
    /// they leave without a record, and the policy is asked for a port for
    /// a new entry. The policy's choice is random; whatever it is, the port
    /// is free among the entries left, and comes from the pool or the hint.
    /// A hinted port that is free is always chosen, and a port is always
    /// found where every port of the pool is free among the entries left.
    pub fn my_transform_egress(&mut self, p: PacketInfo, flags: u8, now: u64) -> (r: Option<u16>)
        requires
            old(self).wf(),
            old(self).parents().len() < CAPACITY,
            old(self).conns().len() < CAPACITY,
            now + old(self).long_timeout() <= u64::MAX,
            now + old(self).short_timeout() <= u64::MAX,
        ensures
            final(self).wf(),
            final(self).same_setup(old(self)),
            keeps_time(
                old(self).model(),
                final(self).model(),
                now,
                old(self).long_timeout(),
                old(self).short_timeout(),
            ),
            Self::egressed(old(self), final(self), p, flags, now, r),
    {
        let local_key = self.rlhash.get_lk(p.dst_tuple);
        let li = LI { local_tuple: p.src_tuple, lk: local_key };
        proof {
            lemma_entry_by_local(
                self.entrylist@,
                self.rlhash.locals(),
                self.rlhash.remotes(),
                p.src_tuple,
                local_key,
            );
        }
        let found = match self.rlhash.get_local(&li) {
            Some(entry) => Some(*entry),
            None => None,
        };
        if let Some(entry_key) = found {
            let ghost e0 = self.entrylist@[entry_key];
            let global_port = match self.entrylist.get_mut(entry_key) {
                Some(entry) => {
                    entry.0.last_egress = now;
                    entry.0.global_port
                },
                None => vstd::pervasive::unreached(),
            };
            proof {
                self.lemma_parent_replaced(
                    old(self),
                    entry_key,
                    refreshed(e0.0, now),
                    e0.1,
                    None,
                    None,
                );
            }
            let ghost mid = *self;
            let conntuple = (global_port, p.dst_tuple);
            self.update_connstate(false, conntuple, flags, now, entry_key);
            let ghost mid2 = *self;
            let ghost e1 = self.entrylist@[entry_key];
            let port = match self.entrylist.get_mut(entry_key) {
                Some(entry) => count_egress(p, &mut entry.0),
                None => vstd::pervasive::unreached(),
            };
            proof {
                lemma_count_bounds(mid2.connlist@, entry_key);
                self.lemma_parent_replaced(
                    &mid2,
                    entry_key,
                    sent(e1.0, p.size),
                    e1.1,
                    None,
                    None,
                );
                let code = ri_code(global_port, tuple_code(p.dst_tuple));
                let counts = recount(old(self).parents(), old(self).conn_index(), code, entry_key);
                assert(self.entrylist@ =~= counts.insert(
                    entry_key,
                    (sent(refreshed(e0.0, now), p.size), counts[entry_key].1),
                ));
                old(self).lemma_model_is_sound();
                lemma_step_keeps(
                    old(self).model(),
                    self.model(),
                    false,
                    conntuple,
                    flags,
                    now,
                    entry_key,
                    self.idle_timeout_long,
                    self.idle_timeout_short,
                );
            }
            Some(port)
        } else {
            self.gc(now);
            let ghost left = self.entrylist@;
            let ghost used0 = self.rlhash.used();
            let ghost g = self.rlhash.keygen();
            let ghost swept_model = self.model();
            proof {
                old(self).lemma_model_is_sound();
                self.lemma_model_is_sound();
                assert(swept_model == swept(old(self).model(), now, self.idle_timeout_short));
            }
            let global_port = self.rlhash.get_empty_port(&p);
            proof {
                let strict = g.strict();
                assert forall|c: u16|
                    port_is_free(
                        self.rlhash.remotes(),
                        used0,
                        local_key.code(),
                        p.src_tuple,
                        strict,
                        c,
                    ) == port_vacant(left, local_key, p.src_tuple, strict, c) by {
                    lemma_entry_by_remote(
                        left,
                        self.rlhash.locals(),
                        self.rlhash.remotes(),
                        c,
                        local_key,
                    );
                    if strict {
                        lemma_entry_by_pair(left, used0, p.src_tuple, c);
                    }
                }
                let policy = old(self).rlhash.keygen();
                let hint = old(self).hint(p.src_tuple);
                if (exists|c: u16| policy.hinted(hint, c)) && (forall|c: u16|
                    policy.hinted(hint, c) ==> port_vacant(
                        left,
                        local_key,
                        p.src_tuple,
                        strict,
                        c,
                    )) {
                    let w = choose|c: u16| policy.hinted(hint, c);
                    assert(g.hinted(hint, w));
                    assert forall|c: u16| g.hinted(hint, c) implies port_is_free(
                        self.rlhash.remotes(),
                        used0,
                        local_key.code(),
                        p.src_tuple,
                        strict,
                        c,
                    ) by {
                        assert(policy.hinted(hint, c));
                        assert(port_vacant(left, local_key, p.src_tuple, strict, c));
                    }
                }
            }
            match global_port {
                Some(port) => {
                    proof {
                        lemma_entry_by_local(
                            left,
                            self.rlhash.locals(),
                            self.rlhash.remotes(),
                            p.src_tuple,
                            local_key,
                        );
                        if self.rlhash.locals().contains_key(li_code(p.src_tuple, local_key.code())) {
                            let h = self.rlhash.locals()[li_code(p.src_tuple, local_key.code())];
                            assert(old(self).entrylist@.contains_key(h));
                        }
                        old(self).entrylist.lemma_wf();
                        lemma_surviving_len(old(self).entrylist@, self.connlist@);
                        lemma_expired_conns_bound(old(self).connlist@, now);
                    }
                    let r = self._insert_and_egress(now, p, flags, port, li.lk, Ghost(used0));
                    proof {
                        lemma_sweep_and_step_keep(
                            old(self).model(),
                            self.model(),
                            (port, p.dst_tuple),
                            flags,
                            now,
                            self.local_lookup(p.src_tuple, local_key)->0,
                            self.idle_timeout_long,
                            self.idle_timeout_short,
                        );
                    }
                    r
                },
                None => {
                    self.log.push(
                        LogRecord::NoEmptyPort {
                            time: now,
                            local_tuple: p.src_tuple,
                            nat_key: li.lk,
                        },
                    );
                    proof {
                        lemma_sweep_and_step_keep(
                            old(self).model(),
                            self.model(),
                            (0, p.dst_tuple),
                            flags,
                            now,
                            0,
                            self.idle_timeout_long,
                            self.idle_timeout_short,
                        );
                    }
                    None
                },
            }
        }
    }

    /// Translates an incoming segment with `flags`, seen at time `now`:
    /// gives the local endpoint to deliver it to, or nothing if no entry
    /// holds the segment's destination port under the filter key of its
    /// source. The entry found counts the segment, and the connection's
    /// record changes its phase; a connection not seen before gets a
    /// record. Nothing is renewed and no record moves.
    pub fn my_transform_ingress(&mut self, p: PacketInfo, flags: u8, now: u64) -> (r: Option<
        (u32, u16),
    >)
        requires
            old(self).wf(),
            old(self).conns().len() < CAPACITY,
            now + old(self).long_timeout() <= u64::MAX,
            now + old(self).short_timeout() <= u64::MAX,
        ensures
            final(self).wf(),
            final(self).same_setup(old(self)),
            final(self).indices() == old(self).indices(),
            keeps_time(
                old(self).model(),
                final(self).model(),
                now,
                old(self).long_timeout(),
                old(self).short_timeout(),
            ),
            Self::ingressed(old(self), final(self), p, flags, now, r),
    {
        let remote_key = self.rlhash.get_lk(p.src_tuple);
        proof {
            lemma_entry_by_remote(
                self.entrylist@,
                self.rlhash.locals(),
                self.rlhash.remotes(),
                p.dst_tuple.1,
                remote_key,
            );
        }
        let found = match self.rlhash.get_remote(
            RI { global_port: p.dst_tuple.1, nat_key: remote_key },
        ) {
            Some(entry) => Some(*entry),
            None => None,
        };
        match found {
            Some(entry_key) => {
                let ghost e0 = self.entrylist@[entry_key];
                let global_port = match self.entrylist.get(entry_key) {
                    Some(entry) => entry.0.global_port,
                    None => vstd::pervasive::unreached(),
                };
                let conntuple = (global_port, p.src_tuple);
                self.update_connstate(true, conntuple, flags, now, entry_key);
                let ghost mid = *self;
                let ghost e1 = self.entrylist@[entry_key];
                let local = match self.entrylist.get_mut(entry_key) {
                    Some(entry) => count_ingress(p, &mut entry.0),
                    None => vstd::pervasive::unreached(),
                };
                proof {
                    self.lemma_parent_replaced(
                        &mid,
                        entry_key,
                        received(e1.0, p.size),
                        e1.1,
                        None,
                        None,
                    );
                    let code = ri_code(global_port, tuple_code(p.src_tuple));
                    let counts = recount(
                        old(self).parents(),
                        old(self).conn_index(),
                        code,
                        entry_key,
                    );
                    assert(self.entrylist@ =~= counts.insert(
                        entry_key,
                        (received(e0.0, p.size), counts[entry_key].1),
                    ));
                    old(self).lemma_model_is_sound();
                    lemma_step_keeps(
                        old(self).model(),
                        self.model(),
                        true,
                        conntuple,
                        flags,
                        now,
                        entry_key,
                        self.idle_timeout_long,
                        self.idle_timeout_short,
                    );
                }
                Some(local)
            },
            None => {
                self.log.push(
                    LogRecord::IngressNotFound {
                        time: now,
                        global_port: p.dst_tuple.1,
                        remote_tuple: p.src_tuple,
                    },
                );
                None
            },
        }
    }

    /// Finds the local endpoint behind an ICMP error: the one whose entry
    /// holds the external port `local_port` under the filter key of the
    /// remote endpoint that the offending segment was sent to. Nothing is
    /// counted.
    pub fn my_transform_icmp_error(
        &mut self,
        local_port: u16,
        remote_addr: u32,
        remote_port: u16,
    ) -> (r: Option<(u32, u16)>)
        requires
            old(self).wf(),
        ensures
            *final(self) == *old(self),
            r == old(self).error_target(local_port, remote_addr, remote_port),
    {
        let remote_key = self.rlhash.get_lk((remote_addr, remote_port));
        proof {
            lemma_entry_by_remote(
                self.entrylist@,
                self.rlhash.locals(),
                self.rlhash.remotes(),
                local_port,
                remote_key,
            );
        }
        let found = match self.rlhash.get_remote(RI { global_port: local_port, nat_key: remote_key }) {
            Some(entry) => Some(*entry),
            None => None,
        };
        match found {
            Some(entry) => {
                match self.entrylist.get(entry) {
                    Some(e) => Some(e.0.local_tuple),
                    None => vstd::pervasive::unreached(),
                }
            },
            None => None,
        }
    }

    /// Creates the entry for the segment `p` with the external port
    /// `global_port`, which the policy has chosen, with the record of its
    /// first connection, and counts the segment.
    fn _insert_and_egress(
        &mut self,
        now: u64,
        p: PacketInfo,
        flags: u8,
        global_port: u16,
        nat_key: LK,
        Ghost(used0): Ghost<Map<u64, MyUnit>>,
    ) -> (r: Option<u16>)
        requires
            old(self).wf_core(None),
            old(self).rlhash.keygen().takes(global_port),
            ports_noted(entry_map(old(self).entrylist@), used0, old(self).rlhash.keygen().strict()),
            old(self).rlhash.used() == claimed(
                used0,
                p.src_tuple,
                old(self).rlhash.keygen().strict(),
                global_port,
            ),
            nat_key == old(self).rlhash.keygen().key_of(p.dst_tuple),
            !old(self).rlhash.locals().contains_key(li_code(p.src_tuple, nat_key.code())),
            port_is_free(
                old(self).rlhash.remotes(),
                used0,
                nat_key.code(),
                p.src_tuple,
                old(self).rlhash.keygen().strict(),
                global_port,
            ),
            old(self).entrylist@.len() < CAPACITY,
            old(self).connlist@.len() < CAPACITY,
            now + old(self).idle_timeout_long <= u64::MAX,
            now + old(self).idle_timeout_short <= u64::MAX,
        ensures
            final(self).wf(),
            final(self).same_setup(old(self)),
            r == Some(global_port),
            ({
                let h = final(self).local_lookup(p.src_tuple, nat_key)->0;
                &&& final(self).local_lookup(p.src_tuple, nat_key) is Some
                &&& h != NULL
                &&& !old(self).entrylist@.contains_key(h)
                &&& final(self).entrylist@ == old(self).entrylist@.insert(
                    h,
                    (sent(fresh(now, nat_key, p.src_tuple, global_port), p.size), 1),
                )
                &&& stepped(
                    old(self).model(),
                    final(self).model(),
                    false,
                    (global_port, p.dst_tuple),
                    flags,
                    now,
                    h,
                    old(self).idle_timeout_long,
                    old(self).idle_timeout_short,
                )
                &&& !old(self).connhash@.contains_key(
                    ri_code(global_port, tuple_code(p.dst_tuple)),
                )
            }),
            final(self).log@ == old(self).log@.push(
                LogRecord::Inserting {
                    time: now,
                    global_port,
                    local_tuple: p.src_tuple,
                    nat_key,
                },
            ),
            final(self).rlhash.last_assigned() == old(self).rlhash.last_assigned().insert(
                tuple_code(p.src_tuple),
                global_port,
            ),
    {
        let ghost parents = self.entrylist@;
        let ghost e1 = fresh(now, nat_key, p.src_tuple, global_port);
        proof {
            self.entrylist.lemma_wf();
        }
        let entry = NatEntry::new(now, nat_key, p.src_tuple, global_port);
        let k = self.entrylist.insert((entry, 1));
        self.rlhash.insert(k, p.src_tuple, global_port, nat_key);
        self.log.push(
            LogRecord::Inserting { time: now, global_port, local_tuple: p.src_tuple, nat_key },
        );
        proof {
            self.lemma_parent_added(old(self), k, e1, used0);
            self.lemma_code_unused(old(self), global_port, p.dst_tuple, used0);
        }
        let ghost mid = *self;
        self.push_connstate(false, (global_port, p.dst_tuple), flags, now, k);
        let ghost mid2 = *self;
        let port = match self.entrylist.get_mut(k) {
            Some(entry) => count_egress(p, &mut entry.0),
            None => vstd::pervasive::unreached(),
        };
        proof {
            self.lemma_parent_replaced(&mid2, k, sent(e1, p.size), 1, None, None);
            assert(self.entrylist@ =~= parents.insert(k, (sent(e1, p.size), 1)));
        }
        Some(port)
    }

    /// With a new entry held and indexed, its port having been noted as
    /// used, the table is well formed but for the count of the new entry,
    /// which is ahead of its records.
    proof fn lemma_parent_added(
        &self,
        before: &Self,
        k: u64,
        e: NatEntry<LK>,
        used0: Map<u64, MyUnit>,
    )
        requires
            before.wf_core(None),
            before.rlhash.keygen().takes(e.global_port),
            ports_noted(entry_map(before.entrylist@), used0, before.rlhash.keygen().strict()),
            before.rlhash.used() == claimed(
                used0,
                e.local_tuple,
                before.rlhash.keygen().strict(),
                e.global_port,
            ),
            !before.rlhash.locals().contains_key(li_of(e)),
            !before.rlhash.remotes().contains_key(ri_of(e)),
            before.rlhash.keygen().strict() ==> !used0.contains_key(used_of(e)),
            !before.entrylist@.contains_key(k),
            self.entrylist.wf(),
            self.entrylist@ == before.entrylist@.insert(k, (e, 1)),
            self.rlhash.keygen() == before.rlhash.keygen(),
            self.rlhash.used() == before.rlhash.used(),
            self.rlhash.locals() == before.rlhash.locals().insert(li_of(e), k),
            self.rlhash.remotes() == before.rlhash.remotes().insert(ri_of(e), k),
            self.rlhash.last_assigned() == before.rlhash.last_assigned().insert(
                tuple_code(e.local_tuple),
                e.global_port,
            ),
            self.connlist == before.connlist,
            self.connhash == before.connhash,
            self.conn_least_longer_than_short_timeout
                == before.conn_least_longer_than_short_timeout,
        ensures
            self.wf_ahead(Some(k)),
    {
        let held0 = before.entrylist@;
        let held = self.entrylist@;
        assert(entry_map(held) =~= entry_map(held0).insert(k, e));
        lemma_coherent_insert(
            entry_map(held0),
            k,
            e,
            before.rlhash.locals(),
            before.rlhash.remotes(),
            used0,
            self.rlhash.keygen().strict(),
            before.rlhash.last_assigned(),
        );
        let items = self.connlist@;
        let cm = as_map(items);
        before.connlist.lemma_distinct();
        assert forall|x: u64| #[trigger] cm.contains_key(x) implies held.contains_key(
            cm[x].belongs_to,
        ) && self.connhash@.contains_key(conn_code_of(held, cm[x])) && self.connhash@[conn_code_of(
            held,
            cm[x],
        )] == x && held[cm[x].belongs_to].0.nat_key == self.rlhash.keygen().key_of(
            cm[x].remote_tuple,
        ) by {
            assert(held0.contains_key(cm[x].belongs_to));
            assert(conn_code_of(held, cm[x]) == conn_code_of(held0, cm[x]));
        }
        assert forall|x: u64| #[trigger] self.connhash@.contains_key(x) implies cm.contains_key(
            self.connhash@[x],
        ) && conn_code_of(held, cm[self.connhash@[x]]) == x by {
            let c = self.connhash@[x];
            assert(cm.contains_key(c));
            assert(held0.contains_key(cm[c].belongs_to));
            assert(conn_code_of(held, cm[c]) == conn_code_of(held0, cm[c]));
        }
        assert(count_of(items, k) == 0) by {
            assert forall|i: int| 0 <= i < items.len() implies (#[trigger] items[i]).1.belongs_to
                != k by {
                lemma_as_map_at(items, i);
                assert(cm.contains_key(items[i].0));
            }
            lemma_count_bounds(items, k);
        }
    }

    /// No connection record has the code of a connection through an
    /// external port that is free under the filter key of the connection's
    /// remote endpoint.
    proof fn lemma_code_unused(
        &self,
        before: &Self,
        global_port: u16,
        remote_tuple: (u32, u16),
        used0: Map<u64, MyUnit>,
    )
        requires
            before.wf_core(None),
            port_is_free(
                before.rlhash.remotes(),
                used0,
                before.rlhash.keygen().key_of(remote_tuple).code(),
                (0, 0),
                false,
                global_port,
            ),
            self.connhash == before.connhash,
        ensures
            !self.connhash@.contains_key(ri_code(global_port, tuple_code(remote_tuple))),
    {
        let code = ri_code(global_port, tuple_code(remote_tuple));
        let held0 = before.entrylist@;
        let cm = as_map(before.connlist@);
        if before.connhash@.contains_key(code) {
            let c = before.connhash@[code];
            assert(cm.contains_key(c));
            let h = cm[c].belongs_to;
            assert(held0.contains_key(h));
            RI::lemma_code_is_one_to_one(
                RI {
                    global_port: held0[h].0.global_port,
                    nat_key: crate::keygen::MyAddrPort(cm[c].remote_tuple.0, cm[c].remote_tuple.1),
                },
                RI {
                    global_port,
                    nat_key: crate::keygen::MyAddrPort(remote_tuple.0, remote_tuple.1),
                },
            );
            assert(entry_map(held0).contains_key(h));
            assert(ri_of(entry_map(held0)[h]) == ri_code(
                global_port,
                before.rlhash.keygen().key_of(remote_tuple).code(),
            ));
        }
    }

    /// The table stays well formed when a connection record is replaced by
    /// one of the same connection.
    proof fn lemma_conn_updated(&self, before: &Self, key: u64, c: ConnInfo)
        requires
            before.wf(),
            holds(before.connlist@, key),
            c.belongs_to == before.connlist@[position(before.connlist@, key)].1.belongs_to,
            c.remote_tuple == before.connlist@[position(before.connlist@, key)].1.remote_tuple,
            self.connlist.wf(),
            self.connlist@ == before.connlist@.update(position(before.connlist@, key), (key, c)),
            self.entrylist == before.entrylist,
            self.rlhash == before.rlhash,
            self.connhash == before.connhash,
            self.conn_least_longer_than_short_timeout
                == before.conn_least_longer_than_short_timeout,
        ensures
            self.wf(),
    {
        let items = before.connlist@;
        let i = position(items, key);
        before.connlist.lemma_distinct();
        lemma_as_map_at(items, i);
        lemma_as_map_update(items, i, c);
        let cm = as_map(items);
        let cm2 = as_map(self.connlist@);
        let parents = self.entrylist@;
        assert(cm2 == cm.insert(key, c));
        assert forall|k: u64| #[trigger] cm2.contains_key(k) implies parents.contains_key(
            cm2[k].belongs_to,
        ) && self.connhash@.contains_key(conn_code_of(parents, cm2[k]))
            && self.connhash@[conn_code_of(parents, cm2[k])] == k by {
            assert(cm.contains_key(k));
        }
        assert forall|x: u64| #[trigger] self.connhash@.contains_key(x) implies cm2.contains_key(
            self.connhash@[x],
        ) && conn_code_of(parents, cm2[self.connhash@[x]]) == x by {
            assert(cm.contains_key(self.connhash@[x]));
        }
        assert forall|h: u64| #[trigger] parents.contains_key(h) implies parents[h].1 >= 1
            && parents[h].1 == count_of(self.connlist@, h) by {
            lemma_count_moved(items, key, key, c, h);
        }
        let pv = self.conn_least_longer_than_short_timeout;
        if pv != NULL {
            assert(cm2.contains_key(pv));
        }
    }

    /// The table stays well formed when a connection record is moved and
    /// replaced by one of the same connection.
    proof fn lemma_conn_moved(&self, before: &Self, to: u64, key: u64, c: ConnInfo)
        requires
            before.wf(),
            holds(before.connlist@, key),
            to == NULL || holds(before.connlist@, to),
            c.belongs_to == before.connlist@[position(before.connlist@, key)].1.belongs_to,
            c.remote_tuple == before.connlist@[position(before.connlist@, key)].1.remote_tuple,
            self.connlist.wf(),
            self.connlist@ == moved_before(before.connlist@, to, key, c),
            self.entrylist == before.entrylist,
            self.rlhash == before.rlhash,
            self.connhash == before.connhash,
            self.conn_least_longer_than_short_timeout == NULL || holds(
                before.connlist@,
                self.conn_least_longer_than_short_timeout,
            ),
        ensures
            self.wf(),
    {
        let items = before.connlist@;
        let i = position(items, key);
        before.connlist.lemma_distinct();
        lemma_as_map_at(items, i);
        lemma_moved_before(items, to, key, c);
        let cm = as_map(items);
        let cm2 = as_map(self.connlist@);
        let parents = self.entrylist@;
        assert(cm2 == cm.insert(key, c));
        assert forall|k: u64| #[trigger] cm2.contains_key(k) implies parents.contains_key(
            cm2[k].belongs_to,
        ) && self.connhash@.contains_key(conn_code_of(parents, cm2[k]))
            && self.connhash@[conn_code_of(parents, cm2[k])] == k by {
            assert(cm.contains_key(k));
        }
        assert forall|x: u64| #[trigger] self.connhash@.contains_key(x) implies cm2.contains_key(
            self.connhash@[x],
        ) && conn_code_of(parents, cm2[self.connhash@[x]]) == x by {
            assert(cm.contains_key(self.connhash@[x]));
        }
        assert forall|h: u64| #[trigger] parents.contains_key(h) implies parents[h].1 >= 1
            && parents[h].1 == count_of(self.connlist@, h) by {
            lemma_count_moved(items, to, key, c, h);
        }
        let pv = self.conn_least_longer_than_short_timeout;
        if pv != NULL {
            assert(cm.contains_key(pv));
            assert(cm2.contains_key(pv));
        }
    }

    /// The table stays well formed when an entry is replaced by one with
    /// the same names, with a count that is right for it.
    proof fn lemma_parent_replaced(
        &self,
        before: &Self,
        h: u64,
        e: NatEntry<LK>,
        n: u64,
        ahead0: Option<u64>,
        ahead: Option<u64>,
    )
        requires
            before.wf_ahead(ahead0),
            before.entrylist@.contains_key(h),
            e.local_tuple == before.entrylist@[h].0.local_tuple,
            e.global_port == before.entrylist@[h].0.global_port,
            e.nat_key == before.entrylist@[h].0.nat_key,
            n >= 1,
            n == count_of(before.connlist@, h) + if ahead == Some(h) {
                1nat
            } else {
                0nat
            },
            ahead0 == ahead || (ahead0 is None && ahead == Some(h)) || (ahead0 == Some(h)
                && ahead is None),
            self.entrylist.wf(),
            self.entrylist@ == before.entrylist@.insert(h, (e, n)),
            self.connlist == before.connlist,
            self.rlhash == before.rlhash,
            self.connhash == before.connhash,
            self.conn_least_longer_than_short_timeout
                == before.conn_least_longer_than_short_timeout,
        ensures
            self.wf_ahead(ahead),
    {
        let held0 = before.entrylist@;
        let held = self.entrylist@;
        assert(entry_map(held) =~= entry_map(held0).insert(h, e));
        lemma_coherent_update(
            entry_map(held0),
            h,
            e,
            self.rlhash.locals(),
            self.rlhash.remotes(),
            self.rlhash.used(),
            self.rlhash.keygen().strict(),
            self.rlhash.last_assigned(),
        );
        let cm = as_map(self.connlist@);
        assert forall|k: u64| #[trigger] cm.contains_key(k) implies held.contains_key(
            cm[k].belongs_to,
        ) && self.connhash@.contains_key(conn_code_of(held, cm[k])) && self.connhash@[conn_code_of(
            held,
            cm[k],
        )] == k && held[cm[k].belongs_to].0.nat_key == self.rlhash.keygen().key_of(
            cm[k].remote_tuple,
        ) by {
            assert(conn_code_of(held, cm[k]) == conn_code_of(held0, cm[k]));
        }
        assert forall|x: u64| #[trigger] self.connhash@.contains_key(x) implies cm.contains_key(
            self.connhash@[x],
        ) && conn_code_of(held, cm[self.connhash@[x]]) == x by {
            let k = self.connhash@[x];
            assert(cm.contains_key(k));
            assert(conn_code_of(held, cm[k]) == conn_code_of(held0, cm[k]));
        }
    }

    /// The connection records, their pivot and their index.
    pub open spec fn model(&self) -> TcpModel {
        TcpModel { conns: self.conns(), pivot: self.pivot(), conn_index: self.conn_index() }
    }
}

/// The connection records of a TCP table, their pivot and their index.
pub struct TcpModel {
    pub conns: Seq<(u64, ConnInfo)>,
    pub pivot: u64,
    pub conn_index: Map<u64, u64>,
}

/// The records have handles of their own, the pivot names one of them or
/// nothing, and the index finds records of the list only.
pub open spec fn model_ok(m: TcpModel) -> bool {
    &&& distinct_handles(m.conns)
    &&& m.pivot == NULL || holds(m.conns, m.pivot)
    &&& forall|c: u64| #[trigger] m.conn_index.contains_key(c) ==> holds(m.conns, m.conn_index[c])
}

/// The connection records after a collection at time `now`: the records
/// at the front that have expired are gone, and the pivot has moved on to
/// the first record that outlives the short timeout.
pub open spec fn swept(a: TcpModel, now: u64, short_timeout: u64) -> TcpModel {
    let rest = a.conns.skip(expired_conns(a.conns, now) as int);
    TcpModel {
        conns: rest,
        pivot: settle(a.conns, a.pivot, now + short_timeout),
        conn_index: surviving_index(a.conn_index, rest),
    }
}

/// How a segment of the connection between the external port `conntuple.0`
/// and the remote endpoint `conntuple.1`, seen at time `now`, changes the
/// connection records from `a` to `b`.
///
/// Where the connection has a record, the segment's flags move the record
/// into its next phase; an outgoing segment, and only that, also renews
/// the record's expiry and files it anew (see `refiled`). Where it has
/// none, a record is made for it, filed just before the pivot as a
/// connection that is not established, and owned by the entry under
/// `entry_key`.
pub open spec fn stepped(
    a: TcpModel,
    b: TcpModel,
    is_ingress: bool,
    conntuple: (u16, (u32, u16)),
    flags: u8,
    now: u64,
    entry_key: u64,
    long_timeout: u64,
    short_timeout: u64,
) -> bool {
    let code = ri_code(conntuple.0, tuple_code(conntuple.1));
    if a.conn_index.contains_key(code) {
        let key = a.conn_index[code];
        let i = position(a.conns, key);
        let state = phase_after(a.conns[i].1, flags, is_ingress, now);
        &&& b.conn_index == a.conn_index
        &&& if is_ingress {
            &&& b.conns == a.conns.update(i, (key, in_phase(a.conns[i].1, state)))
            &&& b.pivot == a.pivot
        } else {
            (b.conns, b.pivot) == refiled(
                a.conns,
                a.pivot,
                key,
                state,
                now,
                long_timeout,
                short_timeout,
            )
        }
    } else {
        let k = b.conn_index[code];
        let pv = settle(a.conns, a.pivot, now + short_timeout);
        &&& k != NULL
        &&& !holds(a.conns, k)
        &&& b.conn_index == a.conn_index.insert(code, k)
        &&& b.conns == put_before(
            a.conns,
            pv,
            k,
            opened(flags, is_ingress, now, short_timeout, entry_key, conntuple.1),
        )
        &&& b.pivot == pv
    }
}

/// The entries with their counts after a segment of the connection with
/// the code `code`, of the entry under `entry_key`: a connection without a
/// record counts as one more.
pub open spec fn recount<LK>(
    parents: Map<u64, (NatEntry<LK>, u64)>,
    conn_index: Map<u64, u64>,
    code: u64,
    entry_key: u64,
) -> Map<u64, (NatEntry<LK>, u64)> {
    if conn_index.contains_key(code) {
        parents
    } else {
        parents.insert(entry_key, (parents[entry_key].0, (parents[entry_key].1 + 1) as u64))
    }
}

/// A pivot that has settled names a record that expires at `limit` or
/// later, or nothing.
pub proof fn lemma_pivot_settled(items: Seq<(u64, ConnInfo)>, pivot: u64, limit: int)
    requires
        distinct_handles(items),
        pivot == NULL || holds(items, pivot),
    ensures
        ({
            let pv = settle(items, pivot, limit);
            &&& pv == NULL || holds(items, pv)
            &&& pv != NULL ==> items[position(items, pv)].1.will_expire >= limit
        }),
{
    let i = pivot_index(items, pivot);
    lemma_settle_index(items, i, limit);
    let t = settle_index(items, i, limit);
    if t < items.len() {
        lemma_position_unique(items, items[t].0, t);
    }
}

/// A pivot that names a record expiring at `limit` or later, or nothing,
/// still does so after a new record has been put before it.
pub proof fn lemma_put_keeps_settled(
    items: Seq<(u64, ConnInfo)>,
    pivot: u64,
    k: u64,
    c: ConnInfo,
    limit: int,
)
    requires
        distinct_handles(items),
        !holds(items, k),
        k != NULL,
        pivot == NULL || (holds(items, pivot) && items[position(items, pivot)].1.will_expire
            >= limit),
    ensures
        settle(put_before(items, pivot, k, c), pivot, limit) == pivot,
{
    let items2 = put_before(items, pivot, k, c);
    lemma_put_before(items, pivot, k, c);
    if pivot != NULL {
        let j = position(items, pivot);
        lemma_as_map_at(items, j);
        assert(as_map(items2).contains_key(pivot));
        let j2 = position(items2, pivot);
        lemma_as_map_at(items2, j2);
    }
    lemma_settle_stays(items2, pivot, limit);
}

/// A pivot that names a record expiring at `limit` or later, or nothing,
/// stays where it is when it settles.
pub proof fn lemma_settle_stays(items: Seq<(u64, ConnInfo)>, pivot: u64, limit: int)
    requires
        distinct_handles(items),
        pivot == NULL || (holds(items, pivot) && items[position(items, pivot)].1.will_expire
            >= limit),
    ensures
        settle(items, pivot, limit) == pivot,
{
    if pivot != NULL {
        let i = position(items, pivot);
        assert(settle_index(items, i, limit) == i);
    } else {
        assert(!holds(items, NULL));
    }
}

/// The entries left with the connection records `rest` are among those
/// there were.
pub proof fn lemma_surviving_len<LK>(
    parents: Map<u64, (NatEntry<LK>, u64)>,
    rest: Seq<(u64, ConnInfo)>,
)
    requires
        parents.dom().finite(),
    ensures
        surviving(parents, rest).dom().finite(),
        surviving(parents, rest).len() <= parents.len(),
{
    assert(surviving(parents, rest).dom().subset_of(parents.dom()));
    vstd::set_lib::lemma_len_subset(surviving(parents, rest).dom(), parents.dom());
}

} // verus!
