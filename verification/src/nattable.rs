//! The translation table for protocols without connection state (UDP and
//! ICMP echo): one entry for each local endpoint and filter key, found from
//! the inside by that pair and from the outside by external port and filter
//! key, and dropped when no packet has left through it for `idle_timeout`
//! seconds.

use crate::arena::CAPACITY;
use crate::keygen::{
    claimed, encode_tuple, encode_used, li_code, pool_is_free, port_is_free, ri_code, tuple_code,
    used_code, FilterKey, KeyGen, MyUnit, LI, RI,
};
use crate::ll::{
    as_map, distinct_handles, holds, LLIter, lemma_as_map_at, lemma_as_map_push,
    lemma_as_map_remove, lemma_as_map_update, lemma_position_unique, position, LList,
};
use crate::util::{
    count_egress, count_ingress, fresh, received, refreshed, sent, status_line, LogRecord,
    NatEntry, PacketInfo, StatusLine,
};
use std::collections::HashMap;
use std::marker::PhantomData;
use vstd::prelude::*;

verus! {

/// The indices of a table: entries by their inside and outside names, the
/// port last assigned to each local endpoint, and the external ports that
/// each local endpoint has in use under a strict policy.
pub struct RLHash<LK: FilterKey, C: KeyGen<LK>> {
    locals: HashMap<u128, u64>,
    locals_last_assigned: HashMap<u64, u16>,
    locals_used_port: HashMap<u64, MyUnit>,
    remotes: HashMap<u64, u64>,
    keygen: C,
    key_type: PhantomData<LK>,
}

impl<LK: FilterKey, C: KeyGen<LK>> RLHash<LK, C> {
    /// Handles by the codes of inside names.
    pub closed spec fn locals(&self) -> Map<u128, u64> {
        self.locals@
    }

    /// Handles by the codes of outside names.
    pub closed spec fn remotes(&self) -> Map<u64, u64> {
        self.remotes@
    }

    /// The port last assigned, by the codes of local endpoints.
    pub closed spec fn last_assigned(&self) -> Map<u64, u16> {
        self.locals_last_assigned@
    }

    /// The codes of the pairs of local endpoint and external port in use.
    pub closed spec fn used(&self) -> Map<u64, MyUnit> {
        self.locals_used_port@
    }

    /// The port-selection policy.
    pub closed spec fn keygen(&self) -> C {
        self.keygen
    }

    /// The filter key that the policy gives a remote endpoint.
    pub open spec fn key_of(&self, remote_tuple: (u32, u16)) -> LK {
        self.keygen().key_of(remote_tuple)
    }

    /// The policy is unchanged but for the state of its random generator.
    pub open spec fn same_policy(&self, other: &Self) -> bool {
        &&& self.keygen().wf() == other.keygen().wf()
        &&& self.keygen().pool() == other.keygen().pool()
        &&& self.keygen().strict() == other.keygen().strict()
        &&& forall|t: (u32, u16)| #[trigger] self.keygen().key_of(t) == other.keygen().key_of(t)
        &&& forall|l: Option<u16>, p: u16| #[trigger]
            self.keygen().hinted(l, p) == other.keygen().hinted(l, p)
        &&& forall|p: u16| #[trigger] self.keygen().takes(p) == other.keygen().takes(p)
    }

    /// Empty indices over the policy `keygen`.
    pub fn new(keygen: C) -> (h: Self)
        ensures
            h.keygen() == keygen,
            h.locals() == Map::<u128, u64>::empty(),
            h.remotes() == Map::<u64, u64>::empty(),
            h.last_assigned() == Map::<u64, u16>::empty(),
            h.used() == Map::<u64, MyUnit>::empty(),
    {
        Self {
            keygen,
            locals: HashMap::new(),
            locals_last_assigned: HashMap::new(),
            locals_used_port: HashMap::new(),
            remotes: HashMap::new(),
            key_type: PhantomData,
        }
    }

    /// The handle of the entry with the inside name `local_key`.
    pub fn get_local(&self, local_key: &LI<LK>) -> (r: Option<&u64>)
        ensures
            match r {
                Some(h) => self.locals().contains_key(local_key.code()) && *h
                    == self.locals()[local_key.code()],
                None => !self.locals().contains_key(local_key.code()),
            },
    {
        let c = local_key.encode();
        self.locals.get(&c)
    }

    /// The handle of the entry with the outside name `remote_key`.
    pub fn get_remote(&self, remote_key: RI<LK>) -> (r: Option<&u64>)
        ensures
            match r {
                Some(h) => self.remotes().contains_key(remote_key.code()) && *h
                    == self.remotes()[remote_key.code()],
                None => !self.remotes().contains_key(remote_key.code()),
            },
    {
        let c = remote_key.encode();
        self.remotes.get(&c)
    }

    /// The filter key of a remote endpoint.
    pub fn get_lk(&self, remote_tuple: (u32, u16)) -> (k: LK)
        ensures
            k == self.key_of(remote_tuple),
    {
        self.keygen.local_key_from_tuple(remote_tuple)
    }

    /// Asks the policy for an external port for a new translation of the
    /// packet `p`, with the port last assigned to the packet's source as
    /// the hint. See `KeyGen::empty_port`: a hinted port that is free is
    /// chosen, and a port is found where every port of the pool is free.
    pub fn get_empty_port(&mut self, p: &PacketInfo) -> (r: Option<u16>)
        requires
            old(self).keygen().wf(),
            old(self).last_assigned().get(tuple_code(p.src_tuple)) matches Some(l) ==> old(
                self,
            ).keygen().takes(l),
        ensures
            final(self).keygen().wf(),
            final(self).same_policy(old(self)),
            final(self).locals() == old(self).locals(),
            final(self).remotes() == old(self).remotes(),
            final(self).last_assigned() == old(self).last_assigned(),
            match r {
                Some(port) => {
                    &&& old(self).keygen().takes(port)
                    &&& port_is_free(
                        old(self).remotes(),
                        old(self).used(),
                        old(self).key_of(p.dst_tuple).code(),
                        p.src_tuple,
                        old(self).keygen().strict(),
                        port,
                    )
                    &&& old(self).keygen().pool().contains(port) || old(self).keygen().hinted(
                        old(self).last_assigned().get(tuple_code(p.src_tuple)),
                        port,
                    )
                    &&& final(self).used() == claimed(
                        old(self).used(),
                        p.src_tuple,
                        old(self).keygen().strict(),
                        port,
                    )
                },
                None => final(self).used() == old(self).used(),
            },
            ({
                let hint = old(self).last_assigned().get(tuple_code(p.src_tuple));
                (exists|c: u16| old(self).keygen().hinted(hint, c)) && (forall|c: u16|
                    old(self).keygen().hinted(hint, c) ==> port_is_free(
                        old(self).remotes(),
                        old(self).used(),
                        old(self).key_of(p.dst_tuple).code(),
                        p.src_tuple,
                        old(self).keygen().strict(),
                        c,
                    )) ==> r is Some && old(self).keygen().hinted(hint, r->0)
            }),
            pool_is_free(
                old(self).keygen().pool(),
                old(self).remotes(),
                old(self).used(),
                old(self).key_of(p.dst_tuple).code(),
                p.src_tuple,
                old(self).keygen().strict(),
            ) ==> r is Some,
    {
        let c = encode_tuple(p.src_tuple);
        let last_assigned = match self.locals_last_assigned.get(&c) {
            Some(port) => Some(*port),
            None => None,
        };
        self.keygen.empty_port(
            &mut self.locals_used_port,
            &self.remotes,
            p.dst_tuple,
            p.src_tuple,
            last_assigned,
        )
    }

    /// Enters the translation of `local_tuple` under the filter key `lk` to
    /// `global_port`, held under the handle `k`, and notes the port as the
    /// one last assigned to `local_tuple`.
    pub fn insert(&mut self, k: u64, local_tuple: (u32, u16), global_port: u16, lk: LK)
        ensures
            final(self).keygen() == old(self).keygen(),
            final(self).used() == old(self).used(),
            final(self).last_assigned() == old(self).last_assigned().insert(
                tuple_code(local_tuple),
                global_port,
            ),
            final(self).locals() == old(self).locals().insert(li_code(local_tuple, lk.code()), k),
            final(self).remotes() == old(self).remotes().insert(ri_code(global_port, lk.code()), k),
    {
        self.locals_last_assigned.insert(encode_tuple(local_tuple), global_port);
        self.locals.insert((LI { local_tuple, lk }).encode(), k);
        self.remotes.insert((RI { global_port, nat_key: lk }).encode(), k);
    }

    /// Takes the translation of `local_tuple` under the filter key `lk` to
    /// `global_port` out of the indices, and notes the port as no longer in
    /// use by `local_tuple`.
    pub fn remove(&mut self, local_tuple: (u32, u16), global_port: u16, lk: LK)
        ensures
            final(self).keygen() == old(self).keygen(),
            final(self).last_assigned() == old(self).last_assigned(),
            final(self).locals() == old(self).locals().remove(li_code(local_tuple, lk.code())),
            final(self).remotes() == old(self).remotes().remove(ri_code(global_port, lk.code())),
            final(self).used() == old(self).used().remove(used_code(local_tuple, global_port)),
    {
        self.locals.remove(&(LI { local_tuple, lk }).encode());
        self.remotes.remove(&(RI { global_port, nat_key: lk }).encode());
        self.locals_used_port.remove(&encode_used(local_tuple, global_port));
    }
}

/// The code of an entry's inside name.
pub open spec fn li_of<LK: FilterKey>(e: NatEntry<LK>) -> u128 {
    li_code(e.local_tuple, e.nat_key.code())
}

/// The code of an entry's outside name.
pub open spec fn ri_of<LK: FilterKey>(e: NatEntry<LK>) -> u64 {
    ri_code(e.global_port, e.nat_key.code())
}

/// The code of an entry's local endpoint with its external port.
pub open spec fn used_of<LK>(e: NatEntry<LK>) -> u64 {
    used_code(e.local_tuple, e.global_port)
}

/// The entries of a list of entries with handles.
pub open spec fn entries_of<LK>(items: Seq<(u64, NatEntry<LK>)>) -> Seq<NatEntry<LK>> {
    items.map_values(|it: (u64, NatEntry<LK>)| it.1)
}

/// Some entry translates `local_tuple` under the filter key `key`.
pub open spec fn has_local<LK>(entries: Seq<NatEntry<LK>>, local_tuple: (u32, u16), key: LK) -> bool {
    exists|i: int|
        0 <= i < entries.len() && (#[trigger] entries[i]).local_tuple == local_tuple
            && entries[i].nat_key == key
}

/// The place of the entry that translates `local_tuple` under `key`.
pub open spec fn local_index<LK>(entries: Seq<NatEntry<LK>>, local_tuple: (u32, u16), key: LK) -> int {
    choose|i: int|
        0 <= i < entries.len() && (#[trigger] entries[i]).local_tuple == local_tuple
            && entries[i].nat_key == key
}

/// Some entry holds the external port `global_port` under the filter key
/// `key`.
pub open spec fn has_remote<LK>(entries: Seq<NatEntry<LK>>, global_port: u16, key: LK) -> bool {
    exists|i: int|
        0 <= i < entries.len() && (#[trigger] entries[i]).global_port == global_port
            && entries[i].nat_key == key
}

/// The place of the entry that holds `global_port` under `key`.
pub open spec fn remote_index<LK>(entries: Seq<NatEntry<LK>>, global_port: u16, key: LK) -> int {
    choose|i: int|
        0 <= i < entries.len() && (#[trigger] entries[i]).global_port == global_port
            && entries[i].nat_key == key
}

/// Some entry translates `local_tuple` to the external port `global_port`.
pub open spec fn has_pair<LK>(
    entries: Seq<NatEntry<LK>>,
    local_tuple: (u32, u16),
    global_port: u16,
) -> bool {
    exists|i: int|
        0 <= i < entries.len() && (#[trigger] entries[i]).local_tuple == local_tuple
            && entries[i].global_port == global_port
}

/// Whether `p` may be given to a new translation of `local_tuple` under
/// `key`, said of the entries: none holds `p` under `key`, and under a
/// strict policy none translates `local_tuple` to `p`.
pub open spec fn port_open<LK>(
    entries: Seq<NatEntry<LK>>,
    key: LK,
    local_tuple: (u32, u16),
    strict: bool,
    p: u16,
) -> bool {
    &&& !has_remote(entries, p, key)
    &&& strict ==> !has_pair(entries, local_tuple, p)
}

/// No packet has left through `e` for more than `idle_timeout` seconds
/// before `now`.
pub open spec fn expired<LK>(e: NatEntry<LK>, now: u64, idle_timeout: u64) -> bool {
    e.last_egress + idle_timeout < now
}

/// How many entries at the front of `entries` have expired, up to the first
/// that has not.
pub open spec fn expired_prefix<LK>(entries: Seq<NatEntry<LK>>, now: u64, idle_timeout: u64) -> nat
    decreases entries.len(),
{
    if entries.len() > 0 && expired(entries[0], now, idle_timeout) {
        1 + expired_prefix(entries.skip(1), now, idle_timeout)
    } else {
        0
    }
}

/// The record of the removal of `e` at time `now`.
pub open spec fn removal<LK>(e: NatEntry<LK>, now: u64) -> LogRecord<LK> {
    LogRecord::Removing {
        time: now,
        global_port: e.global_port,
        local_tuple: e.local_tuple,
        nat_key: e.nat_key,
    }
}

/// The records of the removal of `entries` at time `now`, in their order.
pub open spec fn removals<LK>(entries: Seq<NatEntry<LK>>, now: u64) -> Seq<LogRecord<LK>> {
    entries.map_values(|e: NatEntry<LK>| removal(e, now))
}

/// Every entry's time of last use is at most that of the entries behind it.
pub open spec fn time_ordered<LK>(entries: Seq<NatEntry<LK>>) -> bool {
    forall|i: int, j: int|
        0 <= i <= j < entries.len() ==> (#[trigger] entries[i]).last_egress <= (
        #[trigger] entries[j]).last_egress
}

/// No entry was used after `now`.
pub open spec fn none_after<LK>(entries: Seq<NatEntry<LK>>, now: u64) -> bool {
    forall|i: int| 0 <= i < entries.len() ==> (#[trigger] entries[i]).last_egress <= now
}

/// The indices name exactly the entries held, each under its handle.
pub open spec fn indexed<LK: FilterKey>(
    m: Map<u64, NatEntry<LK>>,
    locals: Map<u128, u64>,
    remotes: Map<u64, u64>,
) -> bool {
    &&& forall|h: u64| #[trigger]
        m.contains_key(h) ==> locals.contains_key(li_of(m[h])) && locals[li_of(m[h])] == h
            && remotes.contains_key(ri_of(m[h])) && remotes[ri_of(m[h])] == h
    &&& forall|c: u128| #[trigger]
        locals.contains_key(c) ==> m.contains_key(locals[c]) && li_of(m[locals[c]]) == c
    &&& forall|c: u64| #[trigger]
        remotes.contains_key(c) ==> m.contains_key(remotes[c]) && ri_of(m[remotes[c]]) == c
}

/// Under a strict policy the record of used ports holds exactly the pairs
/// of the entries held, no two of which have the same pair. Otherwise the
/// record is empty.
pub open spec fn ports_noted<LK>(m: Map<u64, NatEntry<LK>>, used: Map<u64, MyUnit>, strict: bool) -> bool {
    if strict {
        &&& forall|h: u64| #[trigger] m.contains_key(h) ==> used.contains_key(used_of(m[h]))
        &&& forall|c: u64| #[trigger]
            used.contains_key(c) ==> exists|h: u64| #[trigger]
                m.contains_key(h) && used_of(m[h]) == c
        &&& forall|h1: u64, h2: u64|
            #![trigger m.contains_key(h1), m.contains_key(h2)]
            m.contains_key(h1) && m.contains_key(h2) && h1 != h2 ==> used_of(m[h1]) != used_of(
                m[h2],
            )
    } else {
        forall|c: u64| !#[trigger] used.contains_key(c)
    }
}

/// Every local endpoint with an entry has a port noted as last assigned.
pub open spec fn hints_noted<LK>(m: Map<u64, NatEntry<LK>>, hints: Map<u64, u16>) -> bool {
    forall|h: u64| #[trigger] m.contains_key(h) ==> hints.contains_key(tuple_code(m[h].local_tuple))
}

/// Every port noted as last assigned may be handed to the policy.
pub open spec fn hints_taken<LK: FilterKey, C: KeyGen<LK>>(hints: Map<u64, u16>, keygen: C) -> bool {
    forall|c: u64| #[trigger] hints.contains_key(c) ==> keygen.takes(hints[c])
}

/// An entry is found under the code of its inside name exactly if it is
/// among the entries, and no second entry has that name.
pub proof fn lemma_local_lookup<LK: FilterKey>(
    items: Seq<(u64, NatEntry<LK>)>,
    locals: Map<u128, u64>,
    remotes: Map<u64, u64>,
    local_tuple: (u32, u16),
    key: LK,
)
    requires
        distinct_handles(items),
        indexed(as_map(items), locals, remotes),
    ensures
        locals.contains_key(li_code(local_tuple, key.code())) == has_local(
            entries_of(items),
            local_tuple,
            key,
        ),
        has_local(entries_of(items), local_tuple, key) ==> {
            let i = local_index(entries_of(items), local_tuple, key);
            &&& 0 <= i < items.len()
            &&& items[i].0 == locals[li_code(local_tuple, key.code())]
            &&& items[i].1.local_tuple == local_tuple
            &&& items[i].1.nat_key == key
            &&& position(items, items[i].0) == i
        },
{
    let m = as_map(items);
    let es = entries_of(items);
    let c = li_code(local_tuple, key.code());
    if locals.contains_key(c) {
        let h = locals[c];
        assert(m.contains_key(h));
        let i = position(items, h);
        LI::lemma_code_is_one_to_one(
            LI { local_tuple: m[h].local_tuple, lk: m[h].nat_key },
            LI { local_tuple, lk: key },
        );
        assert(es[i].local_tuple == local_tuple && es[i].nat_key == key);
    }
    if has_local(es, local_tuple, key) {
        let i = local_index(es, local_tuple, key);
        lemma_as_map_at(items, i);
        lemma_position_unique(items, items[i].0, i);
    }
}

/// An entry is found under the code of its outside name exactly if it is
/// among the entries, and no second entry has that name.
pub proof fn lemma_remote_lookup<LK: FilterKey>(
    items: Seq<(u64, NatEntry<LK>)>,
    locals: Map<u128, u64>,
    remotes: Map<u64, u64>,
    global_port: u16,
    key: LK,
)
    requires
        distinct_handles(items),
        indexed(as_map(items), locals, remotes),
    ensures
        remotes.contains_key(ri_code(global_port, key.code())) == has_remote(
            entries_of(items),
            global_port,
            key,
        ),
        has_remote(entries_of(items), global_port, key) ==> {
            let i = remote_index(entries_of(items), global_port, key);
            &&& 0 <= i < items.len()
            &&& items[i].0 == remotes[ri_code(global_port, key.code())]
            &&& items[i].1.global_port == global_port
            &&& items[i].1.nat_key == key
            &&& position(items, items[i].0) == i
        },
{
    let m = as_map(items);
    let es = entries_of(items);
    let c = ri_code(global_port, key.code());
    if remotes.contains_key(c) {
        let h = remotes[c];
        assert(m.contains_key(h));
        let i = position(items, h);
        RI::lemma_code_is_one_to_one(
            RI { global_port: m[h].global_port, nat_key: m[h].nat_key },
            RI { global_port, nat_key: key },
        );
        assert(es[i].global_port == global_port && es[i].nat_key == key);
    }
    if has_remote(es, global_port, key) {
        let i = remote_index(es, global_port, key);
        lemma_as_map_at(items, i);
        lemma_position_unique(items, items[i].0, i);
    }
}

/// Under a strict policy a pair of local endpoint and external port is
/// noted as used exactly if some entry has it.
pub proof fn lemma_pair_lookup<LK: FilterKey>(
    items: Seq<(u64, NatEntry<LK>)>,
    used: Map<u64, MyUnit>,
    local_tuple: (u32, u16),
    global_port: u16,
)
    requires
        distinct_handles(items),
        ports_noted(as_map(items), used, true),
    ensures
        used.contains_key(used_code(local_tuple, global_port)) == has_pair(
            entries_of(items),
            local_tuple,
            global_port,
        ),
{
    let m = as_map(items);
    let es = entries_of(items);
    let c = used_code(local_tuple, global_port);
    if used.contains_key(c) {
        let h = choose|h: u64| #[trigger] m.contains_key(h) && used_of(m[h]) == c;
        let i = position(items, h);
        crate::keygen::lemma_used_code_is_one_to_one(
            m[h].local_tuple,
            m[h].global_port,
            local_tuple,
            global_port,
        );
        assert(es[i].local_tuple == local_tuple && es[i].global_port == global_port);
    }
    if has_pair(es, local_tuple, global_port) {
        let i = choose|i: int|
            0 <= i < es.len() && (#[trigger] es[i]).local_tuple == local_tuple && es[i].global_port
                == global_port;
        lemma_as_map_at(items, i);
    }
}

/// The indices stay right when an entry is replaced by one with the same
/// names.
pub proof fn lemma_coherent_update<LK: FilterKey>(
    m: Map<u64, NatEntry<LK>>,
    h: u64,
    e: NatEntry<LK>,
    locals: Map<u128, u64>,
    remotes: Map<u64, u64>,
    used: Map<u64, MyUnit>,
    strict: bool,
    hints: Map<u64, u16>,
)
    requires
        m.contains_key(h),
        e.local_tuple == m[h].local_tuple,
        e.global_port == m[h].global_port,
        e.nat_key == m[h].nat_key,
        indexed(m, locals, remotes),
        ports_noted(m, used, strict),
        hints_noted(m, hints),
    ensures
        indexed(m.insert(h, e), locals, remotes),
        ports_noted(m.insert(h, e), used, strict),
        hints_noted(m.insert(h, e), hints),
{
    let m2 = m.insert(h, e);
    assert forall|x: u64| #[trigger] m2.contains_key(x) implies m.contains_key(x) && li_of(m2[x])
        == li_of(m[x]) && ri_of(m2[x]) == ri_of(m[x]) && used_of(m2[x]) == used_of(m[x]) by {}
    if strict {
        assert forall|c: u64| #[trigger] used.contains_key(c) implies exists|x: u64| #[trigger]
            m2.contains_key(x) && used_of(m2[x]) == c by {
            let x = choose|x: u64| #[trigger] m.contains_key(x) && used_of(m[x]) == c;
            assert(m2.contains_key(x) && used_of(m2[x]) == c);
        }
    }
}

/// The indices stay right when an entry and its index records are removed.
pub proof fn lemma_coherent_remove<LK: FilterKey>(
    m: Map<u64, NatEntry<LK>>,
    h: u64,
    locals: Map<u128, u64>,
    remotes: Map<u64, u64>,
    used: Map<u64, MyUnit>,
    strict: bool,
    hints: Map<u64, u16>,
)
    requires
        m.contains_key(h),
        indexed(m, locals, remotes),
        ports_noted(m, used, strict),
        hints_noted(m, hints),
    ensures
        indexed(m.remove(h), locals.remove(li_of(m[h])), remotes.remove(ri_of(m[h]))),
        ports_noted(m.remove(h), used.remove(used_of(m[h])), strict),
        hints_noted(m.remove(h), hints),
{
    let m2 = m.remove(h);
    let l2 = locals.remove(li_of(m[h]));
    let r2 = remotes.remove(ri_of(m[h]));
    let u2 = used.remove(used_of(m[h]));
    assert forall|x: u64| #[trigger] m2.contains_key(x) implies l2.contains_key(li_of(m2[x]))
        && l2[li_of(m2[x])] == x && r2.contains_key(ri_of(m2[x])) && r2[ri_of(m2[x])] == x by {
        assert(m.contains_key(x));
    }
    assert forall|c: u128| #[trigger] l2.contains_key(c) implies m2.contains_key(l2[c]) && li_of(
        m2[l2[c]],
    ) == c by {
        assert(locals.contains_key(c));
    }
    assert forall|c: u64| #[trigger] r2.contains_key(c) implies m2.contains_key(r2[c]) && ri_of(
        m2[r2[c]],
    ) == c by {
        assert(remotes.contains_key(c));
    }
    if strict {
        assert forall|x: u64| #[trigger] m2.contains_key(x) implies u2.contains_key(
            used_of(m2[x]),
        ) by {
            assert(m.contains_key(x));
        }
        assert forall|c: u64| #[trigger] u2.contains_key(c) implies exists|x: u64| #[trigger]
            m2.contains_key(x) && used_of(m2[x]) == c by {
            assert(used.contains_key(c));
            let x = choose|x: u64| #[trigger] m.contains_key(x) && used_of(m[x]) == c;
            assert(m2.contains_key(x) && used_of(m2[x]) == c);
        }
    }
}

/// The indices stay right when a new entry comes in with its index
/// records, its port having been noted as used where the policy is strict.
pub proof fn lemma_coherent_insert<LK: FilterKey>(
    m: Map<u64, NatEntry<LK>>,
    h: u64,
    e: NatEntry<LK>,
    locals: Map<u128, u64>,
    remotes: Map<u64, u64>,
    used: Map<u64, MyUnit>,
    strict: bool,
    hints: Map<u64, u16>,
)
    requires
        !m.contains_key(h),
        indexed(m, locals, remotes),
        ports_noted(m, used, strict),
        hints_noted(m, hints),
        !locals.contains_key(li_of(e)),
        !remotes.contains_key(ri_of(e)),
        strict ==> !used.contains_key(used_of(e)),
    ensures
        indexed(m.insert(h, e), locals.insert(li_of(e), h), remotes.insert(ri_of(e), h)),
        ports_noted(m.insert(h, e), claimed(used, e.local_tuple, strict, e.global_port), strict),
        hints_noted(m.insert(h, e), hints.insert(tuple_code(e.local_tuple), e.global_port)),
{
    let m2 = m.insert(h, e);
    let l2 = locals.insert(li_of(e), h);
    let r2 = remotes.insert(ri_of(e), h);
    let u2 = claimed(used, e.local_tuple, strict, e.global_port);
    assert forall|x: u64| #[trigger] m2.contains_key(x) implies l2.contains_key(li_of(m2[x]))
        && l2[li_of(m2[x])] == x && r2.contains_key(ri_of(m2[x])) && r2[ri_of(m2[x])] == x by {
        if x != h {
            assert(m.contains_key(x));
        }
    }
    assert forall|c: u128| #[trigger] l2.contains_key(c) implies m2.contains_key(l2[c]) && li_of(
        m2[l2[c]],
    ) == c by {
        if c != li_of(e) {
            assert(locals.contains_key(c));
        }
    }
    assert forall|c: u64| #[trigger] r2.contains_key(c) implies m2.contains_key(r2[c]) && ri_of(
        m2[r2[c]],
    ) == c by {
        if c != ri_of(e) {
            assert(remotes.contains_key(c));
        }
    }
    if strict {
        assert forall|x: u64| #[trigger] m2.contains_key(x) implies u2.contains_key(
            used_of(m2[x]),
        ) by {
            if x != h {
                assert(m.contains_key(x));
            }
        }
        assert forall|c: u64| #[trigger] u2.contains_key(c) implies exists|x: u64| #[trigger]
            m2.contains_key(x) && used_of(m2[x]) == c by {
            if c == used_of(e) {
                assert(m2.contains_key(h) && used_of(m2[h]) == c);
            } else {
                assert(used.contains_key(c));
                let x = choose|x: u64| #[trigger] m.contains_key(x) && used_of(m[x]) == c;
                assert(m2.contains_key(x) && used_of(m2[x]) == c);
            }
        }
        assert forall|h1: u64, h2: u64|
            #![trigger m2.contains_key(h1), m2.contains_key(h2)]
            m2.contains_key(h1) && m2.contains_key(h2) && h1 != h2 implies used_of(m2[h1])
            != used_of(m2[h2]) by {
            if h1 != h {
                assert(m.contains_key(h1));
            }
            if h2 != h {
                assert(m.contains_key(h2));
            }
        }
    }
    assert forall|x: u64| #[trigger] m2.contains_key(x) implies hints.insert(
        tuple_code(e.local_tuple),
        e.global_port,
    ).contains_key(tuple_code(m2[x].local_tuple)) by {
        if x != h {
            assert(m.contains_key(x));
        }
    }
}

/// The translation table for protocols without connection state. Its
/// entries are kept in the order of their last use by an outgoing packet,
/// the longest unused first.
pub struct HashNATTable<LK: FilterKey, C: KeyGen<LK>> {
    idle_timeout: u64,
    name: String,
    entrylist: LList<NatEntry<LK>>,
    rlhash: RLHash<LK, C>,
    log: Vec<LogRecord<LK>>,
}

impl<LK: FilterKey, C: KeyGen<LK>> HashNATTable<LK, C> {
    /// The entries, the longest unused first.
    pub closed spec fn entries(&self) -> Seq<NatEntry<LK>> {
        entries_of(self.entrylist@)
    }

    /// The records not yet taken by `take_log`, the oldest first.
    pub closed spec fn log(&self) -> Seq<LogRecord<LK>> {
        self.log@
    }

    /// The indices.
    pub closed spec fn indices(&self) -> RLHash<LK, C> {
        self.rlhash
    }

    /// The seconds after which an unused entry may be dropped.
    pub closed spec fn idle(&self) -> u64 {
        self.idle_timeout
    }

    /// The table's name.
    pub closed spec fn label(&self) -> String {
        self.name
    }

    /// The filter key of a remote endpoint.
    pub open spec fn key_of(&self, remote_tuple: (u32, u16)) -> LK {
        self.indices().key_of(remote_tuple)
    }

    /// Whether the policy is strict.
    pub open spec fn strict(&self) -> bool {
        self.indices().keygen().strict()
    }

    /// The port last assigned to a local endpoint.
    pub open spec fn hint(&self, local_tuple: (u32, u16)) -> Option<u16> {
        self.indices().last_assigned().get(tuple_code(local_tuple))
    }

    /// The handle under which the indices hold the translation of
    /// `local_tuple` under `key`.
    pub open spec fn local_lookup(&self, local_tuple: (u32, u16), key: LK) -> Option<u64> {
        self.indices().locals().get(li_code(local_tuple, key.code()))
    }

    /// The handle under which the indices hold the translation to
    /// `global_port` under `key`.
    pub open spec fn remote_lookup(&self, global_port: u16, key: LK) -> Option<u64> {
        self.indices().remotes().get(ri_code(global_port, key.code()))
    }

    /// Name, timeout and policy are those of `other`, and so are the ports
    /// last assigned.
    pub open spec fn same_setup(&self, other: &Self) -> bool {
        &&& self.idle() == other.idle()
        &&& self.label() == other.label()
        &&& self.indices().same_policy(&other.indices())
    }

    /// The indices name exactly the entries `m`, the ports in use are
    /// noted, and every local endpoint with an entry has a port noted as
    /// last assigned.
    spec fn coherent(&self, m: Map<u64, NatEntry<LK>>) -> bool {
        &&& indexed(m, self.rlhash.locals(), self.rlhash.remotes())
        &&& ports_noted(m, self.rlhash.used(), self.rlhash.keygen().strict())
        &&& hints_noted(m, self.rlhash.last_assigned())
    }

    /// The list is well formed, the policy can be asked for a port, and the
    /// indices name exactly the entries of the list.
    pub closed spec fn wf(&self) -> bool {
        &&& self.entrylist.wf()
        &&& self.rlhash.keygen().wf()
        &&& self.coherent(as_map(self.entrylist@))
        &&& hints_taken(self.rlhash.last_assigned(), self.rlhash.keygen())
    }

    /// Both indices find every entry, under one handle.
    pub proof fn lemma_indices_agree(&self, i: int)
        requires
            self.wf(),
            0 <= i < self.entries().len(),
        ensures
            ({
                let e = self.entries()[i];
                &&& self.local_lookup(e.local_tuple, e.nat_key) is Some
                &&& self.local_lookup(e.local_tuple, e.nat_key) == self.remote_lookup(
                    e.global_port,
                    e.nat_key,
                )
            }),
    {
        self.entrylist.lemma_distinct();
        lemma_as_map_at(self.entrylist@, i);
    }

    /// The indices find nothing but the entries of the table: a name is
    /// found exactly if some entry has it.
    pub proof fn lemma_indices_hold_entries_only(
        &self,
        local_tuple: (u32, u16),
        global_port: u16,
        key: LK,
    )
        requires
            self.wf(),
        ensures
            self.local_lookup(local_tuple, key) is Some == has_local(
                self.entries(),
                local_tuple,
                key,
            ),
            self.remote_lookup(global_port, key) is Some == has_remote(
                self.entries(),
                global_port,
                key,
            ),
    {
        self.entrylist.lemma_distinct();
        lemma_local_lookup(
            self.entrylist@,
            self.rlhash.locals(),
            self.rlhash.remotes(),
            local_tuple,
            key,
        );
        lemma_remote_lookup(
            self.entrylist@,
            self.rlhash.locals(),
            self.rlhash.remotes(),
            global_port,
            key,
        );
    }

    /// No two entries have the same inside name, and no two the same
    /// outside name.
    pub proof fn lemma_names_are_unique(&self, i: int, j: int)
        requires
            self.wf(),
            0 <= i < self.entries().len(),
            0 <= j < self.entries().len(),
            i != j,
        ensures
            ({
                let a = self.entries()[i];
                let b = self.entries()[j];
                &&& !(a.local_tuple == b.local_tuple && a.nat_key == b.nat_key)
                &&& !(a.global_port == b.global_port && a.nat_key == b.nat_key)
            }),
    {
        self.entrylist.lemma_distinct();
        lemma_as_map_at(self.entrylist@, i);
        lemma_as_map_at(self.entrylist@, j);
    }

    /// Once the first `k` entries are dropped, none of the entries left has
    /// the inside name, the outside name, or under a strict policy the pair
    /// of local endpoint and external port, of a dropped one: no index
    /// finds a dropped entry, and nothing is noted as used for it.
    pub proof fn lemma_dropped_are_gone(&self, k: int, i: int)
        requires
            self.wf(),
            0 <= i < k <= self.entries().len(),
        ensures
            ({
                let e = self.entries()[i];
                let kept = self.entries().skip(k);
                &&& !has_local(kept, e.local_tuple, e.nat_key)
                &&& !has_remote(kept, e.global_port, e.nat_key)
                &&& self.strict() ==> !has_pair(kept, e.local_tuple, e.global_port)
            }),
    {
        let es = self.entries();
        let e = es[i];
        let kept = es.skip(k);
        assert forall|j: int| 0 <= j < kept.len() implies !((#[trigger] kept[j]).local_tuple
            == e.local_tuple && kept[j].nat_key == e.nat_key) && !(kept[j].global_port
            == e.global_port && kept[j].nat_key == e.nat_key) && (self.strict() ==> !(
        kept[j].local_tuple == e.local_tuple && kept[j].global_port == e.global_port)) by {
            assert(kept[j] == es[j + k]);
            self.lemma_names_are_unique(i, j + k);
            if self.strict() {
                self.lemma_strict_uniqueness(i, j + k);
            }
        }
    }

    /// After an outgoing packet that was given the port `port`, both
    /// indices find the packet's entry, under one handle. The entry is the
    /// last of the table, it maps the packet's source to `port` under the
    /// filter key of the packet's destination, and it was last used at the
    /// time of the call.
    pub proof fn lemma_egress_indexes(pre: &Self, post: &Self, p: PacketInfo, now: u64, port: u16)
        requires
            pre.wf(),
            post.wf(),
            Self::egressed(pre, post, p, now, Some(port)),
        ensures
            ({
                let lk = pre.key_of(p.dst_tuple);
                let last = post.entries().last();
                &&& post.entries().len() > 0
                &&& last.local_tuple == p.src_tuple
                &&& last.global_port == port
                &&& last.nat_key == lk
                &&& last.last_egress == now
                &&& post.local_lookup(p.src_tuple, lk) is Some
                &&& post.local_lookup(p.src_tuple, lk) == post.remote_lookup(port, lk)
            }),
    {
        post.lemma_indices_agree(post.entries().len() - 1);
    }

    /// After an outgoing packet for which there was no entry, the entries
    /// of before that are left are those behind the expired ones at the
    /// front, each as it was; the packet's entry, if it got one, comes
    /// behind them. No index finds an entry that was dropped, unless its
    /// outside name was given to the packet's entry. Where the entries
    /// stood in the order of their last use, the entries dropped are
    /// exactly those that had expired.
    pub proof fn lemma_egress_collects(
        pre: &Self,
        post: &Self,
        p: PacketInfo,
        now: u64,
        r: Option<u16>,
        i: int,
    )
        requires
            pre.wf(),
            post.wf(),
            Self::egressed(pre, post, p, now, r),
            !has_local(pre.entries(), p.src_tuple, pre.key_of(p.dst_tuple)),
            0 <= i < pre.entries().len(),
        ensures
            ({
                let es = pre.entries();
                let e = es[i];
                let k = expired_prefix(es, now, pre.idle()) as int;
                &&& 0 <= k <= es.len()
                &&& post.entries().len() == es.len() - k + if r is Some {
                    1int
                } else {
                    0int
                }
                &&& i >= k ==> post.entries()[i - k] == e
                &&& i < k ==> post.local_lookup(e.local_tuple, e.nat_key) is None
                &&& i < k && post.remote_lookup(e.global_port, e.nat_key) is Some ==> r == Some(
                    e.global_port,
                ) && e.nat_key == pre.key_of(p.dst_tuple)
                &&& time_ordered(es) ==> (expired(e, now, pre.idle()) <==> i < k)
            }),
    {
        let es = pre.entries();
        let e = es[i];
        let lk = pre.key_of(p.dst_tuple);
        let k = expired_prefix(es, now, pre.idle()) as int;
        let kept = es.skip(k);
        lemma_expired_prefix_bound(es, now, pre.idle());
        if time_ordered(es) {
            lemma_collection_is_exact(es, now, pre.idle());
        }
        if i >= k {
            assert(kept[i - k] == e);
        } else {
            pre.lemma_dropped_are_gone(k, i);
            post.lemma_indices_hold_entries_only(e.local_tuple, e.global_port, e.nat_key);
            let fs = post.entries();
            if has_local(fs, e.local_tuple, e.nat_key) {
                let j = local_index(fs, e.local_tuple, e.nat_key);
                if j < kept.len() {
                    assert(fs[j] == kept[j]);
                }
            }
            if has_remote(fs, e.global_port, e.nat_key) {
                let j = remote_index(fs, e.global_port, e.nat_key);
                if j < kept.len() {
                    assert(fs[j] == kept[j]);
                }
            }
        }
    }

    /// Under a strict policy no two entries map one local endpoint to one
    /// external port, whatever their filter keys.
    pub proof fn lemma_strict_uniqueness(&self, i: int, j: int)
        requires
            self.wf(),
            self.strict(),
            0 <= i < self.entries().len(),
            0 <= j < self.entries().len(),
            i != j,
        ensures
            ({
                let a = self.entries()[i];
                let b = self.entries()[j];
                !(a.local_tuple == b.local_tuple && a.global_port == b.global_port)
            }),
    {
        self.entrylist.lemma_distinct();
        lemma_as_map_at(self.entrylist@, i);
        lemma_as_map_at(self.entrylist@, j);
        let m = as_map(self.entrylist@);
        assert(m.contains_key(self.entrylist@[i].0) && m.contains_key(self.entrylist@[j].0));
    }

    /// Under a strict policy the record of used ports notes exactly the
    /// pairs of local endpoint and external port that the entries have;
    /// under any other it notes nothing.
    pub proof fn lemma_used_ports_are_noted(&self, local_tuple: (u32, u16), global_port: u16)
        requires
            self.wf(),
        ensures
            self.indices().used().contains_key(used_code(local_tuple, global_port)) == (
            self.strict() && has_pair(self.entries(), local_tuple, global_port)),
    {
        if self.strict() {
            self.entrylist.lemma_distinct();
            lemma_pair_lookup(self.entrylist@, self.rlhash.used(), local_tuple, global_port);
        }
    }

    /// An empty table over the policy `keygen`, which must be able to give
    /// ports.
    pub fn new(name: String, idle_timeout: u64, keygen: C) -> (t: Self)
        requires
            keygen.wf(),
        ensures
            t.wf(),
            t.entries() == Seq::<NatEntry<LK>>::empty(),
            t.log() == Seq::<LogRecord<LK>>::empty(),
            t.idle() == idle_timeout,
            t.label() == name,
            t.indices().keygen() == keygen,
            t.indices().locals() == Map::<u128, u64>::empty(),
            t.indices().remotes() == Map::<u64, u64>::empty(),
            t.indices().last_assigned() == Map::<u64, u16>::empty(),
            t.indices().used() == Map::<u64, MyUnit>::empty(),
    {
        let t = Self {
            name,
            idle_timeout,
            entrylist: LList::new(),
            rlhash: RLHash::new(keygen),
            log: Vec::new(),
        };
        assert(t.entries() =~= Seq::<NatEntry<LK>>::empty());
        assert(as_map(t.entrylist@) =~= Map::<u64, NatEntry<LK>>::empty());
        t
    }

    /// The number of entries.
    pub fn len(&self) -> (n: usize)
        requires
            self.wf(),
        ensures
            n == self.entries().len(),
    {
        self.entrylist.len()
    }

    /// The table's name.
    pub fn name(&self) -> (n: &String)
        ensures
            *n == self.label(),
    {
        &self.name
    }

    /// The seconds after which an unused entry may be dropped.
    pub fn idle_timeout(&self) -> (t: u64)
        ensures
            t == self.idle(),
    {
        self.idle_timeout
    }

    /// What the table shows of itself: a line for each entry, the longest
    /// unused first.
    pub fn status(&self) -> (lines: Vec<StatusLine<LK>>)
        requires
            self.wf(),
        ensures
            lines@ == self.entries().map_values(|e: NatEntry<LK>| status_line(e, self.idle())),
    {
        let mut lines: Vec<StatusLine<LK>> = Vec::new();
        let mut it = LLIter(&self.entrylist, self.entrylist.head());
        let ghost items = self.entrylist@;
        let ghost n: int = 0;
        proof {
            self.entrylist.lemma_distinct();
        }
        loop
            invariant
                self.wf(),
                it.0 == &self.entrylist,
                items == self.entrylist@,
                distinct_handles(items),
                0 <= n <= items.len(),
                it.1 == if n < items.len() {
                    items[n].0
                } else {
                    crate::arena::NULL
                },
                lines@ == self.entries().take(n).map_values(
                    |e: NatEntry<LK>| status_line(e, self.idle()),
                ),
            ensures
                n == items.len(),
                lines@ == self.entries().take(n).map_values(
                    |e: NatEntry<LK>| status_line(e, self.idle()),
                ),
            decreases items.len() - n,
        {
            proof {
                if n < items.len() {
                    lemma_position_unique(items, items[n].0, n);
                }
            }
            match it.next() {
                Some((e, _k)) => {
                    lines.push(
                        StatusLine {
                            expires: e.last_egress.wrapping_add(self.idle_timeout),
                            global_port: e.global_port,
                            local_tuple: e.local_tuple,
                            nat_key: e.nat_key,
                        },
                    );
                    proof {
                        let f = |e: NatEntry<LK>| status_line(e, self.idle());
                        assert(self.entries().take(n + 1).map_values(f) =~= self.entries().take(
                            n,
                        ).map_values(f).push(f(self.entries()[n])));
                        n = n + 1;
                    }
                },
                None => {
                    break ;
                },
            }
        }
        assert(self.entries().take(n) =~= self.entries());
        lines
    }

    /// Hands out the records made since the last call, the oldest first.
    pub fn take_log(&mut self) -> (records: Vec<LogRecord<LK>>)
        requires
            old(self).wf(),
        ensures
            final(self).wf(),
            records@ == old(self).log(),
            final(self).log() == Seq::<LogRecord<LK>>::empty(),
            final(self).entries() == old(self).entries(),
            final(self).indices() == old(self).indices(),
            final(self).same_setup(old(self)),
    {
        let mut records = Vec::new();
        std::mem::swap(&mut self.log, &mut records);
        records
    }

    /// What `my_transform_egress` does with the packet `p` at time `now`:
    /// it takes the table from `pre` to `post` and gives `r`.
    pub open spec fn egressed(
        pre: &Self,
        post: &Self,
        p: PacketInfo,
        now: u64,
        r: Option<u16>,
    ) -> bool {
        let lk = pre.key_of(p.dst_tuple);
        let es = pre.entries();
        if has_local(es, p.src_tuple, lk) {
            let i = local_index(es, p.src_tuple, lk);
            &&& r == Some(es[i].global_port)
            &&& post.entries() == es.remove(i).push(
                sent(refreshed(es[i], now), p.size),
            )
            &&& post.log() == pre.log()
            &&& post.indices().last_assigned() == pre.indices().last_assigned()
        } else {
            let k = expired_prefix(es, now, pre.idle()) as int;
            let kept = es.skip(k);
            let hint = pre.hint(p.src_tuple);
            let policy = pre.indices().keygen();
            &&& match r {
                Some(port) => {
                    &&& post.entries() == kept.push(
                        sent(fresh(now, lk, p.src_tuple, port), p.size),
                    )
                    &&& port_open(kept, lk, p.src_tuple, policy.strict(), port)
                    &&& policy.pool().contains(port) || policy.hinted(hint, port)
                    &&& post.log() =~= pre.log() + removals(es.take(k), now)
                        + seq![
                        LogRecord::Inserting {
                            time: now,
                            global_port: port,
                            local_tuple: p.src_tuple,
                            nat_key: lk,
                        },
                    ]
                    &&& post.indices().last_assigned() == pre.indices().last_assigned().insert(
                        tuple_code(p.src_tuple),
                        port,
                    )
                },
                None => {
                    &&& post.entries() == kept
                    &&& post.log() =~= pre.log() + removals(es.take(k), now)
                        + seq![
                        LogRecord::NoEmptyPort {
                            time: now,
                            local_tuple: p.src_tuple,
                            nat_key: lk,
                        },
                    ]
                    &&& post.indices().last_assigned() == pre.indices().last_assigned()
                },
            }
            &&& kept.len() >= CAPACITY ==> r is None
            &&& kept.len() < CAPACITY && (exists|c: u16| policy.hinted(hint, c)) && (forall|c: u16|
                policy.hinted(hint, c) ==> port_open(
                    kept,
                    lk,
                    p.src_tuple,
                    policy.strict(),
                    c,
                )) ==> r is Some && policy.hinted(hint, r->0)
            &&& (forall|c: u16|
                policy.pool().contains(c) || policy.hinted(hint, c) ==> !port_open(
                    kept,
                    lk,
                    p.src_tuple,
                    policy.strict(),
                    c,
                )) ==> r is None
            &&& kept.len() < CAPACITY && (forall|c: u16| #[trigger]
                policy.pool().contains(c) ==> port_open(
                    kept,
                    lk,
                    p.src_tuple,
                    policy.strict(),
                    c,
                )) ==> r is Some
        }
    }

    /// What `my_transform_ingress` does with the packet `p` at time `now`:
    /// it takes the table from `pre` to `post` and gives `r`.
    pub open spec fn ingressed(
        pre: &Self,
        post: &Self,
        p: PacketInfo,
        now: u64,
        r: Option<(u32, u16)>,
    ) -> bool {
        let key = pre.key_of(p.src_tuple);
        let es = pre.entries();
        if has_remote(es, p.dst_tuple.1, key) {
            let i = remote_index(es, p.dst_tuple.1, key);
            &&& r == Some(es[i].local_tuple)
            &&& post.entries() == es.update(i, received(es[i], p.size))
            &&& post.log() == pre.log()
        } else {
            &&& r is None
            &&& post.entries() == es
            &&& post.log() == pre.log().push(
                LogRecord::IngressNotFound {
                    time: now,
                    global_port: p.dst_tuple.1,
                    remote_tuple: p.src_tuple,
                },
            )
        }
    }

    /// The local endpoint that an ICMP error is for: that of the entry
    /// which holds the external port `local_port` under the filter key of
    /// the remote endpoint.
    pub open spec fn error_target(
        &self,
        local_port: u16,
        remote_addr: u32,
        remote_port: u16,
    ) -> Option<(u32, u16)> {
        let key = self.key_of((remote_addr, remote_port));
        let es = self.entries();
        if has_remote(es, local_port, key) {
            Some(es[remote_index(es, local_port, key)].local_tuple)
        } else {
            None
        }
    }

    /// Whether the table has room for one more entry.
    pub open spec fn accepts(&self) -> bool {
        self.entries().len() < CAPACITY
    }

    /// Whether the table has room for one more entry.
    pub fn has_room(&self) -> (b: bool)
        requires
            self.wf(),
        ensures
            b == self.accepts(),
    {
        self.entrylist.len() < CAPACITY
    }

    /// The external port that stands for `local_tuple` under the filter
    /// key `key`, if an entry maps it.
    pub open spec fn mapped_port(&self, local_tuple: (u32, u16), key: LK) -> Option<u16> {
        let es = self.entries();
        if has_local(es, local_tuple, key) {
            Some(es[local_index(es, local_tuple, key)].global_port)
        } else {
            None
        }
    }

    /// What `my_transform_egress` gives is the external port that the
    /// table maps the packet's source to afterwards, if it does.
    pub proof fn lemma_egress_answer(pre: &Self, post: &Self, p: PacketInfo, now: u64, r: Option<u16>)
        requires
            pre.wf(),
            post.wf(),
            Self::egressed(pre, post, p, now, r),
        ensures
            r == post.mapped_port(p.src_tuple, pre.key_of(p.dst_tuple)),
    {
        let lk = pre.key_of(p.dst_tuple);
        let es = pre.entries();
        let fs = post.entries();
        if has_local(fs, p.src_tuple, lk) {
            let j = local_index(fs, p.src_tuple, lk);
            if j != fs.len() - 1 {
                if has_local(es, p.src_tuple, lk) || r is Some {
                    assert(fs[fs.len() - 1].local_tuple == p.src_tuple && fs[fs.len() - 1].nat_key
                        == lk);
                    post.lemma_names_are_unique(j, fs.len() - 1);
                } else {
                    let k = expired_prefix(es, now, pre.idle()) as int;
                    lemma_expired_prefix_bound(es, now, pre.idle());
                    lemma_has_local_skip(es, k, p.src_tuple, lk);
                }
            } else if !has_local(es, p.src_tuple, lk) && r is None {
                let k = expired_prefix(es, now, pre.idle()) as int;
                lemma_expired_prefix_bound(es, now, pre.idle());
                lemma_has_local_skip(es, k, p.src_tuple, lk);
            }
        } else {
            if has_local(es, p.src_tuple, lk) || r is Some {
                assert(fs[fs.len() - 1].local_tuple == p.src_tuple && fs[fs.len() - 1].nat_key
                    == lk);
            }
        }
    }

    /// Translates an outgoing packet seen at time `now`: gives the external
    /// port to send it from, or nothing if the packet must be dropped.
    ///
    /// Where an entry translates the packet's source under the filter key
    /// of its destination, that entry is used: it becomes the most recently
    /// used one. Otherwise the entries at the front that have expired are
    /// dropped first, and the policy is asked for a port for a new entry.
    /// The policy's choice is random; whatever it is, the port is free
    /// among the entries left, and comes from the pool or the hint. A
    /// hinted port that is free is always chosen, and a port is always
    /// found where every port of the pool is free among the entries left.
    /// Only a table that is full once the expired entries are gone takes no
    /// new entry: it asks for no port, and reports that none was found.
    pub fn my_transform_egress(&mut self, p: PacketInfo, now: u64) -> (r: Option<u16>)
        requires
            old(self).wf(),
        ensures
            final(self).wf(),
            final(self).same_setup(old(self)),
            time_ordered(old(self).entries()) && none_after(old(self).entries(), now)
                ==> time_ordered(final(self).entries()) && none_after(final(self).entries(), now),
            Self::egressed(old(self), final(self), p, now, r),
    {
        let local_key = self.rlhash.get_lk(p.dst_tuple);
        let li = LI { local_tuple: p.src_tuple, lk: local_key };
        let ghost items = self.entrylist@;
        proof {
            self.entrylist.lemma_distinct();
            lemma_local_lookup(
                items,
                self.rlhash.locals(),
                self.rlhash.remotes(),
                p.src_tuple,
                local_key,
            );
        }
        let found = match self.rlhash.get_local(&li) {
            Some(entry) => Some(*entry),
            None => None,
        };
        if let Some(entry) = found {
            let ghost i = local_index(entries_of(items), p.src_tuple, local_key);
            let d = self.entrylist.move_to_tail_and_get(entry);
            d.last_egress = now;
            let port = count_egress(p, d);
            proof {
                let e2 = sent(refreshed(items[i].1, now), p.size);
                lemma_as_map_at(items, i);
                lemma_as_map_remove(items, i);
                lemma_as_map_push(items.remove(i), entry, e2);
                assert(as_map(items).remove(entry).insert(entry, e2) =~= as_map(items).insert(
                    entry,
                    e2,
                ));
                lemma_coherent_update(
                    as_map(items),
                    entry,
                    e2,
                    self.rlhash.locals(),
                    self.rlhash.remotes(),
                    self.rlhash.used(),
                    self.rlhash.keygen().strict(),
                    self.rlhash.last_assigned(),
                );
                assert(self.entries() =~= old(self).entries().remove(i).push(e2));
                lemma_order_after_use(old(self).entries(), i, e2, now);
            }
            Some(port)
        } else {
            self.gc(now);
            let ghost kept = self.entrylist@;
            let ghost used0 = self.rlhash.used();
            let ghost g = self.rlhash.keygen();
            let ghost g_remotes = self.rlhash.remotes();
            proof {
                lemma_order_after_skip(
                    old(self).entries(),
                    expired_prefix(old(self).entries(), now, self.idle_timeout) as int,
                    now,
                );
                self.entrylist.lemma_distinct();
            }
            if self.entrylist.len() >= CAPACITY {
                // no room for a new entry: no port is asked for
                self.log.push(
                    LogRecord::NoEmptyPort { time: now, local_tuple: p.src_tuple, nat_key: li.lk },
                );
                return None;
            }
            let global_port = self.rlhash.get_empty_port(&p);
            proof {
                assert forall|c: u16|
                    port_is_free(
                        self.rlhash.remotes(),
                        used0,
                        local_key.code(),
                        p.src_tuple,
                        self.rlhash.keygen().strict(),
                        c,
                    ) == port_open(
                        entries_of(kept),
                        local_key,
                        p.src_tuple,
                        self.rlhash.keygen().strict(),
                        c,
                    ) by {
                    lemma_remote_lookup(
                        kept,
                        self.rlhash.locals(),
                        self.rlhash.remotes(),
                        c,
                        local_key,
                    );
                    if self.rlhash.keygen().strict() {
                        lemma_pair_lookup(kept, used0, p.src_tuple, c);
                    }
                }
            }
            proof {
                let policy = old(self).rlhash.keygen();
                let hint = old(self).hint(p.src_tuple);
                let strict = policy.strict();
                if (exists|c: u16| policy.hinted(hint, c)) && (forall|c: u16|
                    policy.hinted(hint, c) ==> port_open(
                        entries_of(kept),
                        local_key,
                        p.src_tuple,
                        strict,
                        c,
                    )) {
                    let w = choose|c: u16| policy.hinted(hint, c);
                    assert(g.hinted(hint, w));
                    assert forall|c: u16| g.hinted(hint, c) implies port_is_free(
                        g_remotes,
                        used0,
                        local_key.code(),
                        p.src_tuple,
                        strict,
                        c,
                    ) by {
                        assert(policy.hinted(hint, c));
                        assert(port_open(entries_of(kept), local_key, p.src_tuple, strict, c));
                    }
                }
            }
            match global_port {
                Some(port) => {
                    proof {
                        lemma_local_lookup(
                            kept,
                            self.rlhash.locals(),
                            self.rlhash.remotes(),
                            p.src_tuple,
                            local_key,
                        );
                        if has_local(entries_of(kept), p.src_tuple, local_key) {
                            lemma_has_local_skip(
                                entries_of(items),
                                expired_prefix(entries_of(items), now, self.idle_timeout) as int,
                                p.src_tuple,
                                local_key,
                            );
                        }
                    }
                    proof {
                        lemma_order_after_push(
                            entries_of(kept),
                            sent(fresh(now, local_key, p.src_tuple, port), p.size),
                            now,
                        );
                    }
                    self._insert_and_egress(now, p, port, li.lk, Ghost(used0))
                },
                None => {
                    self.log.push(
                        LogRecord::NoEmptyPort {
                            time: now,
                            local_tuple: p.src_tuple,
                            nat_key: li.lk,
                        },
                    );
                    None
                },
            }
        }
    }

    /// Translates an incoming packet seen at time `now`: gives the local
    /// endpoint to deliver it to, or nothing if no entry holds the packet's
    /// destination port under the filter key of its source. The entry found
    /// counts the packet and keeps its place.
    pub fn my_transform_ingress(&mut self, p: PacketInfo, now: u64) -> (r: Option<(u32, u16)>)
        requires
            old(self).wf(),
        ensures
            final(self).wf(),
            final(self).same_setup(old(self)),
            final(self).indices() == old(self).indices(),
            Self::ingressed(old(self), final(self), p, now, r),
    {
        let remote_key = self.rlhash.get_lk(p.src_tuple);
        let ghost items = self.entrylist@;
        proof {
            self.entrylist.lemma_distinct();
            lemma_remote_lookup(
                items,
                self.rlhash.locals(),
                self.rlhash.remotes(),
                p.dst_tuple.1,
                remote_key,
            );
        }
        let found = match self.rlhash.get_remote(
            RI { global_port: p.dst_tuple.1, nat_key: remote_key },
        ) {
            Some(entry) => Some(*entry),
            None => None,
        };
        match found {
            Some(entry) => {
                let ghost i = remote_index(entries_of(items), p.dst_tuple.1, remote_key);
                let local = match self.entrylist.get_mut(entry) {
                    Some(e) => count_ingress(p, e),
                    None => vstd::pervasive::unreached(),
                };
                proof {
                    let e2 = received(items[i].1, p.size);
                    lemma_as_map_at(items, i);
                    lemma_as_map_update(items, i, e2);
                    lemma_coherent_update(
                        as_map(items),
                        entry,
                        e2,
                        self.rlhash.locals(),
                        self.rlhash.remotes(),
                        self.rlhash.used(),
                        self.rlhash.keygen().strict(),
                        self.rlhash.last_assigned(),
                    );
                    assert(self.entries() =~= old(self).entries().update(i, e2));
                }
                Some(local)
            },
            None => {
                self.log.push(
                    LogRecord::IngressNotFound {
                        time: now,
                        global_port: p.dst_tuple.1,
                        remote_tuple: p.src_tuple,
                    },
                );
                None
            },
        }
    }

    /// Finds the local endpoint behind an ICMP error: the one whose
    /// translation holds the external port `local_port` under the filter
    /// key of the remote endpoint that the offending packet was sent to.
    /// Nothing is counted.
    pub fn my_transform_icmp_error(
        &mut self,
        local_port: u16,
        remote_addr: u32,
        remote_port: u16,
    ) -> (r: Option<(u32, u16)>)
        requires
            old(self).wf(),
        ensures
            *final(self) == *old(self),
            r == old(self).error_target(local_port, remote_addr, remote_port),
    {
        let remote_key = self.rlhash.get_lk((remote_addr, remote_port));
        proof {
            self.entrylist.lemma_distinct();
            lemma_remote_lookup(
                self.entrylist@,
                self.rlhash.locals(),
                self.rlhash.remotes(),
                local_port,
                remote_key,
            );
        }
        let found = match self.rlhash.get_remote(RI { global_port: local_port, nat_key: remote_key }) {
            Some(entry) => Some(*entry),
            None => None,
        };
        match found {
            Some(entry) => {
                match self.entrylist.get(entry) {
                    Some(e) => Some(e.local_tuple),
                    None => vstd::pervasive::unreached(),
                }
            },
            None => None,
        }
    }

    /// Drops the entries at the front of the list that have expired, up to
    /// the first that has not, and reports each. Where the entries stand in
    /// the order of their last use, these are all the expired entries and
    /// no others (see `lemma_collection_is_exact`); no index finds a dropped
    /// entry afterwards (see `lemma_dropped_are_gone`).
    pub fn gc(&mut self, now: u64)
        requires
            old(self).wf(),
        ensures
            final(self).wf(),
            final(self).same_setup(old(self)),
            final(self).indices().last_assigned() == old(self).indices().last_assigned(),
            time_ordered(old(self).entries()) && none_after(old(self).entries(), now)
                ==> time_ordered(final(self).entries()) && none_after(final(self).entries(), now),
            ({
                let es = old(self).entries();
                let k = expired_prefix(es, now, old(self).idle()) as int;
                &&& 0 <= k <= es.len()
                &&& final(self).entries() == es.skip(k)
                &&& final(self).log() == old(self).log() + removals(es.take(k), now)
            }),
    {
        let items_before = now.saturating_sub(self.idle_timeout);
        let ghost es = self.entries();
        let ghost k = expired_prefix(es, now, self.idle_timeout) as int;
        let ghost c: int = 0;
        let mut running = true;
        proof {
            lemma_expired_prefix_bound(es, now, self.idle_timeout);
            lemma_order_after_skip(es, k, now);
            assert(es.skip(0) =~= es);
            assert(old(self).log() + removals(es.take(0), now) =~= old(self).log());
        }
        while running
            invariant
                self.wf(),
                self.same_setup(old(self)),
                self.rlhash.last_assigned() == old(self).rlhash.last_assigned(),
                es == old(self).entries(),
                k == expired_prefix(es, now, self.idle_timeout),
                items_before == now.saturating_sub(self.idle_timeout),
                0 <= c <= k <= es.len(),
                self.entries() == es.skip(c),
                c + expired_prefix(self.entries(), now, self.idle_timeout) == k,
                self.log() == old(self).log() + removals(es.take(c), now),
                !running ==> c == k,
            decreases self.entries().len() + (if running { 1nat } else { 0nat }),
        {
            let ghost items = self.entrylist@;
            proof {
                self.entrylist.lemma_distinct();
                if items.len() > 0 {
                    lemma_position_unique(items, items[0].0, 0);
                    lemma_as_map_at(items, 0);
                    lemma_as_map_remove(items, 0);
                }
            }
            let head = self.entrylist.head();
            let stale = match self.entrylist.get(head) {
                Some(e) => e.last_egress < items_before,
                None => false,
            };
            if stale {
                match self.entrylist.pop_head() {
                    Some(t) => {
                        self.log.push(
                            LogRecord::Removing {
                                time: now,
                                global_port: t.global_port,
                                local_tuple: t.local_tuple,
                                nat_key: t.nat_key,
                            },
                        );
                        proof {
                            lemma_coherent_remove(
                                as_map(items),
                                head,
                                self.rlhash.locals(),
                                self.rlhash.remotes(),
                                self.rlhash.used(),
                                self.rlhash.keygen().strict(),
                                self.rlhash.last_assigned(),
                            );
                        }
                        self.rlhash.remove(t.local_tuple, t.global_port, t.nat_key);
                        proof {
                            assert(self.entries() =~= es.skip(c).skip(1));
                            assert(es.skip(c).skip(1) =~= es.skip(c + 1));
                            assert(removals(es.take(c + 1), now) =~= removals(es.take(c), now).push(
                                removal(es[c], now),
                            ));
                            assert(es.skip(c)[0] == es[c]);
                            c = c + 1;
                        }
                    },
                    None => {
                        running = false;
                    },
                }
            } else {
                running = false;
            }
        }
    }

    /// Creates the entry for the packet `p` with the external port
    /// `global_port`, which the policy has chosen, and counts the packet.
    fn _insert_and_egress(
        &mut self,
        now: u64,
        p: PacketInfo,
        global_port: u16,
        lk: LK,
        Ghost(used0): Ghost<Map<u64, MyUnit>>,
    ) -> (r: Option<u16>)
        requires
            old(self).entrylist.wf(),
            old(self).entrylist@.len() < CAPACITY,
            old(self).rlhash.keygen().wf(),
            hints_taken(old(self).rlhash.last_assigned(), old(self).rlhash.keygen()),
            old(self).rlhash.keygen().takes(global_port),
            indexed(as_map(old(self).entrylist@), old(self).rlhash.locals(), old(self).rlhash.remotes()),
            hints_noted(as_map(old(self).entrylist@), old(self).rlhash.last_assigned()),
            ports_noted(as_map(old(self).entrylist@), used0, old(self).rlhash.keygen().strict()),
            old(self).rlhash.used() == claimed(
                used0,
                p.src_tuple,
                old(self).rlhash.keygen().strict(),
                global_port,
            ),
            !old(self).rlhash.locals().contains_key(li_code(p.src_tuple, lk.code())),
            port_is_free(
                old(self).rlhash.remotes(),
                used0,
                lk.code(),
                p.src_tuple,
                old(self).rlhash.keygen().strict(),
                global_port,
            ),
        ensures
            final(self).wf(),
            final(self).same_setup(old(self)),
            r == Some(global_port),
            final(self).entries() == old(self).entries().push(
                sent(fresh(now, lk, p.src_tuple, global_port), p.size),
            ),
            final(self).log() == old(self).log().push(
                LogRecord::Inserting {
                    time: now,
                    global_port,
                    local_tuple: p.src_tuple,
                    nat_key: lk,
                },
            ),
            final(self).rlhash.last_assigned() == old(self).rlhash.last_assigned().insert(
                tuple_code(p.src_tuple),
                global_port,
            ),
    {
        let ghost items = self.entrylist@;
        let ghost e1 = fresh(now, lk, p.src_tuple, global_port);
        let ghost e2 = sent(e1, p.size);
        proof {
            self.entrylist.lemma_distinct();
        }
        let entry = NatEntry::new(now, lk, p.src_tuple, global_port);
        let k = self.entrylist.push_tail(entry);
        self.rlhash.insert(k, p.src_tuple, global_port, lk);
        self.log.push(
            LogRecord::Inserting { time: now, global_port, local_tuple: p.src_tuple, nat_key: lk },
        );
        proof {
            lemma_as_map_push(items, k, e1);
            lemma_position_unique(items.push((k, e1)), k, items.len() as int);
        }
        let port = match self.entrylist.get_mut(k) {
            Some(e) => count_egress(p, e),
            None => vstd::pervasive::unreached(),
        };
        proof {
            assert(self.entrylist@ =~= items.push((k, e2)));
            lemma_as_map_push(items, k, e2);
            assert(!as_map(items).contains_key(k));
            lemma_coherent_insert(
                as_map(items),
                k,
                e2,
                old(self).rlhash.locals(),
                old(self).rlhash.remotes(),
                used0,
                self.rlhash.keygen().strict(),
                old(self).rlhash.last_assigned(),
            );
            assert(self.entries() =~= old(self).entries().push(e2));
        }
        Some(port)
    }
}

/// The expired entries at the front of a list are no more than the list.
pub proof fn lemma_expired_prefix_bound<LK>(entries: Seq<NatEntry<LK>>, now: u64, idle_timeout: u64)
    ensures
        expired_prefix(entries, now, idle_timeout) <= entries.len(),
    decreases entries.len(),
{
    if entries.len() > 0 && expired(entries[0], now, idle_timeout) {
        lemma_expired_prefix_bound(entries.skip(1), now, idle_timeout);
    }
}

/// An entry found behind the first `k` entries is an entry of the list.
pub proof fn lemma_has_local_skip<LK>(
    entries: Seq<NatEntry<LK>>,
    k: int,
    local_tuple: (u32, u16),
    key: LK,
)
    requires
        0 <= k <= entries.len(),
        has_local(entries.skip(k), local_tuple, key),
    ensures
        has_local(entries, local_tuple, key),
{
    let i = local_index(entries.skip(k), local_tuple, key);
    assert(entries[i + k] == entries.skip(k)[i]);
}

/// The order of last use is kept when an entry is used at time `now`, at
/// which none was used later, and goes to the end.
pub proof fn lemma_order_after_use<LK>(
    entries: Seq<NatEntry<LK>>,
    i: int,
    e: NatEntry<LK>,
    now: u64,
)
    requires
        0 <= i < entries.len(),
        e.last_egress == now,
    ensures
        time_ordered(entries) && none_after(entries, now) ==> time_ordered(
            entries.remove(i).push(e),
        ) && none_after(entries.remove(i).push(e), now),
{
    if time_ordered(entries) && none_after(entries, now) {
        let es = entries.remove(i).push(e);
        assert forall|a: int| 0 <= a < es.len() - 1 implies #[trigger] es[a] == entries[if a < i {
            a
        } else {
            a + 1
        }] by {}
        assert forall|a: int, b: int| 0 <= a <= b < es.len() implies (#[trigger] es[a]).last_egress
            <= (#[trigger] es[b]).last_egress by {
            if b < es.len() - 1 {
                assert(es[a] == entries[if a < i { a } else { a + 1 }]);
                assert(es[b] == entries[if b < i { b } else { b + 1 }]);
            } else if a < es.len() - 1 {
                assert(es[a] == entries[if a < i { a } else { a + 1 }]);
            }
        }
        assert forall|a: int| 0 <= a < es.len() implies (#[trigger] es[a]).last_egress <= now by {
            if a < es.len() - 1 {
                assert(es[a] == entries[if a < i { a } else { a + 1 }]);
            }
        }
    }
}

/// The order of last use is kept when entries at the front are dropped.
pub proof fn lemma_order_after_skip<LK>(entries: Seq<NatEntry<LK>>, k: int, now: u64)
    requires
        0 <= k <= entries.len(),
    ensures
        time_ordered(entries) && none_after(entries, now) ==> time_ordered(entries.skip(k))
            && none_after(entries.skip(k), now),
{
    if time_ordered(entries) && none_after(entries, now) {
        let kept = entries.skip(k);
        assert forall|a: int, b: int| 0 <= a <= b < kept.len() implies (
        #[trigger] kept[a]).last_egress <= (#[trigger] kept[b]).last_egress by {
            assert(kept[a] == entries[a + k]);
            assert(kept[b] == entries[b + k]);
        }
        assert forall|a: int| 0 <= a < kept.len() implies (#[trigger] kept[a]).last_egress
            <= now by {
            assert(kept[a] == entries[a + k]);
        }
    }
}

/// The order of last use is kept when an entry used at time `now`, at
/// which none was used later, comes in at the end.
pub proof fn lemma_order_after_push<LK>(entries: Seq<NatEntry<LK>>, e: NatEntry<LK>, now: u64)
    requires
        e.last_egress == now,
    ensures
        time_ordered(entries) && none_after(entries, now) ==> time_ordered(entries.push(e))
            && none_after(entries.push(e), now),
{
    if time_ordered(entries) && none_after(entries, now) {
        let es = entries.push(e);
        assert forall|a: int, b: int| 0 <= a <= b < es.len() implies (#[trigger] es[a]).last_egress
            <= (#[trigger] es[b]).last_egress by {
            if a < entries.len() {
                assert(es[a] == entries[a]);
            }
            if b < entries.len() {
                assert(es[b] == entries[b]);
            }
        }
        assert forall|a: int| 0 <= a < es.len() implies (#[trigger] es[a]).last_egress <= now by {
            if a < entries.len() {
                assert(es[a] == entries[a]);
            }
        }
    }
}

/// Where the entries stand in the order of their last use, the expired
/// ones are exactly those at the front that a collection drops: none that
/// is left has expired, and none that has not expired is dropped.
pub proof fn lemma_collection_is_exact<LK>(entries: Seq<NatEntry<LK>>, now: u64, idle_timeout: u64)
    requires
        time_ordered(entries),
    ensures
        expired_prefix(entries, now, idle_timeout) <= entries.len(),
        forall|i: int|
            0 <= i < entries.len() ==> (expired(#[trigger] entries[i], now, idle_timeout) <==> i
                < expired_prefix(entries, now, idle_timeout)),
    decreases entries.len(),
{
    if entries.len() > 0 {
        let rest = entries.skip(1);
        assert forall|a: int, b: int| 0 <= a <= b < rest.len() implies (
        #[trigger] rest[a]).last_egress <= (#[trigger] rest[b]).last_egress by {
            assert(rest[a] == entries[a + 1]);
            assert(rest[b] == entries[b + 1]);
        }
        lemma_collection_is_exact(rest, now, idle_timeout);
        assert forall|i: int| 0 <= i < entries.len() implies (expired(
            #[trigger] entries[i],
            now,
            idle_timeout,
        ) <==> i < expired_prefix(entries, now, idle_timeout)) by {
            if i > 0 {
                assert(entries[i] == rest[i - 1]);
                assert(entries[0].last_egress <= entries[i].last_egress);
            }
        }
    }
}

} // verus!
