//! Filter keys and the policies that choose external ports.
//!
//! A policy says how much of a remote endpoint a translation remembers (its
//! filter key) and which external ports it may hand to a new translation.
//! The tables index their entries by integer codes of the keys defined
//! here; each kind of code is one-to-one.

use rand::rngs::ThreadRng;
use rand::Rng;
use std::collections::HashMap;
use vstd::prelude::*;

verus! {

/// `rand::rngs::ThreadRng`, of which nothing is known but that it can be
/// drawn from.
#[verifier::external_type_specification]
#[verifier::external_body]
pub struct ExThreadRng(ThreadRng);

/// `rand::thread_rng`: the calling thread's generator. The call ends the
/// program if the operating system has no seed to give.
#[verifier::external_body]
fn thread_generator() -> ThreadRng {
    rand::thread_rng()
}

/// `Rng::gen::<usize>`: some number. Nothing is known of it. The call ends
/// the program if the generator is due for a new seed and the operating
/// system has none to give.
#[verifier::external_body]
fn draw(rng: &mut ThreadRng) -> usize {
    rng.gen::<usize>()
}

/// The number of codes set aside for filter keys: 2^48.
pub const KEY_SPACE: u64 = 0x1_0000_0000_0000;

/// The number of ports: 2^16.
pub const PORT_SPACE: u64 = 0x1_0000;

/// A filter key: what a translation remembers of the remote endpoint it was
/// made for. Its code tells two keys apart.
pub trait FilterKey: Copy {
    /// The key's code.
    spec fn code(self) -> u64;

    /// The key's code.
    fn encode(&self) -> (c: u64)
        ensures
            c == self.code(),
    ;

    /// No code leaves the space set aside for the codes of filter keys.
    proof fn lemma_code_bound(self)
        ensures
            self.code() < KEY_SPACE,
    ;

    /// Two keys with one code are one key.
    proof fn lemma_code_is_one_to_one(a: Self, b: Self)
        requires
            a.code() == b.code(),
        ensures
            a == b,
    ;

    /// The printable form of the key: what it remembers of the remote
    /// endpoint, with `*` for what it does not.
    spec fn text(self) -> Seq<char>;

    /// Writes the key.
    fn to_text(&self) -> (s: String)
        ensures
            s@ == self.text(),
    ;
}

/// Remembers the remote address and port.
#[derive(Eq, Hash, PartialEq, Copy, Clone, Structural)]
pub struct MyAddrPort(pub u32, pub u16);

/// Remembers nothing: every remote endpoint matches.
#[derive(Eq, Hash, PartialEq, Copy, Clone, Structural)]
pub struct MyUnit();

/// Remembers the remote address.
#[derive(Eq, Hash, PartialEq, Copy, Clone, Structural)]
pub struct MyAddr(pub u32);

/// The code of an endpoint: the address above the port.
pub open spec fn tuple_code(tuple: (u32, u16)) -> u64 {
    (tuple.0 * PORT_SPACE + tuple.1) as u64
}

/// The code of an endpoint.
pub fn encode_tuple(tuple: (u32, u16)) -> (c: u64)
    ensures
        c == tuple_code(tuple),
        c < KEY_SPACE,
{
    (tuple.0 as u64) * PORT_SPACE + (tuple.1 as u64)
}

impl MyAddrPort {
    /// The key that remembers the endpoint `tuple`.
    pub fn from_t(tuple: (u32, u16)) -> (k: Self)
        ensures
            k == MyAddrPort(tuple.0, tuple.1),
    {
        Self(tuple.0, tuple.1)
    }
}

impl FilterKey for MyAddrPort {
    open spec fn code(self) -> u64 {
        tuple_code((self.0, self.1))
    }

    fn encode(&self) -> (c: u64) {
        encode_tuple((self.0, self.1))
    }

    open spec fn text(self) -> Seq<char> {
        crate::text::endpoint((self.0, self.1))
    }

    fn to_text(&self) -> (s: String) {
        crate::text::endpoint_text((self.0, self.1))
    }

    proof fn lemma_code_bound(self) {
    }

    proof fn lemma_code_is_one_to_one(a: Self, b: Self) {
    }
}

impl FilterKey for MyUnit {
    open spec fn code(self) -> u64 {
        0
    }

    fn encode(&self) -> (c: u64) {
        0
    }

    open spec fn text(self) -> Seq<char> {
        "*:*"@
    }

    fn to_text(&self) -> (s: String) {
        String::from_str("*:*")
    }

    proof fn lemma_code_bound(self) {
    }

    proof fn lemma_code_is_one_to_one(a: Self, b: Self) {
    }
}

impl FilterKey for MyAddr {
    open spec fn code(self) -> u64 {
        self.0 as u64
    }

    fn encode(&self) -> (c: u64) {
        self.0 as u64
    }

    open spec fn text(self) -> Seq<char> {
        crate::text::dotted(self.0) + ":*"@
    }

    fn to_text(&self) -> (s: String) {
        let mut s = crate::text::dotted_text(self.0);
        s.append(":*");
        s
    }

    proof fn lemma_code_bound(self) {
    }

    proof fn lemma_code_is_one_to_one(a: Self, b: Self) {
    }
}

/// The inside name of a table entry: the local endpoint and the filter key.
#[derive(Eq, Hash, PartialEq)]
pub struct LI<T> {
    pub local_tuple: (u32, u16),
    pub lk: T,
}

/// The outside name of a table entry: the external port and the filter
/// key.
#[derive(Eq, Hash, PartialEq)]
pub struct RI<T> {
    pub global_port: u16,
    pub nat_key: T,
}

/// The code of a local endpoint with a filter key's code.
pub open spec fn li_code(local_tuple: (u32, u16), key_code: u64) -> u128 {
    (tuple_code(local_tuple) * KEY_SPACE + key_code) as u128
}

/// The code of an external port with a filter key's code.
pub open spec fn ri_code(global_port: u16, key_code: u64) -> u64 {
    (global_port * KEY_SPACE + key_code) as u64
}

/// The code of a local endpoint with an external port.
pub open spec fn used_code(local_tuple: (u32, u16), global_port: u16) -> u64 {
    (tuple_code(local_tuple) * PORT_SPACE + global_port) as u64
}

impl<T: FilterKey> LI<T> {
    /// The code of the name.
    pub open spec fn code(self) -> u128 {
        li_code(self.local_tuple, self.lk.code())
    }

    /// The code of the name.
    pub fn encode(&self) -> (c: u128)
        ensures
            c == self.code(),
    {
        let t = encode_tuple(self.local_tuple);
        let k = self.lk.encode();
        proof {
            self.lk.lemma_code_bound();
        }
        (t as u128) * (KEY_SPACE as u128) + (k as u128)
    }

    /// Two inside names with one code are one name.
    pub proof fn lemma_code_is_one_to_one(a: Self, b: Self)
        requires
            a.code() == b.code(),
        ensures
            a == b,
    {
        a.lk.lemma_code_bound();
        b.lk.lemma_code_bound();
        assert(a.lk.code() == b.lk.code());
        T::lemma_code_is_one_to_one(a.lk, b.lk);
    }
}

impl<T: FilterKey> RI<T> {
    /// The code of the name.
    pub open spec fn code(self) -> u64 {
        ri_code(self.global_port, self.nat_key.code())
    }

    /// The code of the name.
    pub fn encode(&self) -> (c: u64)
        ensures
            c == self.code(),
    {
        let k = self.nat_key.encode();
        proof {
            self.nat_key.lemma_code_bound();
        }
        (self.global_port as u64) * KEY_SPACE + k
    }

    /// Two outside names with one code are one name.
    pub proof fn lemma_code_is_one_to_one(a: Self, b: Self)
        requires
            a.code() == b.code(),
        ensures
            a == b,
    {
        a.nat_key.lemma_code_bound();
        b.nat_key.lemma_code_bound();
        assert(a.nat_key.code() == b.nat_key.code());
        T::lemma_code_is_one_to_one(a.nat_key, b.nat_key);
    }
}

/// The code of an endpoint with an external port.
pub fn encode_used(local_tuple: (u32, u16), global_port: u16) -> (c: u64)
    ensures
        c == used_code(local_tuple, global_port),
{
    encode_tuple(local_tuple) * PORT_SPACE + (global_port as u64)
}

/// Two pairs of endpoint and port with one code are one pair.
pub proof fn lemma_used_code_is_one_to_one(a: (u32, u16), p: u16, b: (u32, u16), q: u16)
    requires
        used_code(a, p) == used_code(b, q),
    ensures
        a == b,
        p == q,
{
}

/// Two endpoints with one code are one endpoint.
pub proof fn lemma_tuple_code_is_one_to_one(a: (u32, u16), b: (u32, u16))
    requires
        tuple_code(a) == tuple_code(b),
    ensures
        a == b,
{
}

/// Whether external port `p` may be given to a new translation of the
/// local endpoint `local_tuple` under the filter key with code `key_code`:
/// no translation with that key has it, and under a strict policy the local
/// endpoint has not used it either.
pub open spec fn port_is_free(
    remotes: Map<u64, u64>,
    used: Map<u64, MyUnit>,
    key_code: u64,
    local_tuple: (u32, u16),
    strict: bool,
    p: u16,
) -> bool {
    &&& !remotes.contains_key(ri_code(p, key_code))
    &&& strict ==> !used.contains_key(used_code(local_tuple, p))
}

/// The record of used ports once `p` is given to `local_tuple`: a strict
/// policy notes the pair, another keeps no record.
pub open spec fn claimed(
    used: Map<u64, MyUnit>,
    local_tuple: (u32, u16),
    strict: bool,
    p: u16,
) -> Map<u64, MyUnit> {
    if strict {
        used.insert(used_code(local_tuple, p), MyUnit())
    } else {
        used
    }
}

/// Whether every port of `pool` is free: then whichever port is drawn may
/// be given out.
pub open spec fn pool_is_free(
    pool: Seq<u16>,
    remotes: Map<u64, u64>,
    used: Map<u64, MyUnit>,
    key_code: u64,
    local_tuple: (u32, u16),
    strict: bool,
) -> bool {
    forall|p: u16| #[trigger]
        pool.contains(p) ==> port_is_free(remotes, used, key_code, local_tuple, strict, p)
}

/// Takes the candidate `test_port` if it is free, and says whether it did.
pub fn try_port(
    locals_used_port: &mut HashMap<u64, MyUnit>,
    remotes: &HashMap<u64, u64>,
    key_code: u64,
    local_tuple: (u32, u16),
    strict: bool,
    test_port: u16,
) -> (taken: bool)
    requires
        key_code < KEY_SPACE,
    ensures
        taken == port_is_free(
            remotes@,
            old(locals_used_port)@,
            key_code,
            local_tuple,
            strict,
            test_port,
        ),
        final(locals_used_port)@ == if taken {
            claimed(old(locals_used_port)@, local_tuple, strict, test_port)
        } else {
            old(locals_used_port)@
        },
{
    let rc: u64 = (test_port as u64) * KEY_SPACE + key_code;
    if remotes.get(&rc).is_some() {
        return false;
    }
    if strict {
        let uc = encode_used(local_tuple, test_port);
        if locals_used_port.get(&uc).is_some() {
            return false;
        }
        locals_used_port.insert(uc, MyUnit());
    }
    true
}

/// The port of a pool that the number `n` selects.
pub open spec fn drawn_port(pool: Seq<u16>, n: usize) -> u16 {
    pool[(n as int) % (pool.len() as int)]
}

/// The port of a pool that the number `n` selects.
pub fn port_at(pool: &Vec<u16>, n: usize) -> (p: u16)
    requires
        pool.len() > 0,
    ensures
        p == drawn_port(pool@, n),
        pool@.contains(p),
{
    pool[n % pool.len()]
}

/// The number of random candidates tried before a policy gives up.
pub const RANDOM_TRIES: usize = 19;

/// Draws candidates from the pool at random until one is free, nineteen at
/// most, and takes that one. Where every port of the pool is free, the
/// first one drawn is taken, whichever it is; where the draws fail, some
/// port of the pool was not free.
fn draw_free_port(
    rng: &mut ThreadRng,
    pool: &Vec<u16>,
    locals_used_port: &mut HashMap<u64, MyUnit>,
    remotes: &HashMap<u64, u64>,
    key_code: u64,
    local_tuple: (u32, u16),
    strict: bool,
) -> (r: Option<u16>)
    requires
        pool.len() > 0,
        key_code < KEY_SPACE,
    ensures
        match r {
            Some(p) => {
                &&& pool@.contains(p)
                &&& port_is_free(
                    remotes@,
                    old(locals_used_port)@,
                    key_code,
                    local_tuple,
                    strict,
                    p,
                )
                &&& final(locals_used_port)@ == claimed(
                    old(locals_used_port)@,
                    local_tuple,
                    strict,
                    p,
                )
            },
            None => final(locals_used_port)@ == old(locals_used_port)@,
        },
        pool_is_free(
            pool@,
            remotes@,
            old(locals_used_port)@,
            key_code,
            local_tuple,
            strict,
        ) ==> r is Some,
{
    let mut tries: usize = 0;
    while tries < RANDOM_TRIES
        invariant
            pool.len() > 0,
            key_code < KEY_SPACE,
            locals_used_port@ == old(locals_used_port)@,
            tries > 0 ==> !pool_is_free(
                pool@,
                remotes@,
                old(locals_used_port)@,
                key_code,
                local_tuple,
                strict,
            ),
        decreases RANDOM_TRIES - tries,
    {
        let test_port = port_at(pool, draw(rng));
        if try_port(locals_used_port, remotes, key_code, local_tuple, strict, test_port) {
            return Some(test_port);
        }
        // a port of the pool that is not free
        assert(pool@.contains(test_port));
        tries = tries + 1;
    }
    None
}

/// Whether the function `f` can be called on every port of `pool` and on
/// every port that it gives itself: then it can be called on every port
/// that a policy with this pool and this successor function ever assigns.
pub open spec fn accepts_own_ports<F: Fn(u16) -> u16>(pool: Seq<u16>, f: F) -> bool {
    &&& forall|p: u16| #[trigger] pool.contains(p) ==> call_requires(f, (p,))
    &&& forall|p: u16, q: u16|
        call_requires(f, (p,)) && #[trigger] call_ensures(f, (p,), q) ==> call_requires(f, (q,))
}

/// A port-selection policy for tables whose filter keys are of type `LK`.
pub trait KeyGen<LK: FilterKey> {
    /// The policy can be asked for a port: its pool holds one at least.
    spec fn wf(&self) -> bool;

    /// The external ports that the policy draws from.
    spec fn pool(&self) -> Seq<u16>;

    /// Whether a local endpoint never gets the same external port twice,
    /// whatever the remote endpoint.
    spec fn strict(&self) -> bool;

    /// The filter key of a remote endpoint.
    spec fn key_of(&self, remote_tuple: (u32, u16)) -> LK;

    /// Whether `p` can be the candidate that the policy tries before any
    /// random one, given the port last assigned to the local endpoint.
    spec fn hinted(&self, last_assigned: Option<u16>, p: u16) -> bool;

    /// Whether `port` may be handed to the policy as the port last
    /// assigned to a local endpoint. Every port of the pool may, and every
    /// port that the policy has chosen.
    spec fn takes(&self, port: u16) -> bool;

    /// The filter key of a remote endpoint.
    fn local_key_from_tuple(&self, remote_tuple: (u32, u16)) -> (k: LK)
        ensures
            k == self.key_of(remote_tuple),
    ;

    /// Chooses an external port for a new entry that maps `local_tuple`
    /// towards `remote_tuple`. The port chosen is free, and it is the
    /// hinted one or one of the pool. A hinted port that is free is always
    /// chosen, and a port is always found where every port of the pool is
    /// free. Past that the choice is random, and may fail while free ports
    /// remain.
    fn empty_port(
        &mut self,
        locals_used_port: &mut HashMap<u64, MyUnit>,
        remotes: &HashMap<u64, u64>,
        remote_tuple: (u32, u16),
        local_tuple: (u32, u16),
        last_assigned: Option<u16>,
    ) -> (r: Option<u16>)
        requires
            old(self).wf(),
            last_assigned matches Some(l) ==> old(self).takes(l),
        ensures
            final(self).wf(),
            final(self).pool() == old(self).pool(),
            final(self).strict() == old(self).strict(),
            forall|t: (u32, u16)| #[trigger] final(self).key_of(t) == old(self).key_of(t),
            forall|l: Option<u16>, p: u16| #[trigger]
                final(self).hinted(l, p) == old(self).hinted(l, p),
            forall|p: u16| #[trigger] final(self).takes(p) == old(self).takes(p),
            match r {
                Some(p) => {
                    &&& old(self).takes(p)
                    &&& port_is_free(
                        remotes@,
                        old(locals_used_port)@,
                        old(self).key_of(remote_tuple).code(),
                        local_tuple,
                        old(self).strict(),
                        p,
                    )
                    &&& old(self).pool().contains(p) || old(self).hinted(last_assigned, p)
                    &&& final(locals_used_port)@ == claimed(
                        old(locals_used_port)@,
                        local_tuple,
                        old(self).strict(),
                        p,
                    )
                },
                None => final(locals_used_port)@ == old(locals_used_port)@,
            },
            (exists|c: u16| old(self).hinted(last_assigned, c)) && (forall|c: u16|
                old(self).hinted(last_assigned, c) ==> port_is_free(
                    remotes@,
                    old(locals_used_port)@,
                    old(self).key_of(remote_tuple).code(),
                    local_tuple,
                    old(self).strict(),
                    c,
                )) ==> r is Some && old(self).hinted(last_assigned, r->0),
            (forall|c: u16|
                old(self).pool().contains(c) || old(self).hinted(last_assigned, c) ==> !port_is_free(
                    remotes@,
                    old(locals_used_port)@,
                    old(self).key_of(remote_tuple).code(),
                    local_tuple,
                    old(self).strict(),
                    c,
                )) ==> r is None,
            pool_is_free(
                old(self).pool(),
                remotes@,
                old(locals_used_port)@,
                old(self).key_of(remote_tuple).code(),
                local_tuple,
                old(self).strict(),
            ) ==> r is Some,
    ;
}

/// Address-and-port-dependent keys; every port is drawn at random.
pub struct QuasiSymmetric {
    rng: ThreadRng,
    global_ports: Vec<u16>,
}

impl QuasiSymmetric {
    /// A policy that draws from `global_ports`.
    pub fn new(global_ports: Vec<u16>) -> (g: Self)
        ensures
            g.pool() == global_ports@,
    {
        Self { rng: thread_generator(), global_ports }
    }
}

impl KeyGen<MyAddrPort> for QuasiSymmetric {
    open spec fn wf(&self) -> bool {
        self.pool().len() > 0
    }

    closed spec fn pool(&self) -> Seq<u16> {
        self.global_ports@
    }

    open spec fn strict(&self) -> bool {
        false
    }

    open spec fn key_of(&self, remote_tuple: (u32, u16)) -> MyAddrPort {
        MyAddrPort(remote_tuple.0, remote_tuple.1)
    }

    open spec fn hinted(&self, last_assigned: Option<u16>, p: u16) -> bool {
        false
    }

    open spec fn takes(&self, port: u16) -> bool {
        true
    }

    fn local_key_from_tuple(&self, remote_tuple: (u32, u16)) -> (k: MyAddrPort) {
        MyAddrPort::from_t(remote_tuple)
    }

    fn empty_port(
        &mut self,
        locals_used_port: &mut HashMap<u64, MyUnit>,
        remotes: &HashMap<u64, u64>,
        remote_tuple: (u32, u16),
        local_tuple: (u32, u16),
        last_assigned: Option<u16>,
    ) -> (r: Option<u16>) {
        let key = self.local_key_from_tuple(remote_tuple);
        proof {
            key.lemma_code_bound();
        }
        let key_code = key.encode();
        draw_free_port(
            &mut self.rng,
            &self.global_ports,
            locals_used_port,
            remotes,
            key_code,
            local_tuple,
            false,
        )
    }
}

/// Endpoint-independent mapping and filtering: one key for every remote
/// endpoint; every port is drawn at random.
pub struct FullCone {
    rng: ThreadRng,
    global_ports: Vec<u16>,
}

impl FullCone {
    /// A policy that draws from `global_ports`.
    pub fn new(global_ports: Vec<u16>) -> (g: Self)
        ensures
            g.pool() == global_ports@,
    {
        Self { rng: thread_generator(), global_ports }
    }

    /// Every remote endpoint has the same filter key: what was sent to one
    /// may be answered by any.
    pub proof fn lemma_any_remote_matches(&self, a: (u32, u16), b: (u32, u16))
        ensures
            self.key_of(a) == self.key_of(b),
    {
    }
}

impl KeyGen<MyUnit> for FullCone {
    open spec fn wf(&self) -> bool {
        self.pool().len() > 0
    }

    closed spec fn pool(&self) -> Seq<u16> {
        self.global_ports@
    }

    open spec fn strict(&self) -> bool {
        false
    }

    open spec fn key_of(&self, remote_tuple: (u32, u16)) -> MyUnit {
        MyUnit()
    }

    open spec fn hinted(&self, last_assigned: Option<u16>, p: u16) -> bool {
        false
    }

    open spec fn takes(&self, port: u16) -> bool {
        true
    }

    fn local_key_from_tuple(&self, remote_tuple: (u32, u16)) -> (k: MyUnit) {
        MyUnit()
    }

    fn empty_port(
        &mut self,
        locals_used_port: &mut HashMap<u64, MyUnit>,
        remotes: &HashMap<u64, u64>,
        remote_tuple: (u32, u16),
        local_tuple: (u32, u16),
        last_assigned: Option<u16>,
    ) -> (r: Option<u16>) {
        let key = self.local_key_from_tuple(remote_tuple);
        proof {
            key.lemma_code_bound();
        }
        let key_code = key.encode();
        draw_free_port(
            &mut self.rng,
            &self.global_ports,
            locals_used_port,
            remotes,
            key_code,
            local_tuple,
            false,
        )
    }
}

/// Address-dependent filtering; the port last assigned to the local
/// endpoint is tried first.
pub struct QuasiRestrictedCone {
    rng: ThreadRng,
    global_ports: Vec<u16>,
}

impl QuasiRestrictedCone {
    /// A policy that draws from `global_ports`.
    pub fn new(global_ports: Vec<u16>) -> (g: Self)
        ensures
            g.pool() == global_ports@,
    {
        Self { rng: thread_generator(), global_ports }
    }

    /// Two remote endpoints have the same filter key exactly if they have
    /// the same address.
    pub proof fn lemma_matches_by_address(&self, a: (u32, u16), b: (u32, u16))
        ensures
            self.key_of(a) == self.key_of(b) <==> a.0 == b.0,
    {
    }
}

impl KeyGen<MyAddr> for QuasiRestrictedCone {
    open spec fn wf(&self) -> bool {
        self.pool().len() > 0
    }

    closed spec fn pool(&self) -> Seq<u16> {
        self.global_ports@
    }

    open spec fn strict(&self) -> bool {
        false
    }

    open spec fn key_of(&self, remote_tuple: (u32, u16)) -> MyAddr {
        MyAddr(remote_tuple.0)
    }

    open spec fn hinted(&self, last_assigned: Option<u16>, p: u16) -> bool {
        last_assigned == Some(p)
    }

    open spec fn takes(&self, port: u16) -> bool {
        true
    }

    fn local_key_from_tuple(&self, remote_tuple: (u32, u16)) -> (k: MyAddr) {
        MyAddr(remote_tuple.0)
    }

    fn empty_port(
        &mut self,
        locals_used_port: &mut HashMap<u64, MyUnit>,
        remotes: &HashMap<u64, u64>,
        remote_tuple: (u32, u16),
        local_tuple: (u32, u16),
        last_assigned: Option<u16>,
    ) -> (r: Option<u16>) {
        let key = self.local_key_from_tuple(remote_tuple);
        proof {
            key.lemma_code_bound();
        }
        let key_code = key.encode();
        if let Some(test_port) = last_assigned {
            if try_port(locals_used_port, remotes, key_code, local_tuple, false, test_port) {
                return Some(test_port);
            }
        }
        draw_free_port(
            &mut self.rng,
            &self.global_ports,
            locals_used_port,
            remotes,
            key_code,
            local_tuple,
            false,
        )
    }
}

/// Address-and-port-dependent filtering; the port last assigned to the
/// local endpoint is tried first.
pub struct QuasiPortRestrictedCone {
    rng: ThreadRng,
    global_ports: Vec<u16>,
}

impl QuasiPortRestrictedCone {
    /// A policy that draws from `global_ports`.
    pub fn new(global_ports: Vec<u16>) -> (g: Self)
        ensures
            g.pool() == global_ports@,
    {
        Self { rng: thread_generator(), global_ports }
    }

    /// Two remote endpoints have the same filter key exactly if they are
    /// the same endpoint.
    pub proof fn lemma_matches_by_endpoint(&self, a: (u32, u16), b: (u32, u16))
        ensures
            self.key_of(a) == self.key_of(b) <==> a == b,
    {
    }
}

impl KeyGen<MyAddrPort> for QuasiPortRestrictedCone {
    open spec fn wf(&self) -> bool {
        self.pool().len() > 0
    }

    closed spec fn pool(&self) -> Seq<u16> {
        self.global_ports@
    }

    open spec fn strict(&self) -> bool {
        false
    }

    open spec fn key_of(&self, remote_tuple: (u32, u16)) -> MyAddrPort {
        MyAddrPort(remote_tuple.0, remote_tuple.1)
    }

    open spec fn hinted(&self, last_assigned: Option<u16>, p: u16) -> bool {
        last_assigned == Some(p)
    }

    open spec fn takes(&self, port: u16) -> bool {
        true
    }

    fn local_key_from_tuple(&self, remote_tuple: (u32, u16)) -> (k: MyAddrPort) {
        MyAddrPort::from_t(remote_tuple)
    }

    fn empty_port(
        &mut self,
        locals_used_port: &mut HashMap<u64, MyUnit>,
        remotes: &HashMap<u64, u64>,
        remote_tuple: (u32, u16),
        local_tuple: (u32, u16),
        last_assigned: Option<u16>,
    ) -> (r: Option<u16>) {
        let key = self.local_key_from_tuple(remote_tuple);
        proof {
            key.lemma_code_bound();
        }
        let key_code = key.encode();
        if let Some(test_port) = last_assigned {
            if try_port(locals_used_port, remotes, key_code, local_tuple, false, test_port) {
                return Some(test_port);
            }
        }
        draw_free_port(
            &mut self.rng,
            &self.global_ports,
            locals_used_port,
            remotes,
            key_code,
            local_tuple,
            false,
        )
    }
}

/// Address-dependent mapping and filtering, strict: a local endpoint never
/// gets one external port twice. The port after the one last assigned is
/// tried first.
pub struct AddressDependent<F: Fn(u16) -> u16> {
    rng: ThreadRng,
    global_ports: Vec<u16>,
    get_next_port: F,
}

impl<F: Fn(u16) -> u16> AddressDependent<F> {
    /// A policy that draws from `global_ports` and tries
    /// `get_next_port(p)` first where `p` was assigned last. It can be
    /// asked for ports if the pool is not empty and `get_next_port` can be
    /// called on every port of the pool and on every port that it gives
    /// itself.
    pub fn new(global_ports: Vec<u16>, get_next_port: F) -> (g: Self)
        ensures
            g.pool() == global_ports@,
            g.successor() == get_next_port,
            g.wf() == (global_ports@.len() > 0 && accepts_own_ports(
                global_ports@,
                get_next_port,
            )),
            g.strict(),
            forall|t: (u32, u16)| #[trigger] g.key_of(t) == MyAddr(t.0),
            forall|l: Option<u16>, p: u16| #[trigger]
                g.hinted(l, p) == (l is Some && call_ensures(get_next_port, (l->0,), p)),
            forall|p: u16| #[trigger] g.takes(p) == call_requires(get_next_port, (p,)),
    {
        Self { rng: thread_generator(), global_ports, get_next_port }
    }

    /// The function that gives the port to try after the one last assigned.
    pub closed spec fn successor(&self) -> F {
        self.get_next_port
    }
}

impl<F: Fn(u16) -> u16> KeyGen<MyAddr> for AddressDependent<F> {
    /// The pool holds a port, and the successor function can be called on
    /// every port of the pool and on every port that it gives itself.
    open spec fn wf(&self) -> bool {
        &&& self.pool().len() > 0
        &&& accepts_own_ports(self.pool(), self.successor())
    }

    closed spec fn pool(&self) -> Seq<u16> {
        self.global_ports@
    }

    open spec fn strict(&self) -> bool {
        true
    }

    open spec fn key_of(&self, remote_tuple: (u32, u16)) -> MyAddr {
        MyAddr(remote_tuple.0)
    }

    open spec fn hinted(&self, last_assigned: Option<u16>, p: u16) -> bool {
        last_assigned is Some && call_ensures(self.successor(), (last_assigned->0,), p)
    }

    open spec fn takes(&self, port: u16) -> bool {
        call_requires(self.successor(), (port,))
    }

    fn local_key_from_tuple(&self, remote_tuple: (u32, u16)) -> (k: MyAddr) {
        MyAddr(remote_tuple.0)
    }

    fn empty_port(
        &mut self,
        locals_used_port: &mut HashMap<u64, MyUnit>,
        remotes: &HashMap<u64, u64>,
        remote_tuple: (u32, u16),
        local_tuple: (u32, u16),
        last_assigned: Option<u16>,
    ) -> (r: Option<u16>) {
        let key = self.local_key_from_tuple(remote_tuple);
        proof {
            key.lemma_code_bound();
        }
        let key_code = key.encode();
        if let Some(test_port0) = last_assigned {
            assert(call_requires(self.successor(), (test_port0,)));
            let test_port = (self.get_next_port)(test_port0);
            assert(old(self).hinted(last_assigned, test_port));
            if try_port(locals_used_port, remotes, key_code, local_tuple, true, test_port) {
                return Some(test_port);
            }
        }
        let r = draw_free_port(
            &mut self.rng,
            &self.global_ports,
            locals_used_port,
            remotes,
            key_code,
            local_tuple,
            true,
        );
        assert(self.successor() == old(self).successor());
        r
    }
}

/// Address-and-port-dependent mapping and filtering, strict: a local
/// endpoint never gets one external port twice. The port after the one last
/// assigned is tried first.
pub struct AddressPortDependent<F: Fn(u16) -> u16> {
    rng: ThreadRng,
    global_ports: Vec<u16>,
    get_next_port: F,
}

impl<F: Fn(u16) -> u16> AddressPortDependent<F> {
    /// A policy that draws from `global_ports` and tries
    /// `get_next_port(p)` first where `p` was assigned last. It can be
    /// asked for ports if the pool is not empty and `get_next_port` can be
    /// called on every port of the pool and on every port that it gives
    /// itself.
    pub fn new(global_ports: Vec<u16>, get_next_port: F) -> (g: Self)
        ensures
            g.pool() == global_ports@,
            g.successor() == get_next_port,
            g.wf() == (global_ports@.len() > 0 && accepts_own_ports(
                global_ports@,
                get_next_port,
            )),
            g.strict(),
            forall|t: (u32, u16)| #[trigger] g.key_of(t) == MyAddrPort(t.0, t.1),
            forall|l: Option<u16>, p: u16| #[trigger]
                g.hinted(l, p) == (l is Some && call_ensures(get_next_port, (l->0,), p)),
            forall|p: u16| #[trigger] g.takes(p) == call_requires(get_next_port, (p,)),
    {
        Self { rng: thread_generator(), global_ports, get_next_port }
    }

    /// The function that gives the port to try after the one last assigned.
    pub closed spec fn successor(&self) -> F {
        self.get_next_port
    }
}

impl<F: Fn(u16) -> u16> KeyGen<MyAddrPort> for AddressPortDependent<F> {
    /// The pool holds a port, and the successor function can be called on
    /// every port of the pool and on every port that it gives itself.
    open spec fn wf(&self) -> bool {
        &&& self.pool().len() > 0
        &&& accepts_own_ports(self.pool(), self.successor())
    }

    closed spec fn pool(&self) -> Seq<u16> {
        self.global_ports@
    }

    open spec fn strict(&self) -> bool {
        true
    }

    open spec fn key_of(&self, remote_tuple: (u32, u16)) -> MyAddrPort {
        MyAddrPort(remote_tuple.0, remote_tuple.1)
    }

    open spec fn hinted(&self, last_assigned: Option<u16>, p: u16) -> bool {
        last_assigned is Some && call_ensures(self.successor(), (last_assigned->0,), p)
    }

    open spec fn takes(&self, port: u16) -> bool {
        call_requires(self.successor(), (port,))
    }

    fn local_key_from_tuple(&self, remote_tuple: (u32, u16)) -> (k: MyAddrPort) {
        MyAddrPort::from_t(remote_tuple)
    }

    fn empty_port(
        &mut self,
        locals_used_port: &mut HashMap<u64, MyUnit>,
        remotes: &HashMap<u64, u64>,
        remote_tuple: (u32, u16),
        local_tuple: (u32, u16),
        last_assigned: Option<u16>,
    ) -> (r: Option<u16>) {
        let key = self.local_key_from_tuple(remote_tuple);
        proof {
            key.lemma_code_bound();
        }
        let key_code = key.encode();
        if let Some(test_port0) = last_assigned {
            assert(call_requires(self.successor(), (test_port0,)));
            let test_port = (self.get_next_port)(test_port0);
            assert(old(self).hinted(last_assigned, test_port));
            if try_port(locals_used_port, remotes, key_code, local_tuple, true, test_port) {
                return Some(test_port);
            }
        }
        let r = draw_free_port(
            &mut self.rng,
            &self.global_ports,
            locals_used_port,
            remotes,
            key_code,
            local_tuple,
            true,
        );
        assert(self.successor() == old(self).successor());
        r
    }
}

} // verus!
