//! A slot arena: values stored under handles that stay valid until the value
//! is removed. The handles are issued by a slot map of the `slotmap` crate,
//! carried as 64-bit integers; the values live in a hash map keyed by them.
//! The arena holds values of any type, and what it says of them it says of
//! the hash map, whose contents the verifier knows; of the slot map it needs
//! to know only which keys are out.

use slotmap::{DefaultKey, Key, KeyData, SlotMap};
use std::collections::hash_map::Entry;
use std::collections::HashMap;
use vstd::prelude::*;

verus! {

/// The slot map that issues an arena's handles. It stores nothing under its
/// keys: it is kept for the keys alone.
#[verifier::external_body]
pub struct KeyPool {
    keys: SlotMap<DefaultKey, ()>,
}

/// The handle that never names a stored value.
pub const NULL: u64 = 0x0000_0001_ffff_ffff;

/// An arena never holds more values than this.
pub const CAPACITY: usize = 0xffff_fffe;

/// The handles of the keys that a slot map currently holds.
pub uninterp spec fn issued(pool: KeyPool) -> Set<u64>;

/// `SlotMap::new`: a slot map that holds no key.
#[verifier::external_body]
fn keys_new() -> (pool: KeyPool)
    ensures
        issued(pool) == Set::<u64>::empty(),
{
    KeyPool { keys: SlotMap::new() }
}

/// `SlotMap::insert`, with the new key handed out in the integer form of
/// `KeyData::as_ffi`: the key is not the null key and was not held before,
/// and it is the one key added. The slot map panics when it is full, which
/// the bound on the number of keys held rules out.
#[verifier::external_body]
fn keys_issue(pool: &mut KeyPool) -> (h: u64)
    requires
        issued(*old(pool)).finite(),
        issued(*old(pool)).len() < CAPACITY,
    ensures
        h != NULL,
        !issued(*old(pool)).contains(h),
        issued(*final(pool)) == issued(*old(pool)).insert(h),
{
    pool.keys.insert(()).data().as_ffi()
}

/// `SlotMap::remove` of a key that is held, given in the integer form that
/// `KeyData::from_ffi` turns back into the key: that key, and no other, is
/// gone afterwards.
#[verifier::external_body]
fn keys_release(pool: &mut KeyPool, h: u64)
    requires
        issued(*old(pool)).contains(h),
    ensures
        issued(*final(pool)) == issued(*old(pool)).remove(h),
{
    pool.keys.remove(DefaultKey::from(KeyData::from_ffi(h)));
}

/// Values under handles. A handle is issued when a value comes in, and
/// names that value until it is removed; it is never the null handle.
pub struct Arena<T> {
    keys: KeyPool,
    store: HashMap<u64, T>,
}

impl<T> View for Arena<T> {
    type V = Map<u64, T>;

    closed spec fn view(&self) -> Map<u64, T> {
        self.store@
    }
}

impl<T> Arena<T> {
    /// Every stored value sits under a handle that the slot map holds, and
    /// the slot map holds no other.
    pub closed spec fn wf(&self) -> bool {
        &&& self.store@.dom() =~= issued(self.keys)
        &&& self.store@.dom().finite()
        &&& !self.store@.contains_key(NULL)
    }

    /// A well-formed arena holds finitely many values, none of them under
    /// the null handle.
    pub proof fn lemma_wf(&self)
        requires
            self.wf(),
        ensures
            self@.dom().finite(),
            !self@.contains_key(NULL),
    {
    }

    /// An arena that holds nothing.
    pub fn new() -> (a: Self)
        ensures
            a.wf(),
            a@ == Map::<u64, T>::empty(),
    {
        let a = Arena { keys: keys_new(), store: HashMap::new() };
        assert(a.store@.dom() =~= Set::<u64>::empty());
        a
    }

    /// The number of values held.
    pub fn len(&self) -> (n: usize)
        requires
            self.wf(),
        ensures
            n == self@.len(),
    {
        self.store.len()
    }

    /// Stores `value` under a handle that names no other value held.
    pub fn insert(&mut self, value: T) -> (h: u64)
        requires
            old(self).wf(),
            old(self)@.len() < CAPACITY,
        ensures
            final(self).wf(),
            h != NULL,
            !old(self)@.contains_key(h),
            final(self)@ == old(self)@.insert(h, value),
    {
        let h = keys_issue(&mut self.keys);
        self.store.insert(h, value);
        h
    }

    /// Takes out the value under `h`, if there is one. The handle names
    /// nothing afterwards.
    pub fn remove(&mut self, h: u64) -> (r: Option<T>)
        requires
            old(self).wf(),
        ensures
            final(self).wf(),
            r == old(self)@.get(h),
            final(self)@ == old(self)@.remove(h),
    {
        let r = self.store.remove(&h);
        if r.is_some() {
            keys_release(&mut self.keys, h);
        }
        r
    }

    /// The value under `h`, if there is one.
    pub fn get(&self, h: u64) -> (r: Option<&T>)
        ensures
            match r {
                Some(v) => self@.contains_key(h) && *v == self@[h],
                None => !self@.contains_key(h),
            },
    {
        self.store.get(&h)
    }

    /// The value under `h`, if there is one, to be changed in place.
    pub fn get_mut(&mut self, h: u64) -> (r: Option<&mut T>)
        requires
            old(self).wf(),
        ensures
            final(self).wf(),
            match r {
                Some(v) => old(self)@.contains_key(h) && *v == old(self)@[h] && final(self)@
                    == old(self)@.insert(h, *final(v)),
                None => !old(self)@.contains_key(h) && final(self)@ == old(self)@,
            },
    {
        match self.store.entry(h) {
            Entry::Occupied(e) => Some(e.into_mut()),
            Entry::Vacant(_) => None,
        }
    }
}

} // verus!
