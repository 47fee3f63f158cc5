//! A doubly-linked list whose nodes live in a slot arena. Every value is
//! named by the handle it got when it was pushed; the handle stays valid
//! until the value is removed, however the list is reordered meanwhile.

use crate::arena::{Arena, CAPACITY, NULL};
use vstd::prelude::*;

verus! {

/// A node of the list: the value with the handles of the nodes before
/// and after it, or the null handle where there is none.
struct Node<T> {
    value: T,
    prev: u64,
    next: u64,
}

/// The list. Its view is the sequence of its items from head to tail, each
/// with its handle.
pub struct LList<T> {
    sm: Arena<Node<T>>,
    head: u64,
    tail: u64,
    order: Ghost<Seq<u64>>,
}

/// Whether some item of `s` carries the handle `h`.
pub open spec fn holds<T>(s: Seq<(u64, T)>, h: u64) -> bool {
    exists|i: int| 0 <= i < s.len() && (#[trigger] s[i]).0 == h
}

/// The place of the item of `s` that carries `h`, where there is one.
pub open spec fn position<T>(s: Seq<(u64, T)>, h: u64) -> int {
    choose|i: int| 0 <= i < s.len() && (#[trigger] s[i]).0 == h
}

/// No handle occurs twice in `s`, and the null handle not at all.
pub open spec fn distinct_handles<T>(s: Seq<(u64, T)>) -> bool {
    &&& forall|i: int, j: int|
        0 <= i < s.len() && 0 <= j < s.len() && i != j ==> (#[trigger] s[i]).0 != (#[trigger] s[j]).0
    &&& forall|i: int| 0 <= i < s.len() ==> (#[trigger] s[i]).0 != NULL
}

/// The handle of the first item of `s`, or the null handle.
pub open spec fn first_handle<T>(s: Seq<(u64, T)>) -> u64 {
    if s.len() == 0 {
        NULL
    } else {
        s[0].0
    }
}

/// The handle of the last item of `s`, or the null handle.
pub open spec fn last_handle<T>(s: Seq<(u64, T)>) -> u64 {
    if s.len() == 0 {
        NULL
    } else {
        s[s.len() - 1].0
    }
}

/// The handle of the item that follows place `i` of `s`, or the null handle
/// after the last place.
pub open spec fn handle_after<T>(s: Seq<(u64, T)>, i: int) -> u64 {
    if i + 1 < s.len() {
        s[i + 1].0
    } else {
        NULL
    }
}

/// `s` with the item under `key` moved just before the item under `before`,
/// and given the value `v`. With the null handle for `before` it goes behind
/// the last item; with `key` itself for `before` it stays where it is.
pub open spec fn moved_before<T>(s: Seq<(u64, T)>, before: u64, key: u64, v: T) -> Seq<(u64, T)> {
    let i = position(s, key);
    let rest = s.remove(i);
    if before == NULL {
        rest.push((key, v))
    } else if before == key {
        s.update(i, (key, v))
    } else {
        rest.insert(position(rest, before), (key, v))
    }
}

/// Where handles are distinct, the place of a handle is the one place that
/// carries it.
pub proof fn lemma_position_unique<T>(s: Seq<(u64, T)>, h: u64, i: int)
    requires
        forall|a: int, b: int|
            0 <= a < s.len() && 0 <= b < s.len() && a != b ==> (#[trigger] s[a]).0 != (
            #[trigger] s[b]).0,
        0 <= i < s.len(),
        s[i].0 == h,
    ensures
        holds(s, h),
        position(s, h) == i,
{
}

/// The items of `s` by their handles.
pub open spec fn as_map<T>(s: Seq<(u64, T)>) -> Map<u64, T> {
    Map::new(|h: u64| holds(s, h), |h: u64| s[position(s, h)].1)
}

/// Each item is found under its handle.
pub proof fn lemma_as_map_at<T>(s: Seq<(u64, T)>, i: int)
    requires
        distinct_handles(s),
        0 <= i < s.len(),
    ensures
        as_map(s).contains_key(s[i].0),
        as_map(s)[s[i].0] == s[i].1,
{
    lemma_position_unique(s, s[i].0, i);
}

/// An item put in at place `j` is one more item under its handle.
pub proof fn lemma_as_map_insert<T>(s: Seq<(u64, T)>, j: int, k: u64, v: T)
    requires
        distinct_handles(s),
        !holds(s, k),
        k != NULL,
        0 <= j <= s.len(),
    ensures
        distinct_handles(s.insert(j, (k, v))),
        as_map(s.insert(j, (k, v))) == as_map(s).insert(k, v),
{
    let s2 = s.insert(j, (k, v));
    assert forall|a: int, b: int| 0 <= a < s2.len() && 0 <= b < s2.len() && a != b implies (
    #[trigger] s2[a]).0 != (#[trigger] s2[b]).0 by {
        let a0 = if a < j { a } else { a - 1 };
        let b0 = if b < j { b } else { b - 1 };
        if a != j {
            assert(s2[a] == s[a0]);
        }
        if b != j {
            assert(s2[b] == s[b0]);
        }
    }
    assert forall|a: int| 0 <= a < s2.len() implies (#[trigger] s2[a]).0 != NULL by {
        let a0 = if a < j { a } else { a - 1 };
        if a != j {
            assert(s2[a] == s[a0]);
        }
    }
    assert forall|h: u64| #[trigger] as_map(s2).contains_key(h) == as_map(s).insert(
        k,
        v,
    ).contains_key(h) by {
        if holds(s2, h) {
            let a = position(s2, h);
            let a0 = if a < j { a } else { a - 1 };
            if a != j {
                assert(s2[a] == s[a0]);
            }
        }
        if holds(s, h) {
            let a0 = position(s, h);
            let a = if a0 < j { a0 } else { a0 + 1 };
            assert(s2[a] == s[a0]);
        }
        if h == k {
            assert(s2[j].0 == k);
        }
    }
    assert forall|h: u64| as_map(s2).contains_key(h) implies #[trigger] as_map(s2)[h] == as_map(
        s,
    ).insert(k, v)[h] by {
        if h == k {
            lemma_position_unique(s2, k, j);
        } else {
            let a0 = position(s, h);
            let a = if a0 < j { a0 } else { a0 + 1 };
            assert(s2[a] == s[a0]);
            lemma_position_unique(s2, h, a);
        }
    }
    assert(as_map(s2) =~= as_map(s).insert(k, v));
}

/// An item put behind the last is one more item under its handle.
pub proof fn lemma_as_map_push<T>(s: Seq<(u64, T)>, k: u64, v: T)
    requires
        distinct_handles(s),
        !holds(s, k),
        k != NULL,
    ensures
        distinct_handles(s.push((k, v))),
        as_map(s.push((k, v))) == as_map(s).insert(k, v),
{
    assert(s.push((k, v)) =~= s.insert(s.len() as int, (k, v)));
    lemma_as_map_insert(s, s.len() as int, k, v);
}

/// With the item at place `i` taken out, its handle names nothing and the
/// others name what they named.
pub proof fn lemma_as_map_remove<T>(s: Seq<(u64, T)>, i: int)
    requires
        distinct_handles(s),
        0 <= i < s.len(),
    ensures
        distinct_handles(s.remove(i)),
        !holds(s.remove(i), s[i].0),
        as_map(s.remove(i)) == as_map(s).remove(s[i].0),
{
    let s2 = s.remove(i);
    assert forall|a: int| 0 <= a < s2.len() implies #[trigger] s2[a] == s[if a < i {
        a
    } else {
        a + 1
    }] by {}
    assert forall|h: u64| #[trigger] as_map(s2).contains_key(h) == as_map(s).remove(
        s[i].0,
    ).contains_key(h) by {
        if holds(s2, h) {
            let a = position(s2, h);
            assert(s2[a] == s[if a < i { a } else { a + 1 }]);
        }
        if holds(s, h) && h != s[i].0 {
            let a0 = position(s, h);
            let a = if a0 < i { a0 } else { a0 - 1 };
            assert(s2[a] == s[a0]);
        }
    }
    assert forall|h: u64| as_map(s2).contains_key(h) implies #[trigger] as_map(s2)[h] == as_map(
        s,
    ).remove(s[i].0)[h] by {
        let a = position(s2, h);
        let a0 = if a < i { a } else { a + 1 };
        assert(s2[a] == s[a0]);
        lemma_position_unique(s, h, a0);
    }
    assert(as_map(s2) =~= as_map(s).remove(s[i].0));
}

/// With the value at place `i` replaced, its handle names the new value
/// and the others name what they named.
pub proof fn lemma_as_map_update<T>(s: Seq<(u64, T)>, i: int, v: T)
    requires
        distinct_handles(s),
        0 <= i < s.len(),
    ensures
        distinct_handles(s.update(i, (s[i].0, v))),
        as_map(s.update(i, (s[i].0, v))) == as_map(s).insert(s[i].0, v),
{
    let s2 = s.update(i, (s[i].0, v));
    assert forall|a: int| 0 <= a < s2.len() implies (#[trigger] s2[a]).0 == s[a].0 by {}
    assert forall|h: u64| #[trigger] as_map(s2).contains_key(h) == as_map(s).insert(
        s[i].0,
        v,
    ).contains_key(h) by {
        if holds(s2, h) {
            let a = position(s2, h);
            assert(s[a].0 == h);
        }
        if holds(s, h) {
            let a = position(s, h);
            assert(s2[a].0 == h);
        }
    }
    assert forall|h: u64| as_map(s2).contains_key(h) implies #[trigger] as_map(s2)[h] == as_map(
        s,
    ).insert(s[i].0, v)[h] by {
        let a = position(s2, h);
        assert(s[a].0 == h);
        lemma_position_unique(s, h, a);
    }
    assert(as_map(s2) =~= as_map(s).insert(s[i].0, v));
}

/// `s` with the new item `(k, v)` put just before the item under `before`,
/// or behind the last item where `before` is the null handle.
pub open spec fn put_before<T>(s: Seq<(u64, T)>, before: u64, k: u64, v: T) -> Seq<(u64, T)> {
    if before == NULL {
        s.push((k, v))
    } else {
        s.insert(position(s, before), (k, v))
    }
}

/// Moving an item changes no handle: the items are those of before, by
/// their handles, but for the value of the one moved.
pub proof fn lemma_moved_before<T>(s: Seq<(u64, T)>, before: u64, key: u64, v: T)
    requires
        distinct_handles(s),
        holds(s, key),
        before == NULL || holds(s, before),
    ensures
        distinct_handles(moved_before(s, before, key, v)),
        as_map(moved_before(s, before, key, v)) == as_map(s).insert(key, v),
        moved_before(s, before, key, v).len() == s.len(),
{
    let i = position(s, key);
    let rest = s.remove(i);
    lemma_as_map_remove(s, i);
    if before == NULL {
        lemma_as_map_push(rest, key, v);
    } else if before == key {
        lemma_as_map_update(s, i, v);
    } else {
        let b = position(s, before);
        let j = if b < i { b } else { b - 1 };
        assert(rest[j] == s[b]);
        lemma_position_unique(rest, before, j);
        lemma_as_map_insert(rest, j, key, v);
    }
    assert(as_map(s).remove(key).insert(key, v) =~= as_map(s).insert(key, v));
}

/// Putting a new item before another adds it under its handle.
pub proof fn lemma_put_before<T>(s: Seq<(u64, T)>, before: u64, k: u64, v: T)
    requires
        distinct_handles(s),
        !holds(s, k),
        k != NULL,
        before == NULL || holds(s, before),
    ensures
        distinct_handles(put_before(s, before, k, v)),
        as_map(put_before(s, before, k, v)) == as_map(s).insert(k, v),
        put_before(s, before, k, v).len() == s.len() + 1,
{
    if before == NULL {
        lemma_as_map_push(s, k, v);
    } else {
        lemma_as_map_insert(s, position(s, before), k, v);
    }
}

/// The handle before place `i` of the chain `o`, or the null handle before
/// the first place.
spec fn before_in(o: Seq<u64>, i: int) -> u64 {
    if i == 0 {
        NULL
    } else {
        o[i - 1]
    }
}

/// The handle after place `i` of the chain `o`, or the null handle after
/// the last place.
spec fn after_in(o: Seq<u64>, i: int) -> u64 {
    if i == o.len() - 1 {
        NULL
    } else {
        o[i + 1]
    }
}

/// The links of every node of the chain `o` in `m` name its neighbours.
spec fn linked<T>(m: Map<u64, Node<T>>, o: Seq<u64>) -> bool {
    &&& o.no_duplicates()
    &&& forall|i: int| 0 <= i < o.len() ==> m.contains_key(#[trigger] o[i])
    &&& forall|i: int| 0 <= i < o.len() ==> (#[trigger] m[o[i]]).prev == before_in(o, i)
    &&& forall|i: int| 0 <= i < o.len() ==> (#[trigger] m[o[i]]).next == after_in(o, i)
}

/// Taking place `i` out of a chain, and joining its neighbours' links,
/// leaves a chain.
proof fn lemma_chain_without<T>(m: Map<u64, Node<T>>, o: Seq<u64>, i: int, m2: Map<u64, Node<T>>)
    requires
        linked(m, o),
        0 <= i < o.len(),
        forall|j: int|
            0 <= j < o.len() && j != i ==> m2.contains_key(#[trigger] o[j]) && m2[o[j]].prev == (
            if j == i + 1 {
                before_in(o, i)
            } else {
                m[o[j]].prev
            }) && m2[o[j]].next == (if j == i - 1 {
                after_in(o, i)
            } else {
                m[o[j]].next
            }),
    ensures
        linked(m2, o.remove(i)),
        !o.remove(i).contains(o[i]),
        forall|h: u64| o.contains(h) && h != o[i] ==> #[trigger] o.remove(i).contains(h),
{
    let o2 = o.remove(i);
    assert forall|j: int| 0 <= j < o2.len() implies m2.contains_key(#[trigger] o2[j]) && (
    #[trigger] m2[o2[j]]).prev == before_in(o2, j) && m2[o2[j]].next == after_in(o2, j) by {
        if j < i {
            assert(o2[j] == o[j]);
        } else {
            assert(o2[j] == o[j + 1]);
        }
    }
    assert forall|h: u64| o.contains(h) && h != o[i] implies #[trigger] o2.contains(h) by {
        let j = choose|j: int| 0 <= j < o.len() && o[j] == h;
        if j < i {
            assert(o2[j] == h);
        } else {
            assert(o2[j - 1] == h);
        }
    }
    assert(o2.no_duplicates());
}

/// Putting a new handle `k` at place `j` of a chain, and pointing its
/// neighbours' links at it, leaves a chain.
proof fn lemma_chain_with<T>(
    m: Map<u64, Node<T>>,
    o: Seq<u64>,
    j: int,
    k: u64,
    m2: Map<u64, Node<T>>,
)
    requires
        linked(m, o),
        0 <= j <= o.len(),
        !o.contains(k),
        m2.contains_key(k),
        m2[k].prev == (if j == 0 {
            NULL
        } else {
            o[j - 1]
        }),
        m2[k].next == (if j == o.len() {
            NULL
        } else {
            o[j]
        }),
        forall|t: int|
            0 <= t < o.len() ==> m2.contains_key(#[trigger] o[t]) && m2[o[t]].prev == (if t == j {
                k
            } else {
                m[o[t]].prev
            }) && m2[o[t]].next == (if t == j - 1 {
                k
            } else {
                m[o[t]].next
            }),
    ensures
        linked(m2, o.insert(j, k)),
        forall|h: u64| o.contains(h) || h == k ==> #[trigger] o.insert(j, k).contains(h),
{
    let o2 = o.insert(j, k);
    assert forall|t: int| 0 <= t < o2.len() implies m2.contains_key(#[trigger] o2[t]) && (
    #[trigger] m2[o2[t]]).prev == before_in(o2, t) && m2[o2[t]].next == after_in(o2, t) by {
        if t < j {
            assert(o2[t] == o[t]);
        } else if t > j {
            assert(o2[t] == o[t - 1]);
        }
    }
    assert forall|h: u64| o.contains(h) || h == k implies #[trigger] o2.contains(h) by {
        if h == k {
            assert(o2[j] == k);
        } else {
            let t = choose|t: int| 0 <= t < o.len() && o[t] == h;
            if t < j {
                assert(o2[t] == h);
            } else {
                assert(o2[t + 1] == h);
            }
        }
    }
    assert forall|a: int, b: int| 0 <= a < o2.len() && 0 <= b < o2.len() && a != b implies o2[a]
        != o2[b] by {
        if a != j && b != j {
            let a0 = if a < j { a } else { a - 1 };
            let b0 = if b < j { b } else { b - 1 };
            assert(o2[a] == o[a0]);
            assert(o2[b] == o[b0]);
        } else if a == j {
            let b0 = if b < j { b } else { b - 1 };
            assert(o2[b] == o[b0]);
            assert(o.contains(o[b0]));
        } else {
            let a0 = if a < j { a } else { a - 1 };
            assert(o2[a] == o[a0]);
            assert(o.contains(o[a0]));
        }
    }
}

/// The values of the chain `o` in `m`, each with its handle.
spec fn items<T>(m: Map<u64, Node<T>>, o: Seq<u64>) -> Seq<(u64, T)> {
    Seq::new(o.len(), |i: int| (o[i], m[o[i]].value))
}

/// A handle of a chain sits at the same place among the chain's items.
proof fn lemma_items_position<T>(m: Map<u64, Node<T>>, o: Seq<u64>, h: u64)
    requires
        o.no_duplicates(),
    ensures
        holds(items(m, o), h) == o.contains(h),
        o.contains(h) ==> {
            let i = o.index_of(h);
            &&& 0 <= i < o.len()
            &&& o[i] == h
            &&& position(items(m, o), h) == i
        },
{
    let s = items(m, o);
    if o.contains(h) {
        let i = o.index_of(h);
        assert(s[i].0 == h);
        let p = position(s, h);
        assert(o[p] == h);
    }
    if holds(s, h) {
        let p = position(s, h);
        assert(o[p] == h);
    }
}

/// The items of a chain after the handle `key` has moved to place `j` of
/// what is left without it, the values being kept.
proof fn lemma_items_moved<T>(
    m0: Map<u64, Node<T>>,
    m2: Map<u64, Node<T>>,
    o: Seq<u64>,
    key: u64,
    j: int,
)
    requires
        o.no_duplicates(),
        o.contains(key),
        0 <= j < o.len(),
        forall|h: u64| o.contains(h) ==> (#[trigger] m2[h]).value == m0[h].value,
    ensures
        items(m0, o.remove(o.index_of(key))) == items(m0, o).remove(o.index_of(key)),
        items(m2, o.remove(o.index_of(key)).insert(j, key)) == items(m0, o).remove(
            o.index_of(key),
        ).insert(j, (key, m0[key].value)),
{
    let i = o.index_of(key);
    let o1 = o.remove(i);
    let o2 = o1.insert(j, key);
    assert(items(m0, o1) =~= items(m0, o).remove(i));
    assert forall|t: int| 0 <= t < o2.len() implies (#[trigger] items(m2, o2)[t]) == items(
        m0,
        o,
    ).remove(i).insert(j, (key, m0[key].value))[t] by {
        assert(o.contains(o2[t])) by {
            if t < j {
                assert(o2[t] == o1[t]);
                if t < i {
                    assert(o1[t] == o[t]);
                } else {
                    assert(o1[t] == o[t + 1]);
                }
            } else if t > j {
                assert(o2[t] == o1[t - 1]);
                if t - 1 < i {
                    assert(o1[t - 1] == o[t - 1]);
                } else {
                    assert(o1[t - 1] == o[t]);
                }
            } else {
                assert(o2[t] == key);
            }
        }
    }
    assert(items(m2, o2) =~= items(m0, o).remove(i).insert(j, (key, m0[key].value)));
}

impl<T> View for LList<T> {
    type V = Seq<(u64, T)>;

    /// The items from head to tail, each with its handle.
    closed spec fn view(&self) -> Seq<(u64, T)> {
        items(self.sm@, self.order@)
    }
}

impl<T> LList<T> {
    /// The arena holds exactly the nodes of the chain that runs from `head`
    /// to `tail`, and each node's links name its neighbours in that chain.
    pub closed spec fn wf(&self) -> bool {
        let o = self.order@;
        let m = self.sm@;
        &&& self.sm.wf()
        &&& linked(m, o)
        &&& m.len() == o.len()
        &&& forall|h: u64| #[trigger] m.contains_key(h) ==> o.contains(h)
        &&& self.head == (if o.len() == 0 {
            NULL
        } else {
            o[0]
        })
        &&& self.tail == (if o.len() == 0 {
            NULL
        } else {
            o[o.len() - 1]
        })
    }

    /// In a well-formed list every item has a handle of its own, and none has
    /// the null handle.
    pub proof fn lemma_distinct(&self)
        requires
            self.wf(),
        ensures
            distinct_handles(self@),
    {
        self.sm.lemma_wf();
    }

    /// An empty list.
    pub fn new() -> (l: Self)
        ensures
            l.wf(),
            l@ == Seq::<(u64, T)>::empty(),
    {
        let l = LList { sm: Arena::new(), head: NULL, tail: NULL, order: Ghost(Seq::empty()) };
        assert(l@ =~= Seq::<(u64, T)>::empty());
        l
    }

    /// The number of items.
    pub fn len(&self) -> (n: usize)
        requires
            self.wf(),
        ensures
            n == self@.len(),
    {
        self.sm.len()
    }

    /// The handle of the first item, or the null handle of an empty list.
    pub fn head(&self) -> (h: u64)
        requires
            self.wf(),
        ensures
            h == first_handle(self@),
    {
        self.head
    }

    /// The handle of the last item, or the null handle of an empty list.
    pub fn tail(&self) -> (h: u64)
        requires
            self.wf(),
        ensures
            h == last_handle(self@),
    {
        self.tail
    }

    /// Puts `value` after the last item and returns its handle.
    pub fn push_tail(&mut self, value: T) -> (k: u64)
        requires
            old(self).wf(),
            old(self)@.len() < CAPACITY,
        ensures
            final(self).wf(),
            k != NULL,
            !holds(old(self)@, k),
            final(self)@ == old(self)@.push((k, value)),
    {
        proof {
            self.sm.lemma_wf();
        }
        let ghost o = self.order@;
        let ghost m0 = self.sm@;
        let old_tail = self.tail;
        let k = self.sm.insert(Node { value, prev: old_tail, next: NULL });
        proof {
            old(self).lemma_position(k);
        }
        match self.sm.get_mut(old_tail) {
            Some(node) => {
                node.next = k;
            },
            None => {
                self.head = k;
            },
        }
        self.tail = k;
        self.order = Ghost(o.push(k));
        proof {
            let o2 = self.order@;
            let m2 = self.sm@;
            assert forall|h: u64| m2.contains_key(h) implies o2.contains(h) by {
                if h == k {
                    assert(o2[o.len() as int] == k);
                } else {
                    assert(m0.contains_key(h));
                    assert(o.contains(h));
                    let i = choose|i: int| 0 <= i < o.len() && o[i] == h;
                    assert(o2[i] == h);
                }
            }
            assert(m2.dom() =~= m0.dom().insert(k));
            assert(self@ =~= old(self)@.push((k, value)));
        }
        k
    }

    /// Sets the forward link of the node under `key`, if there is one.
    fn set_next(&mut self, key: u64, next: u64) -> (found: bool)
        requires
            old(self).sm.wf(),
        ensures
            final(self).sm.wf(),
            final(self).head == old(self).head,
            final(self).tail == old(self).tail,
            final(self).order == old(self).order,
            found == old(self).sm@.contains_key(key),
            final(self).sm@.dom() == old(self).sm@.dom(),
            forall|h: u64| h != key ==> final(self).sm@[h] == old(self).sm@[h],
            found ==> final(self).sm@[key].next == next,
            found ==> final(self).sm@[key].prev == old(self).sm@[key].prev,
            found ==> final(self).sm@[key].value == old(self).sm@[key].value,
    {
        let found = match self.sm.get_mut(key) {
            Some(node) => {
                node.next = next;
                true
            },
            None => false,
        };
        assert(self.sm@.dom() =~= old(self).sm@.dom());
        found
    }

    /// Sets the backward link of the node under `key`, if there is one.
    fn set_prev(&mut self, key: u64, prev: u64) -> (found: bool)
        requires
            old(self).sm.wf(),
        ensures
            final(self).sm.wf(),
            final(self).head == old(self).head,
            final(self).tail == old(self).tail,
            final(self).order == old(self).order,
            found == old(self).sm@.contains_key(key),
            final(self).sm@.dom() == old(self).sm@.dom(),
            forall|h: u64| h != key ==> final(self).sm@[h] == old(self).sm@[h],
            found ==> final(self).sm@[key].prev == prev,
            found ==> final(self).sm@[key].next == old(self).sm@[key].next,
            found ==> final(self).sm@[key].value == old(self).sm@[key].value,
    {
        let found = match self.sm.get_mut(key) {
            Some(node) => {
                node.prev = prev;
                true
            },
            None => false,
        };
        assert(self.sm@.dom() =~= old(self).sm@.dom());
        found
    }

    /// Puts `value` before the first item and returns its handle.
    pub fn push_head(&mut self, value: T) -> (k: u64)
        requires
            old(self).wf(),
            old(self)@.len() < CAPACITY,
        ensures
            final(self).wf(),
            k != NULL,
            !holds(old(self)@, k),
            final(self)@ == old(self)@.insert(0, (k, value)),
    {
        proof {
            self.sm.lemma_wf();
        }
        let ghost o = self.order@;
        let ghost m0 = self.sm@;
        let old_head = self.head;
        let k = self.sm.insert(Node { value, prev: NULL, next: old_head });
        proof {
            old(self).lemma_position(k);
        }
        if !self.set_prev(old_head, k) {
            self.tail = k;
        }
        self.head = k;
        self.order = Ghost(o.insert(0, k));
        proof {
            let o2 = self.order@;
            let m2 = self.sm@;
            assert forall|h: u64| m2.contains_key(h) implies o2.contains(h) by {
                if h == k {
                    assert(o2[0] == k);
                } else {
                    assert(m0.contains_key(h));
                    assert(o.contains(h));
                    let i = choose|i: int| 0 <= i < o.len() && o[i] == h;
                    assert(o2[i + 1] == h);
                }
            }
            assert(m2.dom() =~= m0.dom().insert(k));
            assert forall|i: int| 0 <= i < o2.len() implies (#[trigger] m2[o2[i]]).prev
                == before_in(o2, i) && m2[o2[i]].next == after_in(o2, i) && m2.contains_key(
                o2[i],
            ) by {
                if i > 0 {
                    assert(o2[i] == o[i - 1]);
                    assert(m0[o[i - 1]].prev == before_in(o, i - 1));
                }
            }
            assert(self@ =~= old(self)@.insert(0, (k, value)));
        }
        k
    }

    /// Takes the item under `key` out of the list, if the list holds it. The
    /// handle names nothing afterwards.
    pub fn remove(&mut self, key: u64) -> (r: Option<T>)
        requires
            old(self).wf(),
        ensures
            final(self).wf(),
            match r {
                Some(v) => {
                    let i = position(old(self)@, key);
                    holds(old(self)@, key) && v == old(self)@[i].1 && final(self)@ == old(
                        self,
                    )@.remove(i)
                },
                None => !holds(old(self)@, key) && final(self)@ == old(self)@,
            },
    {
        proof {
            self.sm.lemma_wf();
            self.lemma_position(key);
        }
        let ghost o = self.order@;
        let ghost m0 = self.sm@;
        match self.sm.remove(key) {
            Some(node) => {
                let ghost i = position(old(self)@, key);
                if !self.set_next(node.prev, node.next) {
                    self.head = node.next;
                }
                if !self.set_prev(node.next, node.prev) {
                    self.tail = node.prev;
                }
                self.order = Ghost(o.remove(i));
                proof {
                    lemma_chain_without(m0, o, i, self.sm@);
                    assert(self.sm@.dom() =~= m0.dom().remove(key));
                    assert(self@ =~= old(self)@.remove(i));
                }
                Some(node.value)
            },
            None => {
                assert(self@ =~= old(self)@);
                None
            },
        }
    }

    /// Takes out the first item, if there is one.
    pub fn pop_head(&mut self) -> (r: Option<T>)
        requires
            old(self).wf(),
        ensures
            final(self).wf(),
            match r {
                Some(v) => old(self)@.len() > 0 && v == old(self)@[0].1 && final(self)@ == old(
                    self,
                )@.remove(0),
                None => old(self)@.len() == 0 && final(self)@ == old(self)@,
            },
    {
        proof {
            self.sm.lemma_wf();
            self.lemma_position(self.head);
        }
        let ghost o = self.order@;
        let ghost m0 = self.sm@;
        let head = self.head;
        match self.sm.remove(head) {
            Some(old_head) => {
                self.head = old_head.next;
                if !self.set_prev(old_head.next, old_head.prev) {
                    self.tail = old_head.prev;
                }
                self.order = Ghost(o.remove(0));
                proof {
                    lemma_chain_without(m0, o, 0, self.sm@);
                    assert(self.sm@.dom() =~= m0.dom().remove(head));
                    assert(self@ =~= old(self)@.remove(0));
                }
                Some(old_head.value)
            },
            None => {
                assert(self@ =~= old(self)@);
                None
            },
        }
    }

    /// Takes out the last item, if there is one.
    pub fn pop_tail(&mut self) -> (r: Option<T>)
        requires
            old(self).wf(),
        ensures
            final(self).wf(),
            match r {
                Some(v) => old(self)@.len() > 0 && v == old(self)@[old(self)@.len() - 1].1
                    && final(self)@ == old(self)@.remove(old(self)@.len() - 1),
                None => old(self)@.len() == 0 && final(self)@ == old(self)@,
            },
    {
        proof {
            self.sm.lemma_wf();
            self.lemma_position(self.tail);
        }
        let ghost o = self.order@;
        let ghost m0 = self.sm@;
        let tail = self.tail;
        match self.sm.remove(tail) {
            Some(old_tail) => {
                if !self.set_next(old_tail.prev, old_tail.next) {
                    self.head = old_tail.next;
                }
                self.tail = old_tail.prev;
                self.order = Ghost(o.remove(o.len() - 1));
                proof {
                    lemma_chain_without(m0, o, o.len() - 1, self.sm@);
                    assert(self.sm@.dom() =~= m0.dom().remove(tail));
                    assert(self@ =~= old(self)@.remove(old(self)@.len() - 1));
                }
                Some(old_tail.value)
            },
            None => {
                assert(self@ =~= old(self)@);
                None
            },
        }
    }

    /// The item under `key`, which the list holds, to be changed in place.
    fn value_mut(&mut self, key: u64) -> (r: &mut T)
        requires
            old(self).wf(),
            holds(old(self)@, key),
        ensures
            final(self).wf(),
            *r == old(self)@[position(old(self)@, key)].1,
            final(self)@ =~= old(self)@.update(position(old(self)@, key), (key, *final(r))),
    {
        proof {
            self.sm.lemma_wf();
            self.lemma_position(key);
        }
        match self.sm.get_mut(key) {
            Some(node) => &mut node.value,
            None => vstd::pervasive::unreached(),
        }
    }

    /// The item under `key`, if the list holds one, to be changed in place.
    pub fn get_mut(&mut self, key: u64) -> (r: Option<&mut T>)
        requires
            old(self).wf(),
        ensures
            final(self).wf(),
            match r {
                Some(v) => {
                    let i = position(old(self)@, key);
                    holds(old(self)@, key) && *v == old(self)@[i].1 && final(self)@ == old(
                        self,
                    )@.update(i, (key, *final(v)))
                },
                None => !holds(old(self)@, key) && final(self)@ == old(self)@,
            },
    {
        proof {
            self.lemma_position(key);
        }
        if self.sm.get(key).is_some() {
            Some(self.value_mut(key))
        } else {
            None
        }
    }

    /// The two links of the node under `key`, which the arena holds.
    fn links(&self, key: u64) -> (r: (u64, u64))
        requires
            self.sm@.contains_key(key),
        ensures
            r.0 == self.sm@[key].prev,
            r.1 == self.sm@[key].next,
    {
        match self.sm.get(key) {
            Some(node) => (node.prev, node.next),
            None => vstd::pervasive::unreached(),
        }
    }

    /// Puts `value` just before the item under `key`, or after the last item
    /// where `key` is the null handle, and returns its handle.
    pub fn push_before(&mut self, key: u64, value: T) -> (k: u64)
        requires
            old(self).wf(),
            old(self)@.len() < CAPACITY,
            key == NULL || holds(old(self)@, key),
        ensures
            final(self).wf(),
            k != NULL,
            !holds(old(self)@, k),
            final(self)@ == put_before(old(self)@, key, k, value),
    {
        proof {
            self.sm.lemma_wf();
            self.lemma_position(key);
        }
        if key == NULL {
            return self.push_tail(value);
        }
        let ghost o = self.order@;
        let ghost m0 = self.sm@;
        let ghost i = position(self@, key);
        let (prev, _) = self.links(key);
        if prev == NULL {
            return self.push_head(value);
        }
        let k = self.sm.insert(Node { value, prev, next: key });
        proof {
            old(self).lemma_position(k);
        }
        self.set_next(prev, k);
        self.set_prev(key, k);
        self.order = Ghost(o.insert(i, k));
        proof {
            let m2 = self.sm@;
            assert(m2.dom() =~= m0.dom().insert(k));
            assert(!o.contains(k)) by {
                if o.contains(k) {
                    let t = choose|t: int| 0 <= t < o.len() && o[t] == k;
                    assert(m0.contains_key(o[t]));
                }
            }
            assert(m0[o[i]].prev == before_in(o, i));
            lemma_chain_with(m0, o, i, k, m2);
            assert(self@ =~= old(self)@.insert(i, (k, value)));
        }
        k
    }

    /// As `wf`, but for the node under `key`, which the arena holds outside
    /// the chain.
    spec fn wf_without(&self, key: u64) -> bool {
        let o = self.order@;
        let m = self.sm@;
        &&& self.sm.wf()
        &&& linked(m, o)
        &&& m.len() == o.len() + 1
        &&& m.contains_key(key)
        &&& !o.contains(key)
        &&& forall|h: u64| #[trigger] m.contains_key(h) ==> h == key || o.contains(h)
        &&& self.head == (if o.len() == 0 {
            NULL
        } else {
            o[0]
        })
        &&& self.tail == (if o.len() == 0 {
            NULL
        } else {
            o[o.len() - 1]
        })
    }

    /// The values stored are those of `other`, under the same handles.
    spec fn same_values(&self, other: &Self) -> bool {
        &&& self.sm@.dom() == other.sm@.dom()
        &&& forall|h: u64|
            self.sm@.contains_key(h) ==> (#[trigger] self.sm@[h]).value == other.sm@[h].value
    }

    /// Takes the node under `key` out of the chain and leaves it in the
    /// arena.
    fn detach(&mut self, key: u64)
        requires
            old(self).wf(),
            old(self).sm@.contains_key(key),
        ensures
            final(self).wf_without(key),
            final(self).same_values(old(self)),
            final(self).order@ == old(self).order@.remove(old(self).order@.index_of(key)),
    {
        proof {
            self.sm.lemma_wf();
        }
        let ghost o = self.order@;
        let ghost m0 = self.sm@;
        let ghost i = o.index_of(key);
        assert(o.contains(key));
        let (prev, next) = self.links(key);
        if !self.set_next(prev, next) {
            self.head = next;
        }
        if !self.set_prev(next, prev) {
            self.tail = prev;
        }
        self.order = Ghost(o.remove(i));
        proof {
            assert(m0[o[i]].prev == before_in(o, i));
            assert(m0[o[i]].next == after_in(o, i));
            lemma_chain_without(m0, o, i, self.sm@);
            assert forall|h: u64| #[trigger] self.sm@.contains_key(h) implies h == key
                || self.order@.contains(h) by {
                assert(m0.contains_key(h));
            }
        }
    }

    /// Puts the node under `key`, which sits outside the chain, back into
    /// it: just before the node under `before`, or at the end where `before`
    /// is the null handle.
    fn attach_before(&mut self, before: u64, key: u64)
        requires
            old(self).wf_without(key),
            before == NULL || old(self).order@.contains(before),
        ensures
            final(self).wf(),
            final(self).same_values(old(self)),
            final(self).order@ == old(self).order@.insert(
                if before == NULL {
                    old(self).order@.len() as int
                } else {
                    old(self).order@.index_of(before)
                },
                key,
            ),
    {
        proof {
            self.sm.lemma_wf();
        }
        let ghost o = self.order@;
        let ghost m0 = self.sm@;
        let ghost j = if before == NULL {
            o.len() as int
        } else {
            o.index_of(before)
        };
        if before == NULL {
            let old_tail = self.tail;
            if !self.set_next(old_tail, key) {
                self.head = key;
            }
            self.set_prev(key, old_tail);
            self.set_next(key, NULL);
            self.tail = key;
        } else {
            assert(m0[o[j]].prev == before_in(o, j));
            let (before_prev, _) = self.links(before);
            if !self.set_next(before_prev, key) {
                self.head = key;
            }
            self.set_prev(key, before_prev);
            self.set_next(key, before);
            self.set_prev(before, key);
        }
        self.order = Ghost(o.insert(j, key));
        proof {
            lemma_chain_with(m0, o, j, key, self.sm@);
            assert forall|h: u64| #[trigger] self.sm@.contains_key(h) implies self.order@.contains(
                h,
            ) by {
                assert(m0.contains_key(h));
            }
        }
    }

    /// In a well-formed list, a handle's place among the items is its place
    /// in the chain.
    proof fn lemma_place(&self, key: u64)
        requires
            self.wf(),
            self.sm@.contains_key(key),
        ensures
            holds(self@, key),
            position(self@, key) == self.order@.index_of(key),
            0 <= position(self@, key) < self@.len(),
            self@[position(self@, key)] == (key, self.sm@[key].value),
            self.order@.contains(key),
    {
        lemma_items_position(self.sm@, self.order@, key);
    }

    /// Moves the item under `key` behind the last item and hands it out to
    /// be changed in place. An item that is last already stays where it is.
    pub fn move_to_tail_and_get(&mut self, key: u64) -> (r: &mut T)
        requires
            old(self).wf(),
            holds(old(self)@, key),
        ensures
            final(self).wf(),
            *r == old(self)@[position(old(self)@, key)].1,
            final(self)@ == old(self)@.remove(position(old(self)@, key)).push((key, *final(r))),
    {
        proof {
            self.lemma_position(key);
            self.lemma_place(key);
        }
        let ghost i = position(self@, key);
        let (_, next) = self.links(key);
        if next != NULL {
            self.detach(key);
            self.attach_before(NULL, key);
            proof {
                lemma_items_moved(
                    old(self).sm@,
                    self.sm@,
                    old(self).order@,
                    key,
                    old(self)@.len() - 1,
                );
            }
        } else {
            assert(i == self@.len() - 1) by {
                assert(self.sm@[self.order@[i]].next == after_in(self.order@, i));
                if i < self.order@.len() - 1 {
                    assert(self.sm@.contains_key(self.order@[i + 1]));
                    self.sm.lemma_wf();
                }
            }
        }
        let ghost mid = *self;
        proof {
            assert(mid@ =~= old(self)@.remove(i).push((key, old(self)@[i].1)));
            mid.lemma_distinct();
            lemma_position_unique(mid@, key, mid@.len() - 1);
        }
        let r = self.value_mut(key);
        assert(mid@.update(mid@.len() - 1, (key, *final(r))) =~= old(self)@.remove(i).push(
            (key, *final(r)),
        ));
        r
    }

    /// Moves the item under `key` just before the item under
    /// `before_this_key` and hands it out to be changed in place. With the
    /// null handle for `before_this_key` the item goes behind the last one;
    /// with `key` itself it stays where it is.
    pub fn move_before_and_get(&mut self, before_this_key: u64, key: u64) -> (r: &mut T)
        requires
            old(self).wf(),
            holds(old(self)@, key),
            before_this_key == NULL || holds(old(self)@, before_this_key),
        ensures
            final(self).wf(),
            *r == old(self)@[position(old(self)@, key)].1,
            final(self)@ == moved_before(old(self)@, before_this_key, key, *final(r)),
    {
        if before_this_key == NULL {
            return self.move_to_tail_and_get(key);
        }
        if before_this_key == key {
            return self.value_mut(key);
        }
        proof {
            self.lemma_position(key);
            self.lemma_position(before_this_key);
            self.lemma_place(key);
        }
        let ghost i = position(self@, key);
        let ghost rest = self@.remove(i);
        self.detach(key);
        let ghost j = self.order@.index_of(before_this_key);
        proof {
            lemma_items_moved(old(self).sm@, old(self).sm@, old(self).order@, key, 0);
            lemma_items_position(old(self).sm@, self.order@, before_this_key);
            assert(position(rest, before_this_key) == j);
        }
        self.attach_before(before_this_key, key);
        let ghost mid = *self;
        proof {
            lemma_items_moved(old(self).sm@, self.sm@, old(self).order@, key, j);
            assert(mid@ == rest.insert(j, (key, old(self)@[i].1)));
            mid.lemma_distinct();
            lemma_position_unique(mid@, key, j);
        }
        let r = self.value_mut(key);
        assert(mid@.update(j, (key, *final(r))) =~= rest.insert(j, (key, *final(r))));
        r
    }

    /// The list holds a handle exactly if the arena does, and an item
    /// stands where its handle stands in the chain.
    proof fn lemma_position(&self, key: u64)
        requires
            self.wf(),
        ensures
            holds(self@, key) == self.sm@.contains_key(key),
            holds(self@, key) ==> {
                let i = position(self@, key);
                &&& 0 <= i < self.order@.len()
                &&& self.order@[i] == key
                &&& self@[i] == (key, self.sm@[key].value)
            },
            self@.len() == self.order@.len(),
    {
        if self.sm@.contains_key(key) {
            assert(self.order@.contains(key));
            let i = choose|i: int| 0 <= i < self.order@.len() && self.order@[i] == key;
            assert(self@[i].0 == key);
        }
        if holds(self@, key) {
            let i = position(self@, key);
            assert(self.order@[i] == key);
        }
    }

    /// The item under `key`, if the list holds one.
    pub fn get(&self, key: u64) -> (r: Option<&T>)
        requires
            self.wf(),
        ensures
            match r {
                Some(v) => holds(self@, key) && *v == self@[position(self@, key)].1,
                None => !holds(self@, key),
            },
    {
        proof {
            self.lemma_position(key);
        }
        match self.sm.get(key) {
            Some(node) => Some(&node.value),
            None => None,
        }
    }

    /// The item under `key` and the handle of the item after it (the null
    /// handle after the last), if the list holds `key`.
    pub fn get2(&self, key: u64) -> (r: Option<(&T, u64)>)
        requires
            self.wf(),
        ensures
            match r {
                Some((v, next)) => {
                    let i = position(self@, key);
                    holds(self@, key) && *v == self@[i].1 && next == handle_after(self@, i)
                },
                None => !holds(self@, key),
            },
    {
        proof {
            self.lemma_position(key);
        }
        match self.sm.get(key) {
            Some(node) => Some((&node.value, node.next)),
            None => None,
        }
    }

    /// The handle of the item after the one under `key` (the null handle
    /// after the last), if the list holds `key`.
    pub fn next(&self, key: u64) -> (r: Option<u64>)
        requires
            self.wf(),
        ensures
            r == if holds(self@, key) {
                Some(handle_after(self@, position(self@, key)))
            } else {
                None
            },
    {
        proof {
            self.lemma_position(key);
        }
        match self.sm.get(key) {
            Some(node) => Some(node.next),
            None => None,
        }
    }
}

/// A cursor that walks a list from a chosen handle towards the tail.
pub struct LLIter<'a, T>(pub &'a LList<T>, pub u64);

impl<'a, T> LLIter<'a, T> {
    /// Hands out the item under the cursor, with its handle, and moves the
    /// cursor to the item after it. Once the cursor names no item of the
    /// list, nothing is handed out and the cursor stays.
    pub fn next(&mut self) -> (r: Option<(&'a T, u64)>)
        requires
            old(self).0.wf(),
        ensures
            final(self).0 == old(self).0,
            match r {
                Some((v, h)) => {
                    let i = position(old(self).0@, old(self).1);
                    &&& holds(old(self).0@, old(self).1)
                    &&& h == old(self).1
                    &&& *v == old(self).0@[i].1
                    &&& final(self).1 == handle_after(old(self).0@, i)
                },
                None => !holds(old(self).0@, old(self).1) && final(self).1 == old(self).1,
            },
    {
        let curr = self.1;
        match self.0.get2(curr) {
            Some((v, next)) => {
                self.1 = next;
                Some((v, curr))
            },
            None => None,
        }
    }
}

} // verus!
