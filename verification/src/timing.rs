//! The order of expiry among the connection records of the TCP table.
//!
//! Time is taken to go forwards, and the short timeout to be no longer
//! than the long one. Then the pivot splits the list: with `settled` the
//! time at which the pivot last moved on, every record before the pivot
//! expires `short_timeout` seconds after `settled` at the latest, every
//! record from the pivot on at the earliest, and the records from the
//! pivot on stand in the order of their expiry. A record filed at the very
//! second at which the pivot settled stands before the pivot and expires
//! exactly `short_timeout` seconds after `settled`.

use crate::arena::NULL;
use crate::ll::{
    distinct_handles, holds, lemma_moved_before, lemma_position_unique, lemma_put_before,
    moved_before, position, put_before,
};
use crate::statenattable::{
    expired_conns, expiring, in_phase, lemma_settle_index, model_ok, opened, phase_after,
    pivot_index, pivot_off, settle, settle_index, stepped, swept, ConnInfo, TcpModel,
};
use crate::keygen::{ri_code, tuple_code};
use crate::tcpstate::TcpState;
use vstd::prelude::*;

verus! {

/// The first `pv` records expire at `bound` at the latest, the others at
/// the earliest and in the order of their expiry, and none after `max`.
pub open spec fn split_at(conns: Seq<(u64, ConnInfo)>, pv: int, bound: int, max: int) -> bool {
    &&& 0 <= pv <= conns.len()
    &&& forall|i: int| 0 <= i < pv ==> (#[trigger] conns[i]).1.will_expire <= bound
    &&& forall|i: int| pv <= i < conns.len() ==> (#[trigger] conns[i]).1.will_expire >= bound
    &&& forall|i: int, j: int|
        pv <= i <= j < conns.len() ==> (#[trigger] conns[i]).1.will_expire <= (
        #[trigger] conns[j]).1.will_expire
    &&& forall|i: int| 0 <= i < conns.len() ==> (#[trigger] conns[i]).1.will_expire <= max
}

/// The pivot splits the records by their expiry, as of the time `settled`
/// at which it last moved on; no record was renewed after `clock`.
pub open spec fn timely(
    m: TcpModel,
    settled: u64,
    clock: u64,
    long_timeout: u64,
    short_timeout: u64,
) -> bool {
    &&& short_timeout <= long_timeout
    &&& settled <= clock
    &&& split_at(
        m.conns,
        pivot_index(m.conns, m.pivot),
        settled + short_timeout,
        clock + long_timeout,
    )
}

/// Whatever the time `settled` as of which the pivot split the records
/// `a`, and whatever the time `clock`, not after `now`, up to which they
/// were renewed: the pivot splits the records `b` as of `settled` still, or
/// as of `now`.
pub open spec fn keeps_time(
    a: TcpModel,
    b: TcpModel,
    now: u64,
    long_timeout: u64,
    short_timeout: u64,
) -> bool {
    forall|settled: u64, clock: u64|
        #![trigger timely(a, settled, clock, long_timeout, short_timeout)]
        timely(a, settled, clock, long_timeout, short_timeout) && clock <= now ==> timely(
            b,
            settled,
            now,
            long_timeout,
            short_timeout,
        ) || timely(b, now, now, long_timeout, short_timeout)
}

/// The place of a handle known to stand at place `i`, or of the null
/// handle.
proof fn lemma_pivot_index(s: Seq<(u64, ConnInfo)>, h: u64, i: int)
    requires
        distinct_handles(s),
        0 <= i <= s.len(),
        i < s.len() ==> s[i].0 == h,
        i == s.len() ==> h == NULL,
    ensures
        pivot_index(s, h) == i,
        h == NULL || holds(s, h),
{
    if i < s.len() {
        lemma_position_unique(s, h, i);
    }
}

/// A record that has moved behind the last, to expire no earlier than any
/// other, leaves the split as it is.
proof fn lemma_long_shape(
    s: Seq<(u64, ConnInfo)>,
    i: int,
    pv: int,
    x: (u64, ConnInfo),
    bound: int,
    max: int,
    max2: int,
)
    requires
        split_at(s, pv, bound, max),
        0 <= i < s.len(),
        x.1.will_expire >= bound,
        x.1.will_expire >= max,
        x.1.will_expire <= max2,
    ensures
        split_at(s.remove(i).push(x), if i < pv {
            pv - 1
        } else {
            pv
        }, bound, max2),
{
    let l = s.remove(i).push(x);
    let pv2 = if i < pv { pv - 1 } else { pv };
    assert forall|t: int| 0 <= t < l.len() - 1 implies #[trigger] l[t] == s[if t < i {
        t
    } else {
        t + 1
    }] by {}
    assert forall|t: int| 0 <= t < pv2 implies (#[trigger] l[t]).1.will_expire <= bound by {
        assert(l[t] == s[if t < i { t } else { t + 1 }]);
    }
    assert forall|t: int| pv2 <= t < l.len() implies (#[trigger] l[t]).1.will_expire >= bound by {
        if t < l.len() - 1 {
            assert(l[t] == s[if t < i { t } else { t + 1 }]);
        }
    }
    assert forall|t: int, u: int| pv2 <= t <= u < l.len() implies (#[trigger] l[t]).1.will_expire
        <= (#[trigger] l[u]).1.will_expire by {
        if t < l.len() - 1 {
            assert(l[t] == s[if t < i { t } else { t + 1 }]);
        }
        if u < l.len() - 1 {
            assert(l[u] == s[if u < i { u } else { u + 1 }]);
        }
    }
    assert forall|t: int| 0 <= t < l.len() implies (#[trigger] l[t]).1.will_expire <= max2 by {
        if t < l.len() - 1 {
            assert(l[t] == s[if t < i { t } else { t + 1 }]);
        }
    }
}

/// A record that expires at `bound`, filed just before place `q`, which
/// splits the others at `bound`, splits the list behind itself.
proof fn lemma_refile_shape(
    s: Seq<(u64, ConnInfo)>,
    i: int,
    q: int,
    x: (u64, ConnInfo),
    bound: int,
    max: int,
)
    requires
        0 <= i < s.len(),
        0 <= q <= s.len(),
        forall|t: int| 0 <= t < q && t != i ==> (#[trigger] s[t]).1.will_expire <= bound,
        forall|t: int| q <= t < s.len() && t != i ==> (#[trigger] s[t]).1.will_expire >= bound,
        forall|t: int, u: int|
            q <= t <= u < s.len() && t != i && u != i ==> (#[trigger] s[t]).1.will_expire <= (
            #[trigger] s[u]).1.will_expire,
        forall|t: int| 0 <= t < s.len() && t != i ==> (#[trigger] s[t]).1.will_expire <= max,
        x.1.will_expire == bound,
        bound <= max,
    ensures
        q == i ==> split_at(s.update(i, x), i, bound, max),
        q != i ==> split_at(s.remove(i).insert(if i < q {
            q - 1
        } else {
            q
        }, x), if i < q {
            q
        } else {
            q + 1
        }, bound, max),
{
    if q == i {
        let l = s.update(i, x);
        assert forall|t: int| 0 <= t < l.len() && t != i implies #[trigger] l[t] == s[t] by {}
        assert forall|t: int| 0 <= t < i implies (#[trigger] l[t]).1.will_expire <= bound by {
            assert(l[t] == s[t]);
        }
        assert forall|t: int| i <= t < l.len() implies (#[trigger] l[t]).1.will_expire >= bound by {
            if t != i {
                assert(l[t] == s[t]);
            }
        }
        assert forall|t: int, u: int| i <= t <= u < l.len() implies (
        #[trigger] l[t]).1.will_expire <= (#[trigger] l[u]).1.will_expire by {
            if t != i {
                assert(l[t] == s[t]);
            }
            if u != i {
                assert(l[u] == s[u]);
            }
        }
        assert forall|t: int| 0 <= t < l.len() implies (#[trigger] l[t]).1.will_expire <= max by {
            if t != i {
                assert(l[t] == s[t]);
            }
        }
    } else {
        let j = if i < q { q - 1 } else { q };
        let rest = s.remove(i);
        let l = rest.insert(j, x);
        // where each record of the new list stood in the old one
        let from = |t: int| -> int
            {
                let r = if t < j {
                    t
                } else {
                    t - 1
                };
                if r < i {
                    r
                } else {
                    r + 1
                }
            };
        assert forall|t: int| 0 <= t < l.len() && t != j implies #[trigger] l[t] == s[from(t)]
            && 0 <= from(t) < s.len() && from(t) != i && (t < j <==> from(t) < q) by {
            let r = if t < j { t } else { t - 1 };
            assert(l[t] == rest[r]);
        }
        assert forall|t: int| 0 <= t < j + 1 implies (#[trigger] l[t]).1.will_expire <= bound by {
            if t != j {
                assert(l[t] == s[from(t)]);
            }
        }
        assert forall|t: int| j + 1 <= t < l.len() implies (#[trigger] l[t]).1.will_expire
            >= bound by {
            assert(l[t] == s[from(t)]);
        }
        assert forall|t: int, u: int| j + 1 <= t <= u < l.len() implies (
        #[trigger] l[t]).1.will_expire <= (#[trigger] l[u]).1.will_expire by {
            assert(l[t] == s[from(t)]);
            assert(l[u] == s[from(u)]);
        }
        assert forall|t: int| 0 <= t < l.len() implies (#[trigger] l[t]).1.will_expire <= max by {
            if t != j {
                assert(l[t] == s[from(t)]);
            }
        }
    }
}

/// A new record that expires at `bound`, filed just before place `q`,
/// which splits the others at `bound`, splits the list behind itself.
proof fn lemma_put_shape(s: Seq<(u64, ConnInfo)>, q: int, x: (u64, ConnInfo), bound: int, max: int)
    requires
        split_at(s, q, bound, max),
        x.1.will_expire == bound,
        bound <= max,
    ensures
        split_at(s.insert(q, x), q + 1, bound, max),
{
    let l = s.insert(q, x);
    assert forall|t: int| 0 <= t < l.len() && t != q implies #[trigger] l[t] == s[if t < q {
        t
    } else {
        t - 1
    }] by {}
    assert forall|t: int| 0 <= t < q + 1 implies (#[trigger] l[t]).1.will_expire <= bound by {
        if t != q {
            assert(l[t] == s[t]);
        }
    }
    assert forall|t: int| q + 1 <= t < l.len() implies (#[trigger] l[t]).1.will_expire >= bound by {
        assert(l[t] == s[t - 1]);
    }
    assert forall|t: int, u: int| q + 1 <= t <= u < l.len() implies (
    #[trigger] l[t]).1.will_expire <= (#[trigger] l[u]).1.will_expire by {
        assert(l[t] == s[t - 1]);
        assert(l[u] == s[u - 1]);
    }
    assert forall|t: int| 0 <= t < l.len() implies (#[trigger] l[t]).1.will_expire <= max by {
        if t != q {
            assert(l[t] == s[if t < q { t } else { t - 1 }]);
        }
    }
}

/// A list split at place `pv` as of an earlier time is split, as of `now`,
/// at the place where the pivot settles.
proof fn lemma_settled_shape(
    s: Seq<(u64, ConnInfo)>,
    pv: int,
    bound: int,
    max: int,
    bound2: int,
    max2: int,
)
    requires
        split_at(s, pv, bound, max),
        bound <= bound2,
        max <= max2,
    ensures
        split_at(s, settle_index(s, pv, bound2), bound2, max2),
{
    lemma_settle_index(s, pv, bound2);
    let q = settle_index(s, pv, bound2);
    assert forall|t: int| q <= t < s.len() implies (#[trigger] s[t]).1.will_expire >= bound2 by {
        assert(s[q].1.will_expire <= s[t].1.will_expire);
    }
}

/// Every record before the place where the expired ones end has expired.
proof fn lemma_expired_conns(s: Seq<(u64, ConnInfo)>, now: u64)
    ensures
        expired_conns(s, now) <= s.len(),
        forall|t: int| 0 <= t < expired_conns(s, now) ==> (#[trigger] s[t]).1.will_expire < now,
    decreases s.len(),
{
    if s.len() > 0 && s[0].1.will_expire < now {
        lemma_expired_conns(s.skip(1), now);
        assert forall|t: int| 0 <= t < expired_conns(s, now) implies (
        #[trigger] s[t]).1.will_expire < now by {
            if t > 0 {
                assert(s[t] == s.skip(1)[t - 1]);
            }
        }
    }
}

/// Where the records are in order, the pivot splits them: a record before
/// the pivot expires `short_timeout` seconds after the pivot settled at
/// the latest, a record from the pivot on at the earliest. So a record
/// that expires later stands at the pivot or behind it, and there is a
/// pivot if there is such a record.
pub proof fn lemma_pivot_splits(
    m: TcpModel,
    settled: u64,
    clock: u64,
    long_timeout: u64,
    short_timeout: u64,
    i: int,
)
    requires
        model_ok(m),
        timely(m, settled, clock, long_timeout, short_timeout),
        0 <= i < m.conns.len(),
    ensures
        i < pivot_index(m.conns, m.pivot) ==> m.conns[i].1.will_expire <= settled + short_timeout,
        i >= pivot_index(m.conns, m.pivot) ==> m.conns[i].1.will_expire >= settled + short_timeout,
        m.conns[i].1.will_expire > settled + short_timeout ==> m.pivot != NULL && i >= position(
            m.conns,
            m.pivot,
        ),
        m.pivot == NULL <==> pivot_index(m.conns, m.pivot) == m.conns.len(),
{
}

/// A table without connections is in order.
pub proof fn lemma_empty_is_timely(m: TcpModel, clock: u64, long_timeout: u64, short_timeout: u64)
    requires
        m.conns.len() == 0,
        short_timeout <= long_timeout,
    ensures
        timely(m, clock, clock, long_timeout, short_timeout),
{
}

/// A collection keeps the order of expiry: after it the pivot splits the
/// records as of the time of the collection. The records dropped all stood
/// before the pivot.
pub proof fn lemma_sweep_keeps_time(
    a: TcpModel,
    now: u64,
    long_timeout: u64,
    short_timeout: u64,
    settled: u64,
    clock: u64,
)
    requires
        model_ok(a),
        timely(a, settled, clock, long_timeout, short_timeout),
        clock <= now,
    ensures
        model_ok(swept(a, now, short_timeout)),
        timely(swept(a, now, short_timeout), now, now, long_timeout, short_timeout),
        expired_conns(a.conns, now) <= pivot_index(
            a.conns,
            settle(a.conns, a.pivot, now + short_timeout),
        ),
{
    let s = a.conns;
    let pv = pivot_index(s, a.pivot);
    let bound = now + short_timeout;
    let max = now + long_timeout;
    let q = settle_index(s, pv, bound);
    let k = expired_conns(s, now) as int;
    let b = swept(a, now, short_timeout);
    lemma_settle_index(s, pv, bound);
    lemma_settled_shape(s, pv, settled + short_timeout, clock + long_timeout, bound, max);
    lemma_expired_conns(s, now);
    assert(k <= q) by {
        if q < k {
            assert(s[q].1.will_expire < now);
        }
    }
    let rest = s.skip(k);
    assert forall|t: int| 0 <= t < rest.len() implies #[trigger] rest[t] == s[t + k] by {}
    assert(distinct_handles(rest)) by {
        assert forall|t: int, u: int|
            0 <= t < rest.len() && 0 <= u < rest.len() && t != u implies (#[trigger] rest[t]).0 != (
        #[trigger] rest[u]).0 by {
            assert(rest[t] == s[t + k]);
            assert(rest[u] == s[u + k]);
        }
        assert forall|t: int| 0 <= t < rest.len() implies (#[trigger] rest[t]).0 != NULL by {
            assert(rest[t] == s[t + k]);
        }
    }
    if q < s.len() {
        assert(rest[q - k] == s[q]);
    }
    lemma_pivot_index(s, b.pivot, q);
    lemma_pivot_index(rest, b.pivot, q - k);
    assert(split_at(rest, q - k, bound, max)) by {
        assert forall|t: int| 0 <= t < q - k implies (#[trigger] rest[t]).1.will_expire
            <= bound by {
            assert(rest[t] == s[t + k]);
        }
        assert forall|t: int| q - k <= t < rest.len() implies (#[trigger] rest[t]).1.will_expire
            >= bound by {
            assert(rest[t] == s[t + k]);
        }
        assert forall|t: int, u: int| q - k <= t <= u < rest.len() implies (
        #[trigger] rest[t]).1.will_expire <= (#[trigger] rest[u]).1.will_expire by {
            assert(rest[t] == s[t + k]);
            assert(rest[u] == s[u + k]);
        }
        assert forall|t: int| 0 <= t < rest.len() implies (#[trigger] rest[t]).1.will_expire
            <= max by {
            assert(rest[t] == s[t + k]);
        }
    }
}

/// A record that changes its phase and nothing else leaves the split as
/// it is.
proof fn lemma_marked(
    s: Seq<(u64, ConnInfo)>,
    pivot: u64,
    key: u64,
    state: TcpState,
    bound: int,
    max: int,
)
    requires
        distinct_handles(s),
        pivot == NULL || holds(s, pivot),
        holds(s, key),
        split_at(s, pivot_index(s, pivot), bound, max),
    ensures
        ({
            let i = position(s, key);
            let marked = s.update(i, (key, in_phase(s[i].1, state)));
            let pv = pivot_index(s, pivot);
            &&& distinct_handles(marked)
            &&& pivot_index(marked, pivot) == pv
            &&& split_at(marked, pv, bound, max)
            &&& position(marked, key) == i
            &&& holds(marked, key)
            &&& 0 <= i < s.len()
            &&& pivot_index(marked, pivot_off(s, pivot, key)) == if pivot == key {
                i + 1
            } else {
                pv
            }
            &&& pivot == key ==> pv == i
        }),
{
    let i = position(s, key);
    let n = s.len() as int;
    let marked = s.update(i, (key, in_phase(s[i].1, state)));
    let pv = pivot_index(s, pivot);
    assert forall|t: int| 0 <= t < n implies (#[trigger] marked[t]).0 == s[t].0
        && marked[t].1.will_expire == s[t].1.will_expire by {}
    lemma_pivot_index(marked, pivot, pv);
    lemma_position_unique(marked, key, i);
    lemma_position_unique(s, key, i);
    let q1 = if pivot == key {
        i + 1
    } else {
        pv
    };
    lemma_pivot_index(marked, pivot_off(s, pivot, key), q1);
}

/// An established connection that is renewed keeps the order of expiry as
/// of the time at which the pivot last moved on.
proof fn lemma_refiled_long(
    marked: Seq<(u64, ConnInfo)>,
    pivot: u64,
    pv1: u64,
    key: u64,
    c2: ConnInfo,
    bound: int,
    max: int,
    max2: int,
)
    requires
        distinct_handles(marked),
        holds(marked, key),
        split_at(marked, pivot_index(marked, pivot), bound, max),
        pivot_index(marked, pv1) == if pivot == key {
            position(marked, key) + 1
        } else {
            pivot_index(marked, pivot)
        },
        pivot == key ==> pivot_index(marked, pivot) == position(marked, key),
        pv1 == NULL || holds(marked, pv1),
        c2.will_expire >= bound,
        c2.will_expire >= max,
        c2.will_expire <= max2,
    ensures
        ({
            let l = moved_before(marked, NULL, key, c2);
            let p = if pv1 == NULL {
                key
            } else {
                pv1
            };
            split_at(l, pivot_index(l, p), bound, max2)
        }),
{
    let i = position(marked, key);
    let pv = pivot_index(marked, pivot);
    let l = marked.remove(i).push((key, c2));
    let p = if pv1 == NULL {
        key
    } else {
        pv1
    };
    lemma_moved_before(marked, NULL, key, c2);
    let pv2 = if i < pv {
        pv - 1
    } else {
        pv
    };
    lemma_long_shape(marked, i, pv, (key, c2), bound, max, max2);
    assert forall|t: int| 0 <= t < l.len() - 1 implies #[trigger] l[t] == marked[if t < i {
        t
    } else {
        t + 1
    }] by {}
    if pv1 != NULL {
        let q1 = position(marked, pv1);
        assert(marked[q1].0 == pv1);
        assert(q1 != i);
        assert(l[if q1 < i { q1 } else { q1 - 1 }] == marked[q1]);
    }
    lemma_pivot_index(l, p, pv2);
}

/// A connection that is not established and is renewed at time `now`
/// keeps the order of expiry as of `now`.
proof fn lemma_refiled_short(
    marked: Seq<(u64, ConnInfo)>,
    pivot: u64,
    pv1: u64,
    key: u64,
    c2: ConnInfo,
    bound0: int,
    max0: int,
    bound: int,
    max: int,
)
    requires
        distinct_handles(marked),
        holds(marked, key),
        split_at(marked, pivot_index(marked, pivot), bound0, max0),
        pivot_index(marked, pv1) == if pivot == key {
            position(marked, key) + 1
        } else {
            pivot_index(marked, pivot)
        },
        pivot == key ==> pivot_index(marked, pivot) == position(marked, key),
        pv1 == NULL || holds(marked, pv1),
        bound0 <= bound,
        max0 <= max,
        bound <= max,
        c2.will_expire == bound,
    ensures
        ({
            let pv2 = settle(marked, pv1, bound);
            let l = moved_before(marked, pv2, key, c2);
            split_at(l, pivot_index(l, pv2), bound, max)
        }),
{
    let n = marked.len() as int;
    let i = position(marked, key);
    let pv = pivot_index(marked, pivot);
    let q1 = pivot_index(marked, pv1);
    let q2 = settle_index(marked, q1, bound);
    let pv2 = settle(marked, pv1, bound);
    lemma_position_unique(marked, key, i);
    lemma_settle_index(marked, q1, bound);
    lemma_pivot_index(marked, pv2, q2);
    lemma_moved_before(marked, pv2, key, c2);
    assert forall|t: int| q2 <= t < n && t != i implies (#[trigger] marked[t]).1.will_expire
        >= bound by {
        assert(marked[q2].1.will_expire <= marked[t].1.will_expire);
    }
    lemma_refile_shape(marked, i, q2, (key, c2), bound, max);
    let l = moved_before(marked, pv2, key, c2);
    if q2 == i {
        assert(pv2 == key);
        lemma_pivot_index(l, pv2, i);
    } else {
        let j = if i < q2 {
            q2 - 1
        } else {
            q2
        };
        let rest = marked.remove(i);
        if q2 < n {
            assert(rest[j] == marked[q2]);
            assert(distinct_handles(rest)) by {
                crate::ll::lemma_as_map_remove(marked, i);
            }
            lemma_position_unique(rest, pv2, j);
            assert(l == rest.insert(j, (key, c2)));
            assert(l[j + 1] == rest[j]);
        } else {
            assert(pv2 == NULL);
            assert(rest.push((key, c2)) =~= rest.insert(j, (key, c2)));
        }
        lemma_pivot_index(l, pv2, j + 1);
    }
}

/// A connection first seen at time `now` keeps the order of expiry as of
/// `now`.
proof fn lemma_opened(
    s: Seq<(u64, ConnInfo)>,
    pivot: u64,
    k: u64,
    x: ConnInfo,
    bound0: int,
    max0: int,
    bound: int,
    max: int,
)
    requires
        distinct_handles(s),
        pivot == NULL || holds(s, pivot),
        !holds(s, k),
        k != NULL,
        split_at(s, pivot_index(s, pivot), bound0, max0),
        bound0 <= bound,
        max0 <= max,
        bound <= max,
        x.will_expire == bound,
    ensures
        ({
            let pv2 = settle(s, pivot, bound);
            let l = put_before(s, pv2, k, x);
            split_at(l, pivot_index(l, pv2), bound, max)
        }),
{
    let n = s.len() as int;
    let pv = pivot_index(s, pivot);
    let q = settle_index(s, pv, bound);
    let pvh = settle(s, pivot, bound);
    lemma_settle_index(s, pv, bound);
    lemma_settled_shape(s, pv, bound0, max0, bound, max);
    lemma_pivot_index(s, pvh, q);
    lemma_put_before(s, pvh, k, x);
    lemma_put_shape(s, q, (k, x), bound, max);
    assert(put_before(s, pvh, k, x) =~= s.insert(q, (k, x)));
    let l = s.insert(q, (k, x));
    if q < n {
        assert(l[q + 1] == s[q]);
    }
    lemma_pivot_index(l, pvh, q + 1);
}

/// A segment keeps the order of expiry, time going forwards: after it the
/// pivot splits the records as of the time at which it last moved on,
/// which is the time of the segment or the time it was before.
pub proof fn lemma_step_keeps_time(
    a: TcpModel,
    b: TcpModel,
    is_ingress: bool,
    conntuple: (u16, (u32, u16)),
    flags: u8,
    now: u64,
    entry_key: u64,
    long_timeout: u64,
    short_timeout: u64,
    settled: u64,
    clock: u64,
)
    requires
        model_ok(a),
        timely(a, settled, clock, long_timeout, short_timeout),
        clock <= now,
        now + long_timeout <= u64::MAX,
        stepped(a, b, is_ingress, conntuple, flags, now, entry_key, long_timeout, short_timeout),
    ensures
        timely(b, settled, now, long_timeout, short_timeout) || timely(
            b,
            now,
            now,
            long_timeout,
            short_timeout,
        ),
{
    let s = a.conns;
    let code = ri_code(conntuple.0, tuple_code(conntuple.1));
    let bound0 = settled + short_timeout;
    let max0 = clock + long_timeout;
    let bound = now + short_timeout;
    let max = now + long_timeout;
    if a.conn_index.contains_key(code) {
        let key = a.conn_index[code];
        let i = position(s, key);
        let state = phase_after(s[i].1, flags, is_ingress, now);
        let c1 = in_phase(s[i].1, state);
        let marked = s.update(i, (key, c1));
        lemma_marked(s, a.pivot, key, state, bound0, max0);
        if is_ingress {
            assert(timely(b, settled, now, long_timeout, short_timeout));
        } else {
            let pv1 = pivot_off(s, a.pivot, key);
            assert(pv1 == NULL || holds(marked, pv1)) by {
                lemma_pivot_index_bounds(marked, pv1);
                if pivot_index(marked, pv1) < marked.len() {
                    lemma_position_unique(marked, pv1, pivot_index(marked, pv1));
                } else if pv1 != NULL {
                    assert(pivot_index(s, a.pivot) == s.len());
                }
            }
            if state == TcpState::Established {
                lemma_refiled_long(
                    marked,
                    a.pivot,
                    pv1,
                    key,
                    expiring(c1, max),
                    bound0,
                    max0,
                    max,
                );
                assert(timely(b, settled, now, long_timeout, short_timeout));
            } else {
                lemma_refiled_short(
                    marked,
                    a.pivot,
                    pv1,
                    key,
                    expiring(c1, bound),
                    bound0,
                    max0,
                    bound,
                    max,
                );
                assert(timely(b, now, now, long_timeout, short_timeout));
            }
        }
    } else {
        let k = b.conn_index[code];
        let x = opened(flags, is_ingress, now, short_timeout, entry_key, conntuple.1);
        lemma_opened(s, a.pivot, k, x, bound0, max0, bound, max);
        assert(timely(b, now, now, long_timeout, short_timeout));
    }
}

/// The place that a pivot names is a place of the list or the one behind
/// the last.
proof fn lemma_pivot_index_bounds(s: Seq<(u64, ConnInfo)>, pivot: u64)
    ensures
        0 <= pivot_index(s, pivot) <= s.len(),
        pivot_index(s, pivot) < s.len() ==> s[pivot_index(s, pivot)].0 == pivot,
{
}

/// A segment keeps the order of expiry, time going forwards.
pub proof fn lemma_step_keeps(
    a: TcpModel,
    b: TcpModel,
    is_ingress: bool,
    conntuple: (u16, (u32, u16)),
    flags: u8,
    now: u64,
    entry_key: u64,
    long_timeout: u64,
    short_timeout: u64,
)
    requires
        model_ok(a),
        now + long_timeout <= u64::MAX,
        stepped(a, b, is_ingress, conntuple, flags, now, entry_key, long_timeout, short_timeout),
    ensures
        keeps_time(a, b, now, long_timeout, short_timeout),
{
    assert forall|settled: u64, clock: u64|
        #![trigger timely(a, settled, clock, long_timeout, short_timeout)]
        timely(a, settled, clock, long_timeout, short_timeout) && clock <= now implies timely(
        b,
        settled,
        now,
        long_timeout,
        short_timeout,
    ) || timely(b, now, now, long_timeout, short_timeout) by {
        lemma_step_keeps_time(
            a,
            b,
            is_ingress,
            conntuple,
            flags,
            now,
            entry_key,
            long_timeout,
            short_timeout,
            settled,
            clock,
        );
    }
}

/// A collection and the segment after it keep the order of expiry, time
/// going forwards.
pub proof fn lemma_sweep_and_step_keep(
    a: TcpModel,
    b: TcpModel,
    conntuple: (u16, (u32, u16)),
    flags: u8,
    now: u64,
    entry_key: u64,
    long_timeout: u64,
    short_timeout: u64,
)
    requires
        model_ok(a),
        now + long_timeout <= u64::MAX,
        b == swept(a, now, short_timeout) || stepped(
            swept(a, now, short_timeout),
            b,
            false,
            conntuple,
            flags,
            now,
            entry_key,
            long_timeout,
            short_timeout,
        ),
    ensures
        keeps_time(a, b, now, long_timeout, short_timeout),
{
    assert forall|settled: u64, clock: u64|
        #![trigger timely(a, settled, clock, long_timeout, short_timeout)]
        timely(a, settled, clock, long_timeout, short_timeout) && clock <= now implies timely(
        b,
        now,
        now,
        long_timeout,
        short_timeout,
    ) by {
        lemma_sweep_keeps_time(a, now, long_timeout, short_timeout, settled, clock);
        if b != swept(a, now, short_timeout) {
            lemma_step_keeps_time(
                swept(a, now, short_timeout),
                b,
                false,
                conntuple,
                flags,
                now,
                entry_key,
                long_timeout,
                short_timeout,
                now,
                now,
            );
        }
    }
}

} // verus!
