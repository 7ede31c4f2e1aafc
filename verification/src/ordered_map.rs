//! A map keyed by 32-byte strings that keeps its entries in ascending key
//! order, so that walking it is deterministic.
//!
//! The mathematical model of such a map is the strictly ascending sequence of
//! its `(key, value)` pairs; the functions at the top of this file read and
//! extend such sequences.

use crate::bytes32::Bytes32;
use vstd::prelude::*;

verus! {

/// The keys of `s` ascend strictly.
pub open spec fn sorted<T>(s: Seq<(Bytes32, T)>) -> bool {
    forall|i: int, j: int| 0 <= i < j < s.len() ==> (#[trigger] s[i]).0.lt((#[trigger] s[j]).0)
}

/// Some entry of `s` has the key `k`.
pub open spec fn has_key<T>(s: Seq<(Bytes32, T)>, k: Bytes32) -> bool {
    exists|i: int| 0 <= i < s.len() && (#[trigger] s[i]).0 == k
}

/// Where the key `k` stands in `s`.
pub open spec fn index_of<T>(s: Seq<(Bytes32, T)>, k: Bytes32) -> int {
    choose|i: int| 0 <= i < s.len() && (#[trigger] s[i]).0 == k
}

/// The value that `s` holds under the key `k`.
pub open spec fn value_of<T>(s: Seq<(Bytes32, T)>, k: Bytes32) -> T {
    s[index_of(s, k)].1
}

/// `p` parts `s` into the keys below `k` and the keys not below it.
pub open spec fn parts_at<T>(s: Seq<(Bytes32, T)>, k: Bytes32, p: int) -> bool {
    &&& 0 <= p <= s.len()
    &&& forall|i: int| 0 <= i < p ==> (#[trigger] s[i]).0.lt(k)
    &&& forall|i: int| p <= i < s.len() ==> !(#[trigger] s[i]).0.lt(k)
}

/// The number of keys of `s` that are below `k`: where `k` belongs.
pub open spec fn slot<T>(s: Seq<(Bytes32, T)>, k: Bytes32) -> int {
    choose|p: int| parts_at(s, k, p)
}

/// `s` with `v` stored under `k`: in place of the old value where `k` is
/// present, at its place in the order where it is not.
pub open spec fn put<T>(s: Seq<(Bytes32, T)>, k: Bytes32, v: T) -> Seq<(Bytes32, T)> {
    if has_key(s, k) {
        s.update(index_of(s, k), (k, v))
    } else {
        s.insert(slot(s, k), (k, v))
    }
}

/// In a sorted sequence a key stands at one index only.
pub proof fn lemma_index_unique<T>(s: Seq<(Bytes32, T)>, k: Bytes32, i: int)
    requires
        sorted(s),
        0 <= i < s.len(),
        s[i].0 == k,
    ensures
        has_key(s, k),
        index_of(s, k) == i,
        value_of(s, k) == s[i].1,
{
    let j = index_of(s, k);
    assert(s[j].0 == k);
    if j < i {
        assert(s[j].0.lt(s[i].0));
    } else if i < j {
        assert(s[i].0.lt(s[j].0));
    }
}

/// At most one index parts a sequence at a key.
pub proof fn lemma_slot_unique<T>(s: Seq<(Bytes32, T)>, k: Bytes32, p: int)
    requires
        parts_at(s, k, p),
    ensures
        slot(s, k) == p,
{
    let q = slot(s, k);
    assert(parts_at(s, k, q));
    if q < p {
        assert(s[q].0.lt(k));
    } else if p < q {
        assert(s[p].0.lt(k));
    }
}

/// Every sorted sequence is parted at every key.
pub proof fn lemma_slot_exists<T>(s: Seq<(Bytes32, T)>, k: Bytes32)
    requires
        sorted(s),
    ensures
        parts_at(s, k, slot(s, k)),
        has_key(s, k) ==> index_of(s, k) == slot(s, k),
    decreases s.len(),
{
    if s.len() == 0 {
        assert(parts_at(s, k, 0));
    } else {
        let t = s.drop_last();
        assert(sorted(t)) by {
            assert forall|i: int, j: int| 0 <= i < j < t.len() implies (#[trigger] t[i]).0.lt(
                (#[trigger] t[j]).0,
            ) by {
                assert(s[i].0.lt(s[j].0));
            }
        }
        lemma_slot_exists(t, k);
        let q = slot(t, k);
        let last = s.len() - 1;
        if s[last].0.lt(k) {
            assert forall|i: int| 0 <= i < s.len() implies (#[trigger] s[i]).0.lt(k) by {
                if i < last {
                    assert(s[i].0.lt(s[last].0));
                }
            }
            assert(parts_at(s, k, s.len() as int));
        } else {
            assert forall|i: int| 0 <= i < q implies (#[trigger] s[i]).0.lt(k) by {
                assert(t[i].0.lt(k));
            }
            assert forall|i: int| q <= i < s.len() implies !(#[trigger] s[i]).0.lt(k) by {
                if i < last {
                    assert(!t[i].0.lt(k));
                }
            }
            assert(parts_at(s, k, q));
        }
    }
    if has_key(s, k) {
        let i = index_of(s, k);
        let p = slot(s, k);
        assert(s[i].0 == k);
        if i < p {
            assert(s[i].0.lt(k));
        } else if p < i {
            assert(!s[p].0.lt(k));
            assert(s[p].0.lt(s[i].0));
        }
    }
}

/// Storing a value keeps the order.
pub proof fn lemma_put_sorted<T>(s: Seq<(Bytes32, T)>, k: Bytes32, v: T)
    requires
        sorted(s),
    ensures
        sorted(put(s, k, v)),
{
    let r = put(s, k, v);
    lemma_slot_exists(s, k);
    if has_key(s, k) {
        assert forall|i: int, j: int| 0 <= i < j < r.len() implies (#[trigger] r[i]).0.lt(
            (#[trigger] r[j]).0,
        ) by {
            assert(s[i].0.lt(s[j].0));
        }
    } else {
        let p = slot(s, k);
        assert forall|i: int, j: int| 0 <= i < j < r.len() implies (#[trigger] r[i]).0.lt(
            (#[trigger] r[j]).0,
        ) by {
            if j < p {
                assert(s[i].0.lt(s[j].0));
            } else if j == p {
                assert(s[i].0.lt(k));
            } else if i < p {
                assert(s[i].0.lt(k));
                assert(!s[j - 1].0.lt(k));
                assert(s[j - 1].0 != k);
            } else if i == p {
                assert(!s[j - 1].0.lt(k));
                assert(s[j - 1].0 != k);
            } else {
                assert(s[i - 1].0.lt(s[j - 1].0));
            }
        }
    }
}

/// The keys after storing under `k` are the keys before, and `k`.
pub proof fn lemma_put_has<T>(s: Seq<(Bytes32, T)>, k: Bytes32, v: T, q: Bytes32)
    requires
        sorted(s),
    ensures
        has_key(put(s, k, v), q) <==> (q == k || has_key(s, q)),
{
    let r = put(s, k, v);
    lemma_slot_exists(s, k);
    if has_key(s, k) {
        let x = index_of(s, k);
        assert(r[x].0 == k);
        if has_key(s, q) {
            let i = index_of(s, q);
            assert(r[i].0 == q);
        }
        if has_key(r, q) {
            let i = index_of(r, q);
            assert(r[i].0 == q);
            if i != x {
                assert(s[i].0 == q);
            }
        }
    } else {
        let p = slot(s, k);
        assert(r[p].0 == k);
        if has_key(s, q) {
            let i = index_of(s, q);
            if i < p {
                assert(r[i].0 == q);
            } else {
                assert(r[i + 1].0 == q);
            }
        }
        if has_key(r, q) {
            let i = index_of(r, q);
            assert(r[i].0 == q);
            if i < p {
                assert(s[i].0 == q);
            } else if i > p {
                assert(s[i - 1].0 == q);
            }
        }
    }
}

/// Storing under `k` changes the value under `k` and no other.
pub proof fn lemma_put_value<T>(s: Seq<(Bytes32, T)>, k: Bytes32, v: T, q: Bytes32)
    requires
        sorted(s),
        q == k || has_key(s, q),
    ensures
        value_of(put(s, k, v), q) == (if q == k {
            v
        } else {
            value_of(s, q)
        }),
{
    let r = put(s, k, v);
    lemma_slot_exists(s, k);
    lemma_put_sorted(s, k, v);
    if has_key(s, k) {
        let x = index_of(s, k);
        if q == k {
            lemma_index_unique(r, k, x);
        } else {
            let i = index_of(s, q);
            assert(s[i].0 == q);
            lemma_index_unique(r, q, i);
        }
    } else {
        let p = slot(s, k);
        if q == k {
            lemma_index_unique(r, k, p);
        } else {
            let i = index_of(s, q);
            assert(s[i].0 == q);
            if i < p {
                lemma_index_unique(r, q, i);
            } else {
                lemma_index_unique(r, q, i + 1);
            }
        }
    }
}

/// What storing under `k` does to the keys and to the values, for all keys
/// at once.
pub proof fn lemma_put_all<T>(s: Seq<(Bytes32, T)>, k: Bytes32, v: T)
    requires
        sorted(s),
    ensures
        sorted(put(s, k, v)),
        forall|q: Bytes32| #[trigger] has_key(put(s, k, v), q) <==> (q == k || has_key(s, q)),
        forall|q: Bytes32|
            #[trigger] has_key(put(s, k, v), q) ==> value_of(put(s, k, v), q) == (if q == k {
                v
            } else {
                value_of(s, q)
            }),
{
    lemma_put_sorted(s, k, v);
    assert forall|q: Bytes32| #[trigger] has_key(put(s, k, v), q) <==> (q == k || has_key(s, q)) by {
        lemma_put_has(s, k, v, q);
    }
    assert forall|q: Bytes32| #[trigger] has_key(put(s, k, v), q) implies value_of(put(s, k, v), q)
        == (if q == k {
        v
    } else {
        value_of(s, q)
    }) by {
        lemma_put_has(s, k, v, q);
        lemma_put_value(s, k, v, q);
    }
}

/// The keys among the first `i + 1` entries are those among the first `i`,
/// and the key at `i`.
pub proof fn lemma_take_has<T>(s: Seq<(Bytes32, T)>, i: int)
    requires
        0 <= i < s.len(),
    ensures
        forall|q: Bytes32|
            #[trigger] has_key(s.take(i + 1), q) <==> (q == s[i].0 || has_key(s.take(i), q)),
{
    let done = s.take(i);
    let next = s.take(i + 1);
    assert forall|q: Bytes32| #[trigger] has_key(next, q) <==> (q == s[i].0 || has_key(done, q)) by {
        if has_key(done, q) {
            let j = choose|j: int| 0 <= j < done.len() && (#[trigger] done[j]).0 == q;
            assert(next[j].0 == q);
        }
        if has_key(next, q) {
            let j = choose|j: int| 0 <= j < next.len() && (#[trigger] next[j]).0 == q;
            if j < i {
                assert(done[j].0 == q);
            }
        }
        if q == s[i].0 {
            assert(next[i].0 == q);
        }
    }
}

/// Two sorted sequences with the same keys and the same value under each
/// key are the same sequence.
pub proof fn lemma_same_entries<T>(u: Seq<(Bytes32, T)>, a: Seq<(Bytes32, T)>)
    requires
        sorted(u),
        sorted(a),
        forall|h: Bytes32| #[trigger] has_key(u, h) <==> has_key(a, h),
        forall|h: Bytes32| #[trigger] has_key(u, h) ==> value_of(u, h) == value_of(a, h),
    ensures
        u == a,
    decreases u.len(),
{
    if u.len() == 0 {
        if a.len() > 0 {
            assert(has_key(a, a[0].0));
            assert(has_key(u, a[0].0));
        }
        assert(u =~= a);
    } else {
        let n = u.len() - 1;
        assert(has_key(u, u[n].0));
        assert(has_key(a, u[n].0));
        assert(a.len() > 0) by {
            let w = index_of(a, u[n].0);
            assert(0 <= w < a.len());
        }
        let m = a.len() - 1;
        let i = index_of(a, u[n].0);
        assert(a[i].0 == u[n].0);
        assert(has_key(a, a[m].0));
        assert(has_key(u, a[m].0));
        let j = index_of(u, a[m].0);
        assert(u[j].0 == a[m].0);
        if i < m {
            assert(a[i].0.lt(a[m].0));
        }
        if j < n {
            assert(u[j].0.lt(u[n].0));
        }
        assert(u[n].0 == a[m].0);
        lemma_index_unique(u, u[n].0, n);
        lemma_index_unique(a, a[m].0, m);
        assert(u[n] == a[m]);
        let uf = u.drop_last();
        let af = a.drop_last();
        assert(sorted(uf)) by {
            assert forall|i: int, j: int| 0 <= i < j < uf.len() implies (#[trigger] uf[i]).0.lt(
                (#[trigger] uf[j]).0,
            ) by {
                assert(u[i].0.lt(u[j].0));
            }
        }
        assert(sorted(af)) by {
            assert forall|i: int, j: int| 0 <= i < j < af.len() implies (#[trigger] af[i]).0.lt(
                (#[trigger] af[j]).0,
            ) by {
                assert(a[i].0.lt(a[j].0));
            }
        }
        assert forall|h: Bytes32| #[trigger] has_key(uf, h) <==> has_key(af, h) by {
            if has_key(uf, h) {
                let k = choose|k: int| 0 <= k < uf.len() && (#[trigger] uf[k]).0 == h;
                assert(u[k].0 == h);
                assert(u[k].0.lt(u[n].0));
                assert(has_key(u, h));
                assert(has_key(a, h));
                let l = index_of(a, h);
                assert(a[l].0 == h);
                assert(l != m);
                assert(af[l].0 == h);
            }
            if has_key(af, h) {
                let k = choose|k: int| 0 <= k < af.len() && (#[trigger] af[k]).0 == h;
                assert(a[k].0 == h);
                assert(a[k].0.lt(a[m].0));
                assert(has_key(a, h));
                assert(has_key(u, h));
                let l = index_of(u, h);
                assert(u[l].0 == h);
                assert(l != n);
                assert(uf[l].0 == h);
            }
        }
        assert forall|h: Bytes32| #[trigger] has_key(uf, h) implies value_of(uf, h) == value_of(
            af,
            h,
        ) by {
            let k = choose|k: int| 0 <= k < uf.len() && (#[trigger] uf[k]).0 == h;
            assert(u[k].0 == h);
            lemma_index_unique(uf, h, k);
            lemma_index_unique(u, h, k);
            assert(has_key(af, h));
            let l = choose|l: int| 0 <= l < af.len() && (#[trigger] af[l]).0 == h;
            assert(a[l].0 == h);
            lemma_index_unique(af, h, l);
            lemma_index_unique(a, h, l);
            assert(has_key(u, h));
        }
        lemma_same_entries(uf, af);
        assert(u =~= uf.push(u[n]));
        assert(a =~= af.push(a[m]));
    }
}

/// Storing the same value under the same key a second time changes nothing.
pub proof fn lemma_put_twice<T>(s: Seq<(Bytes32, T)>, k: Bytes32, v: T)
    requires
        sorted(s),
    ensures
        put(put(s, k, v), k, v) == put(s, k, v),
{
    let r = put(s, k, v);
    lemma_put_sorted(s, k, v);
    lemma_put_has(s, k, v, k);
    lemma_slot_exists(s, k);
    let x = index_of(r, k);
    assert(r[x].0 == k);
    if has_key(s, k) {
        lemma_index_unique(r, k, index_of(s, k));
    } else {
        lemma_index_unique(r, k, slot(s, k));
    }
    assert(r.update(x, (k, v)) =~= r);
}

/// A value that can be copied: the copy has the view of the value it was
/// made from.
pub trait Replicate: View + Sized {
    /// A copy with the same view.
    fn replicate(&self) -> (r: Self)
        ensures
            r@ == self@,
    ;
}

impl Replicate for u64 {
    fn replicate(&self) -> (r: u64) {
        *self
    }
}

impl View for Bytes32 {
    type V = Bytes32;

    open spec fn view(&self) -> Bytes32 {
        *self
    }
}

impl Replicate for Bytes32 {
    fn replicate(&self) -> (r: Bytes32) {
        *self
    }
}

/// A map from 32-byte keys to values, walked in ascending key order.
pub struct OrderedMap<V> {
    entries: Vec<(Bytes32, V)>,
}

impl<V: View> View for OrderedMap<V> {
    type V = Seq<(Bytes32, V::V)>;

    closed spec fn view(&self) -> Seq<(Bytes32, V::V)> {
        self.entries@.map_values(|e: (Bytes32, V)| (e.0, e.1@))
    }
}

impl<V: View> OrderedMap<V> {
    /// The entries stand in strictly ascending key order.
    pub open spec fn wf(&self) -> bool {
        sorted(self@)
    }

    /// The empty map.
    pub fn new() -> (m: Self)
        ensures
            m.wf(),
            m@ == Seq::<(Bytes32, V::V)>::empty(),
    {
        let m = OrderedMap { entries: Vec::new() };
        assert(m@ =~= Seq::<(Bytes32, V::V)>::empty());
        m
    }

    /// The number of entries.
    pub fn len(&self) -> (n: usize)
        ensures
            n == self@.len(),
    {
        self.entries.len()
    }

    /// The key of the entry at position `i` of the order.
    pub fn key_at(&self, i: usize) -> (k: Bytes32)
        requires
            i < self@.len(),
        ensures
            k == self@[i as int].0,
    {
        self.entries[i].0
    }

    /// The value of the entry at position `i` of the order.
    pub fn value_at(&self, i: usize) -> (v: &V)
        requires
            i < self@.len(),
        ensures
            v@ == self@[i as int].1,
    {
        &self.entries[i].1
    }

    /// The number of keys below `k`, found by bisection.
    pub fn lower_bound(&self, k: &Bytes32) -> (p: usize)
        requires
            self.wf(),
        ensures
            parts_at(self@, *k, p as int),
            p == slot(self@, *k),
            has_key(self@, *k) <==> (p < self@.len() && self@[p as int].0 == *k),
    {
        let mut lo: usize = 0;
        let mut hi: usize = self.entries.len();
        while lo < hi
            invariant
                self.wf(),
                0 <= lo <= hi <= self@.len(),
                self@.len() == self.entries@.len(),
                forall|i: int| 0 <= i < lo ==> (#[trigger] self@[i]).0.lt(*k),
                forall|i: int| hi <= i < self@.len() ==> !(#[trigger] self@[i]).0.lt(*k),
            decreases hi - lo,
        {
            let mid: usize = lo + (hi - lo) / 2;
            let probe: Bytes32 = self.entries[mid].0;
            assert(probe == self@[mid as int].0);
            if probe.less_than(k) {
                assert forall|i: int| 0 <= i < mid + 1 implies (#[trigger] self@[i]).0.lt(*k) by {
                    if i < mid {
                        assert(self@[i].0.lt(self@[mid as int].0));
                    }
                }
                lo = mid + 1;
            } else {
                assert forall|i: int| mid <= i < self@.len() implies !(#[trigger] self@[i]).0.lt(
                    *k,
                ) by {
                    if mid < i {
                        assert(self@[mid as int].0.lt(self@[i].0));
                    }
                }
                hi = mid;
            }
        }
        proof {
            lemma_slot_unique(self@, *k, lo as int);
            lemma_slot_exists(self@, *k);
            if has_key(self@, *k) {
                assert(self@[index_of(self@, *k)].0 == *k);
            }
        }
        lo
    }

    /// Whether an entry has the key `k`.
    pub fn contains_key(&self, k: &Bytes32) -> (b: bool)
        requires
            self.wf(),
        ensures
            b == has_key(self@, *k),
    {
        let p = self.lower_bound(k);
        p < self.entries.len() && self.entries[p].0 == *k
    }

    /// The value stored under `k`, if there is one.
    pub fn get(&self, k: &Bytes32) -> (r: Option<&V>)
        requires
            self.wf(),
        ensures
            r is Some <==> has_key(self@, *k),
            r is Some ==> r->0@ == value_of(self@, *k),
    {
        let p = self.lower_bound(k);
        if p < self.entries.len() && self.entries[p].0 == *k {
            proof {
                lemma_index_unique(self@, *k, p as int);
            }
            Some(&self.entries[p].1)
        } else {
            None
        }
    }

    /// Stores `v` under `k`, in place of what `k` held before.
    pub fn insert(&mut self, k: Bytes32, v: V)
        requires
            old(self).wf(),
        ensures
            final(self).wf(),
            final(self)@ == put(old(self)@, k, v@),
            final(self)@.len() == old(self)@.len() + (if has_key(old(self)@, k) {
                0int
            } else {
                1int
            }),
            forall|q: Bytes32|
                #[trigger] has_key(final(self)@, q) <==> (q == k || has_key(old(self)@, q)),
            forall|q: Bytes32|
                #[trigger] has_key(final(self)@, q) ==> value_of(final(self)@, q) == (if q == k {
                    v@
                } else {
                    value_of(old(self)@, q)
                }),
    {
        let p = self.lower_bound(&k);
        if p < self.entries.len() && self.entries[p].0 == k {
            proof {
                lemma_index_unique(self@, k, p as int);
            }
            self.entries[p] = (k, v);
            assert(self@ =~= put(old(self)@, k, v@));
        } else {
            self.entries.insert(p, (k, v));
            assert(self@ =~= put(old(self)@, k, v@));
        }
        proof {
            lemma_put_all(old(self)@, k, v@);
        }
    }
}

impl<V: Replicate> OrderedMap<V> {
    /// A copy of the whole map.
    pub fn replicate(&self) -> (m: Self)
        ensures
            m@ == self@,
    {
        let mut entries: Vec<(Bytes32, V)> = Vec::new();
        let mut i: usize = 0;
        while i < self.entries.len()
            invariant
                i <= self.entries@.len(),
                entries@.len() == i,
                forall|j: int|
                    0 <= j < i ==> (#[trigger] entries@[j]).0 == self.entries@[j].0 && entries@[j].1@
                        == self.entries@[j].1@,
            decreases self.entries@.len() - i,
        {
            let v = self.entries[i].1.replicate();
            entries.push((self.entries[i].0, v));
            i += 1;
        }
        let m = OrderedMap { entries };
        assert(m@ =~= self@);
        m
    }
}

} // verus!
