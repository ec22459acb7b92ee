//! Insertion-ordered association lists: the key-position model shared by the
//! analysis maps.
use vstd::prelude::*;
use crate::ty::Adt;

verus! {

/// Position of the first entry whose key is `k`, or `m.len()` when there is none.
pub open spec fn key_pos<K, V>(m: Seq<(K, V)>, k: K) -> int
    decreases m.len(),
{
    if m.len() == 0 {
        0
    } else if m[0].0 == k {
        0
    } else {
        1 + key_pos(m.drop_first(), k)
    }
}

/// Whether some entry has key `k`.
pub open spec fn has_key<K, V>(m: Seq<(K, V)>, k: K) -> bool {
    exists|i: int| 0 <= i < m.len() && #[trigger] m[i].0 == k
}

pub proof fn lemma_key_pos<K, V>(m: Seq<(K, V)>, k: K, i: int)
    requires
        0 <= i <= m.len(),
        i < m.len() ==> m[i].0 == k,
        forall|j: int| 0 <= j < i ==> #[trigger] m[j].0 != k,
    ensures
        key_pos(m, k) == i,
    decreases i,
{
    if i > 0 {
        assert(m[0].0 != k);
        let t = m.drop_first();
        assert forall|j: int| 0 <= j < i - 1 implies #[trigger] t[j].0 != k by {
            assert(t[j] == m[j + 1]);
        }
        lemma_key_pos(t, k, i - 1);
    }
}

pub proof fn lemma_key_pos_bounds<K, V>(m: Seq<(K, V)>, k: K)
    ensures
        0 <= key_pos(m, k) <= m.len(),
        key_pos(m, k) < m.len() ==> m[key_pos(m, k)].0 == k,
        key_pos(m, k) < m.len() <==> has_key(m, k),
        forall|j: int| 0 <= j < key_pos(m, k) ==> #[trigger] m[j].0 != k,
    decreases m.len(),
{
    if m.len() > 0 && m[0].0 != k {
        let t = m.drop_first();
        lemma_key_pos_bounds(t, k);
        assert forall|j: int| 0 <= j < key_pos(m, k) implies #[trigger] m[j].0 != k by {
            if j > 0 {
                assert(m[j] == t[j - 1]);
            }
        }
        if has_key(m, k) {
            let i = choose|i: int| 0 <= i < m.len() && #[trigger] m[i].0 == k;
            assert(t[i - 1] == m[i]);
        }
        if key_pos(m, k) < m.len() {
            assert(m[key_pos(m, k)] == t[key_pos(t, k)]);
        }
    }
}

/// Updates the value at `k`, or appends `(k, v)` when `k` is absent.
pub open spec fn put<K, V>(m: Seq<(K, V)>, k: K, v: V) -> Seq<(K, V)> {
    let p = key_pos(m, k);
    if p < m.len() {
        m.update(p, (k, v))
    } else {
        m.push((k, v))
    }
}

/// The value at `k`, or `d` when `k` is absent.
pub open spec fn get_or<K, V>(m: Seq<(K, V)>, k: K, d: V) -> V {
    let p = key_pos(m, k);
    if 0 <= p < m.len() {
        m[p].1
    } else {
        d
    }
}

/// Keeps the first occurrence of each element, in order.
pub open spec fn dedup<T>(s: Seq<T>) -> Seq<T>
    decreases s.len(),
{
    if s.len() == 0 {
        s
    } else {
        let d = dedup(s.drop_last());
        if d.contains(s.last()) {
            d
        } else {
            d.push(s.last())
        }
    }
}

/// Appends `x` unless it is already present.
pub open spec fn insert_unique<T>(s: Seq<T>, x: T) -> Seq<T> {
    if s.contains(x) {
        s
    } else {
        s.push(x)
    }
}

/// Reading back after `put`.
pub proof fn lemma_get_put<K, V>(m: Seq<(K, V)>, k: K, v: V, k2: K, d: V)
    ensures
        get_or(put(m, k, v), k2, d) == if k == k2 { v } else { get_or(m, k2, d) },
        has_key(put(m, k, v), k2) == (k == k2 || has_key(m, k2)),
{
    lemma_key_pos_bounds(m, k);
    lemma_key_pos_bounds(m, k2);
    let p = key_pos(m, k);
    let m2 = put(m, k, v);
    lemma_key_pos_bounds(m2, k2);
    if p < m.len() {
        assert forall|j: int| 0 <= j < m.len() implies #[trigger] m2[j].0 == m[j].0 by {}
        let q = key_pos(m, k2);
        lemma_key_pos(m2, k2, q);
        if has_key(m, k2) {
            assert(m2[q].0 == k2);
        }
        if has_key(m2, k2) {
            let i = choose|i: int| 0 <= i < m2.len() && #[trigger] m2[i].0 == k2;
            assert(m[i].0 == k2);
        }
        if k == k2 {
            assert(m2[p].0 == k2);
        }
    } else {
        assert(m2[m.len() as int].0 == k);
        if has_key(m, k2) {
            let q = key_pos(m, k2);
            lemma_key_pos(m2, k2, q);
            assert(m2[q] == m[q]);
        } else if k == k2 {
            lemma_key_pos(m2, k2, m.len() as int);
        } else {
            assert forall|j: int| 0 <= j < m2.len() implies #[trigger] m2[j].0 != k2 by {
                if j < m.len() {
                    assert(m2[j] == m[j]);
                }
            }
            lemma_key_pos(m2, k2, m2.len() as int);
        }
    }
}

/// Adds the key with value `d` when it is absent.
pub open spec fn ensure_key<K, V>(m: Seq<(K, V)>, k: K, d: V) -> Seq<(K, V)> {
    if key_pos(m, k) < m.len() {
        m
    } else {
        m.push((k, d))
    }
}

/// `put` of a value computed from the old one is an update of the slot that
/// `ensure_key` provides.
pub proof fn lemma_put_via_slot<K, V>(m: Seq<(K, V)>, k: K, d: V)
    ensures
        ({
            let e = ensure_key(m, k, d);
            let p = key_pos(e, k);
            &&& 0 <= p < e.len()
            &&& e[p].0 == k
            &&& e[p].1 == get_or(m, k, d)
            &&& p == key_pos(m, k)
            &&& forall|v: V| #[trigger] put(m, k, v) == e.update(p, (k, v))
        }),
{
    lemma_key_pos_bounds(m, k);
    let e = ensure_key(m, k, d);
    if key_pos(m, k) < m.len() {
    } else {
        assert forall|j: int| 0 <= j < m.len() implies #[trigger] e[j].0 != k by {
            assert(e[j] == m[j]);
        }
        lemma_key_pos(e, k, m.len() as int);
        assert forall|v: V| #[trigger] put(m, k, v) == e.update(m.len() as int, (k, v)) by {
            assert(put(m, k, v) =~= e.update(m.len() as int, (k, v)));
        }
    }
}

/// Position of the first entry with key `k`, or `m.len()`.
pub fn find_key<V>(m: &Vec<(u64, V)>, k: u64) -> (r: usize)
    ensures
        r <= m.len(),
        r == key_pos(m@, k),
        r < m.len() ==> m@[r as int].0 == k,
        forall|j: int| 0 <= j < r ==> #[trigger] m@[j].0 != k,
{
    let mut i: usize = 0;
    while i < m.len() && m[i].0 != k
        invariant
            i <= m.len(),
            forall|j: int| 0 <= j < i ==> #[trigger] m@[j].0 != k,
        decreases m.len() - i,
    {
        i += 1;
    }
    proof {
        lemma_key_pos(m@, k, i as int);
    }
    i
}

/// Position of the first entry with type `a`, or `m.len()`.
pub fn find_adt<V>(m: &Vec<(Adt, V)>, a: Adt) -> (r: usize)
    ensures
        r <= m.len(),
        r == key_pos(m@, a),
{
    let mut i: usize = 0;
    while i < m.len() && m[i].0 != a
        invariant
            i <= m.len(),
            forall|j: int| 0 <= j < i ==> #[trigger] m@[j].0 != a,
        decreases m.len() - i,
    {
        i += 1;
    }
    proof {
        lemma_key_pos(m@, a, i as int);
    }
    i
}

/// The keys of entries keyed by strings, as character sequences.
pub open spec fn string_keys<V>(m: Seq<(String, V)>) -> Seq<(Seq<char>, ())> {
    m.map_values(|e: (String, V)| (e.0@, ()))
}

/// Position of the first entry named `name`, or `m.len()`.
pub fn find_name<V>(m: &Vec<(String, V)>, name: &String) -> (r: usize)
    ensures
        r <= m.len(),
        r == key_pos(string_keys(m@), name@),
{
    let mut i: usize = 0;
    while i < m.len() && m[i].0 != *name
        invariant
            i <= m.len(),
            forall|j: int| 0 <= j < i ==> #[trigger] m@[j].0@ != name@,
        decreases m.len() - i,
    {
        i += 1;
    }
    proof {
        let ks = string_keys(m@);
        assert forall|j: int| 0 <= j < i implies #[trigger] ks[j].0 != name@ by {
            assert(ks[j].0 == m@[j].0@);
        }
        if i < m.len() {
            assert(ks[i as int].0 == m@[i as int].0@);
        }
        lemma_key_pos(ks, name@, i as int);
    }
    i
}

/// Sequences with the same keys, position by position, find keys at the
/// same positions.
pub proof fn lemma_same_keys<K, V, W>(a: Seq<(K, V)>, b: Seq<(K, W)>, k: K)
    requires
        a.len() == b.len(),
        forall|j: int| 0 <= j < a.len() ==> #[trigger] a[j].0 == b[j].0,
    ensures
        key_pos(a, k) == key_pos(b, k),
{
    lemma_key_pos_bounds(a, k);
    let i = key_pos(a, k);
    assert forall|j: int| 0 <= j < i implies #[trigger] b[j].0 != k by {
        assert(a[j].0 != k);
    }
    if i < a.len() {
        assert(a[i].0 == b[i].0);
    }
    lemma_key_pos(b, k, i);
}

/// Each entry after `put` is the new one or an old one at the same place.
pub proof fn lemma_put_entry<K, V>(m: Seq<(K, V)>, k: K, v: V, j: int)
    requires
        0 <= j < put(m, k, v).len(),
    ensures
        put(m, k, v)[j] == (k, v) || (j < m.len() && put(m, k, v)[j] == m[j]),
        put(m, k, v).len() >= m.len(),
{
    lemma_key_pos_bounds(m, k);
}

/// `get_or` returns the default or the value of an entry with that key.
pub proof fn lemma_get_or_entry<K, V>(m: Seq<(K, V)>, k: K, d: V)
    ensures
        get_or(m, k, d) == d || (0 <= key_pos(m, k) < m.len() && m[key_pos(m, k)] == (k, get_or(m, k, d))),
{
    lemma_key_pos_bounds(m, k);
}

/// Sequences with the same elements, counted, keep the same elements when
/// mapped.
pub proof fn lemma_multiset_map<A, B>(a: Seq<A>, b: Seq<A>, f: spec_fn(A) -> B)
    requires
        a.to_multiset() == b.to_multiset(),
    ensures
        a.map_values(f).to_multiset() == b.map_values(f).to_multiset(),
    decreases a.len(),
{
    broadcast use vstd::seq_lib::group_to_multiset_ensures;
    a.to_multiset_ensures();
    b.to_multiset_ensures();
    if a.len() == 0 {
        assert(b.len() == 0);
        assert(a.map_values(f) =~= b.map_values(f));
    } else {
        let x = a.last();
        let a2 = a.drop_last();
        assert(a2.push(x) =~= a);
        a2.to_multiset_ensures();
        assert(a.to_multiset().count(x) > 0);
        assert(b.contains(x));
        let k = choose|k: int| 0 <= k < b.len() && b[k] == x;
        let b2 = b.remove(k);
        assert(b2.to_multiset() == b.to_multiset().remove(x));
        assert(a2.to_multiset() =~= a.to_multiset().remove(x));
        lemma_multiset_map(a2, b2, f);
        assert(a.map_values(f) =~= a2.map_values(f).push(f(x)));
        assert(b.map_values(f) =~= b2.map_values(f).insert(k, f(x)));
        a2.map_values(f).to_multiset_ensures();
        vstd::seq_lib::to_multiset_insert(b2.map_values(f), k, f(x));
    }
}

/// No two entries share a key.
pub open spec fn unique_keys<K, V>(m: Seq<(K, V)>) -> bool {
    forall|i: int, j: int| 0 <= i < m.len() && 0 <= j < m.len() && i != j ==> (#[trigger] m[i]).0 != (#[trigger] m[j]).0
}

/// `put` keeps keys unique.
pub proof fn lemma_put_unique<K, V>(m: Seq<(K, V)>, k: K, v: V)
    requires
        unique_keys(m),
    ensures
        unique_keys(put(m, k, v)),
{
    lemma_key_pos_bounds(m, k);
    let r = put(m, k, v);
    assert forall|i: int, j: int| 0 <= i < r.len() && 0 <= j < r.len() && i != j implies (#[trigger] r[i]).0 != (#[trigger] r[j]).0 by {
        if key_pos(m, k) < m.len() {
            assert(r[i].0 == m[i].0 && r[j].0 == m[j].0);
        } else {
            if i < m.len() && j < m.len() {
                assert(r[i] == m[i] && r[j] == m[j]);
            } else if i < m.len() {
                assert(r[i] == m[i]);
                assert(!has_key(m, k));
            } else {
                assert(r[j] == m[j]);
                assert(!has_key(m, k));
            }
        }
    }
}

/// Putting the same value twice is putting it once.
pub proof fn lemma_put_twice<K, V>(m: Seq<(K, V)>, k: K, v: V)
    ensures
        put(put(m, k, v), k, v) == put(m, k, v),
{
    lemma_key_pos_bounds(m, k);
    let m1 = put(m, k, v);
    let p = key_pos(m, k);
    if p < m.len() {
        assert forall|j: int| 0 <= j < m.len() implies #[trigger] m[j].0 == m1[j].0 by {}
        lemma_same_keys(m, m1, k);
    } else {
        assert forall|j: int| 0 <= j < m.len() implies #[trigger] m1[j].0 != k by {
            assert(m1[j] == m[j]);
        }
        lemma_key_pos(m1, k, m.len() as int);
    }
    assert(put(m1, k, v) =~= m1);
}

} // verus!
