//! Sequences of records that carry their own key, read as finite maps.
//!
//! The storage keeps its tables as vectors whose elements hold distinct keys;
//! the lemmas here relate edits of such a vector to edits of the map it denotes.

use vstd::prelude::*;

verus! {

/// The map that a sequence of keyed records denotes: the last record with a
/// key wins (with distinct keys there is exactly one).
pub open spec fn to_map<V, K>(s: Seq<V>, key: spec_fn(V) -> K) -> Map<K, V>
    decreases s.len(),
{
    if s.len() == 0 {
        Map::empty()
    } else {
        to_map(s.drop_last(), key).insert(key(s.last()), s.last())
    }
}

/// No two records of the sequence share a key.
pub open spec fn distinct_keys<V, K>(s: Seq<V>, key: spec_fn(V) -> K) -> bool {
    forall|i: int, j: int| 0 <= i < s.len() && 0 <= j < s.len() && i != j ==> key(s[i]) != key(s[j])
}

/// The index of the record with the given key, if any.
pub open spec fn has_key<V, K>(s: Seq<V>, key: spec_fn(V) -> K, k: K) -> bool {
    exists|i: int| 0 <= i < s.len() && key(s[i]) == k
}

pub proof fn lemma_to_map_dom<V, K>(s: Seq<V>, key: spec_fn(V) -> K, k: K)
    ensures
        to_map(s, key).contains_key(k) <==> has_key(s, key, k),
    decreases s.len(),
{
    if s.len() > 0 {
        lemma_to_map_dom(s.drop_last(), key, k);
        if has_key(s, key, k) && key(s.last()) != k {
            let i = choose|i: int| 0 <= i < s.len() && key(s[i]) == k;
            assert(s.drop_last()[i] == s[i]);
        }
        if has_key(s.drop_last(), key, k) {
            let i = choose|i: int| 0 <= i < s.drop_last().len() && key(s.drop_last()[i]) == k;
            assert(s[i] == s.drop_last()[i]);
        }
        if key(s.last()) == k {
            assert(key(s[s.len() - 1]) == k);
        }
    }
}

pub proof fn lemma_to_map_index<V, K>(s: Seq<V>, key: spec_fn(V) -> K, i: int)
    requires
        distinct_keys(s, key),
        0 <= i < s.len(),
    ensures
        to_map(s, key).contains_key(key(s[i])),
        to_map(s, key)[key(s[i])] == s[i],
    decreases s.len(),
{
    if i < s.len() - 1 {
        let t = s.drop_last();
        assert(distinct_keys(t, key));
        assert(t[i] == s[i]);
        lemma_to_map_index(t, key, i);
        assert(key(s.last()) != key(s[i]));
    }
}

/// Every key of the map is held by some record, and every record is the
/// map's value at its key.
pub proof fn lemma_to_map_full<V, K>(s: Seq<V>, key: spec_fn(V) -> K)
    requires
        distinct_keys(s, key),
    ensures
        forall|k: K| #[trigger] to_map(s, key).contains_key(k) <==> has_key(s, key, k),
        forall|i: int|
            0 <= i < s.len() ==> #[trigger] to_map(s, key)[key(s[i])] == s[i] && to_map(
                s,
                key,
            ).contains_key(key(s[i])),
{
    assert forall|k: K| #[trigger] to_map(s, key).contains_key(k) <==> has_key(s, key, k) by {
        lemma_to_map_dom(s, key, k);
    }
    assert forall|i: int| 0 <= i < s.len() implies #[trigger] to_map(s, key)[key(s[i])] == s[i]
        && to_map(s, key).contains_key(key(s[i])) by {
        lemma_to_map_index(s, key, i);
    }
}

/// Appending a record with a fresh key adds it to the map.
pub proof fn lemma_push<V, K>(s: Seq<V>, key: spec_fn(V) -> K, v: V)
    requires
        distinct_keys(s, key),
        !has_key(s, key, key(v)),
    ensures
        distinct_keys(s.push(v), key),
        to_map(s.push(v), key) == to_map(s, key).insert(key(v), v),
{
    let t = s.push(v);
    assert(t.drop_last() =~= s);
    assert forall|i: int, j: int|
        0 <= i < t.len() && 0 <= j < t.len() && i != j implies key(t[i]) != key(t[j]) by {
        if i == s.len() {
            assert(t[j] == s[j]);
        } else if j == s.len() {
            assert(t[i] == s[i]);
        } else {
            assert(t[i] == s[i] && t[j] == s[j]);
        }
    }
}

/// Replacing the record at an index by one with the same key updates the map there.
pub proof fn lemma_update<V, K>(s: Seq<V>, key: spec_fn(V) -> K, i: int, v: V)
    requires
        distinct_keys(s, key),
        0 <= i < s.len(),
        key(v) == key(s[i]),
    ensures
        distinct_keys(s.update(i, v), key),
        to_map(s.update(i, v), key) == to_map(s, key).insert(key(v), v),
{
    let t = s.update(i, v);
    assert(distinct_keys(t, key)) by {
        assert forall|a: int, b: int|
            0 <= a < t.len() && 0 <= b < t.len() && a != b implies key(t[a]) != key(t[b]) by {
            assert(key(t[a]) == key(s[a]));
            assert(key(t[b]) == key(s[b]));
        }
    }
    lemma_to_map_full(s, key);
    lemma_to_map_full(t, key);
    let m = to_map(s, key).insert(key(v), v);
    assert forall|k: K| #[trigger] to_map(t, key).contains_key(k) <==> m.contains_key(k) by {
        if has_key(t, key, k) {
            let a = choose|a: int| 0 <= a < t.len() && key(t[a]) == k;
            assert(key(s[a]) == k);
        }
        if has_key(s, key, k) {
            let a = choose|a: int| 0 <= a < s.len() && key(s[a]) == k;
            assert(key(t[a]) == k);
        }
    }
    assert forall|k: K| #[trigger] to_map(t, key).contains_key(k) implies to_map(t, key)[k]
        == m[k] by {
        let a = choose|a: int| 0 <= a < t.len() && key(t[a]) == k;
        assert(to_map(t, key)[key(t[a])] == t[a]);
        if a != i {
            assert(t[a] == s[a]);
            assert(to_map(s, key)[key(s[a])] == s[a]);
        }
    }
    assert(to_map(t, key) =~= m);
}

/// Removing the record at an index removes its key from the map.
pub proof fn lemma_remove<V, K>(s: Seq<V>, key: spec_fn(V) -> K, i: int)
    requires
        distinct_keys(s, key),
        0 <= i < s.len(),
    ensures
        distinct_keys(s.remove(i), key),
        to_map(s.remove(i), key) == to_map(s, key).remove(key(s[i])),
        forall|k: K| has_key(s.remove(i), key, k) <==> has_key(s, key, k) && k != key(s[i]),
{
    let t = s.remove(i);
    assert forall|a: int| 0 <= a < t.len() implies #[trigger] t[a] == s[if a < i {
        a
    } else {
        a + 1
    }] by {}
    assert(distinct_keys(t, key)) by {
        assert forall|a: int, b: int|
            0 <= a < t.len() && 0 <= b < t.len() && a != b implies key(t[a]) != key(t[b]) by {
            let a1 = if a < i { a } else { a + 1 };
            let b1 = if b < i { b } else { b + 1 };
            assert(t[a] == s[a1] && t[b] == s[b1]);
        }
    }
    assert forall|k: K| has_key(t, key, k) <==> has_key(s, key, k) && k != key(s[i]) by {
        if has_key(t, key, k) {
            let a = choose|a: int| 0 <= a < t.len() && key(t[a]) == k;
            let a1 = if a < i { a } else { a + 1 };
            assert(t[a] == s[a1]);
        }
        if has_key(s, key, k) && k != key(s[i]) {
            let a = choose|a: int| 0 <= a < s.len() && key(s[a]) == k;
            let a1 = if a < i { a } else { a - 1 };
            assert(t[a1] == s[a]);
        }
    }
    lemma_to_map_full(s, key);
    lemma_to_map_full(t, key);
    let m = to_map(s, key).remove(key(s[i]));
    assert forall|k: K| #[trigger] to_map(t, key).contains_key(k) implies to_map(t, key)[k]
        == m[k] by {
        let a = choose|a: int| 0 <= a < t.len() && key(t[a]) == k;
        let a1 = if a < i { a } else { a + 1 };
        assert(t[a] == s[a1]);
        assert(to_map(t, key)[key(t[a])] == t[a]);
        assert(to_map(s, key)[key(s[a1])] == s[a1]);
    }
    assert(to_map(t, key) =~= m);
}

} // verus!

verus! {

/// Two sequences whose records agree position by position on their keys and
/// on the values `g` and `h` read from them denote maps that agree too.
pub proof fn lemma_to_map_pointwise<V, W, K, X>(
    s: Seq<V>,
    t: Seq<W>,
    ks: spec_fn(V) -> K,
    kt: spec_fn(W) -> K,
    g: spec_fn(V) -> X,
    h: spec_fn(W) -> X,
)
    requires
        s.len() == t.len(),
        forall|i: int| 0 <= i < s.len() ==> ks(#[trigger] s[i]) == kt(t[i]) && g(s[i]) == h(t[i]),
    ensures
        to_map(s, ks).map_values(g) == to_map(t, kt).map_values(h),
    decreases s.len(),
{
    if s.len() > 0 {
        let s1 = s.drop_last();
        let t1 = t.drop_last();
        assert forall|i: int| 0 <= i < s1.len() implies ks(#[trigger] s1[i]) == kt(t1[i]) && g(s1[i])
            == h(t1[i]) by {
            assert(s1[i] == s[i] && t1[i] == t[i]);
        }
        lemma_to_map_pointwise(s1, t1, ks, kt, g, h);
        let k = ks(s.last());
        assert(ks(s[s.len() - 1]) == kt(t[t.len() - 1]));
        assert(g(s[s.len() - 1]) == h(t[t.len() - 1]));
        assert(to_map(s, ks) == to_map(s1, ks).insert(k, s.last()));
        assert(to_map(t, kt) == to_map(t1, kt).insert(k, t.last()));
        let a = to_map(s, ks).map_values(g);
        let b = to_map(t, kt).map_values(h);
        assert(a.dom() =~= to_map(s1, ks).map_values(g).dom().insert(k));
        assert(b.dom() =~= to_map(t1, kt).map_values(h).dom().insert(k));
        assert forall|x: K| #[trigger] a.contains_key(x) implies a[x] == b[x] by {
            if x != k {
                assert(a[x] == to_map(s1, ks).map_values(g)[x]);
                assert(b[x] == to_map(t1, kt).map_values(h)[x]);
            }
        }
        assert(a =~= b);
    }
}


/// The sum of `w` over the values of a finite map.
pub open spec fn map_sum<K, V>(m: Map<K, V>, w: spec_fn(V) -> int) -> int
    decreases m.dom().len(),
    when m.dom().finite()
{
    if m.dom().len() == 0 {
        0
    } else {
        let k = m.dom().choose();
        w(m[k]) + map_sum(m.remove(k), w)
    }
}

/// The sum over a finite map is the value at any of its keys plus the sum
/// over the rest.
pub proof fn lemma_map_sum_remove<K, V>(m: Map<K, V>, w: spec_fn(V) -> int, k: K)
    requires
        m.dom().finite(),
        m.contains_key(k),
    ensures
        map_sum(m, w) == w(m[k]) + map_sum(m.remove(k), w),
    decreases m.dom().len(),
{
    let c = m.dom().choose();
    assert(m.dom().contains(c));
    if c != k {
        assert(m.remove(c).dom() =~= m.dom().remove(c));
        assert(m.remove(k).dom() =~= m.dom().remove(k));
        lemma_map_sum_remove(m.remove(c), w, k);
        lemma_map_sum_remove(m.remove(k), w, c);
        assert(m.remove(c).remove(k) =~= m.remove(k).remove(c));
    }
}

/// Adding a fresh key to a finite map adds its value to the sum.
pub proof fn lemma_map_sum_insert<K, V>(m: Map<K, V>, w: spec_fn(V) -> int, k: K, v: V)
    requires
        m.dom().finite(),
        !m.contains_key(k),
    ensures
        map_sum(m.insert(k, v), w) == map_sum(m, w) + w(v),
{
    lemma_map_sum_remove(m.insert(k, v), w, k);
    assert(m.insert(k, v).remove(k) =~= m);
}

/// The sum of a non-negative weight over part of a finite map is at most the
/// sum over all of it.
pub proof fn lemma_map_sum_sub<K, V>(part: Map<K, V>, m: Map<K, V>, w: spec_fn(V) -> int)
    requires
        m.dom().finite(),
        part.dom().subset_of(m.dom()),
        forall|k: K| #[trigger] part.contains_key(k) ==> part[k] == m[k],
        forall|k: K| #[trigger] m.contains_key(k) ==> w(m[k]) >= 0,
    ensures
        part.dom().finite(),
        map_sum(part, w) <= map_sum(m, w),
    decreases m.dom().len(),
{
    vstd::set_lib::lemma_len_subset(part.dom(), m.dom());
    if part.dom() =~= m.dom() {
        assert(part =~= m);
    } else {
        let k = choose|k: K| m.contains_key(k) && !part.contains_key(k);
        assert(m.remove(k).dom() =~= m.dom().remove(k));
        lemma_map_sum_sub(part, m.remove(k), w);
        lemma_map_sum_remove(m, w, k);
    }
}

/// The sum of `g` over the first `n` records.
pub open spec fn sum_upto<V>(s: Seq<V>, g: spec_fn(V) -> int, n: int) -> int
    decreases n,
{
    if n <= 0 {
        0
    } else {
        sum_upto(s, g, n - 1) + g(s[n - 1])
    }
}

/// The first `n` records with distinct keys denote a finite map with `n`
/// keys, and a weight summed over its values is the weight summed over the
/// records.
pub proof fn lemma_to_map_sum<V, K, W>(
    s: Seq<V>,
    key: spec_fn(V) -> K,
    f: spec_fn(V) -> W,
    w: spec_fn(W) -> int,
    n: int,
)
    requires
        distinct_keys(s, key),
        0 <= n <= s.len(),
    ensures
        to_map(s.take(n), key).dom().finite(),
        to_map(s.take(n), key).dom().len() == n,
        map_sum(to_map(s.take(n), key).map_values(f), w) == sum_upto(s, |v: V| w(f(v)), n),
    decreases n,
{
    if n == 0 {
        assert(s.take(0) =~= Seq::<V>::empty());
        assert(to_map(s.take(0), key).dom() =~= Set::<K>::empty());
        assert(to_map(s.take(0), key).map_values(f).dom() =~= Set::<K>::empty());
    } else {
        lemma_to_map_sum(s, key, f, w, n - 1);
        let pre = s.take(n - 1);
        let t = s.take(n);
        assert(t.drop_last() =~= pre);
        assert(t.last() == s[n - 1]);
        let m = to_map(pre, key);
        let k = key(s[n - 1]);
        assert(to_map(t, key) == m.insert(k, s[n - 1]));
        lemma_to_map_dom(pre, key, k);
        if has_key(pre, key, k) {
            let a = choose|a: int| 0 <= a < pre.len() && key(pre[a]) == k;
            assert(pre[a] == s[a]);
        }
        assert(!m.contains_key(k));
        assert(m.map_values(f).dom() =~= m.dom());
        assert(to_map(t, key).map_values(f) =~= m.map_values(f).insert(k, f(s[n - 1])));
        lemma_map_sum_insert(m.map_values(f), w, k, f(s[n - 1]));
    }
}

} // verus!
