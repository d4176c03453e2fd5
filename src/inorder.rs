//! Facts about sequences of entries ordered by key.
use vstd::prelude::*;
use crate::node::{KVPair, sorted};

verus! {

/// Inserting an entry with key `k` at position `p` of `s` keeps it ordered:
/// every key before `p` is smaller, every key from `p` on is larger.
pub open spec fn is_gap<V>(s: Seq<KVPair<V>>, k: u64, p: int) -> bool {
    &&& 0 <= p <= s.len()
    &&& forall|j: int| 0 <= j < p ==> s[j].key < k
    &&& forall|j: int| p <= j < s.len() ==> k < s[j].key
}

/// Some entry of `s` has key `k`.
pub open spec fn has_key<V>(s: Seq<KVPair<V>>, k: u64) -> bool {
    exists|i: int| 0 <= i < s.len() && s[i].key == k
}

/// A contiguous part of an ordered sequence is ordered.
pub proof fn lemma_sorted_mid<V>(p: Seq<KVPair<V>>, x: Seq<KVPair<V>>, q: Seq<KVPair<V>>)
    requires
        sorted(p + x + q),
    ensures
        sorted(x),
{
    assert forall|i: int, j: int| 0 <= i < j < x.len() implies x[i].key < x[j].key by {
        assert((p + x + q)[p.len() + i] == x[i]);
        assert((p + x + q)[p.len() + j] == x[j]);
    }
}

/// A gap inside `x` is a gap of `p + x + q` when `k` lies between the last
/// key of `p` and the first key of `q`; inserting there is inserting in `x`.
pub proof fn lemma_lift_gap<V>(p: Seq<KVPair<V>>, x: Seq<KVPair<V>>, q: Seq<KVPair<V>>, k: u64, g: int, kv: KVPair<V>)
    requires
        sorted(p + x + q),
        is_gap(x, k, g),
        p.len() > 0 ==> p.last().key < k,
        q.len() > 0 ==> k < q[0].key,
    ensures
        is_gap(p + x + q, k, p.len() + g),
        p + x.insert(g, kv) + q == (p + x + q).insert(p.len() + g, kv),
{
    let s = p + x + q;
    assert forall|j: int| 0 <= j < p.len() + g implies s[j].key < k by {
        if j < p.len() {
            assert(s[j] == p[j]);
            assert(s[p.len() - 1] == p.last());
            if j < p.len() - 1 {
                assert(s[j].key < s[p.len() - 1].key);
            }
        } else {
            assert(s[j] == x[j - p.len()]);
        }
    }
    assert forall|j: int| p.len() + g <= j < s.len() implies k < s[j].key by {
        if j < p.len() + x.len() {
            assert(s[j] == x[j - p.len()]);
        } else {
            let f = (p.len() + x.len()) as int;
            assert(s[j] == q[j - f]);
            assert(s[f] == q[0]);
            if j > f {
                assert(s[f].key < s[j].key);
            }
        }
    }
    assert(p + x.insert(g, kv) + q =~= s.insert(p.len() + g, kv));
}

/// Replacing entry `i` of `x` is replacing entry `p.len() + i` of
/// `p + x + q`.
pub proof fn lemma_lift_update<V>(p: Seq<KVPair<V>>, x: Seq<KVPair<V>>, q: Seq<KVPair<V>>, i: int, kv: KVPair<V>)
    requires
        0 <= i < x.len(),
    ensures
        (p + x + q)[p.len() + i] == x[i],
        p + x.update(i, kv) + q == (p + x + q).update(p.len() + i, kv),
{
    assert(p + x.update(i, kv) + q =~= (p + x + q).update(p.len() + i, kv));
}

/// Removing entry `i` of `x` is removing entry `p.len() + i` of
/// `p + x + q`.
pub proof fn lemma_lift_remove<V>(p: Seq<KVPair<V>>, x: Seq<KVPair<V>>, q: Seq<KVPair<V>>, i: int)
    requires
        0 <= i < x.len(),
    ensures
        (p + x + q)[p.len() + i] == x[i],
        p + x.remove(i) + q == (p + x + q).remove(p.len() + i),
{
    assert(p + x.remove(i) + q =~= (p + x + q).remove(p.len() + i));
}

/// `lemma_lift_update` for every replacing entry.
pub proof fn lemma_lift_update_all<V>(p: Seq<KVPair<V>>, x: Seq<KVPair<V>>, q: Seq<KVPair<V>>, i: int)
    requires
        0 <= i < x.len(),
    ensures
        (p + x + q)[p.len() + i] == x[i],
        forall|kv: KVPair<V>| #[trigger] (p + x.update(i, kv) + q) == (p + x + q).update(p.len() + i, kv),
{
    assert forall|kv: KVPair<V>| #[trigger] (p + x.update(i, kv) + q) == (p + x + q).update(p.len() + i, kv) by {
        lemma_lift_update(p, x, q, i, kv);
    }
    assert((p + x + q)[p.len() + i] == x[i]);
}

/// Inserting at a gap keeps a sequence ordered.
pub proof fn lemma_insert_sorted<V>(s: Seq<KVPair<V>>, g: int, kv: KVPair<V>)
    requires
        sorted(s),
        is_gap(s, kv.key, g),
    ensures
        sorted(s.insert(g, kv)),
        s.insert(g, kv).len() == s.len() + 1,
{
    let t = s.insert(g, kv);
    assert forall|i: int, j: int| 0 <= i < j < t.len() implies t[i].key < t[j].key by {
        if i < g {
            assert(t[i] == s[i]);
        } else if i > g {
            assert(t[i] == s[i - 1]);
        }
        if j < g {
            assert(t[j] == s[j]);
        } else if j > g {
            assert(t[j] == s[j - 1]);
        }
    }
}

/// Replacing an entry by one with the same key keeps a sequence ordered.
pub proof fn lemma_update_sorted<V>(s: Seq<KVPair<V>>, i: int, kv: KVPair<V>)
    requires
        sorted(s),
        0 <= i < s.len(),
        s[i].key == kv.key,
    ensures
        sorted(s.update(i, kv)),
{
}

/// Removing an entry keeps a sequence ordered.
pub proof fn lemma_remove_sorted<V>(s: Seq<KVPair<V>>, i: int)
    requires
        sorted(s),
        0 <= i < s.len(),
    ensures
        sorted(s.remove(i)),
{
    let t = s.remove(i);
    assert forall|a: int, b: int| 0 <= a < b < t.len() implies t[a].key < t[b].key by {
        let a2 = if a < i { a } else { a + 1 };
        let b2 = if b < i { b } else { b + 1 };
        assert(t[a] == s[a2]);
        assert(t[b] == s[b2]);
    }
}

/// A key with a gap is absent.
pub proof fn lemma_gap_absent<V>(s: Seq<KVPair<V>>, k: u64, g: int)
    requires
        is_gap(s, k, g),
    ensures
        !has_key(s, k),
{
    if has_key(s, k) {
        let i = choose|i: int| 0 <= i < s.len() && s[i].key == k;
        assert(i < g || i >= g);
    }
}

/// Position of an entry with key `k` in `s`.
pub open spec fn index_of<V>(s: Seq<KVPair<V>>, k: u64) -> int {
    choose|i: int| 0 <= i < s.len() && s[i].key == k
}

/// The map from each key in `s` to its value.
pub open spec fn map_of<V>(s: Seq<KVPair<V>>) -> Map<u64, V> {
    Map::new(|k: u64| has_key(s, k), |k: u64| s[index_of(s, k)].value)
}

/// In an ordered sequence each key sits at one position.
pub proof fn lemma_index_of<V>(s: Seq<KVPair<V>>, i: int)
    requires
        sorted(s),
        0 <= i < s.len(),
    ensures
        has_key(s, s[i].key),
        index_of(s, s[i].key) == i,
        map_of(s).contains_key(s[i].key),
        map_of(s)[s[i].key] == s[i].value,
{
    assert(0 <= i < s.len() && s[i].key == s[i].key);
    let j = index_of(s, s[i].key);
    if j < i {
        assert(s[j].key < s[i].key);
    } else if j > i {
        assert(s[i].key < s[j].key);
    }
}

/// Inserting at a gap adds the key to the map.
pub proof fn lemma_map_insert<V>(s: Seq<KVPair<V>>, g: int, kv: KVPair<V>)
    requires
        sorted(s),
        is_gap(s, kv.key, g),
    ensures
        !has_key(s, kv.key),
        map_of(s.insert(g, kv)) == map_of(s).insert(kv.key, kv.value),
{
    let t = s.insert(g, kv);
    lemma_insert_sorted(s, g, kv);
    if has_key(s, kv.key) {
        let i = choose|i: int| 0 <= i < s.len() && s[i].key == kv.key;
        assert(i < g || i >= g);
    }
    assert(t[g] == kv);
    lemma_index_of(t, g);
    assert forall|k: u64| #[trigger] has_key(t, k) <==> k == kv.key || has_key(s, k) by {
        if has_key(s, k) {
            let i = choose|i: int| 0 <= i < s.len() && s[i].key == k;
            if i < g {
                assert(t[i] == s[i]);
            } else {
                assert(t[i + 1] == s[i]);
            }
        }
        if has_key(t, k) && k != kv.key {
            let i = choose|i: int| 0 <= i < t.len() && t[i].key == k;
            if i < g {
                assert(t[i] == s[i]);
            } else if i > g {
                assert(t[i] == s[i - 1]);
            }
        }
    }
    assert forall|k: u64| has_key(s, k) && k != kv.key implies #[trigger] map_of(t)[k] == map_of(s)[k] by {
        let i = choose|i: int| 0 <= i < s.len() && s[i].key == k;
        lemma_index_of(s, i);
        if i < g {
            assert(t[i] == s[i]);
            lemma_index_of(t, i);
        } else {
            assert(t[i + 1] == s[i]);
            lemma_index_of(t, i + 1);
        }
    }
    assert(map_of(t) =~= map_of(s).insert(kv.key, kv.value));
}

/// Replacing the entry of a key changes that key's value.
pub proof fn lemma_map_update<V>(s: Seq<KVPair<V>>, i: int, kv: KVPair<V>)
    requires
        sorted(s),
        0 <= i < s.len(),
        s[i].key == kv.key,
    ensures
        map_of(s.update(i, kv)) == map_of(s).insert(kv.key, kv.value),
{
    let t = s.update(i, kv);
    lemma_update_sorted(s, i, kv);
    lemma_index_of(s, i);
    lemma_index_of(t, i);
    assert forall|k: u64| #[trigger] has_key(t, k) <==> has_key(s, k) by {
        if has_key(s, k) {
            let j = choose|j: int| 0 <= j < s.len() && s[j].key == k;
            assert(t[j].key == k);
        }
        if has_key(t, k) {
            let j = choose|j: int| 0 <= j < t.len() && t[j].key == k;
            assert(s[j].key == k);
        }
    }
    assert forall|k: u64| has_key(s, k) && k != kv.key implies #[trigger] map_of(t)[k] == map_of(s)[k] by {
        let j = choose|j: int| 0 <= j < s.len() && s[j].key == k;
        lemma_index_of(s, j);
        lemma_index_of(t, j);
    }
    assert(map_of(t) =~= map_of(s).insert(kv.key, kv.value));
}

/// Removing an entry removes its key from the map.
pub proof fn lemma_map_remove<V>(s: Seq<KVPair<V>>, i: int)
    requires
        sorted(s),
        0 <= i < s.len(),
    ensures
        map_of(s.remove(i)) == map_of(s).remove(s[i].key),
        !has_key(s.remove(i), s[i].key),
{
    let t = s.remove(i);
    let k0 = s[i].key;
    lemma_remove_sorted(s, i);
    assert forall|k: u64| #[trigger] has_key(t, k) <==> k != k0 && has_key(s, k) by {
        if has_key(t, k) {
            let j = choose|j: int| 0 <= j < t.len() && t[j].key == k;
            if j < i {
                assert(t[j] == s[j]);
                assert(s[j].key < s[i].key);
            } else {
                assert(t[j] == s[j + 1]);
                assert(s[i].key < s[j + 1].key);
            }
        }
        if k != k0 && has_key(s, k) {
            let j = choose|j: int| 0 <= j < s.len() && s[j].key == k;
            if j < i {
                assert(t[j] == s[j]);
            } else {
                assert(j != i);
                assert(t[j - 1] == s[j]);
            }
        }
    }
    assert forall|k: u64| has_key(t, k) implies #[trigger] map_of(t)[k] == map_of(s)[k] by {
        let j = choose|j: int| 0 <= j < s.len() && s[j].key == k;
        lemma_index_of(s, j);
        if j < i {
            assert(t[j] == s[j]);
            lemma_index_of(t, j);
        } else {
            assert(t[j - 1] == s[j]);
            lemma_index_of(t, j - 1);
        }
    }
    assert(map_of(t) =~= map_of(s).remove(k0));
}

/// With `k` between the parts around `x`, `k` is in `p + x + q` exactly
/// when it is in `x`.
pub proof fn lemma_lift_has_key<V>(p: Seq<KVPair<V>>, x: Seq<KVPair<V>>, q: Seq<KVPair<V>>, k: u64)
    requires
        sorted(p + x + q),
        p.len() > 0 ==> p.last().key < k,
        q.len() > 0 ==> k < q[0].key,
    ensures
        has_key(p + x + q, k) <==> has_key(x, k),
{
    let s = p + x + q;
    if has_key(s, k) {
        let j = choose|j: int| 0 <= j < s.len() && s[j].key == k;
        if j < p.len() {
            assert(s[p.len() - 1] == p.last());
            if j < p.len() - 1 {
                assert(s[j].key < s[p.len() - 1].key);
            }
        } else if j >= p.len() + x.len() {
            let f = (p.len() + x.len()) as int;
            assert(s[f] == q[0]);
            if j > f {
                assert(s[f].key < s[j].key);
            }
        } else {
            assert(s[j] == x[j - p.len()]);
        }
    }
    if has_key(x, k) {
        let j = choose|j: int| 0 <= j < x.len() && x[j].key == k;
        assert(s[p.len() + j] == x[j]);
    }
}

} // verus!
