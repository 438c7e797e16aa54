use vstd::prelude::*;

use crate::model::{
    after_put, has_key, keep_recent, key_pos, keys_distinct, lookup, touched, without_key,
};

verus! {

/// Storing never leaves more entries than the capacity.
pub proof fn lemma_put_within_capacity<K, V>(s: Seq<(K, V)>, k: K, v: V, cap: nat)
    ensures
        after_put(s, k, v, cap).len() <= cap,
        keep_recent(s, cap).len() <= cap,
{
}

/// Three stores of distinct keys into an empty cache that has room for
/// them leave the keys in the order of the stores, so that repeatedly
/// taking the least recently used entry yields them in that order.
pub proof fn lemma_puts_drain_in_order<K, V>(k1: K, v1: V, k2: K, v2: V, k3: K, v3: V, cap: nat)
    requires
        k1 != k2,
        k1 != k3,
        k2 != k3,
        cap >= 3,
    ensures
        after_put(after_put(after_put(Seq::empty(), k1, v1, cap), k2, v2, cap), k3, v3, cap)
            == seq![(k1, v1), (k2, v2), (k3, v3)],
{
    let s0 = Seq::<(K, V)>::empty();
    assert(!has_key(s0, k1));
    let s1 = after_put(s0, k1, v1, cap);
    assert(s1 =~= seq![(k1, v1)]);
    assert(!has_key(s1, k2)) by {
        if has_key(s1, k2) {
            assert(s1[key_pos(s1, k2)].0 == k2);
        }
    }
    let s2 = after_put(s1, k2, v2, cap);
    assert(s2 =~= seq![(k1, v1), (k2, v2)]);
    assert(!has_key(s2, k3)) by {
        if has_key(s2, k3) {
            let i = key_pos(s2, k3);
            assert(s2[i].0 == k3);
        }
    }
    let s3 = after_put(s2, k3, v3, cap);
    assert(s3 =~= seq![(k1, v1), (k2, v2), (k3, v3)]);
}

/// Accessing the most recently used entry leaves the order unchanged.
pub proof fn lemma_touch_most_recent<K, V>(s: Seq<(K, V)>)
    requires
        keys_distinct(s),
        s.len() > 0,
    ensures
        touched(s, s.last().0) == s,
{
    let k = s.last().0;
    let last = s.len() - 1;
    assert(s[last].0 == k);
    assert(has_key(s, k));
    assert(key_pos(s, k) == last);
    assert(without_key(s, k).push(s[last]) =~= s);
}

/// A value stored under a key that was absent is what a lookup of that key
/// then finds, as long as the capacity leaves room for one entry.
pub proof fn lemma_put_then_lookup<K, V>(s: Seq<(K, V)>, k: K, v: V, cap: nat)
    requires
        keys_distinct(s),
        !has_key(s, k),
        cap > 0,
    ensures
        has_key(after_put(s, k, v, cap), k),
        lookup(after_put(s, k, v, cap), k) == Some(v),
{
    let t = s.push((k, v));
    assert(without_key(s, k) == s);
    let r = after_put(s, k, v, cap);
    let last = r.len() - 1;
    assert(r[last] == (k, v));
    assert(has_key(r, k));
    let p = key_pos(r, k);
    if p != last {
        let off = t.len() - r.len();
        assert(r[p] == t[p + off]);
        assert(t[p + off] == s[p + off]);
    }
}

/// A value that the derivation function yields for an absent key is kept:
/// a later lookup of the key is a hit that returns that value (so the
/// function is not asked again), unless the capacity is zero.
pub proof fn lemma_derived_value_is_cached<K, V>(s: Seq<(K, V)>, k: K, v: V, cap: nat)
    requires
        keys_distinct(s),
        !has_key(s, k),
        cap > 0,
    ensures
        has_key(after_put(s, k, v, cap), k),
        lookup(after_put(s, k, v, cap), k) == Some(v),
{
    lemma_put_then_lookup(s, k, v, cap);
}

/// Shrinking to `n` entries keeps exactly the `n` most recently used ones,
/// in their order.
pub proof fn lemma_shrink_keeps_most_recent<K, V>(s: Seq<(K, V)>, n: nat)
    requires
        n <= s.len(),
    ensures
        keep_recent(s, n).len() == n,
        forall|i: int| 0 <= i < n ==> #[trigger] keep_recent(s, n)[i] == s[s.len() - n + i],
{
}

} // verus!
