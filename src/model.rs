use vstd::prelude::*;

verus! {

// A cache's contents are modelled as a sequence of key/value pairs, least
// recently used first.

/// No key occurs twice.
pub open spec fn keys_distinct<K, V>(s: Seq<(K, V)>) -> bool {
    forall|i: int, j: int| 0 <= i < s.len() && 0 <= j < s.len() && i != j ==> s[i].0 != s[j].0
}

pub open spec fn has_key<K, V>(s: Seq<(K, V)>, k: K) -> bool {
    exists|i: int| 0 <= i < s.len() && s[i].0 == k
}

/// The position of key `k` (meaningful when `has_key(s, k)`).
pub open spec fn key_pos<K, V>(s: Seq<(K, V)>, k: K) -> int {
    choose|i: int| 0 <= i < s.len() && s[i].0 == k
}

/// The value stored under `k`, if any.
pub open spec fn lookup<K, V>(s: Seq<(K, V)>, k: K) -> Option<V> {
    if has_key(s, k) {
        Some(s[key_pos(s, k)].1)
    } else {
        None
    }
}

/// The contents with the entry of `k` taken out.
pub open spec fn without_key<K, V>(s: Seq<(K, V)>, k: K) -> Seq<(K, V)> {
    if has_key(s, k) {
        s.remove(key_pos(s, k))
    } else {
        s
    }
}

/// The contents after an access of `k`: its entry becomes the most recent.
pub open spec fn touched<K, V>(s: Seq<(K, V)>, k: K) -> Seq<(K, V)> {
    if has_key(s, k) {
        without_key(s, k).push(s[key_pos(s, k)])
    } else {
        s
    }
}

/// The `cap` most recent entries (all of them if there are fewer).
pub open spec fn keep_recent<K, V>(s: Seq<(K, V)>, cap: nat) -> Seq<(K, V)> {
    if s.len() > cap {
        s.subrange(s.len() - cap, s.len() as int)
    } else {
        s
    }
}

/// The contents after storing `v` under `k` in a cache of capacity `cap`.
pub open spec fn after_put<K, V>(s: Seq<(K, V)>, k: K, v: V, cap: nat) -> Seq<(K, V)> {
    keep_recent(without_key(s, k).push((k, v)), cap)
}

/// The position of `k` is the one index that holds it.
pub proof fn lemma_key_pos<K, V>(s: Seq<(K, V)>, i: int)
    requires
        keys_distinct(s),
        0 <= i < s.len(),
    ensures
        has_key(s, s[i].0),
        key_pos(s, s[i].0) == i,
{
}

} // verus!
