use std::collections::BTreeMap;
use vstd::prelude::*;

use crate::entries::{EntryList, Node};
use crate::key::{CacheKey, hash_of, key_to_hash};
use crate::model::{after_put, has_key, keep_recent, key_pos, keys_distinct, lemma_key_pos, lookup, touched};

verus! {

/// A bounded least-recently-used cache.
///
/// The entries sit in a recency chain; an index maps each key's hash to the
/// handles of the entries whose keys have that hash, and lookups compare the
/// full key, so distinct keys that share a hash are kept apart.
pub struct LruCache<K, V> {
    list: EntryList<K, V>,
    index: BTreeMap<u64, Vec<usize>>,
    capacity: usize,
}

impl<K: CacheKey, V: Copy> LruCache<K, V> {
    /// The contents, least recently used first.
    pub closed spec fn view(&self) -> Seq<(K, V)> {
        self.list@
    }

    /// The most entries that the cache holds.
    pub closed spec fn capacity_spec(&self) -> nat {
        self.capacity as nat
    }

    /// The handles filed under hash `hh`.
    closed spec fn bucket(&self, hh: u64) -> Seq<usize> {
        if self.index@.contains_key(hh) {
            self.index@[hh]@
        } else {
            Seq::empty()
        }
    }

    closed spec fn indexed(&self, h: usize) -> bool {
        let n = self.list.node(h);
        n.key_hash == hash_of(n.key) && self.bucket(n.key_hash).contains(h)
    }

    closed spec fn bucket_ok(&self, hh: u64) -> bool {
        let b = self.bucket(hh);
        &&& b.len() > 0
        &&& b.no_duplicates()
        &&& forall|j: int|
            0 <= j < b.len() ==> self.list.handles().contains(#[trigger] b[j])
                && self.list.node(b[j]).key_hash == hh
    }

    /// Everything but the bound on the size.
    closed spec fn wf_core(&self) -> bool {
        let o = self.list.handles();
        &&& self.list.wf()
        &&& forall|i: int, j: int|
            0 <= i < o.len() && 0 <= j < o.len() && i != j ==> self.list.node(o[i]).key
                != self.list.node(o[j]).key
        &&& forall|h: usize| #[trigger] o.contains(h) ==> self.indexed(h)
        &&& forall|hh: u64| #[trigger] self.index@.contains_key(hh) ==> self.bucket_ok(hh)
    }

    /// The cache's invariant: the chain and the index describe the same
    /// entries, keys are distinct, and the size is within the capacity.
    pub closed spec fn wf(&self) -> bool {
        self.wf_core() && self.list.handles().len() <= self.capacity
    }

    proof fn lemma_view(&self)
        requires
            self.wf_core(),
        ensures
            self@.len() == self.list.handles().len(),
            forall|i: int|
                0 <= i < self@.len() ==> (#[trigger] self@[i]).0 == self.list.node(
                    self.list.handles()[i],
                ).key && self@[i].1 == self.list.node(self.list.handles()[i]).value,
            keys_distinct(self@),
    {
    }

    proof fn lemma_handles_distinct(&self)
        requires
            self.wf_core(),
        ensures
            self.list.handles().no_duplicates(),
            forall|h: usize|
                #[trigger] self.list.handles().contains(h) ==> self.list.handles()[self.list.handles().index_of(h)] == h,
            forall|i: int|
                0 <= i < self.list.handles().len() ==> #[trigger] self.list.handles().index_of(
                    self.list.handles()[i],
                ) == i,
    {
        let o = self.list.handles();
        assert forall|i: int| 0 <= i < o.len() implies #[trigger] o.index_of(o[i]) == i by {
            assert(o.contains(o[i]));
        }
    }

    /// Files handle `h` under `hash`.
    fn index_insert(&mut self, hash: u64, h: usize)
        requires
            !old(self).bucket(hash).contains(h),
        ensures
            final(self).list == old(self).list,
            final(self).capacity == old(self).capacity,
            final(self).index@.contains_key(hash),
            final(self).bucket(hash) == old(self).bucket(hash).push(h),
            forall|hh: u64|
                hh != hash ==> (#[trigger] final(self).index@.contains_key(hh)
                    == old(self).index@.contains_key(hh) && final(self).bucket(hh) == old(
                    self,
                ).bucket(hh)),
    {
        let mut b = match self.index.remove(&hash) {
            Some(b) => b,
            None => Vec::new(),
        };
        b.push(h);
        self.index.insert(hash, b);
    }

    /// Takes handle `h` out of the bucket of `hash`, dropping the bucket
    /// once it is empty.
    fn index_remove(&mut self, hash: u64, h: usize)
        requires
            old(self).bucket(hash).contains(h),
            old(self).bucket(hash).no_duplicates(),
        ensures
            final(self).list == old(self).list,
            final(self).capacity == old(self).capacity,
            final(self).bucket(hash).no_duplicates(),
            forall|x: usize|
                #[trigger] final(self).bucket(hash).contains(x) == (old(self).bucket(
                    hash,
                ).contains(x) && x != h),
            final(self).index@.contains_key(hash) == (final(self).bucket(hash).len() > 0),
            forall|hh: u64|
                hh != hash ==> (#[trigger] final(self).index@.contains_key(hh)
                    == old(self).index@.contains_key(hh) && final(self).bucket(hh) == old(
                    self,
                ).bucket(hh)),
    {
        let ghost b0 = self.bucket(hash);
        if let Some(mut b) = self.index.remove(&hash) {
            let mut j: usize = 0;
            while j < b.len() && b[j] != h
                invariant
                    b@ == b0,
                    b0.contains(h),
                    0 <= j <= b@.len(),
                    forall|k: int| 0 <= k < j ==> b0[k] != h,
                decreases b@.len() - j,
            {
                j = j + 1;
            }
            if j == b.len() {
                let ghost k = b0.index_of(h);
                assert(b0[k] == h);
            }
            b.remove(j);
            proof {
                let b1 = b@;
                assert(b1 == b0.remove(j as int));
                assert forall|x: usize| #[trigger] b1.contains(x) == (b0.contains(x) && x != h) by {
                    if b1.contains(x) {
                        let k = b1.index_of(x);
                        if k < j {
                            assert(b0[k] == x);
                        } else {
                            assert(b0[k + 1] == x);
                        }
                    }
                    if b0.contains(x) && x != h {
                        let k = b0.index_of(x);
                        if k < j {
                            assert(b1[k] == x);
                        } else {
                            assert(k != j);
                            assert(b1[k - 1] == x);
                        }
                    }
                }
                assert(b1.no_duplicates()) by {
                    assert forall|p: int, q: int|
                        0 <= p < b1.len() && 0 <= q < b1.len() && p != q implies b1[p] != b1[q] by {
                        let p2 = if p < j {
                            p
                        } else {
                            p + 1
                        };
                        let q2 = if q < j {
                            q
                        } else {
                            q + 1
                        };
                        assert(b1[p] == b0[p2] && b1[q] == b0[q2]);
                    }
                }
            }
            if b.len() > 0 {
                self.index.insert(hash, b);
            }
        }
    }

    /// The handle of the entry holding `key`, if there is one.
    fn find(&self, key: &K) -> (r: Option<usize>)
        requires
            self.wf_core(),
        ensures
            r is Some == has_key(self@, *key),
            r is Some ==> {
                let h = r->0;
                &&& self.list.handles().contains(h)
                &&& self.list.node(h).key == *key
                &&& h == self.list.handles()[key_pos(self@, *key)]
            },
    {
        proof {
            self.lemma_view();
        }
        let hash = key_to_hash(key);
        match self.index.get(&hash) {
            None => {
                proof {
                    if has_key(self@, *key) {
                        let i = key_pos(self@, *key);
                        let h = self.list.handles()[i];
                        assert(self.list.handles().contains(h));
                        assert(self.indexed(h));
                    }
                }
                None
            },
            Some(b) => {
                let mut j: usize = 0;
                while j < b.len()
                    invariant
                        self.wf_core(),
                        b@ == self.bucket(hash),
                        self.index@.contains_key(hash),
                        hash == hash_of(*key),
                        0 <= j <= b@.len(),
                        forall|k: int| 0 <= k < j ==> self.list.node(#[trigger] b@[k]).key != *key,
                    decreases b@.len() - j,
                {
                    let h = b[j];
                    proof {
                        assert(self.bucket_ok(hash));
                        assert(self.list.handles().contains(b@[j as int]));
                    }
                    let n = self.list.get(h);
                    if n.key.same_key(key) {
                        proof {
                            let o = self.list.handles();
                            let i = o.index_of(h);
                            assert(o[i] == h);
                            assert(self@[i].0 == *key);
                            lemma_key_pos(self@, i);
                        }
                        return Some(h);
                    }
                    j = j + 1;
                }
                proof {
                    if has_key(self@, *key) {
                        let i = key_pos(self@, *key);
                        let h = self.list.handles()[i];
                        assert(self.list.handles().contains(h));
                        assert(self.indexed(h));
                        let k = b@.index_of(h);
                        assert(b@[k] == h);
                    }
                }
                None
            },
        }
    }

    /// Takes the entry under `h` out of the chain and the index.
    fn detach(&mut self, h: usize) -> (n: Node<K, V>)
        requires
            old(self).wf_core(),
            old(self).list.handles().contains(h),
        ensures
            final(self).wf_core(),
            final(self).capacity == old(self).capacity,
            final(self)@ == old(self)@.remove(old(self).list.handles().index_of(h)),
            n.key == old(self).list.node(h).key,
            n.value == old(self).list.node(h).value,
    {
        let node = self.list.get(h);
        proof {
            assert(self.indexed(h));
            assert(self.index@.contains_key(node.key_hash));
            assert(self.bucket_ok(node.key_hash));
        }
        self.index_remove(node.key_hash, h);
        let n = self.list.remove(h);
        proof {
            let o = old(self).list.handles();
            let i = o.index_of(h);
            let o2 = self.list.handles();
            assert(o[i] == h);
            assert forall|k: int| 0 <= k < o2.len() implies #[trigger] o2[k] == (if k < i {
                o[k]
            } else {
                o[k + 1]
            }) by {}
            assert forall|k: int, m: int|
                0 <= k < o2.len() && 0 <= m < o2.len() && k != m implies self.list.node(o2[k]).key
                != self.list.node(o2[m]).key by {
                let k2 = if k < i {
                    k
                } else {
                    k + 1
                };
                let m2 = if m < i {
                    m
                } else {
                    m + 1
                };
                assert(o2[k] == o[k2] && o2[m] == o[m2]);
                assert(o2.contains(o2[k]) && o2.contains(o2[m]));
            }
            assert forall|g: usize| #[trigger] o2.contains(g) implies self.indexed(g) by {
                assert(old(self).indexed(g));
            }
            assert forall|hh: u64| #[trigger] self.index@.contains_key(hh) implies self.bucket_ok(
                hh,
            ) by {
                assert(old(self).index@.contains_key(hh));
                assert(old(self).bucket_ok(hh));
                let b = self.bucket(hh);
                assert forall|j: int| 0 <= j < b.len() implies o2.contains(#[trigger] b[j])
                    && self.list.node(b[j]).key_hash == hh by {
                    assert(b.contains(b[j]));
                    let ob = old(self).bucket(hh);
                    assert(ob.contains(b[j]));
                    let j2 = ob.index_of(b[j]);
                    assert(ob[j2] == b[j]);
                }
            }
            self.lemma_view();
            old(self).lemma_view();
            assert forall|k: int| 0 <= k < o2.len() implies #[trigger] self@[k] == old(self)@.remove(
                i,
            )[k] by {
                let k2 = if k < i {
                    k
                } else {
                    k + 1
                };
                assert(o2[k] == o[k2]);
                assert(o2.contains(o2[k]));
            }
            assert(self@ =~= old(self)@.remove(i));
        }
        n
    }

    /// Appends a new entry under a key that the cache does not hold; the
    /// size may then exceed the capacity by one.
    fn attach(&mut self, key: K, value: V)
        requires
            old(self).wf_core(),
            !has_key(old(self)@, key),
        ensures
            final(self).wf_core(),
            final(self).capacity == old(self).capacity,
            final(self)@ == old(self)@.push((key, value)),
    {
        proof {
            self.lemma_view();
        }
        let hash = key_to_hash(&key);
        let h = self.list.push_back(key, hash, value);
        proof {
            assert forall|x: usize| #[trigger] old(self).bucket(hash).contains(x) implies x != h by {
                if old(self).bucket(hash).contains(x) {
                    assert(old(self).index@.contains_key(hash));
                    assert(old(self).bucket_ok(hash));
                    let j = old(self).bucket(hash).index_of(x);
                    assert(old(self).bucket(hash)[j] == x);
                }
            }
        }
        self.index_insert(hash, h);
        proof {
            let o = old(self).list.handles();
            let o2 = self.list.handles();
            assert forall|k: int| 0 <= k < o.len() implies #[trigger] o2[k] == o[k] && o.contains(
                o[k],
            ) by {}
            assert(o2[o.len() as int] == h);
            assert forall|k: int, m: int|
                0 <= k < o2.len() && 0 <= m < o2.len() && k != m implies self.list.node(o2[k]).key
                != self.list.node(o2[m]).key by {
                if k < o.len() && m < o.len() {
                    assert(o2[k] == o[k] && o2[m] == o[m]);
                } else if k < o.len() {
                    assert(old(self)@[k].0 == old(self).list.node(o[k]).key);
                } else if m < o.len() {
                    assert(old(self)@[m].0 == old(self).list.node(o[m]).key);
                }
            }
            assert forall|g: usize| #[trigger] o2.contains(g) implies self.indexed(g) by {
                if g != h {
                    assert(o.contains(g));
                    assert(old(self).indexed(g));
                    let ok = old(self).list.node(g).key_hash;
                    if ok == hash {
                        assert(self.bucket(hash)[old(self).bucket(hash).index_of(g)] == g);
                    }
                } else {
                    assert(self.bucket(hash)[old(self).bucket(hash).len() as int] == h);
                }
            }
            assert forall|hh: u64| #[trigger] self.index@.contains_key(hh) implies self.bucket_ok(
                hh,
            ) by {
                let b = self.bucket(hh);
                if hh == hash {
                    let ob = old(self).bucket(hash);
                    if ob.len() > 0 {
                        assert(old(self).index@.contains_key(hash));
                        assert(old(self).bucket_ok(hash));
                    }
                    assert forall|j: int| 0 <= j < b.len() implies o2.contains(#[trigger] b[j])
                        && self.list.node(b[j]).key_hash == hh by {
                        if j < ob.len() {
                            assert(b[j] == ob[j]);
                        }
                    }
                    assert(b.no_duplicates()) by {
                        assert forall|p: int, q: int|
                            0 <= p < b.len() && 0 <= q < b.len() && p != q implies b[p] != b[q] by {
                            if p < ob.len() && q < ob.len() {
                                assert(b[p] == ob[p] && b[q] == ob[q]);
                            } else if p < ob.len() {
                                assert(ob.contains(ob[p]));
                            } else if q < ob.len() {
                                assert(ob.contains(ob[q]));
                            }
                        }
                    }
                } else {
                    assert(old(self).index@.contains_key(hh));
                    assert(old(self).bucket_ok(hh));
                }
            }
            self.lemma_view();
            old(self).lemma_view();
            assert forall|k: int| 0 <= k < o2.len() implies #[trigger] self@[k] == old(self)@.push(
                (key, value),
            )[k] by {
                if k < o.len() {
                    assert(o2[k] == o[k]);
                }
            }
            assert(self@ =~= old(self)@.push((key, value)));
        }
    }

    /// Evicts from the front until the size is within the capacity.
    fn trim(&mut self)
        requires
            old(self).wf_core(),
        ensures
            final(self).wf(),
            final(self).capacity == old(self).capacity,
            final(self)@ == keep_recent(old(self)@, old(self).capacity as nat),
    {
        proof {
            self.lemma_view();
        }
        while self.list.len() > self.capacity
            invariant
                self.wf_core(),
                self.capacity == old(self).capacity,
                self@.len() <= old(self)@.len(),
                self@ == old(self)@.subrange(old(self)@.len() - self@.len(), old(self)@.len() as int),
                self@.len() >= self.capacity || self@.len() == old(self)@.len(),
            decreases self@.len(),
        {
            proof {
                self.lemma_view();
            }
            let ghost before = *self;
            let h = self.list.front().unwrap();
            proof {
                let o = self.list.handles();
                assert(o[0] == h);
                assert(o.contains(h));
                self.lemma_handles_distinct();
            }
            self.detach(h);
            proof {
                self.lemma_view();
                assert(before@.remove(0) =~= before@.subrange(1, before@.len() as int));
                assert(self@ =~= old(self)@.subrange(
                    old(self)@.len() - self@.len(),
                    old(self)@.len() as int,
                ));
            }
        }
        proof {
            self.lemma_view();
            assert(self@ =~= keep_recent(old(self)@, old(self).capacity as nat));
        }
    }

    /// Checks the invariant at run time: the chain's links, the size against
    /// the capacity, and that every entry carries its key's hash and is the
    /// one that the index finds for its key.
    pub fn verify(&self) -> (r: bool)
        requires
            self.wf(),
        ensures
            r,
    {
        if !self.list.check_links() {
            return false;
        }
        let len = self.list.len();
        if len > self.capacity {
            return false;
        }
        let ghost o = self.list.handles();
        proof {
            self.list.lemma_links();
            self.lemma_view();
        }
        let mut cur = self.list.front();
        let mut steps: usize = 0;
        while steps < len
            invariant
                self.wf(),
                o == self.list.handles(),
                len == o.len(),
                0 <= steps <= len,
                cur == (if steps < len {
                    Some(o[steps as int])
                } else {
                    None
                }),
            decreases len - steps,
        {
            let h = match cur {
                Some(h) => h,
                None => {
                    return false;
                },
            };
            proof {
                assert(o.contains(h));
                assert(self.indexed(h));
            }
            let n = self.list.get(h);
            if n.key_hash != key_to_hash(&n.key) {
                return false;
            }
            match self.find(&n.key) {
                Some(g) => {
                    proof {
                        self.lemma_view();
                        lemma_key_pos(self@, steps as int);
                    }
                    if g != h {
                        return false;
                    }
                },
                None => {
                    proof {
                        self.lemma_view();
                        assert(self@[steps as int].0 == n.key);
                    }
                    return false;
                },
            }
            proof {
                self.list.lemma_links();
            }
            cur = n.next;
            steps = steps + 1;
        }
        true
    }

    /// A well-formed cache never holds more entries than its capacity, and
    /// its keys are distinct.
    pub proof fn lemma_within_capacity(&self)
        requires
            self.wf(),
        ensures
            self@.len() <= self.capacity_spec(),
            keys_distinct(self@),
    {
        self.lemma_view();
    }

    /// An empty cache that holds at most `capacity` entries.
    pub fn new(capacity: usize) -> (r: Self)
        ensures
            r.wf(),
            r@ == Seq::<(K, V)>::empty(),
            r.capacity_spec() == capacity,
    {
        let r = LruCache { list: EntryList::new(), index: BTreeMap::new(), capacity };
        proof {
            assert(r@ =~= Seq::<(K, V)>::empty());
        }
        r
    }

    /// The number of entries.
    pub fn len(&self) -> (r: usize)
        requires
            self.wf(),
        ensures
            r == self@.len(),
    {
        proof {
            self.lemma_view();
        }
        self.list.len()
    }

    pub fn capacity(&self) -> (r: usize)
        ensures
            r == self.capacity_spec(),
    {
        self.capacity
    }

    /// Stores `value` under `key` as the most recently used entry, evicting
    /// the least recently used entries while the size exceeds the capacity.
    /// Returns the value that `key` held before, if any.
    pub fn put(&mut self, key: K, value: V) -> (r: Option<V>)
        requires
            old(self).wf(),
        ensures
            final(self).wf(),
            final(self).capacity_spec() == old(self).capacity_spec(),
            r == lookup(old(self)@, key),
            final(self)@ == after_put(old(self)@, key, value, old(self).capacity_spec()),
            final(self)@.len() <= final(self).capacity_spec(),
    {
        proof {
            self.lemma_view();
            self.lemma_handles_distinct();
        }
        let found = self.find(&key);
        let previous = match found {
            Some(h) => {
                let n = self.detach(h);
                proof {
                    let s0 = old(self)@;
                    let pos = key_pos(s0, key);
                    assert(self@ == s0.remove(pos));
                    assert(!has_key(self@, key)) by {
                        if has_key(self@, key) {
                            let k = key_pos(self@, key);
                            let k2 = if k < pos {
                                k
                            } else {
                                k + 1
                            };
                            assert(s0[k2].0 == key);
                        }
                    }
                }
                Some(n.value)
            },
            None => None,
        };
        self.attach(key, value);
        self.trim();
        previous
    }

    /// The value under `key`, if any; a hit makes the entry the most
    /// recently used.
    pub fn get(&mut self, key: &K) -> (r: Option<V>)
        requires
            old(self).wf(),
        ensures
            final(self).wf(),
            final(self).capacity_spec() == old(self).capacity_spec(),
            r == lookup(old(self)@, *key),
            final(self)@ == touched(old(self)@, *key),
    {
        proof {
            self.lemma_view();
            self.lemma_handles_distinct();
        }
        match self.find(key) {
            Some(h) => {
                let n = self.list.get(h);
                self.list.touch(h);
                proof {
                    let o = old(self).list.handles();
                    let o2 = self.list.handles();
                    let i = o.index_of(h);
                    assert(i == key_pos(old(self)@, *key));
                    assert forall|k: int| 0 <= k < o2.len() implies #[trigger] o2[k] == (if k + 1
                        == o2.len() {
                        h
                    } else if k < i {
                        o[k]
                    } else {
                        o[k + 1]
                    }) && o.contains(o2[k]) by {
                        if k + 1 < o2.len() {
                            let k2 = if k < i {
                                k
                            } else {
                                k + 1
                            };
                            assert(o.contains(o[k2]));
                        }
                    }
                    assert forall|k: int, m: int|
                        0 <= k < o2.len() && 0 <= m < o2.len() && k != m implies self.list.node(
                        o2[k],
                    ).key != self.list.node(o2[m]).key by {
                        let k2 = if k + 1 == o2.len() {
                            i
                        } else if k < i {
                            k
                        } else {
                            k + 1
                        };
                        let m2 = if m + 1 == o2.len() {
                            i
                        } else if m < i {
                            m
                        } else {
                            m + 1
                        };
                        assert(o2[k] == o[k2] && o2[m] == o[m2]);
                    }
                    assert forall|g: usize| #[trigger] o2.contains(g) implies self.indexed(g) by {
                        assert(old(self).indexed(g));
                    }
                    assert forall|hh: u64| #[trigger] self.index@.contains_key(hh) implies self.bucket_ok(
                        hh,
                    ) by {
                        assert(old(self).bucket_ok(hh));
                        let b = self.bucket(hh);
                        assert forall|j: int| 0 <= j < b.len() implies o2.contains(#[trigger] b[j])
                            && self.list.node(b[j]).key_hash == hh by {
                            assert(o.contains(b[j]));
                        }
                    }
                    self.lemma_view();
                    assert forall|k: int| 0 <= k < o2.len() implies #[trigger] self@[k] == touched(
                        old(self)@,
                        *key,
                    )[k] by {
                        assert(o.contains(o2[k]));
                    }
                    assert(self@ =~= touched(old(self)@, *key));
                }
                Some(n.value)
            },
            None => None,
        }
    }

    /// The value under `key`, if any, leaving the order as it is.
    pub fn search(&self, key: &K) -> (r: Option<V>)
        requires
            self.wf(),
        ensures
            r == lookup(self@, *key),
    {
        proof {
            self.lemma_view();
        }
        match self.find(key) {
            Some(h) => Some(self.list.get(h).value),
            None => None,
        }
    }

    /// Removes and returns the least recently used entry.
    pub fn pop(&mut self) -> (r: Option<(K, V)>)
        requires
            old(self).wf(),
        ensures
            final(self).wf(),
            final(self).capacity_spec() == old(self).capacity_spec(),
            old(self)@.len() == 0 ==> r is None && final(self)@ == old(self)@,
            old(self)@.len() > 0 ==> r == Some(old(self)@[0]) && final(self)@ == old(self)@.subrange(
                1,
                old(self)@.len() as int,
            ),
    {
        proof {
            self.lemma_view();
            self.lemma_handles_distinct();
        }
        match self.list.front() {
            Some(h) => {
                proof {
                    assert(self.list.handles().contains(h));
                }
                let n = self.detach(h);
                proof {
                    assert(old(self)@.remove(0) =~= old(self)@.subrange(1, old(self)@.len() as int));
                }
                Some((n.key, n.value))
            },
            None => None,
        }
    }

    /// Sets a new capacity, evicting the least recently used entries until
    /// the size fits it.
    pub fn resize(&mut self, new_capacity: usize)
        requires
            old(self).wf(),
        ensures
            final(self).wf(),
            final(self).capacity_spec() == new_capacity,
            final(self)@ == keep_recent(old(self)@, new_capacity as nat),
    {
        self.capacity = new_capacity;
        self.trim();
    }
}

/// An LRU cache that computes missing values with a derivation function
/// fixed at construction.
pub struct Cache<K, V, F> {
    lru: LruCache<K, V>,
    derive_fn: F,
}

impl<K: CacheKey, V: Copy, F: Fn(&K) -> Option<V>> Cache<K, V, F> {
    /// The contents, least recently used first.
    pub closed spec fn view(&self) -> Seq<(K, V)> {
        self.lru@
    }

    /// The most entries that the cache holds.
    pub closed spec fn capacity_spec(&self) -> nat {
        self.lru.capacity_spec()
    }

    /// The derivation function.
    pub closed spec fn derive_spec(&self) -> F {
        self.derive_fn
    }

    /// The invariant of the underlying `LruCache`.
    pub closed spec fn wf(&self) -> bool {
        self.lru.wf()
    }

    /// A well-formed cache never holds more entries than its capacity, and
    /// its keys are distinct.
    pub proof fn lemma_within_capacity(&self)
        requires
            self.wf(),
        ensures
            self@.len() <= self.capacity_spec(),
            keys_distinct(self@),
    {
        self.lru.lemma_within_capacity();
    }

    /// An empty cache of the given capacity that derives missing values
    /// with `derive_fn`.
    pub fn new(capacity: usize, derive_fn: F) -> (r: Self)
        ensures
            r.wf(),
            r@ == Seq::<(K, V)>::empty(),
            r.capacity_spec() == capacity,
            r.derive_spec() == derive_fn,
    {
        Cache { lru: LruCache::new(capacity), derive_fn }
    }

    /// Looks `key` up. A hit returns the stored value and makes the entry the
    /// most recently used. A miss asks the derivation function; a value it
    /// yields is stored as by `put` and returned, and an absent one leaves
    /// the cache as it was.
    pub fn search_lru(&mut self, key: K) -> (r: Option<V>)
        requires
            old(self).wf(),
            old(self).derive_spec().requires((&key,)),
        ensures
            final(self).wf(),
            final(self).derive_spec() == old(self).derive_spec(),
            final(self).capacity_spec() == old(self).capacity_spec(),
            has_key(old(self)@, key) ==> r == lookup(old(self)@, key) && final(self)@ == touched(
                old(self)@,
                key,
            ),
            !has_key(old(self)@, key) ==> old(self).derive_spec().ensures((&key,), r)
                && final(self)@ == match r {
                Some(v) => after_put(old(self)@, key, v, old(self).capacity_spec()),
                None => old(self)@,
            },
            final(self)@.len() <= final(self).capacity_spec(),
    {
        let hit = self.lru.get(&key);
        match hit {
            Some(v) => Some(v),
            None => {
                proof {
                    assert(!has_key(old(self)@, key));
                }
                let derived = (self.derive_fn)(&key);
                match derived {
                    Some(v) => {
                        self.lru.put(key, v);
                        Some(v)
                    },
                    None => None,
                }
            },
        }
    }

    /// Stores `value` under `key`; see `LruCache::put`.
    pub fn put(&mut self, key: K, value: V) -> (r: Option<V>)
        requires
            old(self).wf(),
        ensures
            final(self).wf(),
            final(self).derive_spec() == old(self).derive_spec(),
            final(self).capacity_spec() == old(self).capacity_spec(),
            r == lookup(old(self)@, key),
            final(self)@ == after_put(old(self)@, key, value, old(self).capacity_spec()),
            final(self)@.len() <= final(self).capacity_spec(),
    {
        self.lru.put(key, value)
    }

    /// Makes the entry of `key`, if there is one, the most recently used,
    /// without consulting the derivation function.
    pub fn cut(&mut self, key: K)
        requires
            old(self).wf(),
        ensures
            final(self).wf(),
            final(self).derive_spec() == old(self).derive_spec(),
            final(self).capacity_spec() == old(self).capacity_spec(),
            final(self)@ == touched(old(self)@, key),
    {
        self.lru.get(&key);
    }

    /// The stored value under `key`, if any, leaving the order as it is.
    pub fn search(&self, key: K) -> (r: Option<V>)
        requires
            self.wf(),
        ensures
            r == lookup(self@, key),
    {
        self.lru.search(&key)
    }

    /// Removes and returns the least recently used entry.
    pub fn pop(&mut self) -> (r: Option<(K, V)>)
        requires
            old(self).wf(),
        ensures
            final(self).wf(),
            final(self).derive_spec() == old(self).derive_spec(),
            final(self).capacity_spec() == old(self).capacity_spec(),
            old(self)@.len() == 0 ==> r is None && final(self)@ == old(self)@,
            old(self)@.len() > 0 ==> r == Some(old(self)@[0]) && final(self)@ == old(self)@.subrange(
                1,
                old(self)@.len() as int,
            ),
    {
        self.lru.pop()
    }

    /// Sets a new capacity, evicting the least recently used entries until
    /// the size fits it.
    pub fn resize(&mut self, new_capacity: usize)
        requires
            old(self).wf(),
        ensures
            final(self).wf(),
            final(self).derive_spec() == old(self).derive_spec(),
            final(self).capacity_spec() == new_capacity,
            final(self)@ == keep_recent(old(self)@, new_capacity as nat),
    {
        self.lru.resize(new_capacity)
    }

    /// The number of entries.
    pub fn len(&self) -> (r: usize)
        requires
            self.wf(),
        ensures
            r == self@.len(),
    {
        self.lru.len()
    }

    pub fn capacity(&self) -> (r: usize)
        ensures
            r == self.capacity_spec(),
    {
        self.lru.capacity()
    }

    /// Checks the invariant at run time; see `LruCache::verify`.
    pub fn verify(&self) -> (r: bool)
        requires
            self.wf(),
        ensures
            r,
    {
        self.lru.verify()
    }
}

} // verus!
