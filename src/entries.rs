use vstd::prelude::*;

verus! {

/// One stored association, together with its links in the recency chain.
#[derive(Clone, Copy)]
pub struct Node<K, V> {
    pub prev: Option<usize>,
    pub next: Option<usize>,
    pub key_hash: u64,
    pub key: K,
    pub value: V,
}

/// Two nodes hold the same key, hash and value (their links may differ).
pub open spec fn same_entry<K, V>(a: Node<K, V>, b: Node<K, V>) -> bool {
    a.key == b.key && a.key_hash == b.key_hash && a.value == b.value
}

/// Whether two links name the same slot (or both are empty).
fn same_link(a: Option<usize>, b: Option<usize>) -> (r: bool)
    ensures
        r == (a == b),
{
    match (a, b) {
        (Some(x), Some(y)) => x == y,
        (None, None) => true,
        _ => false,
    }
}

/// A recency-ordered chain of entries, least recently used at the front.
///
/// Entries live in an arena of slots and are addressed by stable handles
/// (slot numbers); slots of removed entries are recycled.
pub struct EntryList<K, V> {
    slots: Vec<Node<K, V>>,
    free: Vec<usize>,
    front: Option<usize>,
    back: Option<usize>,
    count: usize,
    order: Ghost<Seq<usize>>,
}

impl<K: Copy, V: Copy> EntryList<K, V> {
    /// The handles of the live entries, from front (least recent) to back.
    pub closed spec fn handles(&self) -> Seq<usize> {
        self.order@
    }

    /// The node stored under handle `h`.
    pub closed spec fn node(&self, h: usize) -> Node<K, V> {
        self.slots@[h as int]
    }

    /// The slot that the next `push_back` fills, if one is free.
    pub closed spec fn reuse_slot(&self) -> Option<usize> {
        if self.free@.len() == 0 {
            None
        } else {
            Some(self.free@.last())
        }
    }

    /// The entries as key/value pairs, from front to back.
    pub open spec fn view(&self) -> Seq<(K, V)> {
        self.handles().map_values(|h: usize| (self.node(h).key, self.node(h).value))
    }

    /// The chain's invariant: `order` lists distinct live slots, free slots
    /// are distinct and not live, each live node links to its neighbours in
    /// `order`, and `front`/`back` name its ends.
    pub closed spec fn wf(&self) -> bool {
        let o = self.order@;
        let s = self.slots@;
        let f = self.free@;
        &&& o.no_duplicates()
        &&& f.no_duplicates()
        &&& o.len() + f.len() == s.len()
        &&& self.count == o.len()
        &&& forall|i: int| 0 <= i < o.len() ==> #[trigger] o[i] < s.len()
        &&& forall|j: int|
            0 <= j < f.len() ==> #[trigger] f[j] < s.len() && !o.contains(f[j])
        &&& self.front == (if o.len() == 0 { None } else { Some(o[0]) })
        &&& self.back == (if o.len() == 0 { None } else { Some(o.last()) })
        &&& forall|i: int|
            0 <= i < o.len() ==> (#[trigger] s[o[i] as int]).prev == (if i == 0 {
                None
            } else {
                Some(o[i - 1])
            })
        &&& forall|i: int|
            0 <= i < o.len() ==> (#[trigger] s[o[i] as int]).next == (if i + 1 == o.len() {
                None
            } else {
                Some(o[i + 1])
            })
    }

    pub fn new() -> (r: Self)
        ensures
            r.wf(),
            r.handles() == Seq::<usize>::empty(),
    {
        EntryList {
            slots: Vec::new(),
            free: Vec::new(),
            front: None,
            back: None,
            count: 0,
            order: Ghost(Seq::empty()),
        }
    }

    pub fn len(&self) -> (r: usize)
        requires
            self.wf(),
        ensures
            r == self.handles().len(),
    {
        self.count
    }

    /// The handle of the least recently used entry.
    pub fn front(&self) -> (r: Option<usize>)
        requires
            self.wf(),
        ensures
            r == (if self.handles().len() == 0 {
                None
            } else {
                Some(self.handles()[0])
            }),
    {
        self.front
    }

    /// A copy of the node under a live handle.
    pub fn get(&self, h: usize) -> (r: Node<K, V>)
        requires
            self.wf(),
            self.handles().contains(h),
        ensures
            r == self.node(h),
    {
        self.slots[h]
    }

    /// Appends a new entry as the most recently used one and returns its handle.
    pub fn push_back(&mut self, key: K, key_hash: u64, value: V) -> (h: usize)
        requires
            old(self).wf(),
        ensures
            final(self).wf(),
            !old(self).handles().contains(h),
            final(self).handles() == old(self).handles().push(h),
            final(self).node(h).key == key,
            final(self).node(h).key_hash == key_hash,
            final(self).node(h).value == value,
            forall|g: usize|
                old(self).handles().contains(g) ==> same_entry(
                    #[trigger] final(self).node(g),
                    old(self).node(g),
                ),
            old(self).reuse_slot() is Some ==> h == old(self).reuse_slot()->0,
            forall|g: usize|
                #[trigger] final(self).handles().contains(g) == (old(self).handles().contains(g)
                    || g == h),
    {
        let ghost o = self.order@;
        let ghost s0 = self.slots@;
        let ghost f0 = self.free@;
        let node = Node { prev: self.back, next: None, key_hash, key, value };
        let h: usize = match self.free.pop() {
            Some(f) => {
                proof {
                    assert(f0[f0.len() - 1] == f);
                }
                self.slots.set(f, node);
                f
            },
            None => {
                let n: usize = self.slots.len();
                self.slots.push(node);
                n
            },
        };
        proof {
            assert(!o.contains(h)) by {
                if o.contains(h) {
                    let i = o.index_of(h);
                    assert(o[i] < s0.len());
                }
            }
            assert forall|j: int| 0 <= j < self.free@.len() implies self.free@[j] != h by {
                assert(self.free@[j] == f0[j]);
            }
        }
        match self.back {
            Some(b) => {
                let mut bn = self.slots[b];
                bn.next = Some(h);
                self.slots.set(b, bn);
            },
            None => {
                self.front = Some(h);
            },
        }
        self.back = Some(h);
        proof {
            assert(self.slots@.len() == self.slots.len());
            assert(o.len() + 1 + self.free@.len() == self.slots@.len());
        }
        self.count = self.count + 1;
        self.order = Ghost(o.push(h));
        proof {
            let o2 = self.order@;
            let s = self.slots@;
            assert forall|i: int| 0 <= i < o.len() implies o[i] != h by {}
            assert(o2.no_duplicates()) by {
                assert forall|i: int, j: int|
                    0 <= i < o2.len() && 0 <= j < o2.len() && i != j implies o2[i] != o2[j] by {
                    if i < o.len() && j < o.len() {
                        assert(o2[i] == o[i] && o2[j] == o[j]);
                    }
                }
            }
            assert forall|j: int| 0 <= j < self.free@.len() implies #[trigger] self.free@[j]
                < s.len() && !o2.contains(self.free@[j]) by {
                assert(self.free@[j] == f0[j]);
                if o2.contains(self.free@[j]) {
                    let k = o2.index_of(self.free@[j]);
                    if k < o.len() {
                        assert(o[k] == o2[k]);
                    }
                }
            }
            assert forall|i: int| 0 <= i < o2.len() implies #[trigger] o2[i] < s.len() by {
                if i < o.len() {
                    assert(o2[i] == o[i]);
                }
            }
            assert forall|i: int| 0 <= i < o2.len() implies (#[trigger] s[o2[i] as int]).prev == (
            if i == 0 {
                None
            } else {
                Some(o2[i - 1])
            }) by {
                if i < o.len() {
                    assert(o2[i] == o[i]);
                    assert(o[i] != h);
                }
            }
            assert forall|i: int| 0 <= i < o2.len() implies (#[trigger] s[o2[i] as int]).next == (
            if i + 1 == o2.len() {
                None
            } else {
                Some(o2[i + 1])
            }) by {
                if i < o.len() {
                    assert(o2[i] == o[i]);
                    assert(o[i] != h);
                }
            }
            assert forall|g: usize| o.contains(g) implies same_entry(
                #[trigger] self.node(g),
                old(self).node(g),
            ) by {
                let k = o.index_of(g);
                assert(o[k] == g);
            }
            assert forall|g: usize| #[trigger] o2.contains(g) == (o.contains(g) || g == h) by {
                if o2.contains(g) && g != h {
                    let k = o2.index_of(g);
                    assert(o[k] == g);
                }
                if o.contains(g) {
                    let k = o.index_of(g);
                    assert(o2[k] == g);
                }
                if g == h {
                    assert(o2[o.len() as int] == h);
                }
            }
        }
        h
    }

    /// Unlinks the entry under `h` and returns it; its slot becomes free.
    pub fn remove(&mut self, h: usize) -> (n: Node<K, V>)
        requires
            old(self).wf(),
            old(self).handles().contains(h),
        ensures
            final(self).wf(),
            final(self).handles() == old(self).handles().remove(
                old(self).handles().index_of(h),
            ),
            same_entry(n, old(self).node(h)),
            forall|g: usize|
                #[trigger] final(self).handles().contains(g) ==> same_entry(
                    final(self).node(g),
                    old(self).node(g),
                ),
            final(self).reuse_slot() == Some(h),
            forall|g: usize|
                #[trigger] final(self).handles().contains(g) == (old(self).handles().contains(g)
                    && g != h),
    {
        let ghost o = self.order@;
        let ghost f0 = self.free@;
        let ghost i = o.index_of(h);
        let ghost o2 = o.remove(i);
        let node = self.slots[h];
        match node.prev {
            Some(p) => {
                assert(p == o[i - 1]);
                let mut pn = self.slots[p];
                pn.next = node.next;
                self.slots.set(p, pn);
            },
            None => {
                self.front = node.next;
            },
        }
        match node.next {
            Some(n) => {
                assert(n == o[i + 1]);
                let mut nn = self.slots[n];
                nn.prev = node.prev;
                self.slots.set(n, nn);
            },
            None => {
                self.back = node.prev;
            },
        }
        self.free.push(h);
        self.count = self.count - 1;
        self.order = Ghost(o2);
        proof {
            let s = self.slots@;
            let s0 = old(self).slots@;
            let f = self.free@;
            assert forall|k: int| 0 <= k < o2.len() implies #[trigger] o2[k] == (if k < i {
                o[k]
            } else {
                o[k + 1]
            }) by {}
            assert(o2.no_duplicates()) by {
                assert forall|a: int, b: int|
                    0 <= a < o2.len() && 0 <= b < o2.len() && a != b implies o2[a] != o2[b] by {
                    let a2 = if a < i {
                        a
                    } else {
                        a + 1
                    };
                    let b2 = if b < i {
                        b
                    } else {
                        b + 1
                    };
                    assert(o2[a] == o[a2] && o2[b] == o[b2]);
                }
            }
            assert forall|k: int| 0 <= k < o2.len() implies o2[k] != h by {
                let k2 = if k < i {
                    k
                } else {
                    k + 1
                };
                assert(o2[k] == o[k2]);
            }
            assert forall|k: int| 0 <= k < o2.len() implies #[trigger] o2[k] < s.len() by {
                let k2 = if k < i {
                    k
                } else {
                    k + 1
                };
                assert(o2[k] == o[k2]);
            }
            assert(f.no_duplicates()) by {
                assert forall|a: int, b: int|
                    0 <= a < f.len() && 0 <= b < f.len() && a != b implies f[a] != f[b] by {
                    if a < f0.len() && b < f0.len() {
                        assert(f[a] == f0[a] && f[b] == f0[b]);
                    } else if a < f0.len() {
                        assert(f[a] == f0[a]);
                        assert(o.contains(h));
                    } else if b < f0.len() {
                        assert(f[b] == f0[b]);
                        assert(o.contains(h));
                    }
                }
            }
            assert forall|j: int| 0 <= j < f.len() implies #[trigger] f[j] < s.len()
                && !o2.contains(f[j]) by {
                if j < f0.len() {
                    assert(f[j] == f0[j]);
                    if o2.contains(f[j]) {
                        let k = o2.index_of(f[j]);
                        let k2 = if k < i {
                            k
                        } else {
                            k + 1
                        };
                        assert(o2[k] == o[k2]);
                    }
                } else {
                    assert(f[j] == h);
                }
            }
            assert forall|k: int| 0 <= k < o2.len() implies (#[trigger] s[o2[k] as int]).prev == (
            if k == 0 {
                None
            } else {
                Some(o2[k - 1])
            }) by {
                let k2 = if k < i {
                    k
                } else {
                    k + 1
                };
                assert(o2[k] == o[k2]);
                assert(s0[o[k2] as int].prev == (if k2 == 0 {
                    None
                } else {
                    Some(o[k2 - 1])
                }));
            }
            assert forall|k: int| 0 <= k < o2.len() implies (#[trigger] s[o2[k] as int]).next == (
            if k + 1 == o2.len() {
                None
            } else {
                Some(o2[k + 1])
            }) by {
                let k2 = if k < i {
                    k
                } else {
                    k + 1
                };
                assert(o2[k] == o[k2]);
                assert(s0[o[k2] as int].next == (if k2 + 1 == o.len() {
                    None
                } else {
                    Some(o[k2 + 1])
                }));
            }
            assert forall|g: usize| #[trigger] o2.contains(g) implies same_entry(
                self.node(g),
                old(self).node(g),
            ) by {
                let k = o2.index_of(g);
                assert(o2[k] == g);
            }
            assert forall|g: usize| #[trigger] o2.contains(g) == (o.contains(g) && g != h) by {
                if o2.contains(g) {
                    let k = o2.index_of(g);
                    let k2 = if k < i {
                        k
                    } else {
                        k + 1
                    };
                    assert(o2[k] == o[k2]);
                }
                if o.contains(g) && g != h {
                    let k = o.index_of(g);
                    if k < i {
                        assert(o2[k] == g);
                    } else {
                        assert(k != i);
                        assert(o2[k - 1] == g);
                    }
                }
            }
        }
        node
    }

    /// Unlinks the least recently used entry and returns its handle and node.
    pub fn pop_front(&mut self) -> (r: Option<(usize, Node<K, V>)>)
        requires
            old(self).wf(),
        ensures
            final(self).wf(),
            old(self).handles().len() == 0 ==> r is None && final(self).handles()
                == old(self).handles(),
            old(self).handles().len() > 0 ==> {
                let h = old(self).handles()[0];
                &&& r is Some
                &&& r.unwrap().0 == h
                &&& same_entry(r.unwrap().1, old(self).node(h))
                &&& final(self).handles() == old(self).handles().subrange(
                    1,
                    old(self).handles().len() as int,
                )
            },
            forall|g: usize|
                #[trigger] final(self).handles().contains(g) ==> same_entry(
                    final(self).node(g),
                    old(self).node(g),
                ),
    {
        match self.front {
            Some(h) => {
                proof {
                    assert(self.order@.index_of(h) == 0);
                    assert(self.order@.remove(0) =~= self.order@.subrange(
                        1,
                        self.order@.len() as int,
                    ));
                }
                let n = self.remove(h);
                Some((h, n))
            },
            None => None,
        }
    }

    /// Moves the entry under `h` to the back, making it the most recently used.
    pub fn touch(&mut self, h: usize)
        requires
            old(self).wf(),
            old(self).handles().contains(h),
        ensures
            final(self).wf(),
            final(self).handles() == old(self).handles().remove(
                old(self).handles().index_of(h),
            ).push(h),
            forall|g: usize|
                #[trigger] old(self).handles().contains(g) ==> same_entry(
                    final(self).node(g),
                    old(self).node(g),
                ),
            forall|g: usize|
                #[trigger] final(self).handles().contains(g) == old(self).handles().contains(g),
    {
        if let Some(b) = self.back {
            if b == h {
                proof {
                    let o = self.order@;
                    assert(o.no_duplicates());
                    assert(o.index_of(h) == o.len() - 1);
                    assert(o.remove(o.len() - 1).push(h) =~= o);
                }
                return;
            }
        }
        let n = self.remove(h);
        let ghost mid = *self;
        let h2 = self.push_back(n.key, n.key_hash, n.value);
        assert(h2 == h);
        proof {
            let o = old(self).order@;
            let i = o.index_of(h);
            assert forall|g: usize| #[trigger] o.contains(g) implies same_entry(
                self.node(g),
                old(self).node(g),
            ) by {
                if g != h {
                    let k = o.index_of(g);
                    let k2 = if k < i {
                        k
                    } else {
                        k - 1
                    };
                    assert(o.remove(i)[k2] == g);
                    assert(mid.handles().contains(g));
                }
            }
        }
    }

    /// The chain's links, as the invariant states them.
    pub proof fn lemma_links(&self)
        requires
            self.wf(),
        ensures
            self.handles().no_duplicates(),
            forall|i: int|
                0 <= i < self.handles().len() ==> (#[trigger] self.node(self.handles()[i])).prev
                    == (if i == 0 {
                    None
                } else {
                    Some(self.handles()[i - 1])
                }),
            forall|i: int|
                0 <= i < self.handles().len() ==> (#[trigger] self.node(self.handles()[i])).next
                    == (if i + 1 == self.handles().len() {
                    None
                } else {
                    Some(self.handles()[i + 1])
                }),
    {
    }

    /// Walks the chain from the front and from the back, checking that each
    /// entry's links name its neighbours and that both walks meet the stored
    /// count and end at the other end.
    pub fn check_links(&self) -> (r: bool)
        requires
            self.wf(),
        ensures
            r,
    {
        let ghost o = self.order@;
        let mut cur = self.front;
        let mut prev: Option<usize> = None;
        let mut steps: usize = 0;
        while steps < self.count
            invariant
                self.wf(),
                o == self.order@,
                0 <= steps <= self.count,
                cur == (if steps < o.len() {
                    Some(o[steps as int])
                } else {
                    None
                }),
                prev == (if steps == 0 {
                    None
                } else {
                    Some(o[steps - 1])
                }),
            decreases self.count - steps,
        {
            let h = match cur {
                Some(h) => h,
                None => {
                    return false;
                },
            };
            if h >= self.slots.len() {
                return false;
            }
            let n = self.slots[h];
            if !same_link(n.prev, prev) {
                return false;
            }
            prev = cur;
            cur = n.next;
            steps = steps + 1;
        }
        if cur.is_some() || !same_link(prev, self.back) {
            return false;
        }
        let mut cur = self.back;
        let mut next: Option<usize> = None;
        let mut steps: usize = 0;
        while steps < self.count
            invariant
                self.wf(),
                o == self.order@,
                0 <= steps <= self.count,
                cur == (if steps < o.len() {
                    Some(o[o.len() - 1 - steps])
                } else {
                    None
                }),
                next == (if steps == 0 {
                    None
                } else {
                    Some(o[o.len() - steps])
                }),
            decreases self.count - steps,
        {
            let h = match cur {
                Some(h) => h,
                None => {
                    return false;
                },
            };
            if h >= self.slots.len() {
                return false;
            }
            let n = self.slots[h];
            if !same_link(n.next, next) {
                return false;
            }
            next = cur;
            cur = n.prev;
            steps = steps + 1;
        }
        cur.is_none() && same_link(next, self.front)
    }
}

} // verus!
