use vstd::prelude::*;

use crate::index::KeyIndex;

verus! {

/// Arena slot of the head sentinel: its `next` is the most recently used entry.
pub const HEAD: usize = 0;

/// Arena slot of the tail sentinel: its `prev` is the least recently used entry.
pub const TAIL: usize = 1;

/// Abstract contents of a cache: (key, value) pairs from most to least recently used.
pub type Entries = Seq<(Seq<char>, Seq<char>)>;

/// Whether some entry of `m` has key `k`.
pub open spec fn has_key(m: Entries, k: Seq<char>) -> bool {
    exists|i: int| 0 <= i < m.len() && #[trigger] m[i].0 == k
}

/// No two entries of `m` share a key.
pub open spec fn keys_unique(m: Entries) -> bool {
    forall|i: int, j: int|
        0 <= i < m.len() && 0 <= j < m.len() && i != j ==> #[trigger] m[i].0 != #[trigger] m[j].0
}

/// `m` with its entry at `i` moved to the front, holding value `v`.
pub open spec fn touch(m: Entries, i: int, v: Seq<char>) -> Entries {
    seq![(m[i].0, v)] + m.remove(i)
}

/// Contents after a lookup of `k`: the entry found moves to the front.
pub open spec fn get_model(m: Entries, k: Seq<char>) -> Entries {
    if has_key(m, k) {
        let i = choose|i: int| 0 <= i < m.len() && #[trigger] m[i].0 == k;
        touch(m, i, m[i].1)
    } else {
        m
    }
}

/// Contents after storing `v` under `k` in a cache bounded by `cap`.
pub open spec fn set_model(m: Entries, cap: nat, k: Seq<char>, v: Seq<char>) -> Entries {
    if has_key(m, k) {
        let i = choose|i: int| 0 <= i < m.len() && #[trigger] m[i].0 == k;
        touch(m, i, v)
    } else if m.len() >= cap {
        seq![(k, v)] + m.drop_last()
    } else {
        seq![(k, v)] + m
    }
}

/// Value stored under `k` in `m`, which holds `k`.
pub open spec fn value_of(m: Entries, k: Seq<char>) -> Seq<char> {
    m[choose|i: int| 0 <= i < m.len() && #[trigger] m[i].0 == k].1
}

/// Where keys are unique, the entry that `choose` picks for a key is the one at its position.
proof fn lemma_pick_unique(m: Entries, k: Seq<char>, p: int)
    requires
        keys_unique(m),
        0 <= p < m.len(),
        m[p].0 == k,
    ensures
        has_key(m, k),
        (choose|i: int| 0 <= i < m.len() && #[trigger] m[i].0 == k) == p,
{
    assert(has_key(m, k));
    let i = choose|i: int| 0 <= i < m.len() && #[trigger] m[i].0 == k;
    if i != p {
        assert(m[i].0 != m[p].0);
    }
}

/// Error returned when a cache cannot be built.
#[derive(Debug, PartialEq, Eq, Structural)]
pub enum CacheError {
    /// The capacity given was zero.
    ZeroCapacity,
}

/// A least-recently-used cache from string keys to string values.
///
/// Entries live in an arena of parallel vectors; `prev` and `next` hold arena
/// slots, so the recency list owns nothing through its links. Slots `HEAD` and
/// `TAIL` are the sentinels, every other slot holds a live entry.
/// Every operation takes the cache by exclusive reference, so each call runs
/// to completion before any other can observe the structure.
pub struct LRUCache {
    keys: Vec<String>,
    values: Vec<String>,
    prev: Vec<usize>,
    next: Vec<usize>,
    index: KeyIndex,
    capacity: usize,
    /// Slots of the live entries, from most to least recently used.
    order: Ghost<Seq<usize>>,
}

/// Slot after position `i` of the recency order `o`.
spec fn succ(o: Seq<usize>, i: int) -> usize {
    if i + 1 < o.len() {
        o[i + 1]
    } else {
        TAIL
    }
}

/// Slot before position `i` of the recency order `o`.
spec fn pred(o: Seq<usize>, i: int) -> usize {
    if i > 0 {
        o[i - 1]
    } else {
        HEAD
    }
}

/// Slot that the head sentinel links to.
spec fn first(o: Seq<usize>) -> usize {
    if o.len() > 0 {
        o[0]
    } else {
        TAIL
    }
}

/// Slot that the tail sentinel links back to.
spec fn last(o: Seq<usize>) -> usize {
    if o.len() > 0 {
        o.last()
    } else {
        HEAD
    }
}

/// The links `prev` and `next` thread the slots of `o` in order, between the sentinels.
#[verifier::opaque]
spec fn linked(o: Seq<usize>, prev: Seq<usize>, next: Seq<usize>) -> bool {
    &&& next[HEAD as int] == first(o)
    &&& prev[TAIL as int] == last(o)
    &&& forall|i: int|
        0 <= i < o.len() ==> {
            &&& next[#[trigger] o[i] as int] == succ(o, i)
            &&& prev[o[i] as int] == pred(o, i)
        }
}

impl LRUCache {
    /// Contents, walked from the head sentinel to the tail sentinel.
    pub closed spec fn view(&self) -> Entries {
        self.order@.map_values(|s: usize| (self.keys@[s as int]@, self.values@[s as int]@))
    }

    /// The bound fixed at construction.
    pub closed spec fn cap(&self) -> nat {
        self.capacity as nat
    }

    /// The arena's vectors agree in length, and `order` lists distinct live slots.
    spec fn arena_ok(&self) -> bool {
        let o = self.order@;
        let len = self.keys@.len();
        &&& 2 <= len
        &&& self.values@.len() == len
        &&& self.prev@.len() == len
        &&& self.next@.len() == len
        &&& forall|i: int| 0 <= i < o.len() ==> 2 <= #[trigger] o[i] < len
        &&& forall|i: int, j: int|
            0 <= i < o.len() && 0 <= j < o.len() && i != j ==> #[trigger] o[i] != #[trigger] o[j]
    }

    /// The arena is sound and its links thread exactly the slots of `order`.
    spec fn links_ok(&self) -> bool {
        self.arena_ok() && linked(self.order@, self.prev@, self.next@)
    }

    /// Well-formedness: the list threads every live slot, the bound holds, keys are
    /// unique, and the index maps each key in the list to its slot and nothing else.
    pub closed spec fn wf(&self) -> bool {
        let n = self.order@.len();
        &&& self.links_ok()
        &&& self.keys@.len() == n + 2
        &&& 1 <= self.capacity
        &&& n <= self.capacity
        &&& self.index.wf()
        &&& keys_unique(self@)
        &&& forall|k: Seq<char>| #[trigger] self.index@.contains_key(k) <==> has_key(self@, k)
        &&& forall|i: int|
            0 <= i < n ==> #[trigger] self.index@[self.keys@[self.order@[i] as int]@] == self.order@[i]
    }

    /// Unlinks the entry at position `p` of the recency order.
    fn detach(&mut self, s: usize, p: Ghost<int>)
        requires
            old(self).links_ok(),
            0 <= p@ < old(self).order@.len(),
            old(self).order@[p@] == s,
        ensures
            final(self).links_ok(),
            final(self).order@ == old(self).order@.remove(p@),
            final(self).keys == old(self).keys,
            final(self).values == old(self).values,
            final(self).index == old(self).index,
            final(self).capacity == old(self).capacity,
    {
        reveal(linked);
        let ghost o = self.order@;
        let ghost q = p@;
        let a = self.prev[s];
        let b = self.next[s];
        assert(a == pred(o, q) && b == succ(o, q));
        assert(a != b) by {
            if q > 0 && q + 1 < o.len() {
                assert(o[q - 1] != o[q + 1]);
            }
        }
        self.next.set(a, b);
        self.prev.set(b, a);
        let ghost o2 = o.remove(q);
        self.order = Ghost(o2);
        assert forall|i: int| 0 <= i < o2.len() implies o2[i] == (if i < q { o[i] } else { o[i + 1] }) by {}
        assert forall|i: int| 0 <= i < o2.len() implies 2 <= #[trigger] o2[i] < self.keys@.len() by {
            if i >= q { assert(o2[i] == o[i + 1]); }
        }
        assert forall|i: int, j: int|
            0 <= i < o2.len() && 0 <= j < o2.len() && i != j implies #[trigger] o2[i] != #[trigger] o2[j] by {
            let oi = if i < q { i } else { i + 1 };
            let oj = if j < q { j } else { j + 1 };
            assert(o[oi] != o[oj]);
        }
        assert forall|i: int| 0 <= i < o2.len() implies {
            &&& self.next@[#[trigger] o2[i] as int] == succ(o2, i)
            &&& self.prev@[o2[i] as int] == pred(o2, i)
        } by {
            let oi = if i < q { i } else { i + 1 };
            assert(o2[i] == o[oi]);
            assert(oi != q);
            if q > 0 { assert(o[oi] == a <==> oi == q - 1); }
            if q + 1 < o.len() { assert(o[oi] == b <==> oi == q + 1); }
        }
    }

    /// Links slot `s`, which is not in the recency order, right after the head sentinel.
    fn insert_front(&mut self, s: usize)
        requires
            old(self).links_ok(),
            2 <= s < old(self).keys@.len(),
            !old(self).order@.contains(s),
        ensures
            final(self).links_ok(),
            final(self).order@ == seq![s] + old(self).order@,
            final(self).keys == old(self).keys,
            final(self).values == old(self).values,
            final(self).index == old(self).index,
            final(self).capacity == old(self).capacity,
    {
        reveal(linked);
        let ghost o = self.order@;
        let f = self.next[HEAD];
        self.next.set(s, f);
        self.prev.set(s, HEAD);
        self.prev.set(f, s);
        self.next.set(HEAD, s);
        self.order = Ghost(seq![s] + o);
        let ghost o2 = self.order@;
        assert forall|i: int, j: int|
            0 <= i < o2.len() && 0 <= j < o2.len() && i != j implies #[trigger] o2[i] != #[trigger] o2[j] by {
            if i == 0 {
                assert(o2[j] == o[j - 1]);
                assert(o.contains(o[j - 1]));
            } else if j == 0 {
                assert(o2[i] == o[i - 1]);
                assert(o.contains(o[i - 1]));
            } else {
                assert(o2[i] == o[i - 1]);
                assert(o2[j] == o[j - 1]);
            }
        }
        assert forall|i: int| 0 <= i < o2.len() implies {
            &&& self.next@[#[trigger] o2[i] as int] == succ(o2, i)
            &&& self.prev@[o2[i] as int] == pred(o2, i)
        } by {
            if i > 0 {
                assert(o2[i] == o[i - 1]);
                assert(o[i - 1] != s);
            }
        }
    }

    /// Builds an empty cache holding at most `capacity` entries.
    pub fn new(capacity: usize) -> (r: Result<Self, CacheError>)
        ensures
            match r {
                Ok(c) => capacity >= 1 && c.wf() && c@ == Seq::<(Seq<char>, Seq<char>)>::empty()
                    && c.cap() == capacity,
                Err(e) => capacity == 0 && e == CacheError::ZeroCapacity,
            },
    {
        if capacity == 0 {
            return Err(CacheError::ZeroCapacity);
        }
        let mut keys: Vec<String> = Vec::new();
        keys.push(String::new());
        keys.push(String::new());
        let mut values: Vec<String> = Vec::new();
        values.push(String::new());
        values.push(String::new());
        let mut prev: Vec<usize> = Vec::new();
        prev.push(HEAD);
        prev.push(HEAD);
        let mut next: Vec<usize> = Vec::new();
        next.push(TAIL);
        next.push(TAIL);
        let c = LRUCache {
            keys,
            values,
            prev,
            next,
            index: KeyIndex::new(),
            capacity,
            order: Ghost(Seq::empty()),
        };
        assert(c@ =~= Seq::<(Seq<char>, Seq<char>)>::empty());
        assert(c.links_ok()) by {
            reveal(linked);
        }
        Ok(c)
    }

    /// Number of entries held.
    pub fn len(&self) -> (r: usize)
        requires
            self.wf(),
        ensures
            r == self@.len(),
    {
        self.keys.len() - 2
    }

    /// The bound on the number of entries, fixed at construction.
    pub fn capacity(&self) -> (r: usize)
        ensures
            r == self.cap(),
    {
        self.capacity
    }

    /// Moves the entry at position `p` to the front; its slot keeps its key and value.
    fn bump(&mut self, s: usize, p: Ghost<int>)
        requires
            old(self).links_ok(),
            0 <= p@ < old(self).order@.len(),
            old(self).order@[p@] == s,
        ensures
            final(self).links_ok(),
            final(self).order@ == seq![s] + old(self).order@.remove(p@),
            final(self).keys == old(self).keys,
            final(self).values == old(self).values,
            final(self).index == old(self).index,
            final(self).capacity == old(self).capacity,
    {
        let ghost o = self.order@;
        self.detach(s, p);
        assert(!self.order@.contains(s)) by {
            if self.order@.contains(s) {
                let j = choose|j: int| 0 <= j < self.order@.len() && self.order@[j] == s;
                let oj = if j < p@ { j } else { j + 1 };
                assert(o[oj] == self.order@[j]);
            }
        }
        self.insert_front(s);
    }

    /// Facts that hold after the entry at position `p` moved to the front holding value `v`.
    proof fn lemma_touched(old_c: &Self, c: &Self, p: int)
        requires
            old_c.wf(),
            c.links_ok(),
            0 <= p < old_c.order@.len(),
            c.order@ == seq![old_c.order@[p]] + old_c.order@.remove(p),
            c.keys@ == old_c.keys@,
            c.values@ == old_c.values@.update(old_c.order@[p] as int, c.values@[old_c.order@[p] as int]),
            c.index == old_c.index,
            c.capacity == old_c.capacity,
        ensures
            c.wf(),
            c@ == touch(old_c@, p, c.values@[old_c.order@[p] as int]@),
    {
        let o = old_c.order@;
        let o2 = c.order@;
        let m = old_c@;
        let s = o[p];
        let t = touch(m, p, c.values@[s as int]@);
        assert forall|i: int| 0 <= i < o.len() && i != p implies o[i] != s by {}
        assert(c@ =~= t) by {
            assert forall|i: int| 0 <= i < o2.len() implies #[trigger] c@[i] == t[i] by {
                if i > 0 {
                    let oi = if i - 1 < p { i - 1 } else { i };
                    assert(o2[i] == o[oi]);
                }
            }
        }
        assert forall|i: int, j: int|
            0 <= i < t.len() && 0 <= j < t.len() && i != j implies #[trigger] t[i].0 != #[trigger] t[j].0 by {
            let oi = if i == 0 { p } else if i - 1 < p { i - 1 } else { i };
            let oj = if j == 0 { p } else if j - 1 < p { j - 1 } else { j };
            assert(t[i].0 == m[oi].0);
            assert(t[j].0 == m[oj].0);
        }
        assert forall|k: Seq<char>| has_key(m, k) <==> has_key(t, k) by {
            if has_key(m, k) {
                let i = choose|i: int| 0 <= i < m.len() && #[trigger] m[i].0 == k;
                let ti = if i == p { 0 } else if i < p { i + 1 } else { i };
                assert(t[ti].0 == k);
            }
            if has_key(t, k) {
                let i = choose|i: int| 0 <= i < t.len() && #[trigger] t[i].0 == k;
                let oi = if i == 0 { p } else if i - 1 < p { i - 1 } else { i };
                assert(m[oi].0 == k);
            }
        }
        assert forall|i: int| 0 <= i < o2.len() implies #[trigger] c.index@[c.keys@[o2[i] as int]@] == o2[i] by {
            let oi = if i == 0 { p } else if i - 1 < p { i - 1 } else { i };
            assert(o2[i] == o[oi]);
        }
    }

    /// Looks `key` up; on a hit the entry becomes the most recently used.
    pub fn get(&mut self, key: &str) -> (r: Option<String>)
        requires
            old(self).wf(),
        ensures
            final(self).wf(),
            final(self).cap() == old(self).cap(),
            final(self)@ == get_model(old(self)@, key@),
            final(self)@.len() == old(self)@.len(),
            match r {
                Some(v) => has_key(old(self)@, key@) && v@ == value_of(old(self)@, key@),
                None => !has_key(old(self)@, key@),
            },
    {
        let k = key.to_owned();
        match self.index.lookup(&k) {
            None => None,
            Some(s) => {
                let ghost m = self@;
                let ghost p = choose|i: int| 0 <= i < m.len() && #[trigger] m[i].0 == k@;
                proof {
                    lemma_pick_unique(m, k@, p);
                }
                let ghost old_c = *self;
                self.bump(s, Ghost(p));
                proof {
                    assert(self.values@ =~= old_c.values@.update(s as int, self.values@[s as int]));
                    Self::lemma_touched(&old_c, self, p);
                }
                Some(self.values[s].clone())
            },
        }
    }

    /// Facts that hold after a new key `k` took slot `s` at the front, with the first
    /// `keep` entries kept behind it.
    proof fn lemma_fresh(old_c: &Self, c: &Self, s: usize, keep: int, k: Seq<char>, v: Seq<char>)
        requires
            old_c.wf(),
            c.links_ok(),
            c.index.wf(),
            keep == old_c@.len() || (old_c@.len() >= 1 && keep == old_c@.len() - 1),
            keep + 1 <= old_c.capacity,
            c.keys@.len() == keep + 3,
            c.order@ == seq![s] + old_c.order@.take(keep),
            forall|i: int| 0 <= i < keep ==> {
                &&& c.keys@[#[trigger] old_c.order@[i] as int] == old_c.keys@[old_c.order@[i] as int]
                &&& c.values@[old_c.order@[i] as int] == old_c.values@[old_c.order@[i] as int]
            },
            c.keys@[s as int]@ == k,
            c.values@[s as int]@ == v,
            !has_key(old_c@, k),
            c.index@ == (if keep == old_c@.len() {
                old_c.index@
            } else {
                old_c.index@.remove(old_c@.last().0)
            }).insert(k, s),
            c.capacity == old_c.capacity,
        ensures
            c.wf(),
            c@ == seq![(k, v)] + old_c@.take(keep),
    {
        let m = old_c@;
        let o = old_c.order@;
        let o2 = c.order@;
        let t = seq![(k, v)] + m.take(keep);
        assert(c@ =~= t) by {
            assert forall|i: int| 0 <= i < o2.len() implies #[trigger] c@[i] == t[i] by {
                if i > 0 {
                    assert(o2[i] == o[i - 1]);
                }
            }
        }
        assert forall|i: int, j: int|
            0 <= i < t.len() && 0 <= j < t.len() && i != j implies #[trigger] t[i].0 != #[trigger] t[j].0 by {
            if i == 0 {
                assert(t[j].0 == m[j - 1].0);
            } else if j == 0 {
                assert(t[i].0 == m[i - 1].0);
            } else {
                assert(t[i].0 == m[i - 1].0);
                assert(t[j].0 == m[j - 1].0);
            }
        }
        assert forall|k2: Seq<char>| #[trigger] c.index@.contains_key(k2) <==> has_key(t, k2) by {
            if k2 == k {
                assert(t[0].0 == k);
            } else {
                if has_key(t, k2) {
                    let i = choose|i: int| 0 <= i < t.len() && #[trigger] t[i].0 == k2;
                    assert(m[i - 1].0 == k2);
                    if keep < m.len() {
                        assert(m[i - 1].0 != m[m.len() - 1].0);
                    }
                }
                if c.index@.contains_key(k2) {
                    assert(has_key(m, k2));
                    let i = choose|i: int| 0 <= i < m.len() && #[trigger] m[i].0 == k2;
                    assert(t[i + 1].0 == k2);
                }
            }
        }
        assert forall|i: int| 0 <= i < o2.len() implies #[trigger] c.index@[c.keys@[o2[i] as int]@] == o2[i] by {
            if i > 0 {
                assert(o2[i] == o[i - 1]);
                assert(c.keys@[o2[i] as int]@ == m[i - 1].0);
                if keep < m.len() {
                    assert(m[i - 1].0 != m[m.len() - 1].0);
                }
            }
        }
    }

    /// Stores `value` under `key` as the most recently used entry; when `key` is new
    /// and the cache is full, the least recently used entry is evicted first.
    pub fn set(&mut self, key: String, value: String)
        requires
            old(self).wf(),
        ensures
            final(self).wf(),
            final(self).cap() == old(self).cap(),
            final(self)@ == set_model(old(self)@, old(self).cap(), key@, value@),
            final(self)@.len() <= final(self).cap(),
            keys_unique(final(self)@),
    {
        let ghost m = self@;
        let ghost old_c = *self;
        let ghost o = self.order@;
        match self.index.lookup(&key) {
            Some(s) => {
                let ghost p = choose|i: int| 0 <= i < m.len() && #[trigger] m[i].0 == key@;
                proof {
                    lemma_pick_unique(m, key@, p);
                }
                self.values.set(s, value);
                self.bump(s, Ghost(p));
                proof {
                    Self::lemma_touched(&old_c, self, p);
                }
            },
            None => {
                let n = self.keys.len() - 2;
                if n == self.capacity {
                    proof {
                        reveal(linked);
                    }
                    let s = self.prev[TAIL];
                    self.detach(s, Ghost(n - 1));
                    let ghost gone = m.last().0;
                    assert(self.keys@[s as int]@ == gone);
                    self.index.remove(&self.keys[s]);
                    self.keys.set(s, key.clone());
                    self.values.set(s, value);
                    assert(!self.order@.contains(s)) by {
                        if self.order@.contains(s) {
                            let j = choose|j: int| 0 <= j < self.order@.len() && self.order@[j] == s;
                            assert(o[j] != o[n - 1]);
                        }
                    }
                    self.insert_front(s);
                    self.index.insert(key, s);
                    proof {
                        assert(self.order@ =~= seq![s] + o.take(n - 1));
                        assert forall|i: int| 0 <= i < n - 1 implies {
                            &&& self.keys@[#[trigger] o[i] as int] == old_c.keys@[o[i] as int]
                            &&& self.values@[o[i] as int] == old_c.values@[o[i] as int]
                        } by {
                            assert(o[i] != o[n - 1]);
                        }
                        Self::lemma_fresh(&old_c, self, s, n - 1, key@, value@);
                        assert(m.drop_last() =~= m.take(n - 1));
                    }
                } else {
                    let s = self.keys.len();
                    proof {
                        reveal(linked);
                    }
                    self.keys.push(key.clone());
                    self.values.push(value);
                    self.prev.push(HEAD);
                    self.next.push(TAIL);
                    self.insert_front(s);
                    self.index.insert(key, s);
                    proof {
                        assert(self.order@ =~= seq![s] + o.take(n as int));
                        Self::lemma_fresh(&old_c, self, s, n as int, key@, value@);
                        assert(m =~= m.take(n as int));
                    }
                }
            },
        }
    }
}

} // verus!
