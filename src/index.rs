use std::collections::HashMap;

use vstd::prelude::*;
use vstd::std_specs::iter::IteratorSpec;

verus! {

/// Starting value of the key hash (64-bit FNV-1a offset basis).
pub const HASH_SEED: u64 = 0xcbf29ce484222325;

/// Multiplier of the key hash (64-bit FNV-1a prime).
pub const HASH_FACTOR: u64 = 0x100000001b3;

/// One step of the key hash: mix in the code point of `c`.
pub open spec fn hash_step(h: u64, c: char) -> u64 {
    (((h ^ (c as u32 as u64)) as nat * HASH_FACTOR as nat) % 0x10000000000000000nat) as u64
}

/// FNV-1a hash of a key, taken over its characters' code points.
pub open spec fn key_hash(s: Seq<char>) -> u64
    decreases s.len(),
{
    if s.len() == 0 {
        HASH_SEED
    } else {
        hash_step(key_hash(s.drop_last()), s.last())
    }
}

/// Hash of `key`, in one pass over its characters.
pub fn hash_key(key: &String) -> (r: u64)
    ensures
        r == key_hash(key@),
{
    let text = key.as_str();
    let mut it = text.chars();
    let mut h: u64 = HASH_SEED;
    let ghost mut i: int = 0;
    assert(key@.take(0) =~= Seq::<char>::empty());
    loop
        invariant
            0 <= i <= key@.len(),
            it.remaining() == key@.skip(i),
            h == key_hash(key@.take(i)),
            it.decrease() is Some,
        ensures
            h == key_hash(key@),
        decreases it.decrease()->0,
    {
        match it.next() {
            Some(c) => {
                proof {
                    assert(key@.take(i + 1).drop_last() =~= key@.take(i));
                    assert(key@[i] == c);
                    i = i + 1;
                    assert(key@.skip(i) =~= key@.skip(i - 1).drop_first());
                }
                h = (h ^ (c as u32 as u64)).wrapping_mul(HASH_FACTOR);
            },
            None => {
                assert(key@.take(i) =~= key@);
                break;
            },
        }
    }
    h
}

/// Association from a key to the arena slot of the entry that holds it.
///
/// Pairs are kept in buckets keyed by the hash of their key. The abstract value
/// is a finite map from key text to slot number.
pub struct KeyIndex {
    buckets: HashMap<u64, Vec<(String, usize)>>,
    map: Ghost<Map<Seq<char>, usize>>,
}

impl KeyIndex {
    pub closed spec fn view(&self) -> Map<Seq<char>, usize> {
        self.map@
    }

    /// Each pair sits in the bucket of its key's hash and agrees with the map; each
    /// key of the map has a pair; a bucket holds a key at most once.
    pub closed spec fn wf(&self) -> bool {
        let b = self.buckets@;
        &&& forall|h: u64, i: int|
            #[trigger] b.contains_key(h) && 0 <= i < b[h]@.len() ==> {
                &&& key_hash((#[trigger] b[h]@[i]).0@) == h
                &&& self.map@.contains_key(b[h]@[i].0@)
                &&& self.map@[b[h]@[i].0@] == b[h]@[i].1
            }
        &&& forall|k: Seq<char>|
            #[trigger] self.map@.contains_key(k) ==> {
                &&& b.contains_key(key_hash(k))
                &&& exists|i: int|
                    0 <= i < b[key_hash(k)]@.len() && #[trigger] b[key_hash(k)]@[i].0@ == k
            }
        &&& forall|h: u64, i: int, j: int|
            b.contains_key(h) && 0 <= i < b[h]@.len() && 0 <= j < b[h]@.len() && i != j
                ==> #[trigger] b[h]@[i].0@ != #[trigger] b[h]@[j].0@
    }

    pub fn new() -> (r: Self)
        ensures
            r.wf(),
            r@ == Map::<Seq<char>, usize>::empty(),
    {
        KeyIndex { buckets: HashMap::new(), map: Ghost(Map::empty()) }
    }

    /// Position in `bucket` of the pair holding `key`, if any.
    fn position(bucket: &Vec<(String, usize)>, key: &String) -> (r: Option<usize>)
        ensures
            match r {
                Some(i) => i < bucket@.len() && bucket@[i as int].0@ == key@,
                None => forall|j: int| 0 <= j < bucket@.len() ==> bucket@[j].0@ != key@,
            },
    {
        let mut i: usize = 0;
        while i < bucket.len()
            invariant
                i <= bucket@.len(),
                forall|j: int| 0 <= j < i ==> bucket@[j].0@ != key@,
            decreases bucket@.len() - i,
        {
            if bucket[i].0 == *key {
                return Some(i);
            }
            i = i + 1;
        }
        None
    }

    /// The slot recorded for `key`, if the key is present.
    pub fn lookup(&self, key: &String) -> (r: Option<usize>)
        requires
            self.wf(),
        ensures
            r == (if self@.contains_key(key@) {
                Some(self@[key@])
            } else {
                None::<usize>
            }),
    {
        let h = hash_key(key);
        match self.buckets.get(&h) {
            None => None,
            Some(bucket) => match Self::position(bucket, key) {
                Some(i) => Some(bucket[i].1),
                None => {
                    proof {
                        if self@.contains_key(key@) {
                            let j = choose|j: int|
                                0 <= j < self.buckets@[h]@.len() && #[trigger] self.buckets@[h]@[j].0@ == key@;
                            assert(bucket@[j].0@ == key@);
                        }
                    }
                    None
                },
            },
        }
    }

    /// Records `slot` for a key that is not yet present.
    pub fn insert(&mut self, key: String, slot: usize)
        requires
            old(self).wf(),
            !old(self)@.contains_key(key@),
        ensures
            final(self).wf(),
            final(self)@ == old(self)@.insert(key@, slot),
    {
        let ghost k = key@;
        let ghost old_b = self.buckets@;
        let h = hash_key(&key);
        let mut bucket = match self.buckets.remove(&h) {
            Some(v) => v,
            None => Vec::new(),
        };
        let ghost ob = bucket@;
        bucket.push((key, slot));
        self.buckets.insert(h, bucket);
        self.map = Ghost(self.map@.insert(k, slot));
        let ghost b = self.buckets@;
        assert forall|h2: u64, i: int|
            #[trigger] b.contains_key(h2) && 0 <= i < b[h2]@.len() implies {
                &&& key_hash((#[trigger] b[h2]@[i]).0@) == h2
                &&& self.map@.contains_key(b[h2]@[i].0@)
                &&& self.map@[b[h2]@[i].0@] == b[h2]@[i].1
            } by {
            if h2 == h && i < ob.len() {
                assert(b[h2]@[i] == old_b[h2]@[i]);
            }
        }
        assert forall|k2: Seq<char>| #[trigger] self.map@.contains_key(k2) implies {
            &&& b.contains_key(key_hash(k2))
            &&& exists|i: int| 0 <= i < b[key_hash(k2)]@.len() && #[trigger] b[key_hash(k2)]@[i].0@ == k2
        } by {
            if k2 == k {
                assert(b[h]@[ob.len() as int].0@ == k2);
            } else {
                let i = choose|i: int|
                    0 <= i < old_b[key_hash(k2)]@.len() && #[trigger] old_b[key_hash(k2)]@[i].0@ == k2;
                assert(b[key_hash(k2)]@[i].0@ == k2);
            }
        }
        assert forall|h2: u64, i: int, j: int|
            b.contains_key(h2) && 0 <= i < b[h2]@.len() && 0 <= j < b[h2]@.len() && i != j
                implies #[trigger] b[h2]@[i].0@ != #[trigger] b[h2]@[j].0@ by {
            if h2 == h {
                if i < ob.len() && j < ob.len() {
                    assert(b[h2]@[i] == old_b[h2]@[i]);
                    assert(b[h2]@[j] == old_b[h2]@[j]);
                } else if i < ob.len() {
                    assert(b[h2]@[i] == old_b[h2]@[i]);
                } else if j < ob.len() {
                    assert(b[h2]@[j] == old_b[h2]@[j]);
                }
            }
        }
    }

    /// Forgets `key`, which must be present.
    pub fn remove(&mut self, key: &String)
        requires
            old(self).wf(),
            old(self)@.contains_key(key@),
        ensures
            final(self).wf(),
            final(self)@ == old(self)@.remove(key@),
    {
        let ghost old_b = self.buckets@;
        let h = hash_key(key);
        let mut bucket = match self.buckets.remove(&h) {
            Some(v) => v,
            None => Vec::new(),
        };
        let ghost ob = bucket@;
        let ghost last = ob.len() - 1;
        let i = match Self::position(&bucket, key) {
            Some(i) => i,
            None => {
                proof {
                    let j = choose|j: int| 0 <= j < ob.len() && #[trigger] ob[j].0@ == key@;
                    assert(ob[j].0@ == key@);
                }
                0
            },
        };
        let _ = bucket.swap_remove(i);
        self.buckets.insert(h, bucket);
        self.map = Ghost(self.map@.remove(key@));
        let ghost b = self.buckets@;
        assert forall|a: int| 0 <= a < b[h]@.len() implies #[trigger] b[h]@[a] == ob[if a == i { last } else { a }] by {}
        assert forall|h2: u64, a: int|
            #[trigger] b.contains_key(h2) && 0 <= a < b[h2]@.len() implies {
                &&& key_hash((#[trigger] b[h2]@[a]).0@) == h2
                &&& self.map@.contains_key(b[h2]@[a].0@)
                &&& self.map@[b[h2]@[a].0@] == b[h2]@[a].1
            } by {
            if h2 == h {
                let oa = if a == i { last } else { a };
                assert(b[h2]@[a] == ob[oa]);
                assert(ob[oa].0@ != ob[i as int].0@);
            }
        }
        assert forall|k2: Seq<char>| #[trigger] self.map@.contains_key(k2) implies {
            &&& b.contains_key(key_hash(k2))
            &&& exists|a: int| 0 <= a < b[key_hash(k2)]@.len() && #[trigger] b[key_hash(k2)]@[a].0@ == k2
        } by {
            let j = choose|j: int|
                0 <= j < old_b[key_hash(k2)]@.len() && #[trigger] old_b[key_hash(k2)]@[j].0@ == k2;
            if key_hash(k2) == h {
                if j == last {
                    assert(b[h]@[i as int].0@ == k2);
                } else {
                    assert(j != i);
                    assert(b[h]@[j].0@ == k2);
                }
            } else {
                assert(b[key_hash(k2)]@[j].0@ == k2);
            }
        }
        assert forall|h2: u64, a: int, c: int|
            b.contains_key(h2) && 0 <= a < b[h2]@.len() && 0 <= c < b[h2]@.len() && a != c
                implies #[trigger] b[h2]@[a].0@ != #[trigger] b[h2]@[c].0@ by {
            if h2 == h {
                let oa = if a == i { last } else { a };
                let oc = if c == i { last } else { c };
                assert(ob[oa].0@ != ob[oc].0@);
            }
        }
    }
}

} // verus!
