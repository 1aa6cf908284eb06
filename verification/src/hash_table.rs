//! Generic chained hash table keyed through the streaming 64-bit hash.
use crate::xxhash::{spec_xxh64, XxHash64};
use vstd::pervasive::VecAdditionalExecFns;
use vstd::prelude::*;

verus! {

broadcast use vstd::set::group_set_axioms, vstd::map::group_map_axioms;

/// A key usable by [`HashTable`]: it can be hashed to a 64-bit code that is
/// a function of its mathematical view alone, and compared for equality of
/// views.
pub trait TableKey: View + Sized {
    /// The hash code of a key with view `v`.
    spec fn hash_of(v: Self::V) -> u64;

    /// Computes the hash code of this key.
    fn hash_code(&self) -> (h: u64)
        ensures
            h == Self::hash_of(self@),
    ;

    /// Decides equality of two keys by their views.
    fn key_eq(&self, other: &Self) -> (b: bool)
        ensures
            b == (self@ == other@),
    ;
}

impl TableKey for String {
    open spec fn hash_of(v: Seq<char>) -> u64 {
        spec_xxh64(vstd::utf8::encode_utf8(v), 0)
    }

    fn hash_code(&self) -> (h: u64) {
        XxHash64::oneshot(self.as_str().as_bytes(), 0)
    }

    fn key_eq(&self, other: &Self) -> (b: bool) {
        (*self).eq(other)
    }
}

/// The little-endian byte rendering of a 32-bit word.
pub open spec fn spec_le4(x: u32) -> Seq<u8> {
    seq![
        (x % 0x100) as u8,
        ((x / 0x100) % 0x100) as u8,
        ((x / 0x1_0000) % 0x100) as u8,
        ((x / 0x100_0000) % 0x100) as u8,
    ]
}

/// The 32-bit two's-complement bit pattern of a signed word.
pub open spec fn spec_i32_bits(v: i32) -> u32 {
    if v >= 0 {
        v as u32
    } else {
        (v + 0x1_0000_0000) as u32
    }
}

impl TableKey for i32 {
    open spec fn hash_of(v: i32) -> u64 {
        spec_xxh64(spec_le4(spec_i32_bits(v)), 0)
    }

    fn hash_code(&self) -> (h: u64) {
        let bits: u32 = if *self >= 0 {
            *self as u32
        } else {
            ((*self as i64) + 0x1_0000_0000i64) as u32
        };
        let mut bytes: Vec<u8> = Vec::new();
        bytes.push((bits % 0x100) as u8);
        bytes.push(((bits / 0x100) % 0x100) as u8);
        bytes.push(((bits / 0x1_0000) % 0x100) as u8);
        bytes.push(((bits / 0x100_0000) % 0x100) as u8);
        proof {
            assert(bytes@ =~= spec_le4(spec_i32_bits(*self)));
        }
        XxHash64::oneshot(bytes.as_slice(), 0)
    }

    fn key_eq(&self, other: &Self) -> (b: bool) {
        *self == *other
    }
}

/// Number of bucket chains that `new` allocates.
pub const INITIAL_CAPACITY: usize = 16;

/// Generic mapping with chained buckets: an entry for key `k` lives in the
/// chain at index `hash_of(k) % capacity`, keys are unique across the table,
/// and the chain is scanned linearly.  The view of a table is the
/// mathematical map from key views to values.
pub struct HashTable<K: TableKey, V> {
    buckets: Vec<Vec<(K, V)>>,
    size: usize,
    capacity: usize,
    contents: Ghost<Map<<K as View>::V, V>>,
}

/// Every entry of `bs` is a pair of `m` stored in the chain its key hashes
/// to modulo `cap`.
pub open spec fn entries_ok<K: TableKey, V>(
    bs: Seq<Vec<(K, V)>>,
    m: Map<<K as View>::V, V>,
    cap: int,
) -> bool {
    forall|i: int, j: int|
        #![trigger bs[i]@[j]]
        0 <= i < bs.len() && 0 <= j < bs[i]@.len() ==> m.contains_pair(bs[i]@[j].0@, bs[i]@[j].1)
            && K::hash_of(bs[i]@[j].0@) as int % cap == i
}

/// No two entries of `bs` carry the same key.
pub open spec fn no_dup_keys<K: TableKey, V>(bs: Seq<Vec<(K, V)>>) -> bool {
    forall|i: int, j1: int, j2: int|
        #![trigger bs[i]@[j1], bs[i]@[j2]]
        0 <= i < bs.len() && 0 <= j1 < bs[i]@.len() && 0 <= j2 < bs[i]@.len() && j1 != j2
            ==> bs[i]@[j1].0@ != bs[i]@[j2].0@
}

/// Every pair of `m` is stored somewhere in the chain its key hashes to.
pub open spec fn covers<K: TableKey, V>(
    bs: Seq<Vec<(K, V)>>,
    m: Map<<K as View>::V, V>,
    cap: int,
) -> bool {
    forall|k: <K as View>::V|
        #![trigger m.dom().contains(k)]
        m.dom().contains(k) ==> exists|j: int|
            #![trigger bs[K::hash_of(k) as int % cap]@[j]]
            0 <= j < bs[K::hash_of(k) as int % cap]@.len() && bs[K::hash_of(k) as int % cap]@[j].0@
                == k && bs[K::hash_of(k) as int % cap]@[j].1 == m[k]
}

impl<K: TableKey, V> HashTable<K, V> {
    /// The chains, the size counter and the ghost map agree: the table
    /// stores exactly the pairs of its view, each in the right chain.
    pub closed spec fn wf(&self) -> bool {
        &&& self.capacity == self.buckets@.len()
        &&& self.capacity >= 1
        &&& self.contents@.dom().finite()
        &&& self.size == self.contents@.len()
        &&& entries_ok(self.buckets@, self.contents@, self.capacity as int)
        &&& no_dup_keys(self.buckets@)
        &&& covers(self.buckets@, self.contents@, self.capacity as int)
    }

    /// Allocates `capacity` empty chains.
    pub fn with_capacity(capacity: usize) -> (t: Self)
        requires
            capacity >= 1,
        ensures
            t.wf(),
            t@ == Map::<<K as View>::V, V>::empty(),
    {
        let mut buckets: Vec<Vec<(K, V)>> = Vec::new();
        let mut i: usize = 0;
        while i < capacity
            invariant
                i <= capacity,
                buckets@.len() == i,
                forall|t: int| 0 <= t < i ==> #[trigger] buckets@[t]@.len() == 0,
            decreases capacity - i,
        {
            buckets.push(Vec::new());
            i += 1;
        }
        let t = Self { buckets, size: 0, capacity, contents: Ghost(Map::empty()) };
        proof {
            assert(t.contents@.dom() =~= Set::empty());
        }
        t
    }

    /// Allocates the default number of chains.
    pub fn new() -> (t: Self)
        ensures
            t.wf(),
            t@ == Map::<<K as View>::V, V>::empty(),
    {
        Self::with_capacity(INITIAL_CAPACITY)
    }

    /// The chain index for a key.
    fn hash(&self, key: &K) -> (idx: usize)
        requires
            self.capacity >= 1,
        ensures
            idx as int == K::hash_of(key@) as int % self.capacity as int,
            idx < self.capacity,
    {
        let h = key.hash_code();
        (h % (self.capacity as u64)) as usize
    }

    /// Looks the key up in its chain.
    pub fn get(&self, key: &K) -> (r: Option<&V>)
        requires
            self.wf(),
        ensures
            match r {
                Some(v) => self@.contains_key(key@) && *v == self@[key@],
                None => !self@.contains_key(key@),
            },
    {
        let idx = self.hash(key);
        let bucket: &Vec<(K, V)> = &self.buckets[idx];
        let blen: usize = bucket.len();
        let mut j: usize = 0;
        while j < blen
            invariant
                j <= blen,
                blen == bucket@.len(),
                bucket == self.buckets@[idx as int],
                idx as int == K::hash_of(key@) as int % self.capacity as int,
                idx < self.capacity,
                self.wf(),
                forall|t: int| 0 <= t < j ==> #[trigger] bucket@[t].0@ != key@,
            decreases blen - j,
        {
            if bucket[j].0.key_eq(key) {
                proof {
                    let e = bucket@[j as int];
                    assert(self.contents@.contains_pair(e.0@, e.1));
                }
                return Some(&bucket[j].1);
            }
            j += 1;
        }
        proof {
            if self@.contains_key(key@) {
                let jw = choose|jj: int|
                    0 <= jj < self.buckets@[idx as int]@.len() && self.buckets@[idx as int]@[jj].0@
                        == key@ && self.buckets@[idx as int]@[jj].1 == self.contents@[key@];
                assert(bucket@[jw].0@ == key@);
            }
        }
        None
    }

    /// Whether the key is present.
    pub fn contains_key(&self, key: &K) -> (r: bool)
        requires
            self.wf(),
        ensures
            r == self@.contains_key(key@),
    {
        self.get(key).is_some()
    }

    /// Number of stored entries.
    pub fn len(&self) -> (r: usize)
        requires
            self.wf(),
        ensures
            r == self@.len(),
    {
        self.size
    }

    /// Whether the table stores no entry.
    pub fn is_empty(&self) -> (r: bool)
        requires
            self.wf(),
        ensures
            r == (self@.len() == 0),
    {
        self.size == 0
    }

    /// Redistributes every entry into twice as many chains.
    fn resize(&mut self)
        requires
            old(self).wf(),
            old(self).capacity <= usize::MAX / 2,
        ensures
            final(self).wf(),
            final(self)@ == old(self)@,
            final(self).capacity == 2 * old(self).capacity,
    {
        let oldcap: usize = self.capacity;
        let newcap: usize = oldcap * 2;
        let ghost m: Map<<K as View>::V, V> = self.contents@;
        let mut nb: Vec<Vec<(K, V)>> = Vec::new();
        let mut t: usize = 0;
        while t < newcap
            invariant
                t <= newcap,
                nb@.len() == t,
                forall|q: int| 0 <= q < t ==> #[trigger] nb@[q]@.len() == 0,
            decreases newcap - t,
        {
            nb.push(Vec::new());
            t += 1;
        }
        let mut i: usize = 0;
        while i < oldcap
            invariant
                i <= oldcap,
                oldcap == self.capacity,
                newcap == 2 * oldcap,
                self.capacity == self.buckets@.len(),
                self.capacity >= 1,
                self.contents@ == m,
                self.size == old(self).size,
                nb@.len() == newcap,
                entries_ok(self.buckets@, m, oldcap as int),
                no_dup_keys(self.buckets@),
                entries_ok(nb@, m, newcap as int),
                no_dup_keys(nb@),
                // chains already drained are empty
                forall|q: int| 0 <= q < i ==> #[trigger] self.buckets@[q]@.len() == 0,
                // every pair of the map is either in the new chains or still
                // in an old chain
                forall|k: <K as View>::V|
                    #![trigger m.dom().contains(k)]
                    m.dom().contains(k) ==> (exists|j: int|
                        #![trigger nb@[K::hash_of(k) as int % newcap as int]@[j]]
                        0 <= j < nb@[K::hash_of(k) as int % newcap as int]@.len() && nb@[K::hash_of(
                            k,
                        ) as int % newcap as int]@[j].0@ == k && nb@[K::hash_of(k) as int
                            % newcap as int]@[j].1 == m[k]) || (exists|j: int|
                        #![trigger self.buckets@[K::hash_of(k) as int % oldcap as int]@[j]]
                        0 <= j < self.buckets@[K::hash_of(k) as int % oldcap as int]@.len()
                            && self.buckets@[K::hash_of(k) as int % oldcap as int]@[j].0@ == k
                            && self.buckets@[K::hash_of(k) as int % oldcap as int]@[j].1 == m[k]),
                // a key never sits in both places at once
                forall|ii: int, j: int, qq: int, jj: int|
                    #![trigger self.buckets@[ii]@[j], nb@[qq]@[jj]]
                    0 <= ii < self.buckets@.len() && 0 <= j < self.buckets@[ii]@.len() && 0 <= qq
                        < nb@.len() && 0 <= jj < nb@[qq]@.len() ==> self.buckets@[ii]@[j].0@
                        != nb@[qq]@[jj].0@,
            decreases oldcap - i,
        {
            let mut blen: usize = self.buckets[i].len();
            while blen > 0
                invariant
                    i < oldcap,
                    oldcap == self.capacity,
                    newcap == 2 * oldcap,
                    self.capacity == self.buckets@.len(),
                    self.capacity >= 1,
                    self.contents@ == m,
                    self.size == old(self).size,
                    nb@.len() == newcap,
                    blen == self.buckets@[i as int]@.len(),
                    entries_ok(self.buckets@, m, oldcap as int),
                    no_dup_keys(self.buckets@),
                    entries_ok(nb@, m, newcap as int),
                    no_dup_keys(nb@),
                    forall|q: int| 0 <= q < i ==> #[trigger] self.buckets@[q]@.len() == 0,
                    forall|k: <K as View>::V|
                        #![trigger m.dom().contains(k)]
                        m.dom().contains(k) ==> (exists|j: int|
                            #![trigger nb@[K::hash_of(k) as int % newcap as int]@[j]]
                            0 <= j < nb@[K::hash_of(k) as int % newcap as int]@.len() && nb@[
                                K::hash_of(k) as int % newcap as int
                            ]@[j].0@ == k && nb@[K::hash_of(k) as int % newcap as int]@[j].1
                                == m[k]) || (exists|j: int|
                            #![trigger self.buckets@[K::hash_of(k) as int % oldcap as int]@[j]]
                            0 <= j < self.buckets@[K::hash_of(k) as int % oldcap as int]@.len()
                                && self.buckets@[K::hash_of(k) as int % oldcap as int]@[j].0@ == k
                                && self.buckets@[K::hash_of(k) as int % oldcap as int]@[j].1
                                == m[k]),
                    forall|ii: int, j: int, qq: int, jj: int|
                        #![trigger self.buckets@[ii]@[j], nb@[qq]@[jj]]
                        0 <= ii < self.buckets@.len() && 0 <= j < self.buckets@[ii]@.len() && 0
                            <= qq < nb@.len() && 0 <= jj < nb@[qq]@.len()
                            ==> self.buckets@[ii]@[j].0@ != nb@[qq]@[jj].0@,
                decreases blen,
            {
                let ghost prev_bs: Seq<Vec<(K, V)>> = self.buckets@;
                let ghost prev_bucket: Seq<(K, V)> = self.buckets@[i as int]@;
                let e_opt = self.buckets[i].pop();
                let e = e_opt.unwrap();
                let h = e.0.hash_code();
                let idx: usize = (h % (newcap as u64)) as usize;
                proof {
                    assert(m.contains_pair(e.0@, e.1));
                    assert(K::hash_of(e.0@) as int % oldcap as int == i as int);
                }
                let ghost prev_nb: Seq<Vec<(K, V)>> = nb@;
                nb[idx].push(e);
                blen = blen - 1;
                proof {
                    let ghost k0 = prev_bucket[prev_bucket.len() - 1].0@;
                    assert forall|k: <K as View>::V|
                        m.dom().contains(k) implies (exists|j: int|
                        #![trigger nb@[K::hash_of(k) as int % newcap as int]@[j]]
                        0 <= j < nb@[K::hash_of(k) as int % newcap as int]@.len() && nb@[K::hash_of(
                            k,
                        ) as int % newcap as int]@[j].0@ == k && nb@[K::hash_of(k) as int
                            % newcap as int]@[j].1 == m[k]) || (exists|j: int|
                        #![trigger self.buckets@[K::hash_of(k) as int % oldcap as int]@[j]]
                        0 <= j < self.buckets@[K::hash_of(k) as int % oldcap as int]@.len()
                            && self.buckets@[K::hash_of(k) as int % oldcap as int]@[j].0@ == k
                            && self.buckets@[K::hash_of(k) as int % oldcap as int]@[j].1 == m[
                        k]) by {
                        let cn = K::hash_of(k) as int % newcap as int;
                        let co = K::hash_of(k) as int % oldcap as int;
                        if k == k0 {
                            let jn = prev_nb[idx as int]@.len() as int;
                            assert(cn == idx as int);
                            assert(nb@[cn]@[jn].0@ == k && nb@[cn]@[jn].1 == m[k]);
                        } else {
                            assert(m.dom().contains(k));
                            if exists|j: int|
                                #![trigger prev_nb[cn]@[j]]
                                0 <= j < prev_nb[cn]@.len() && prev_nb[cn]@[j].0@ == k
                                    && prev_nb[cn]@[j].1 == m[k] {
                                let jj = choose|j: int|
                                    #![trigger prev_nb[cn]@[j]]
                                    0 <= j < prev_nb[cn]@.len() && prev_nb[cn]@[j].0@ == k
                                        && prev_nb[cn]@[j].1 == m[k];
                                assert(nb@[cn]@[jj] == prev_nb[cn]@[jj]);
                                assert(nb@[cn]@[jj].0@ == k && nb@[cn]@[jj].1 == m[k]);
                            } else {
                                let jj = choose|j: int|
                                    #![trigger prev_bs[co]@[j]]
                                    0 <= j < prev_bs[co]@.len() && prev_bs[co]@[j].0@ == k
                                        && prev_bs[co]@[j].1 == m[k];
                                assert(prev_bs[co]@[jj].0@ == k);
                                if co == i as int {
                                    assert(prev_bs[i as int]@[prev_bucket.len() - 1].0@ == k0);
                                    assert(jj != prev_bucket.len() - 1);
                                    assert(self.buckets@[co]@[jj] == prev_bs[co]@[jj]);
                                    assert(self.buckets@[co]@[jj].0@ == k
                                        && self.buckets@[co]@[jj].1 == m[k]);
                                } else {
                                    assert(self.buckets@[co]@[jj] == prev_bs[co]@[jj]);
                                    assert(self.buckets@[co]@[jj].0@ == k
                                        && self.buckets@[co]@[jj].1 == m[k]);
                                }
                            }
                        }
                    }
                }
            }
            i += 1;
        }
        self.buckets = nb;
        self.capacity = newcap;
        proof {
            assert(covers(self.buckets@, self.contents@, self.capacity as int));
        }
    }

    /// Inserts the pair, growing the table first when the load factor
    /// exceeds three quarters; replaces and returns the previous value if
    /// the key is already present.
    pub fn insert(&mut self, key: K, value: V) -> (r: Option<V>)
        requires
            old(self).wf(),
            old(self)@.len() < usize::MAX,
        ensures
            final(self).wf(),
            final(self)@ == old(self)@.insert(key@, value),
            r == if old(self)@.contains_key(key@) {
                Some(old(self)@[key@])
            } else {
                None::<V>
            },
            final(self)@.len() == old(self)@.len() + (if old(self)@.contains_key(key@) {
                0int
            } else {
                1int
            }),
    {
        if (self.size as u128) * 4 > (self.capacity as u128) * 3 && self.capacity <= usize::MAX
            / 2 {
            self.resize();
        }
        let idx = self.hash(&key);
        let ghost m: Map<<K as View>::V, V> = self.contents@;
        let blen: usize = self.buckets[idx].len();
        let mut j: usize = 0;
        while j < blen
            invariant
                j <= blen,
                self.wf(),
                self.contents@ == m,
                m == old(self)@,
                blen == self.buckets@[idx as int]@.len(),
                idx as int == K::hash_of(key@) as int % self.capacity as int,
                idx < self.capacity,
                forall|t: int| 0 <= t < j ==> #[trigger] self.buckets@[idx as int]@[t].0@ != key@,
            decreases blen - j,
        {
            if self.buckets[idx][j].0.key_eq(&key) {
                let ghost pb = self.buckets@;
                proof {
                    assert(entries_ok(pb, m, self.capacity as int));
                    assert(no_dup_keys(pb));
                    assert(covers(pb, m, self.capacity as int));
                    let prev_e = pb[idx as int]@[j as int];
                    assert(m.contains_pair(prev_e.0@, prev_e.1));
                }
                let mut pair: (K, V) = (key, value);
                self.buckets[idx].set_and_swap(j, &mut pair);
                let prior = pair;
                proof {
                    assert(self.buckets@[idx as int]@ == pb[idx as int]@.update(
                        j as int,
                        self.buckets@[idx as int]@[j as int],
                    ));
                    assert(prior == pb[idx as int]@[j as int]);
                    assert(prior.0@ == key@);
                    let new_e = self.buckets@[idx as int]@[j as int];
                    self.contents@ = m.insert(prior.0@, new_e.1);
                    assert(self.contents@.dom() =~= m.dom());
                    assert(self.contents@.len() == m.len());
                    assert forall|k: <K as View>::V|
                        self.contents@.dom().contains(k) implies (exists|jj: int|
                        #![trigger self.buckets@[K::hash_of(k) as int % self.capacity as int]@[jj]]
                        0 <= jj < self.buckets@[K::hash_of(k) as int % self.capacity as int]@.len()
                            && self.buckets@[K::hash_of(k) as int % self.capacity as int]@[jj].0@
                            == k && self.buckets@[K::hash_of(k) as int
                            % self.capacity as int]@[jj].1 == self.contents@[k]) by {
                        let c = K::hash_of(k) as int % self.capacity as int;
                        if k == prior.0@ {
                            assert(c == idx as int);
                            assert(self.buckets@[c]@[j as int].0@ == k);
                            assert(self.buckets@[c]@[j as int].1 == self.contents@[k]);
                        } else {
                            assert(m.dom().contains(k));
                            let jw = choose|jj: int|
                                #![trigger pb[K::hash_of(k) as int % self.capacity as int]@[jj]]
                                0 <= jj < pb[K::hash_of(k) as int % self.capacity as int]@.len()
                                    && pb[K::hash_of(k) as int % self.capacity as int]@[jj].0@ == k
                                    && pb[K::hash_of(k) as int % self.capacity as int]@[jj].1 == m[
                                k];
                            assert(pb[c]@[jw].0@ == k);
                            if c == idx as int {
                                assert(pb[idx as int]@[j as int].0@ == key@);
                                assert(jw != j);
                                assert(self.buckets@[c]@[jw] == pb[c]@[jw]);
                                assert(self.buckets@[c]@[jw].0@ == k);
                                assert(self.buckets@[c]@[jw].1 == self.contents@[k]);
                            } else {
                                assert(self.buckets@[c]@ == pb[c]@);
                                assert(self.buckets@[c]@[jw].0@ == k);
                                assert(self.buckets@[c]@[jw].1 == self.contents@[k]);
                            }
                        }
                    }
                    assert(self.contents@ =~= m.insert(key@, new_e.1));
                    assert(new_e.1 == value);
                    assert(m.dom().contains(key@));
                    assert(m[key@] == prior.1);
                    assert(self.contents@ =~= m.insert(key@, value));
                }
                return Some(prior.1);
            }
            j += 1;
        }
        let ghost pb = self.buckets@;
        proof {
            assert(entries_ok(pb, m, self.capacity as int));
            assert(no_dup_keys(pb));
            assert(covers(pb, m, self.capacity as int));
            if m.dom().contains(key@) {
                let jw = choose|jj: int|
                    #![trigger pb[K::hash_of(key@) as int % self.capacity as int]@[jj]]
                    0 <= jj < pb[K::hash_of(key@) as int % self.capacity as int]@.len() && pb[
                        K::hash_of(key@) as int % self.capacity as int
                    ]@[jj].0@ == key@ && pb[K::hash_of(key@) as int
                        % self.capacity as int]@[jj].1 == m[key@];
                assert(false);
            }
        }
        self.buckets[idx].push((key, value));
        self.size = self.size + 1;
        proof {
            assert(self.buckets@[idx as int]@ == pb[idx as int]@.push(
                self.buckets@[idx as int]@.last(),
            ));
            let new_e = self.buckets@[idx as int]@.last();
            assert(new_e.0@ == key@);
            self.contents@ = m.insert(key@, new_e.1);
            assert(self.contents@.dom() =~= m.dom().insert(key@));
            assert forall|k: <K as View>::V|
                self.contents@.dom().contains(k) implies (exists|jj: int|
                #![trigger self.buckets@[K::hash_of(k) as int % self.capacity as int]@[jj]]
                0 <= jj < self.buckets@[K::hash_of(k) as int % self.capacity as int]@.len()
                    && self.buckets@[K::hash_of(k) as int % self.capacity as int]@[jj].0@ == k
                    && self.buckets@[K::hash_of(k) as int % self.capacity as int]@[jj].1
                    == self.contents@[k]) by {
                let c = K::hash_of(k) as int % self.capacity as int;
                if k == key@ {
                    assert(c == idx as int);
                    let jn = pb[idx as int]@.len() as int;
                    assert(self.buckets@[c]@[jn].0@ == k);
                    assert(self.buckets@[c]@[jn].1 == self.contents@[k]);
                } else {
                    assert(m.dom().contains(k));
                    let jw = choose|jj: int|
                        #![trigger pb[K::hash_of(k) as int % self.capacity as int]@[jj]]
                        0 <= jj < pb[K::hash_of(k) as int % self.capacity as int]@.len() && pb[
                            K::hash_of(k) as int % self.capacity as int
                        ]@[jj].0@ == k && pb[K::hash_of(k) as int % self.capacity as int]@[jj].1
                            == m[k];
                    assert(pb[c]@[jw].0@ == k);
                    if c == idx as int {
                        assert(self.buckets@[c]@[jw] == pb[c]@[jw]);
                    } else {
                        assert(self.buckets@[c]@ == pb[c]@);
                    }
                    assert(self.buckets@[c]@[jw].0@ == k);
                    assert(self.buckets@[c]@[jw].1 == self.contents@[k]);
                }
            }
            assert(self.contents@ =~= m.insert(key@, new_e.1));
        }
        None
    }

    /// Removes the key's entry from its chain if present, returning the
    /// stored value.  Removal never shrinks the table.
    pub fn remove(&mut self, key: &K) -> (r: Option<V>)
        requires
            old(self).wf(),
        ensures
            final(self).wf(),
            final(self)@ == old(self)@.remove(key@),
            r == if old(self)@.contains_key(key@) {
                Some(old(self)@[key@])
            } else {
                None::<V>
            },
    {
        let idx = self.hash(key);
        let ghost m: Map<<K as View>::V, V> = self.contents@;
        let blen: usize = self.buckets[idx].len();
        let mut j: usize = 0;
        while j < blen
            invariant
                j <= blen,
                self.wf(),
                self.contents@ == m,
                m == old(self)@,
                blen == self.buckets@[idx as int]@.len(),
                idx as int == K::hash_of(key@) as int % self.capacity as int,
                idx < self.capacity,
                forall|t: int| 0 <= t < j ==> #[trigger] self.buckets@[idx as int]@[t].0@ != key@,
            decreases blen - j,
        {
            if self.buckets[idx][j].0.key_eq(key) {
                let ghost pb = self.buckets@;
                proof {
                    assert(entries_ok(pb, m, self.capacity as int));
                    assert(no_dup_keys(pb));
                    assert(covers(pb, m, self.capacity as int));
                }
                let e = self.buckets[idx].remove(j);
                proof {
                    assert(m.contains_pair(e.0@, e.1));
                    assert(m.len() >= 1) by {
                        assert(m.dom().contains(e.0@));
                    }
                }
                self.size = self.size - 1;
                proof {
                    self.contents@ = m.remove(key@);
                    assert(self.contents@.dom() =~= m.dom().remove(key@));
                    assert(self.buckets@[idx as int]@ =~= pb[idx as int]@.remove(j as int));
                    assert forall|k: <K as View>::V|
                        self.contents@.dom().contains(k) implies (exists|jj: int|
                        #![trigger self.buckets@[K::hash_of(k) as int % self.capacity as int]@[jj]]
                        0 <= jj < self.buckets@[K::hash_of(k) as int % self.capacity as int]@.len()
                            && self.buckets@[K::hash_of(k) as int % self.capacity as int]@[jj].0@
                            == k && self.buckets@[K::hash_of(k) as int
                            % self.capacity as int]@[jj].1 == self.contents@[k]) by {
                        let c = K::hash_of(k) as int % self.capacity as int;
                        assert(m.dom().contains(k));
                        let jw = choose|jj: int|
                            #![trigger pb[K::hash_of(k) as int % self.capacity as int]@[jj]]
                            0 <= jj < pb[K::hash_of(k) as int % self.capacity as int]@.len() && pb[
                                K::hash_of(k) as int % self.capacity as int
                            ]@[jj].0@ == k && pb[K::hash_of(k) as int
                                % self.capacity as int]@[jj].1 == m[k];
                        assert(pb[c]@[jw].0@ == k);
                        if c == idx as int {
                            assert(pb[idx as int]@[j as int].0@ == key@);
                            assert(jw != j);
                            if jw < j {
                                assert(self.buckets@[c]@[jw] == pb[c]@[jw]);
                                assert(self.buckets@[c]@[jw].0@ == k);
                                assert(self.buckets@[c]@[jw].1 == self.contents@[k]);
                            } else {
                                assert(self.buckets@[c]@[jw - 1] == pb[c]@[jw]);
                                assert(self.buckets@[c]@[jw - 1].0@ == k);
                                assert(self.buckets@[c]@[jw - 1].1 == self.contents@[k]);
                            }
                        } else {
                            assert(self.buckets@[c]@ == pb[c]@);
                            assert(self.buckets@[c]@[jw].0@ == k);
                            assert(self.buckets@[c]@[jw].1 == self.contents@[k]);
                        }
                    }
                    assert(m.dom().contains(key@));
                    assert(m[key@] == e.1);
                    assert(self.contents@ =~= m.remove(key@));
                }
                return Some(e.1);
            }
            j += 1;
        }
        proof {
            if m.dom().contains(key@) {
                let jw = choose|jj: int|
                    #![trigger self.buckets@[K::hash_of(key@) as int % self.capacity as int]@[jj]]
                    0 <= jj < self.buckets@[K::hash_of(key@) as int % self.capacity as int]@.len()
                        && self.buckets@[K::hash_of(key@) as int % self.capacity as int]@[jj].0@
                        == key@ && self.buckets@[K::hash_of(key@) as int
                        % self.capacity as int]@[jj].1 == m[key@];
                assert(false);
            }
            assert(self.contents@ =~= m.remove(key@));
        }
        None
    }
}

impl<K: TableKey, V> HashTable<K, V> {
    /// The stored entries, in bucket-then-chain order: every returned pair
    /// is stored, no key repeats, and every stored pair shows up.
    pub fn iter(&self) -> (r: Vec<(&K, &V)>)
        requires
            self.wf(),
        ensures
            forall|i: int|
                0 <= i < r@.len() ==> self@.contains_key((#[trigger] r@[i]).0@) && self@[r@[i].0@]
                    == *(r@[i].1),
            forall|i: int, j: int|
                0 <= i < r@.len() && 0 <= j < r@.len() && i != j ==> (#[trigger] r@[i]).0@ != (
                #[trigger] r@[j]).0@,
            forall|k: <K as View>::V|
                self@.contains_key(k) ==> exists|i: int|
                    0 <= i < r@.len() && (#[trigger] r@[i]).0@ == k,
    {
        let mut out: Vec<(&K, &V)> = Vec::new();
        let n = self.buckets.len();
        let mut i: usize = 0;
        while i < n
            invariant
                i <= n,
                self.wf(),
                n == self.buckets@.len(),
                forall|t: int|
                    0 <= t < out@.len() ==> self@.contains_key((#[trigger] out@[t]).0@)
                        && self@[out@[t].0@] == *(out@[t].1),
                forall|t: int|
                    0 <= t < out@.len() ==> (K::hash_of((#[trigger] out@[t]).0@) as int
                        % self.buckets@.len() as int) < i,
                forall|t: int, u: int|
                    0 <= t < out@.len() && 0 <= u < out@.len() && t != u ==> (#[trigger] out@[t]).0@
                        != (#[trigger] out@[u]).0@,
                forall|k: <K as View>::V|
                    self@.contains_key(k) && (K::hash_of(k) as int % self.buckets@.len() as int)
                        < i ==> exists|t: int|
                        0 <= t < out@.len() && (#[trigger] out@[t]).0@ == k,
            decreases n - i,
        {
            let ghost snap: Seq<(&K, &V)> = out@;
            let ghost out0: int = out@.len() as int;
            let ghost bucket: Seq<(K, V)> = self.buckets@[i as int]@;
            let blen = self.buckets[i].len();
            let mut j: usize = 0;
            while j < blen
                invariant
                    i < n,
                    j <= blen,
                    self.wf(),
                    n == self.buckets@.len(),
                    bucket == self.buckets@[i as int]@,
                    blen == bucket.len(),
                    snap.len() == out0,
                    out@.len() == out0 + j,
                    forall|t: int| 0 <= t < out0 ==> #[trigger] out@[t] == snap[t],
                    forall|jj: int|
                        0 <= jj < j ==> (#[trigger] out@[out0 + jj]).0@ == bucket[jj].0@ && *(out@[
                            out0 + jj
                        ].1) == bucket[jj].1,
                decreases blen - j,
            {
                let entry: &(K, V) = &self.buckets[i][j];
                out.push((&entry.0, &entry.1));
                j += 1;
            }
            proof {
                assert forall|t: int|
                    0 <= t < out@.len() implies self@.contains_key((#[trigger] out@[t]).0@)
                    && self@[out@[t].0@] == *(out@[t].1) && (K::hash_of(out@[t].0@) as int
                    % self.buckets@.len() as int) <= i by {
                    if t < out0 {
                        assert(out@[t] == snap[t]);
                    } else {
                        assert((out@[out0 + (t - out0)]).0@ == bucket[t - out0].0@ && *(out@[out0
                            + (t - out0)].1) == bucket[t - out0].1);
                        let e = bucket[t - out0];
                        assert(self.contents@.contains_pair(e.0@, e.1));
                    }
                }
                assert forall|t: int, u: int|
                    0 <= t < out@.len() && 0 <= u < out@.len() && t != u implies (
                #[trigger] out@[t]).0@ != (#[trigger] out@[u]).0@ by {
                    if t < out0 && u < out0 {
                        assert(out@[t] == snap[t] && out@[u] == snap[u]);
                    } else if t < out0 && u >= out0 {
                        assert((K::hash_of(out@[t].0@) as int % self.buckets@.len() as int) < i);
                        assert((out@[out0 + (u - out0)]).0@ == bucket[u - out0].0@);
                        assert(K::hash_of(bucket[u - out0].0@) as int
                            % self.buckets@.len() as int == i);
                    } else if t >= out0 && u < out0 {
                        assert((K::hash_of(out@[u].0@) as int % self.buckets@.len() as int) < i);
                        assert((out@[out0 + (t - out0)]).0@ == bucket[t - out0].0@);
                        assert(K::hash_of(bucket[t - out0].0@) as int
                            % self.buckets@.len() as int == i);
                    } else {
                        assert((out@[out0 + (t - out0)]).0@ == bucket[t - out0].0@);
                        assert((out@[out0 + (u - out0)]).0@ == bucket[u - out0].0@);
                    }
                }
                assert forall|k: <K as View>::V|
                    self@.contains_key(k) && (K::hash_of(k) as int % self.buckets@.len() as int)
                        < i + 1 implies exists|t: int|
                    0 <= t < out@.len() && (#[trigger] out@[t]).0@ == k by {
                    let c = K::hash_of(k) as int % self.buckets@.len() as int;
                    if c < i {
                        let t0 = choose|t: int| 0 <= t < snap.len() && (#[trigger] snap[t]).0@ == k;
                        assert(out@[t0] == snap[t0]);
                        assert(out@[t0].0@ == k);
                    } else {
                        let jw = choose|jj: int|
                            #![trigger self.buckets@[K::hash_of(k) as int % self.capacity as int]@[jj]]
                            0 <= jj < self.buckets@[K::hash_of(k) as int
                                % self.capacity as int]@.len() && self.buckets@[K::hash_of(k) as int
                                % self.capacity as int]@[jj].0@ == k && self.buckets@[K::hash_of(k)
                                as int % self.capacity as int]@[jj].1 == self.contents@[k];
                        assert(bucket[jw].0@ == k);
                        assert(out@[out0 + jw].0@ == k);
                    }
                }
            }
            i += 1;
        }
        out
    }

    /// The stored keys, in bucket-then-chain order: every returned key is
    /// in the table, no key repeats, and every stored key shows up.
    pub fn keys(&self) -> (r: Vec<&K>)
        requires
            self.wf(),
        ensures
            forall|i: int| 0 <= i < r@.len() ==> self@.contains_key((#[trigger] r@[i])@),
            forall|i: int, j: int|
                0 <= i < r@.len() && 0 <= j < r@.len() && i != j ==> (#[trigger] r@[i])@ != (
                #[trigger] r@[j])@,
            forall|k: <K as View>::V|
                self@.contains_key(k) ==> exists|i: int| 0 <= i < r@.len() && (#[trigger] r@[i])@
                    == k,
    {
        let pairs = self.iter();
        let mut out: Vec<&K> = Vec::new();
        let n = pairs.len();
        let mut i: usize = 0;
        while i < n
            invariant
                i <= n,
                n == pairs@.len(),
                out@.len() == i,
                forall|t: int|
                    0 <= t < pairs@.len() ==> self@.contains_key((#[trigger] pairs@[t]).0@),
                forall|t: int, u: int|
                    0 <= t < pairs@.len() && 0 <= u < pairs@.len() && t != u ==> (
                    #[trigger] pairs@[t]).0@ != (#[trigger] pairs@[u]).0@,
                forall|k: <K as View>::V|
                    self@.contains_key(k) ==> exists|t: int|
                        0 <= t < pairs@.len() && (#[trigger] pairs@[t]).0@ == k,
                forall|t: int| 0 <= t < i ==> (#[trigger] out@[t]) == pairs@[t].0,
            decreases n - i,
        {
            out.push(pairs[i].0);
            i += 1;
        }
        proof {
            assert forall|k: <K as View>::V|
                self@.contains_key(k) implies exists|t: int|
                0 <= t < out@.len() && (#[trigger] out@[t])@ == k by {
                let t = choose|t: int|
                    0 <= t < pairs@.len() && (#[trigger] pairs@[t]).0@ == k;
                assert(out@[t]@ == k);
            }
        }
        out
    }

    /// The stored values, in bucket-then-chain order: every returned value
    /// is stored under some key, and every stored key's value shows up.
    pub fn values(&self) -> (r: Vec<&V>)
        requires
            self.wf(),
        ensures
            forall|i: int| 0 <= i < r@.len() ==> is_stored_value(self@, *(#[trigger] r@[i])),
            forall|k: <K as View>::V|
                self@.contains_key(k) ==> exists|i: int|
                    0 <= i < r@.len() && *(#[trigger] r@[i]) == self@[k],
    {
        let pairs = self.iter();
        let mut out: Vec<&V> = Vec::new();
        let n = pairs.len();
        let mut i: usize = 0;
        while i < n
            invariant
                i <= n,
                n == pairs@.len(),
                out@.len() == i,
                forall|t: int|
                    0 <= t < pairs@.len() ==> self@.contains_key((#[trigger] pairs@[t]).0@)
                        && self@[pairs@[t].0@] == *(pairs@[t].1),
                forall|k: <K as View>::V|
                    self@.contains_key(k) ==> exists|t: int|
                        0 <= t < pairs@.len() && (#[trigger] pairs@[t]).0@ == k,
                forall|t: int| 0 <= t < i ==> (#[trigger] out@[t]) == pairs@[t].1,
            decreases n - i,
        {
            out.push(pairs[i].1);
            i += 1;
        }
        proof {
            assert forall|i: int|
                0 <= i < out@.len() implies is_stored_value(self@, *(#[trigger] out@[i])) by {
                let k0 = pairs@[i].0@;
                assert(self@.contains_key(k0) && self@[k0] == *(out@[i]));
            }
            assert forall|k: <K as View>::V|
                self@.contains_key(k) implies exists|i: int|
                0 <= i < out@.len() && *(#[trigger] out@[i]) == self@[k] by {
                let t = choose|t: int|
                    0 <= t < pairs@.len() && (#[trigger] pairs@[t]).0@ == k;
                assert(*out@[t] == self@[k]);
            }
        }
        out
    }
}

/// Whether `v` is stored under some key of `m`.
pub open spec fn is_stored_value<K, V>(m: Map<K, V>, v: V) -> bool {
    exists|k: K| #[trigger] m.contains_key(k) && m[k] == v
}

impl<K: TableKey, V> Default for HashTable<K, V> {
    /// The default table is a freshly allocated empty one.
    fn default() -> (t: Self)
        ensures
            t.wf(),
            t@ == Map::<<K as View>::V, V>::empty(),
    {
        Self::new()
    }
}

impl<K: TableKey, V> View for HashTable<K, V> {
    type V = Map<<K as View>::V, V>;

    closed spec fn view(&self) -> Map<<K as View>::V, V> {
        self.contents@
    }
}

} // verus!
