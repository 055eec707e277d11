//! A hash map with separate chaining: an array of buckets, each a list of
//! key/value entries.

use vstd::prelude::*;
use vstd::utf8::*;
use crate::load_balancer::{fnv1a, fnv1a_hash};

verus! {

broadcast use vstd::utf8::encode_utf8_decode_utf8;

/// Compares two byte slices element by element.
pub fn bytes_equal(a: &[u8], b: &[u8]) -> (r: bool)
    ensures
        r == (a@ == b@),
{
    if a.len() != b.len() {
        return false;
    }
    let mut i: usize = 0;
    while i < a.len()
        invariant
            a@.len() == b@.len(),
            i <= a@.len(),
            forall|j: int| 0 <= j < i ==> a@[j] == b@[j],
        decreases a@.len() - i,
    {
        if a[i] != b[i] {
            return false;
        }
        i = i + 1;
    }
    assert(a@ =~= b@);
    true
}

/// Keys that the map can hash and compare: each key has a canonical byte
/// encoding that determines its view.
pub trait HashKey: View + Sized {
    /// The byte encoding of a key with view `v`.
    spec fn spec_key_bytes(v: Self::V) -> Seq<u8>;

    /// Returns the byte encoding of this key.
    fn key_bytes(&self) -> (b: Vec<u8>)
        ensures
            b@ == Self::spec_key_bytes(self@),
    ;

    /// Distinct key views have distinct encodings.
    proof fn lemma_key_bytes_injective(a: Self::V, b: Self::V)
        ensures
            Self::spec_key_bytes(a) == Self::spec_key_bytes(b) ==> a == b,
    ;
}

impl HashKey for String {
    open spec fn spec_key_bytes(v: Seq<char>) -> Seq<u8> {
        encode_utf8(v)
    }

    fn key_bytes(&self) -> (b: Vec<u8>) {
        vstd::slice::slice_to_vec(self.as_str().as_bytes())
    }

    proof fn lemma_key_bytes_injective(a: Seq<char>, b: Seq<char>) {
        encode_utf8_decode_utf8(a);
        encode_utf8_decode_utf8(b);
    }
}

impl<'a> HashKey for &'a str {
    open spec fn spec_key_bytes(v: Seq<char>) -> Seq<u8> {
        encode_utf8(v)
    }

    fn key_bytes(&self) -> (b: Vec<u8>) {
        vstd::slice::slice_to_vec((*self).as_bytes())
    }

    proof fn lemma_key_bytes_injective(a: Seq<char>, b: Seq<char>) {
        encode_utf8_decode_utf8(a);
        encode_utf8_decode_utf8(b);
    }
}

/// The little-endian bytes of a 32-bit word.
pub open spec fn le_bytes_u32(u: u32) -> Seq<u8> {
    seq![(u & 0xff) as u8, ((u >> 8u32) & 0xff) as u8, ((u >> 16u32) & 0xff) as u8, ((u >> 24u32) & 0xff) as u8]
}

proof fn lemma_le_bytes_u32_injective(a: u32, b: u32)
    ensures
        le_bytes_u32(a) == le_bytes_u32(b) ==> a == b,
{
    if le_bytes_u32(a) == le_bytes_u32(b) {
        assert(le_bytes_u32(a)[0] == le_bytes_u32(b)[0]);
        assert(le_bytes_u32(a)[1] == le_bytes_u32(b)[1]);
        assert(le_bytes_u32(a)[2] == le_bytes_u32(b)[2]);
        assert(le_bytes_u32(a)[3] == le_bytes_u32(b)[3]);
        assert(a == b) by (bit_vector)
            requires
                (a & 0xff) as u8 == (b & 0xff) as u8,
                ((a >> 8u32) & 0xff) as u8 == ((b >> 8u32) & 0xff) as u8,
                ((a >> 16u32) & 0xff) as u8 == ((b >> 16u32) & 0xff) as u8,
                ((a >> 24u32) & 0xff) as u8 == ((b >> 24u32) & 0xff) as u8,
        ;
    }
}

fn u32_le_bytes(u: u32) -> (b: Vec<u8>)
    ensures
        b@ == le_bytes_u32(u),
{
    let mut b: Vec<u8> = Vec::new();
    b.push((u & 0xff) as u8);
    b.push(((u >> 8u32) & 0xff) as u8);
    b.push(((u >> 16u32) & 0xff) as u8);
    b.push(((u >> 24u32) & 0xff) as u8);
    assert(b@ =~= le_bytes_u32(u));
    b
}

impl HashKey for u32 {
    open spec fn spec_key_bytes(v: u32) -> Seq<u8> {
        le_bytes_u32(v)
    }

    fn key_bytes(&self) -> (b: Vec<u8>) {
        u32_le_bytes(*self)
    }

    proof fn lemma_key_bytes_injective(a: u32, b: u32) {
        lemma_le_bytes_u32_injective(a, b);
    }
}

impl HashKey for i32 {
    open spec fn spec_key_bytes(v: i32) -> Seq<u8> {
        le_bytes_u32(v as u32)
    }

    fn key_bytes(&self) -> (b: Vec<u8>) {
        u32_le_bytes(*self as u32)
    }

    proof fn lemma_key_bytes_injective(a: i32, b: i32) {
        lemma_le_bytes_u32_injective(a as u32, b as u32);
        assert((a as u32) == (b as u32) ==> a == b) by (bit_vector);
    }
}

/// Compares two keys through their byte encodings.
fn keys_equal<K: HashKey>(a: &K, b: &K) -> (r: bool)
    ensures
        r == (a@ == b@),
{
    let ab = a.key_bytes();
    let bb = b.key_bytes();
    proof {
        K::lemma_key_bytes_injective(a@, b@);
    }
    bytes_equal(ab.as_slice(), bb.as_slice())
}

struct Bucket<K, V> {
    entries: Vec<(K, V)>,
}

/// A hash map with a fixed number of buckets and chaining on collision.
pub struct SimpleHashMap<K: HashKey, V> {
    buckets: Vec<Bucket<K, V>>,
    capacity: usize,
    size: usize,
    contents: Ghost<Map<K::V, V>>,
}

/// The bucket that a key with encoding `bytes` lives in: its FNV-1a hash
/// modulo the number of buckets.
pub open spec fn bucket_index(bytes: Seq<u8>, capacity: nat) -> int {
    (fnv1a(bytes) as nat % capacity) as int
}

impl<K: HashKey, V> View for SimpleHashMap<K, V> {
    type V = Map<K::V, V>;

    /// The key/value pairs the map holds, keys taken by their views.
    closed spec fn view(&self) -> Map<K::V, V> {
        self.contents@
    }
}

impl<K: HashKey, V> SimpleHashMap<K, V> {
    /// The number of buckets the map was created with.
    pub closed spec fn spec_capacity(&self) -> nat {
        self.capacity as nat
    }

    closed spec fn home(&self, k: K::V) -> int {
        bucket_index(K::spec_key_bytes(k), self.capacity as nat)
    }

    closed spec fn entry(&self, i: int, j: int) -> (K, V) {
        self.buckets@[i].entries@[j]
    }

    /// The map's internal invariant: every entry sits in its key's bucket,
    /// keys are unique, the entries agree with the abstract contents, and
    /// `size` counts them.
    pub closed spec fn well_formed(&self) -> bool {
        &&& self.buckets@.len() == self.capacity
        &&& self.contents@.dom().finite()
        &&& self.size == self.contents@.len()
        &&& forall|i: int, j: int|
            #![trigger self.entry(i, j)]
            0 <= i < self.capacity && 0 <= j < self.buckets@[i].entries@.len() ==> {
                &&& self.home(self.entry(i, j).0@) == i
                &&& self.contents@.contains_key(self.entry(i, j).0@)
                &&& self.contents@[self.entry(i, j).0@] == self.entry(i, j).1
            }
        &&& forall|i: int, j1: int, j2: int|
            #![trigger self.entry(i, j1), self.entry(i, j2)]
            0 <= i < self.capacity && 0 <= j1 < self.buckets@[i].entries@.len() && 0 <= j2
                < self.buckets@[i].entries@.len() && j1 != j2 ==> self.entry(i, j1).0@
                != self.entry(i, j2).0@
        &&& forall|k: K::V|
            #![trigger self.contents@.contains_key(k)]
            self.contents@.contains_key(k) ==> self.capacity > 0 && exists|j: int|
                0 <= j < self.buckets@[self.home(k)].entries@.len() && #[trigger] self.entry(
                    self.home(k),
                    j,
                ).0@ == k
    }

    /// Creates an empty map with `capacity` buckets.
    pub fn new(capacity: usize) -> (m: Self)
        ensures
            m.well_formed(),
            m@ == Map::<K::V, V>::empty(),
            m@.dom().finite(),
            m.spec_capacity() == capacity,
    {
        let mut buckets: Vec<Bucket<K, V>> = Vec::new();
        let mut i: usize = 0;
        while i < capacity
            invariant
                i <= capacity,
                buckets@.len() == i,
                forall|j: int| 0 <= j < i ==> (#[trigger] buckets@[j]).entries@.len() == 0,
            decreases capacity - i,
        {
            buckets.push(Bucket { entries: Vec::new() });
            i = i + 1;
        }
        SimpleHashMap { buckets, capacity, size: 0, contents: Ghost(Map::empty()) }
    }

    /// Computes the bucket of `key`.
    fn hash_key(&self, key: &K) -> (idx: usize)
        requires
            self.capacity > 0,
        ensures
            idx == self.home(key@),
            idx < self.capacity,
    {
        let bytes = key.key_bytes();
        let h = fnv1a_hash(bytes.as_slice());
        (h % (self.capacity as u64)) as usize
    }

    /// Finds the position of `key` in its bucket.
    fn find(&self, key: &K, idx: usize) -> (r: Option<usize>)
        requires
            self.well_formed(),
            self.capacity > 0,
            idx == self.home(key@),
        ensures
            r is None ==> !self@.contains_key(key@),
            r matches Some(j) ==> j < self.buckets@[idx as int].entries@.len() && self.entry(
                idx as int,
                j as int,
            ).0@ == key@,
    {
        let bucket = &self.buckets[idx];
        let mut j: usize = 0;
        while j < bucket.entries.len()
            invariant
                bucket == self.buckets@[idx as int],
                j <= bucket.entries@.len(),
                forall|jj: int| 0 <= jj < j ==> self.entry(idx as int, jj).0@ != key@,
            decreases bucket.entries@.len() - j,
        {
            if keys_equal(&bucket.entries[j].0, key) {
                return Some(j);
            }
            j = j + 1;
        }
        proof {
            if self@.contains_key(key@) {
                let jw = choose|jw: int|
                    0 <= jw < self.buckets@[self.home(key@)].entries@.len() && #[trigger] self.entry(
                        self.home(key@),
                        jw,
                    ).0@ == key@;
                assert(self.entry(idx as int, jw).0@ != key@);
            }
        }
        None
    }

    /// Inserts `value` under `key`, returning the value it replaces.
    pub fn insert(&mut self, key: K, value: V) -> (r: Option<V>)
        requires
            old(self).well_formed(),
            old(self).spec_capacity() > 0,
            old(self)@.len() < usize::MAX,
        ensures
            final(self).well_formed(),
            final(self).spec_capacity() == old(self).spec_capacity(),
            final(self)@ == old(self)@.insert(key@, value),
            final(self)@.dom().finite(),
            final(self)@.len() == old(self)@.len() + if old(self)@.contains_key(key@) { 0int } else { 1int },
            old(self)@.contains_key(key@) ==> r == Some(old(self)@[key@]),
            !old(self)@.contains_key(key@) ==> r is None,
    {
        let idx = self.hash_key(&key);
        match self.find(&key, idx) {
            Some(j) => {
                let ghost old_self = *self;
                let mut value = value;
                std::mem::swap(&mut self.buckets[idx].entries[j].1, &mut value);
                proof {
                    self.contents@ = self.contents@.insert(key@, self.entry(idx as int, j as int).1);
                    assert(self.contents@.dom() =~= old_self.contents@.dom());
                    assert forall|k: K::V| #[trigger] self.contents@.contains_key(k) implies
                        self.capacity > 0 && exists|jj: int|
                            0 <= jj < self.buckets@[self.home(k)].entries@.len()
                                && #[trigger] self.entry(self.home(k), jj).0@ == k by {
                        assert(old_self.contents@.contains_key(k));
                        let jw = choose|jw: int|
                            0 <= jw < old_self.buckets@[old_self.home(k)].entries@.len()
                                && #[trigger] old_self.entry(old_self.home(k), jw).0@ == k;
                        assert(self.entry(self.home(k), jw).0@ == k);
                    }
                    assert forall|i: int, jj: int|
                        0 <= i < self.capacity && 0 <= jj < self.buckets@[i].entries@.len()
                        implies {
                        &&& self.home(#[trigger] self.entry(i, jj).0@) == i
                        &&& self.contents@.contains_key(self.entry(i, jj).0@)
                        &&& self.contents@[self.entry(i, jj).0@] == self.entry(i, jj).1
                    } by {
                        assert(old_self.entry(i, jj).0@ == self.entry(i, jj).0@);
                        if i == idx && jj != j {
                            assert(old_self.entry(i, jj).0@ != old_self.entry(i, j as int).0@);
                        }
                    }
                    assert forall|i: int, j1: int, j2: int|
                        0 <= i < self.capacity && 0 <= j1 < self.buckets@[i].entries@.len() && 0
                            <= j2 < self.buckets@[i].entries@.len() && j1 != j2 implies #[trigger] self.entry(
                        i,
                        j1,
                    ).0@ != #[trigger] self.entry(i, j2).0@ by {
                        assert(old_self.entry(i, j1).0@ == self.entry(i, j1).0@);
                        assert(old_self.entry(i, j2).0@ == self.entry(i, j2).0@);
                    }
                }
                Some(value)
            },
            None => {
                let ghost old_self = *self;
                self.buckets[idx].entries.push((key, value));
                self.size = self.size + 1;
                proof {
                    self.contents@ = self.contents@.insert(key@, value);
                    let nj = old_self.buckets@[idx as int].entries@.len() as int;
                    assert(self.entry(idx as int, nj).0@ == key@);
                    assert forall|k: K::V| #[trigger] self.contents@.contains_key(k) implies
                        self.capacity > 0 && exists|jj: int|
                            0 <= jj < self.buckets@[self.home(k)].entries@.len()
                                && #[trigger] self.entry(self.home(k), jj).0@ == k by {
                        if k == key@ {
                            assert(self.entry(self.home(k), nj).0@ == k);
                        } else {
                            assert(old_self.contents@.contains_key(k));
                            let jw = choose|jw: int|
                                0 <= jw < old_self.buckets@[old_self.home(k)].entries@.len()
                                    && #[trigger] old_self.entry(old_self.home(k), jw).0@ == k;
                            assert(self.entry(self.home(k), jw).0@ == k);
                        }
                    }
                    assert forall|i: int, jj: int|
                        0 <= i < self.capacity && 0 <= jj < self.buckets@[i].entries@.len()
                        implies {
                        &&& self.home(#[trigger] self.entry(i, jj).0@) == i
                        &&& self.contents@.contains_key(self.entry(i, jj).0@)
                        &&& self.contents@[self.entry(i, jj).0@] == self.entry(i, jj).1
                    } by {
                        if !(i == idx && jj == nj) {
                            assert(old_self.entry(i, jj) == self.entry(i, jj));
                        }
                    }
                    assert forall|i: int, j1: int, j2: int|
                        0 <= i < self.capacity && 0 <= j1 < self.buckets@[i].entries@.len() && 0
                            <= j2 < self.buckets@[i].entries@.len() && j1 != j2 implies #[trigger] self.entry(
                        i,
                        j1,
                    ).0@ != #[trigger] self.entry(i, j2).0@ by {
                        if i == idx && j1 == nj {
                            assert(old_self.entry(i, j2) == self.entry(i, j2));
                            assert(old_self.contents@.contains_key(old_self.entry(i, j2).0@));
                        } else if i == idx && j2 == nj {
                            assert(old_self.entry(i, j1) == self.entry(i, j1));
                            assert(old_self.contents@.contains_key(old_self.entry(i, j1).0@));
                        } else {
                            assert(old_self.entry(i, j1) == self.entry(i, j1));
                            assert(old_self.entry(i, j2) == self.entry(i, j2));
                        }
                    }
                }
                None
            },
        }
    }

    /// Returns the value stored under `key`.
    pub fn get(&self, key: &K) -> (r: Option<&V>)
        requires
            self.well_formed(),
            self.spec_capacity() > 0,
        ensures
            self@.contains_key(key@) ==> r == Some(&self@[key@]),
            !self@.contains_key(key@) ==> r is None,
    {
        let idx = self.hash_key(key);
        match self.find(key, idx) {
            Some(j) => Some(&self.buckets[idx].entries[j].1),
            None => None,
        }
    }

    /// Removes `key`, returning the value it held.
    pub fn remove(&mut self, key: &K) -> (r: Option<V>)
        requires
            old(self).well_formed(),
            old(self).spec_capacity() > 0,
        ensures
            final(self).well_formed(),
            final(self).spec_capacity() == old(self).spec_capacity(),
            final(self)@ == old(self)@.remove(key@),
            final(self)@.dom().finite(),
            final(self)@.len() == old(self)@.len() - if old(self)@.contains_key(key@) { 1int } else { 0int },
            old(self)@.contains_key(key@) ==> r == Some(old(self)@[key@]),
            !old(self)@.contains_key(key@) ==> r is None,
    {
        let idx = self.hash_key(key);
        match self.find(key, idx) {
            Some(j) => {
                let ghost old_self = *self;
                let (_k, v) = self.buckets[idx].entries.remove(j);
                proof {
                    assert(old_self.contents@.contains_key(key@));
                    self.contents@ = self.contents@.remove(key@);
                }
                self.size = self.size - 1;
                proof {
                    assert forall|k: K::V| #[trigger] self.contents@.contains_key(k) implies
                        self.capacity > 0 && exists|jj: int|
                            0 <= jj < self.buckets@[self.home(k)].entries@.len()
                                && #[trigger] self.entry(self.home(k), jj).0@ == k by {
                        assert(old_self.contents@.contains_key(k));
                        let jw = choose|jw: int|
                            0 <= jw < old_self.buckets@[old_self.home(k)].entries@.len()
                                && #[trigger] old_self.entry(old_self.home(k), jw).0@ == k;
                        if self.home(k) == idx {
                            if jw < j {
                                assert(self.entry(self.home(k), jw).0@ == k);
                            } else {
                                assert(jw != j);
                                assert(self.entry(self.home(k), jw - 1).0@ == k);
                            }
                        } else {
                            assert(self.entry(self.home(k), jw).0@ == k);
                        }
                    }
                    assert forall|i: int, jj: int|
                        0 <= i < self.capacity && 0 <= jj < self.buckets@[i].entries@.len()
                        implies {
                        &&& self.home(#[trigger] self.entry(i, jj).0@) == i
                        &&& self.contents@.contains_key(self.entry(i, jj).0@)
                        &&& self.contents@[self.entry(i, jj).0@] == self.entry(i, jj).1
                    } by {
                        if i == idx {
                            if jj < j {
                                assert(old_self.entry(i, jj) == self.entry(i, jj));
                                assert(old_self.entry(i, jj).0@ != old_self.entry(i, j as int).0@);
                            } else {
                                assert(old_self.entry(i, jj + 1) == self.entry(i, jj));
                                assert(old_self.entry(i, jj + 1).0@ != old_self.entry(
                                    i,
                                    j as int,
                                ).0@);
                            }
                        } else {
                            assert(old_self.entry(i, jj) == self.entry(i, jj));
                        }
                    }
                    assert forall|i: int, j1: int, j2: int|
                        0 <= i < self.capacity && 0 <= j1 < self.buckets@[i].entries@.len() && 0
                            <= j2 < self.buckets@[i].entries@.len() && j1 != j2 implies #[trigger] self.entry(
                        i,
                        j1,
                    ).0@ != #[trigger] self.entry(i, j2).0@ by {
                        if i == idx {
                            let o1 = if j1 < j { j1 } else { j1 + 1 };
                            let o2 = if j2 < j { j2 } else { j2 + 1 };
                            assert(old_self.entry(i, o1) == self.entry(i, j1));
                            assert(old_self.entry(i, o2) == self.entry(i, j2));
                        } else {
                            assert(old_self.entry(i, j1) == self.entry(i, j1));
                            assert(old_self.entry(i, j2) == self.entry(i, j2));
                        }
                    }
                }
                Some(v)
            },
            None => {
                proof {
                    assert(self.contents@.remove(key@) =~= self.contents@);
                }
                None
            },
        }
    }

    /// A well-formed map holds finitely many entries.
    pub proof fn lemma_contents_finite(&self)
        requires
            self.well_formed(),
        ensures
            self@.dom().finite(),
    {
    }

    /// The number of entries.
    pub fn len(&self) -> (n: usize)
        requires
            self.well_formed(),
        ensures
            n == self@.len(),
    {
        self.size
    }

    /// True when the map holds no entries.
    pub fn is_empty(&self) -> (b: bool)
        requires
            self.well_formed(),
        ensures
            b == (self@.len() == 0),
    {
        self.size == 0
    }
}

/// A read gives back the last write of its key, and writes and removals of
/// one key leave the others alone.
pub proof fn get_after_insert<K, V>(m: Map<K, V>, k: K, v: V, other: K)
    requires
        other != k,
    ensures
        m.insert(k, v).contains_key(k),
        m.insert(k, v)[k] == v,
        m.insert(k, v).contains_key(other) == m.contains_key(other),
        m.contains_key(other) ==> m.insert(k, v)[other] == m[other],
        !m.remove(k).contains_key(k),
        m.remove(k).contains_key(other) == m.contains_key(other),
        m.contains_key(other) ==> m.remove(k)[other] == m[other],
{
}

} // verus!
