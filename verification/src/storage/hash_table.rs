//! The page table's structure: a fixed number of buckets, each a list of
//! key-value pairs; a key lives in the bucket that its hash selects.

use std::collections::hash_map::DefaultHasher;
use std::hash::Hasher;
use vstd::prelude::*;
use vstd::std_specs::hash::DefaultHasherAdditionalSpecFns;
use vstd::string::StringSliceAdditionalSpecFns;
use crate::strings::str_eq;

verus! {

/// A key of the page table: it can be compared with another key and it
/// has a hash. Both go by the key's view: keys with equal views are the
/// same key.
pub trait ShardKey: View + Copy {
    /// The hash of the key.
    spec fn spec_shard_hash(&self) -> u64;

    /// Keys with equal views have equal hashes.
    proof fn lemma_shard_hash(a: Self, b: Self)
        requires
            a@ == b@,
        ensures
            a.spec_shard_hash() == b.spec_shard_hash(),
    ;

    /// The hash of the key.
    fn shard_hash(&self) -> (h: u64)
        ensures
            h == self.spec_shard_hash(),
    ;

    /// Whether the two keys are the same key.
    fn same(&self, other: &Self) -> (r: bool)
        ensures
            r == (self@ == other@),
    ;
}

/// The map that a list of pairs stands for; of two pairs with one key the
/// later one counts.
pub open spec fn pairs_map<K: View, V>(items: Seq<(K, V)>) -> Map<K::V, V>
    decreases items.len(),
{
    if items.len() == 0 {
        Map::empty()
    } else {
        pairs_map(items.drop_last()).insert(items.last().0@, items.last().1)
    }
}

/// Whether `i` is the last pair of `items` with the key `key`.
pub open spec fn is_last_pair<K: View, V>(items: Seq<(K, V)>, key: K::V, i: int) -> bool {
    &&& 0 <= i < items.len()
    &&& items[i].0@ == key
    &&& forall|j: int| i < j < items.len() ==> items[j].0@ != key
}

/// A key that no pair carries is not in the map.
pub proof fn lemma_pairs_map_absent<K: View, V>(items: Seq<(K, V)>, key: K::V)
    requires
        forall|j: int| 0 <= j < items.len() ==> items[j].0@ != key,
    ensures
        !pairs_map(items).contains_key(key),
    decreases items.len(),
{
    if items.len() > 0 {
        lemma_pairs_map_absent(items.drop_last(), key);
    }
}

/// The map holds, under a key, the value of the last pair with that key.
pub proof fn lemma_pairs_map_at<K: View, V>(items: Seq<(K, V)>, key: K::V, i: int)
    requires
        is_last_pair(items, key, i),
    ensures
        pairs_map(items).contains_key(key),
        pairs_map(items)[key] == items[i].1,
    decreases items.len(),
{
    if i < items.len() - 1 {
        lemma_pairs_map_at(items.drop_last(), key, i);
    }
}

/// Replacing the last pair with a key stores the new value under the key.
pub proof fn lemma_pairs_map_update<K: View, V>(items: Seq<(K, V)>, i: int, pair: (K, V))
    requires
        is_last_pair(items, pair.0@, i),
    ensures
        pairs_map(items.update(i, pair)) == pairs_map(items).insert(pair.0@, pair.1),
    decreases items.len(),
{
    let after = items.update(i, pair);
    if i == items.len() - 1 {
        assert(after.drop_last() =~= items.drop_last());
        assert(pairs_map(after) =~= pairs_map(items).insert(pair.0@, pair.1));
    } else {
        assert(after.drop_last() =~= items.drop_last().update(i, pair));
        lemma_pairs_map_update(items.drop_last(), i, pair);
        assert(pairs_map(after) =~= pairs_map(items).insert(pair.0@, pair.1));
    }
}

/// One bucket: the pairs whose keys hash to it.
#[derive(Debug)]
pub struct Bucket<K, V> where K: ShardKey, V: Copy {
    items: Vec<(K, V)>,
}

impl<K, V> View for Bucket<K, V> where K: ShardKey, V: Copy {
    type V = Map<K::V, V>;

    closed spec fn view(&self) -> Map<K::V, V> {
        pairs_map(self.items@)
    }
}

impl<K, V> Bucket<K, V> where K: ShardKey, V: Copy {
    /// An empty bucket.
    pub fn new() -> (r: Self)
        ensures
            r@ == Map::<K::V, V>::empty(),
    {
        Bucket { items: Vec::new() }
    }

    fn position(&self, key: K) -> (r: Option<usize>)
        ensures
            match r {
                Some(i) => is_last_pair(self.items@, key@, i as int),
                None => forall|j: int| 0 <= j < self.items@.len() ==> self.items@[j].0@ != key@,
            },
    {
        let mut i: usize = self.items.len();
        while i > 0
            invariant
                i <= self.items.len(),
                forall|j: int| i <= j < self.items@.len() ==> self.items@[j].0@ != key@,
            decreases i,
        {
            i -= 1;
            let found = self.items[i].0.same(&key);
            if found {
                return Some(i);
            }
        }
        None
    }

    /// The value stored under `key`, if there is one.
    pub fn get(&self, key: K) -> (r: Option<V>)
        ensures
            r == if self@.contains_key(key@) {
                Some(self@[key@])
            } else {
                None
            },
    {
        match self.position(key) {
            Some(i) => {
                proof {
                    lemma_pairs_map_at(self.items@, key@, i as int);
                }
                Some(self.items[i].1)
            },
            None => {
                proof {
                    lemma_pairs_map_absent(self.items@, key@);
                }
                None
            },
        }
    }

    /// Stores `value` under `key`, in place of the value that was there.
    pub fn put(&mut self, key: K, value: V)
        ensures
            final(self)@ == old(self)@.insert(key@, value),
    {
        match self.position(key) {
            Some(i) => {
                proof {
                    lemma_pairs_map_update(self.items@, i as int, (key, value));
                }
                self.items[i] = (key, value);
            },
            None => {
                self.items.push((key, value));
                assert(self.items@.drop_last() =~= old(self).items@);
            },
        }
    }

    /// Removes `key` and its value, if it is there.
    pub fn remove(&mut self, key: K)
        ensures
            final(self)@ == old(self)@.remove(key@),
    {
        let mut kept: Vec<(K, V)> = Vec::new();
        let mut i: usize = 0;
        while i < self.items.len()
            invariant
                *self == *old(self),
                i <= self.items.len(),
                pairs_map(kept@) == pairs_map(self.items@.take(i as int)).remove(key@),
            decreases self.items.len() - i,
        {
            let pair = self.items[i];
            let same = pair.0.same(&key);
            let ghost before = kept@;
            let ghost seen = self.items@.take(i as int);
            proof {
                assert(self.items@.take(i + 1).drop_last() =~= seen);
            }
            if !same {
                kept.push(pair);
                proof {
                    assert(kept@.drop_last() =~= before);
                    assert(pairs_map(kept@) =~= pairs_map(self.items@.take(i + 1)).remove(key@));
                }
            } else {
                proof {
                    assert(pairs_map(kept@) =~= pairs_map(self.items@.take(i + 1)).remove(key@));
                }
            }
            i += 1;
        }
        assert(self.items@.take(i as int) =~= self.items@);
        self.items = kept;
    }
}

/// The hash that the standard library's default hasher gives to the
/// given sequences of bytes, written to it one after the other.
pub open spec fn default_hash(writes: Seq<Seq<u8>>) -> u64 {
    DefaultHasher::spec_finish(writes)
}

impl<'a> ShardKey for &'a str {
    /// The hash of the string's bytes.
    open spec fn spec_shard_hash(&self) -> u64 {
        default_hash(seq![self.spec_bytes()])
    }

    proof fn lemma_shard_hash(a: Self, b: Self) {
    }

    fn shard_hash(&self) -> (h: u64) {
        let mut hasher = DefaultHasher::new();
        hasher.write(self.as_bytes());
        assert(hasher@ =~= seq![self.spec_bytes()]);
        hasher.finish()
    }

    fn same(&self, other: &Self) -> (r: bool) {
        str_eq(*self, *other)
    }
}

/// A table of `size` buckets; a key lives in the bucket whose index is the
/// key's hash modulo `size`.
#[derive(Debug)]
pub struct HashTable<K, V> where K: ShardKey, V: Copy {
    size: usize,
    pub buckets: Vec<Bucket<K, V>>,
}

/// The index of the bucket of a key with the given hash among `size`
/// buckets.
pub open spec fn bucket_index(hash: u64, size: nat) -> int
    recommends
        size > 0,
{
    hash as int % size as int
}

impl<K, V> View for HashTable<K, V> where K: ShardKey, V: Copy {
    type V = Map<K::V, V>;

    /// Under each key, what the key's own bucket holds under it.
    open spec fn view(&self) -> Map<K::V, V> {
        Map::new(
            |key: K::V| self.shards()[self.bucket_of_view(key)]@.contains_key(key),
            |key: K::V| self.shards()[self.bucket_of_view(key)]@[key],
        )
    }
}

impl<K, V> HashTable<K, V> where K: ShardKey, V: Copy {
    /// Whether the table has as many buckets as it was made with, and at
    /// least one.
    pub closed spec fn wf(&self) -> bool {
        self.size > 0 && self.buckets@.len() == self.size
    }

    /// The buckets, by index.
    pub closed spec fn shards(&self) -> Seq<Bucket<K, V>> {
        self.buckets@
    }

    /// The number of buckets.
    pub closed spec fn spec_size(&self) -> nat {
        self.size as nat
    }

    /// The index of the bucket of `key`.
    pub open spec fn spec_bucket(&self, key: K) -> int {
        bucket_index(key.spec_shard_hash(), self.spec_size())
    }

    /// The index of the bucket of the keys with the view `key`.
    pub open spec fn bucket_of_view(&self, key: K::V) -> int {
        self.spec_bucket(choose|k: K| k@ == key)
    }

    /// The bucket of a key is the bucket of the keys with its view.
    pub proof fn lemma_bucket_of_view(&self, key: K)
        ensures
            self.bucket_of_view(key@) == self.spec_bucket(key),
    {
        let k = choose|k: K| k@ == key@;
        K::lemma_shard_hash(k, key);
    }

    /// A table of `size` empty buckets.
    pub fn new(size: usize) -> (r: Self)
        requires
            size > 0,
        ensures
            r.wf(),
            r.spec_size() == size,
            r@ == Map::<K::V, V>::empty(),
    {
        let mut buckets: Vec<Bucket<K, V>> = Vec::new();
        let mut i: usize = 0;
        while i < size
            invariant
                i <= size,
                buckets@.len() == i,
                forall|j: int| 0 <= j < i ==> (#[trigger] buckets@[j])@ == Map::<K::V, V>::empty(),
            decreases size - i,
        {
            buckets.push(Bucket::new());
            i += 1;
        }
        let r = HashTable { size, buckets };
        assert(r@ =~= Map::<K::V, V>::empty());
        r
    }

    /// The index of the bucket of `key`.
    pub fn calculate_bucket(&self, key: &K) -> (i: usize)
        requires
            self.wf(),
        ensures
            i == self.spec_bucket(*key),
            i < self.spec_size(),
    {
        let h: u64 = key.shard_hash();
        (h % (self.size as u64)) as usize
    }

    /// Whether the two keys live in one bucket.
    pub fn same_bucket(&self, key1: K, key2: K) -> (r: bool)
        requires
            self.wf(),
        ensures
            r == (self.spec_bucket(key1) == self.spec_bucket(key2)),
    {
        self.calculate_bucket(&key1) == self.calculate_bucket(&key2)
    }

    /// The bucket of `key`, to read and to change.
    pub fn get_bucket_locker(&mut self, key: K) -> (r: Option<&mut Bucket<K, V>>)
        requires
            old(self).wf(),
        ensures
            r is Some,
            *r->Some_0 == old(self).shards()[old(self).spec_bucket(key)],
            final(self).shards() == old(self).shards().update(
                old(self).spec_bucket(key),
                *final(r->Some_0),
            ),
            final(self).spec_size() == old(self).spec_size(),
            final(self).wf(),
    {
        let i = self.calculate_bucket(&key);
        Some(&mut self.buckets[i])
    }

    /// The value stored under `key`, if there is one.
    pub fn get(&self, key: K) -> (r: Option<V>)
        requires
            self.wf(),
        ensures
            r == if self@.contains_key(key@) {
                Some(self@[key@])
            } else {
                None
            },
    {
        proof {
            self.lemma_bucket_of_view(key);
        }
        let i = self.calculate_bucket(&key);
        self.buckets[i].get(key)
    }

    /// Stores `value` under `key`, in place of the value that was there.
    pub fn put(&mut self, key: K, value: V)
        requires
            old(self).wf(),
        ensures
            final(self).wf(),
            final(self).spec_size() == old(self).spec_size(),
            final(self)@ == old(self)@.insert(key@, value),
    {
        proof {
            self.lemma_bucket_of_view(key);
        }
        let i = self.calculate_bucket(&key);
        self.buckets[i].put(key, value);
        assert(self@ =~= old(self)@.insert(key@, value));
    }

    /// Removes `key` and its value, if it is there.
    pub fn remove(&mut self, key: K)
        requires
            old(self).wf(),
        ensures
            final(self).wf(),
            final(self).spec_size() == old(self).spec_size(),
            final(self)@ == old(self)@.remove(key@),
    {
        proof {
            self.lemma_bucket_of_view(key);
        }
        let i = self.calculate_bucket(&key);
        self.buckets[i].remove(key);
        assert(self@ =~= old(self)@.remove(key@));
    }
}

} // verus!
