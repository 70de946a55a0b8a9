//! The hash table: an array of chains, the map it stands for, and the
//! operations on it.

use crate::flat::{
    lemma_flatten_chain_push, lemma_flatten_chain_remove, lemma_flatten_chain_update,
    lemma_flatten_empty, lemma_flatten_index, lemma_flatten_locate, lemma_flatten_split, offset,
};
use crate::key::Key;
use crate::model::{
    distinct_keys, holds, lemma_to_map_at, lemma_to_map_insert, lemma_to_map_len,
    lemma_to_map_remove, lemma_to_map_update, lemma_with_value, lemma_without_key, slot_of, to_map,
    with_value, without_key,
};
use vstd::prelude::*;

verus! {

/// The number of buckets of a default table, and the least number by which a
/// resize grows a table.
pub const DEFAULT_BUCKET_SIZE: usize = 100;

/// The bucket in which a key with hash code `hash` belongs among `capacity` buckets.
pub open spec fn bucket_index(hash: u64, capacity: usize) -> int {
    (hash as int) % (capacity as int)
}

/// The capacity a table of capacity `capacity` has after a resize: twice the old
/// capacity or `DEFAULT_BUCKET_SIZE` more, whichever is larger, and never more
/// than `usize::MAX`.
pub open spec fn grown_capacity(capacity: usize) -> usize {
    let doubled = 2 * capacity;
    let stepped = capacity + DEFAULT_BUCKET_SIZE;
    let target = if doubled >= stepped { doubled } else { stepped };
    if target <= usize::MAX { target as usize } else { usize::MAX }
}

/// Whether every pair stands in the chain of the bucket that its key hashes to.
pub open spec fn placed<K: Key, V>(chains: Seq<Seq<(K::V, V)>>) -> bool {
    forall|j: int, p: int|
        0 <= j < chains.len() && 0 <= p < chains[j].len() ==> bucket_index(
            K::spec_hash((#[trigger] chains[j][p]).0),
            chains.len() as usize,
        ) == j
}

/// A key together with the value stored under it.
pub(crate) struct Entry<K, V> {
    pub(crate) key: K,
    pub(crate) value: V,
}

/// The entries of a chain as pairs of key view and value, in order.
pub(crate) open spec fn pairs_of<K: Key, V>(chain: Seq<Entry<K, V>>) -> Seq<(K::V, V)> {
    Seq::new(chain.len(), |p: int| (chain[p].key@, chain[p].value))
}

/// The chains of an array of buckets, bucket by bucket.
pub(crate) open spec fn chains_of<K: Key, V>(buckets: Seq<Vec<Entry<K, V>>>) -> Seq<
    Seq<(K::V, V)>,
> {
    Seq::new(buckets.len(), |j: int| pairs_of(buckets[j]@))
}

/// A hash table with separate chaining.
///
/// Each bucket holds the chain of the entries whose keys hash to it, so keys
/// that collide are kept side by side. The table stands for a finite map from
/// key views to values, its view. The load factor never exceeds one: an insert
/// of a new key into a table that holds as many entries as buckets first grows
/// the table.
pub struct HashTable<K: Key, V> {
    pub(crate) buckets: Vec<Vec<Entry<K, V>>>,
    pub(crate) size: usize,
}

impl<K: Key, V> View for HashTable<K, V> {
    type V = Map<K::V, V>;

    open spec fn view(&self) -> Map<K::V, V> {
        to_map(self.pairs())
    }
}

impl<K: Key, V> HashTable<K, V> {
    /// The chains of the table, bucket by bucket, each entry as a pair of key
    /// view and value.
    pub closed spec fn chains(&self) -> Seq<Seq<(K::V, V)>> {
        chains_of(self.buckets@)
    }

    /// All entries of the table, bucket by bucket and in chain order.
    pub open spec fn pairs(&self) -> Seq<(K::V, V)> {
        self.chains().flatten()
    }

    /// The number of buckets.
    pub closed spec fn spec_capacity(&self) -> usize {
        self.buckets.len()
    }

    /// The bucket in which a key with view `k` belongs.
    pub open spec fn spec_index(&self, k: K::V) -> int {
        bucket_index(K::spec_hash(k), self.spec_capacity())
    }

    /// Whether storing a value under `k` makes the table grow: `k` is new and
    /// the table holds as many entries as buckets.
    pub open spec fn grows_for(&self, k: K::V) -> bool {
        !self@.contains_key(k) && self@.len() >= self.spec_capacity()
    }

    /// The chains after a value `v` is stored under `k` without a resize: where
    /// `k` is present its value is replaced in place, and where it is new the
    /// pair is appended to the chain of its bucket.
    pub open spec fn chains_with(&self, k: K::V, v: V) -> Seq<Seq<(K::V, V)>> {
        let i = self.spec_index(k);
        let chain = self.chains()[i];
        self.chains().update(
            i,
            if holds(chain, k) {
                with_value(chain, k, v)
            } else {
                chain.push((k, v))
            },
        )
    }

    /// The chains after `k` is removed: the chain of its bucket loses the entry
    /// under `k`, if it has one, and nothing else changes.
    pub open spec fn chains_without(&self, k: K::V) -> Seq<Seq<(K::V, V)>> {
        let i = self.spec_index(k);
        self.chains().update(i, without_key(self.chains()[i], k))
    }

    /// The invariant of the table: there is at least one bucket, every entry
    /// stands in the bucket its key hashes to, no key occurs twice, the entry
    /// count is exact, and there are no more entries than buckets.
    pub closed spec fn wf(&self) -> bool {
        &&& self.buckets.len() > 0
        &&& placed::<K, V>(self.chains())
        &&& distinct_keys(self.pairs())
        &&& self.size == self.pairs().len()
        &&& self.size <= self.buckets.len()
    }

    /// What the invariant says of the chains and the view: the capacity is the
    /// number of chains and is not zero, every entry stands in the bucket its
    /// key hashes to, no key occurs twice, and the view has one key for each
    /// entry and no more keys than there are buckets.
    pub proof fn lemma_wf(&self)
        requires
            self.wf(),
        ensures
            self.chains().len() == self.spec_capacity(),
            self.spec_capacity() > 0,
            placed::<K, V>(self.chains()),
            distinct_keys(self.pairs()),
            self@.dom().finite(),
            self@.len() == self.pairs().len(),
            self@.len() <= self.spec_capacity(),
    {
        lemma_to_map_len(self.pairs());
    }

    /// A key is in the table exactly when the chain of its bucket holds it,
    /// and that chain holds it once, with the value that the view shows.
    pub proof fn lemma_key_in_its_bucket(&self, k: K::V)
        requires
            self.wf(),
        ensures
            0 <= self.spec_index(k) < self.chains().len(),
            distinct_keys(self.chains()[self.spec_index(k)]),
            self@.contains_key(k) <==> holds(self.chains()[self.spec_index(k)], k),
            self@.contains_key(k) ==> self@[k] == self.chains()[self.spec_index(k)][slot_of(
                self.chains()[self.spec_index(k)],
                k,
            )].1,
    {
        let i = self.spec_index(k);
        self.lemma_index_in_range(k);
        self.lemma_chain_distinct(i);
        let chain = self.chains()[i];
        if holds(chain, k) {
            self.lemma_present(i, slot_of(chain, k));
        } else {
            self.lemma_absent(k);
        }
    }

    /// The bucket of every key lies within the table.
    proof fn lemma_index_in_range(&self, k: K::V)
        requires
            self.wf(),
        ensures
            0 <= self.spec_index(k) < self.chains().len(),
    {
        let hash = K::spec_hash(k) as int;
        let capacity = self.spec_capacity() as int;
        assert(0 <= hash % capacity < capacity) by (nonlinear_arith)
            requires
                capacity > 0,
        ;
    }

    /// No key occurs twice in the chain of bucket `j`.
    proof fn lemma_chain_distinct(&self, j: int)
        requires
            self.wf(),
            0 <= j < self.chains().len(),
        ensures
            distinct_keys(self.chains()[j]),
    {
        let chains = self.chains();
        assert forall|p: int, q: int| 0 <= p < q < chains[j].len() implies (
        #[trigger] chains[j][p]).0 != (#[trigger] chains[j][q]).0 by {
            lemma_flatten_index(chains, j, p);
            lemma_flatten_index(chains, j, q);
        }
    }

    /// A key that the chain of its bucket does not hold is not in the table.
    proof fn lemma_absent(&self, k: K::V)
        requires
            self.wf(),
            0 <= self.spec_index(k) < self.chains().len(),
            !holds(self.chains()[self.spec_index(k)], k),
        ensures
            !holds(self.pairs(), k),
            !self@.contains_key(k),
    {
        if holds(self.pairs(), k) {
            lemma_flatten_locate(self.chains(), slot_of(self.pairs(), k));
        }
    }

    /// The entry at position `p` of bucket `j` is the one the view shows for its key.
    proof fn lemma_present(&self, j: int, p: int)
        requires
            self.wf(),
            0 <= j < self.chains().len(),
            0 <= p < self.chains()[j].len(),
        ensures
            self@.contains_key(self.chains()[j][p].0),
            self@[self.chains()[j][p].0] == self.chains()[j][p].1,
    {
        lemma_flatten_index(self.chains(), j, p);
        lemma_to_map_at(self.pairs(), offset(self.chains(), j) + p);
    }

    /// What appending a pair with a new key to the chain of its bucket does to a table.
    proof fn lemma_appended(&self, after: &Self, pair: (K::V, V))
        requires
            self.wf(),
            self.size < self.buckets@.len(),
            !self@.contains_key(pair.0),
            after.chains() == self.chains_with(pair.0, pair.1),
            after.size == self.size + 1,
        ensures
            after.wf(),
            after@ == self@.insert(pair.0, pair.1),
            after.spec_capacity() == self.spec_capacity(),
            after.chains()[after.spec_index(pair.0)].len() > 0,
            after.chains()[after.spec_index(pair.0)].last() == pair,
    {
        let b = self.chains();
        let j = self.spec_index(pair.0);
        self.lemma_key_in_its_bucket(pair.0);
        lemma_flatten_chain_push(b, j, pair);
        lemma_flatten_split(b, j);
        lemma_to_map_insert(self.pairs(), offset(b, j) + b[j].len(), pair);
        assert(after.buckets@.len() == self.buckets@.len());
        assert(placed::<K, V>(after.chains()));
    }

    /// What replacing the value under a key that is present does to a table.
    proof fn lemma_replaced(&self, after: &Self, k: K::V, v: V)
        requires
            self.wf(),
            self@.contains_key(k),
            after.chains() == self.chains_with(k, v),
            after.size == self.size,
        ensures
            after.wf(),
            after@ == self@.insert(k, v),
            after.spec_capacity() == self.spec_capacity(),
    {
        let b = self.chains();
        let j = self.spec_index(k);
        self.lemma_key_in_its_bucket(k);
        let p = slot_of(b[j], k);
        lemma_with_value(b[j], p, v);
        lemma_flatten_chain_update(b, j, p, (k, v));
        lemma_flatten_index(b, j, p);
        lemma_to_map_update(self.pairs(), offset(b, j) + p, (k, v));
        assert(after.buckets@.len() == self.buckets@.len());
        assert(placed::<K, V>(after.chains()));
    }

    /// What taking a key that is present out of the chain of its bucket does to a table.
    proof fn lemma_removed(&self, after: &Self, k: K::V)
        requires
            self.wf(),
            self@.contains_key(k),
            after.chains() == self.chains_without(k),
            after.size == self.size - 1,
        ensures
            after.wf(),
            after@ == self@.remove(k),
            after.spec_capacity() == self.spec_capacity(),
    {
        let b = self.chains();
        let j = self.spec_index(k);
        self.lemma_key_in_its_bucket(k);
        let p = slot_of(b[j], k);
        lemma_flatten_chain_remove(b, j, p);
        lemma_flatten_index(b, j, p);
        lemma_to_map_remove(self.pairs(), offset(b, j) + p);
        assert(after.buckets@.len() == self.buckets@.len());
        assert(placed::<K, V>(after.chains()));
    }

    /// The chains of a table are those of its buckets.
    pub(crate) proof fn lemma_chains_of_buckets(&self)
        ensures
            self.chains() == chains_of(self.buckets@),
    {
    }

    /// Creates an empty table with `with_capacity` buckets, or with one bucket
    /// where `with_capacity` is zero.
    pub fn new(with_capacity: usize) -> (table: Self)
        ensures
            table.wf(),
            table@ == Map::<K::V, V>::empty(),
            table.spec_capacity() == if with_capacity == 0 { 1 } else { with_capacity },
            table.chains() == Seq::new(
                table.spec_capacity() as nat,
                |j: int| Seq::<(K::V, V)>::empty(),
            ),
    {
        let capacity: usize = if with_capacity == 0 { 1 } else { with_capacity };
        let buckets = empty_buckets::<K, V>(capacity);
        let table = HashTable { buckets, size: 0 };
        proof {
            lemma_flatten_empty(table.chains());
            assert(table.chains() =~~= Seq::new(capacity as nat, |j: int| Seq::<(K::V, V)>::empty()));
        }
        table
    }

    /// The number of entries.
    pub fn size(&self) -> (n: usize)
        requires
            self.wf(),
        ensures
            n == self@.len(),
            n == self.pairs().len(),
            self@.dom().finite(),
    {
        proof {
            lemma_to_map_len(self.pairs());
        }
        self.size
    }

    /// The number of buckets.
    #[verifier::when_used_as_spec(spec_capacity)]
    pub fn capacity(&self) -> (n: usize)
        ensures
            n == self.spec_capacity(),
    {
        self.buckets.len()
    }

    /// Computes the bucket in which `key` belongs: its hash code modulo the capacity.
    pub fn create_index(&self, key: &K) -> (index: usize)
        requires
            self.wf(),
        ensures
            index == self.spec_index(key@),
            index < self.spec_capacity(),
    {
        index_for(key.hash_code(), self.buckets.len())
    }

    /// Looks `key` up in the chain of its bucket and returns a clone of the
    /// value stored under it, if there is one.
    pub fn get(&self, key: K) -> (found: Option<V>) where V: Clone
        requires
            self.wf(),
        ensures
            match found {
                Some(value) => self@.contains_key(key@) && cloned(self@[key@], value),
                None => !self@.contains_key(key@),
            },
    {
        let index = self.create_index(&key);
        let chain = &self.buckets[index];
        match find(chain, &key) {
            Some(slot) => {
                proof {
                    self.lemma_present(index as int, slot as int);
                }
                Some(chain[slot].value.clone())
            },
            None => {
                proof {
                    self.lemma_absent(key@);
                }
                None
            },
        }
    }

    /// Stores `value` under `key`.
    ///
    /// Where the key is present its value is replaced in place and nothing else
    /// changes. Where it is new, the pair is appended to the chain of its
    /// bucket; if the table holds as many entries as buckets, it is resized
    /// before that, and the bucket is the one the key has under the new capacity.
    pub fn insert(&mut self, key: K, value: V)
        requires
            old(self).wf(),
            old(self)@.len() < usize::MAX,
        ensures
            final(self).wf(),
            final(self)@ == old(self)@.insert(key@, value),
            final(self).spec_capacity() == if old(self).grows_for(key@) {
                grown_capacity(old(self).spec_capacity())
            } else {
                old(self).spec_capacity()
            },
            !old(self).grows_for(key@) ==> final(self).chains() == old(self).chains_with(
                key@,
                value,
            ),
            !old(self)@.contains_key(key@) ==> final(self).chains()[final(self).spec_index(
                key@,
            )].len() > 0 && final(self).chains()[final(self).spec_index(key@)].last() == (
                key@,
                value,
            ),
    {
        proof {
            self.lemma_wf();
        }
        let hash = key.hash_code();
        let index = index_for(hash, self.buckets.len());
        match find(&self.buckets[index], &key) {
            Some(slot) => {
                let ghost before = *self;
                proof {
                    self.lemma_present(index as int, slot as int);
                    self.lemma_chain_distinct(index as int);
                    lemma_with_value(self.chains()[index as int], slot as int, value);
                }
                self.buckets[index][slot].value = value;
                proof {
                    assert(self.chains() =~~= before.chains_with(key@, value));
                    before.lemma_replaced(&*self, key@, value);
                }
            },
            None => {
                proof {
                    self.lemma_absent(key@);
                }
                if self.size >= self.buckets.len() {
                    self.resize();
                }
                let ghost before = *self;
                let index = index_for(hash, self.buckets.len());
                proof {
                    self.lemma_wf();
                    self.lemma_key_in_its_bucket(key@);
                }
                self.buckets[index].push(Entry { key, value });
                self.size = self.size + 1;
                proof {
                    assert(self.chains() =~~= before.chains_with(key@, value));
                    before.lemma_appended(&*self, (key@, value));
                }
            },
        }
    }

    /// Removes `key` and the value stored under it from the chain of its
    /// bucket, and tells whether the key was present. No other entry is touched.
    pub fn delete(&mut self, key: K) -> (removed: bool)
        requires
            old(self).wf(),
        ensures
            final(self).wf(),
            final(self)@ == old(self)@.remove(key@),
            removed == old(self)@.contains_key(key@),
            final(self).spec_capacity() == old(self).spec_capacity(),
            final(self).chains() == old(self).chains_without(key@),
    {
        let index = self.create_index(&key);
        let ghost before = *self;
        match find(&self.buckets[index], &key) {
            Some(slot) => {
                proof {
                    self.lemma_wf();
                    self.lemma_present(index as int, slot as int);
                    self.lemma_chain_distinct(index as int);
                    lemma_without_key(self.chains()[index as int], slot as int);
                    lemma_flatten_index(self.chains(), index as int, slot as int);
                }
                self.buckets[index].remove(slot);
                self.size = self.size - 1;
                proof {
                    assert(self.chains() =~~= before.chains_without(key@));
                    before.lemma_removed(&*self, key@);
                }
                true
            },
            None => {
                proof {
                    self.lemma_absent(key@);
                }
                false
            },
        }
    }

    /// Grows the table to `grown_capacity` buckets and moves every entry to the
    /// chain of the bucket that its key hashes to under the new capacity. No
    /// entry is lost or doubled: the view is unchanged.
    pub fn resize(&mut self)
        requires
            old(self).wf(),
        ensures
            final(self).wf(),
            final(self)@ == old(self)@,
            final(self).spec_capacity() == grown_capacity(old(self).spec_capacity()),
            placed::<K, V>(final(self).chains()),
    {
        let capacity = grow(self.buckets.len());
        let mut fresh = empty_buckets::<K, V>(capacity);
        let mut drained: Vec<Vec<Entry<K, V>>> = Vec::new();
        let ghost all = self.pairs();
        let ghost mut left: int = all.len() as int;
        core::mem::swap(&mut self.buckets, &mut drained);
        proof {
            lemma_flatten_empty(chains_of(fresh@));
        }
        while drained.len() > 0
            invariant
                capacity > 0,
                fresh@.len() == capacity,
                placed::<K, V>(chains_of(fresh@)),
                distinct_keys(all),
                0 <= left <= all.len(),
                chains_of(drained@).flatten() == all.take(left),
                distinct_keys(chains_of(fresh@).flatten()),
                to_map(chains_of(fresh@).flatten()) == to_map(all.skip(left)),
                chains_of(fresh@).flatten().len() == all.len() - left,
            decreases drained@.len(),
        {
            let ghost full = chains_of(drained@);
            let mut chain = drained.pop().unwrap();
            proof {
                let last = full.len() - 1;
                lemma_flatten_split(full, last);
                assert(full.take(last) =~= chains_of(drained@));
            }
            while chain.len() > 0
                invariant
                    capacity > 0,
                    fresh@.len() == capacity,
                    placed::<K, V>(chains_of(fresh@)),
                    distinct_keys(all),
                    0 <= left <= all.len(),
                    chains_of(drained@).flatten() + pairs_of(chain@) == all.take(left),
                    distinct_keys(chains_of(fresh@).flatten()),
                    to_map(chains_of(fresh@).flatten()) == to_map(all.skip(left)),
                    chains_of(fresh@).flatten().len() == all.len() - left,
                decreases chain@.len(),
            {
                let ghost rest = chains_of(drained@).flatten();
                let ghost whole = pairs_of(chain@);
                let ghost target = chains_of(fresh@);
                let entry = chain.pop().unwrap();
                let index = index_for(entry.key.hash_code(), capacity);
                let ghost pair = (entry.key@, entry.value);
                proof {
                    assert((rest + whole).len() == all.take(left).len());
                    assert(pair == (rest + whole)[left - 1]);
                    lemma_moved::<K, V>(all, left, target, index as int, pair);
                }
                fresh[index].push(entry);
                proof {
                    left = left - 1;
                    assert(chains_of(fresh@) =~~= target.update(
                        index as int,
                        target[index as int].push(pair),
                    ));
                }
            }
        }
        proof {
            assert(all.skip(0) =~= all);
        }
        self.buckets = fresh;
    }
}

impl<K: Key, V> Default for HashTable<K, V> {
    /// Creates an empty table with `DEFAULT_BUCKET_SIZE` buckets.
    fn default() -> (table: Self)
        ensures
            table.wf(),
            table@ == Map::<K::V, V>::empty(),
            table.spec_capacity() == DEFAULT_BUCKET_SIZE,
    {
        Self::new(DEFAULT_BUCKET_SIZE)
    }
}

/// Reduces a hash code to a bucket index among `capacity` buckets.
fn index_for(hash: u64, capacity: usize) -> (index: usize)
    requires
        capacity > 0,
    ensures
        index == bucket_index(hash, capacity),
        index < capacity,
{
    (hash % (capacity as u64)) as usize
}

/// Computes the capacity after a resize.
fn grow(capacity: usize) -> (grown: usize)
    ensures
        grown == grown_capacity(capacity),
{
    let doubled: usize = if capacity <= usize::MAX / 2 {
        capacity * 2
    } else {
        usize::MAX
    };
    let stepped: usize = if capacity <= usize::MAX - DEFAULT_BUCKET_SIZE {
        capacity + DEFAULT_BUCKET_SIZE
    } else {
        usize::MAX
    };
    if doubled >= stepped {
        doubled
    } else {
        stepped
    }
}

/// One step of a rehash: the last of the `left` pairs still to move goes to
/// bucket `j` of the new chains, which until then stand for the pairs moved
/// before it.
proof fn lemma_moved<K: Key, V>(
    all: Seq<(K::V, V)>,
    left: int,
    target: Seq<Seq<(K::V, V)>>,
    j: int,
    pair: (K::V, V),
)
    requires
        distinct_keys(all),
        0 < left <= all.len(),
        pair == all[left - 1],
        0 <= j < target.len(),
        j == bucket_index(K::spec_hash(pair.0), target.len() as usize),
        placed::<K, V>(target),
        distinct_keys(target.flatten()),
        to_map(target.flatten()) == to_map(all.skip(left)),
        target.flatten().len() == all.len() - left,
    ensures
        ({
            let after = target.update(j, target[j].push(pair));
            &&& placed::<K, V>(after)
            &&& distinct_keys(after.flatten())
            &&& to_map(after.flatten()) == to_map(all.skip(left - 1))
            &&& after.flatten().len() == all.len() - (left - 1)
        }),
{
    let moved = target.flatten();
    let tail = all.skip(left);
    assert(!holds(tail, pair.0)) by {
        if holds(tail, pair.0) {
            let i = slot_of(tail, pair.0);
            assert(all[left - 1].0 != all[left + i].0);
        }
    }
    assert(!holds(moved, pair.0)) by {
        assert(to_map(moved).contains_key(pair.0) == to_map(tail).contains_key(pair.0));
    }
    assert(distinct_keys(tail));
    lemma_flatten_chain_push(target, j, pair);
    lemma_flatten_split(target, j);
    lemma_to_map_insert(moved, offset(target, j) + target[j].len(), pair);
    lemma_to_map_insert(tail, 0, pair);
    assert(tail.insert(0, pair) =~= all.skip(left - 1));
}

/// Builds `capacity` empty chains.
fn empty_buckets<K: Key, V>(capacity: usize) -> (buckets: Vec<Vec<Entry<K, V>>>)
    ensures
        buckets@.len() == capacity,
        forall|j: int| 0 <= j < capacity ==> (#[trigger] buckets@[j])@.len() == 0,
{
    let mut buckets: Vec<Vec<Entry<K, V>>> = Vec::new();
    while buckets.len() < capacity
        invariant
            buckets@.len() <= capacity,
            forall|j: int| 0 <= j < buckets@.len() ==> (#[trigger] buckets@[j])@.len() == 0,
        decreases capacity - buckets@.len(),
    {
        buckets.push(Vec::new());
    }
    buckets
}

/// Scans `chain` for an entry whose key equals `key` and returns its position.
fn find<K: Key, V>(chain: &Vec<Entry<K, V>>, key: &K) -> (found: Option<usize>)
    ensures
        match found {
            Some(slot) => slot < chain@.len() && chain@[slot as int].key@ == key@,
            None => !holds(pairs_of(chain@), key@),
        },
{
    let mut slot: usize = 0;
    while slot < chain.len()
        invariant
            slot <= chain@.len(),
            forall|i: int| 0 <= i < slot ==> (#[trigger] pairs_of(chain@)[i]).0 != key@,
        decreases chain@.len() - slot,
    {
        if chain[slot].key.same_key(key) {
            return Some(slot);
        }
        slot += 1;
    }
    None
}

} // verus!
