//! Iteration over the entries of a table.

use crate::flat::lemma_flatten_from;
use crate::key::Key;
use crate::model::distinct_keys;
use crate::table::{chains_of, HashTable};
use vstd::prelude::*;

verus! {

/// A pass over the entries of a table, bucket by bucket and in chain order.
///
/// The pass borrows the table, so the table cannot change while it lasts. Each
/// call of `HashTable::iter` starts a new pass from the first bucket.
pub struct Iter<'a, K: Key, V> {
    table: &'a HashTable<K, V>,
    bucket: usize,
    slot: usize,
}

impl<'a, K: Key, V> Iter<'a, K, V> {
    /// The invariant of a pass: its position lies within the table.
    pub closed spec fn wf(&self) -> bool {
        &&& self.bucket <= self.table.buckets@.len()
        &&& self.bucket < self.table.buckets@.len() ==> self.slot
            <= self.table.buckets@[self.bucket as int]@.len()
    }

    /// The pairs that the pass has yet to yield, in the order in which it yields them.
    pub closed spec fn remaining(&self) -> Seq<(K::V, V)> {
        let chains = chains_of(self.table.buckets@);
        if self.bucket < chains.len() {
            chains[self.bucket as int].skip(self.slot as int) + chains.skip(
                self.bucket + 1,
            ).flatten()
        } else {
            Seq::empty()
        }
    }

    /// Yields the next entry of the pass, or `None` once every entry has been yielded.
    pub fn next(&mut self) -> (item: Option<(&'a K, &'a V)>)
        requires
            old(self).wf(),
        ensures
            final(self).wf(),
            match item {
                Some((key, value)) => {
                    &&& old(self).remaining().len() > 0
                    &&& old(self).remaining()[0] == (key@, *value)
                    &&& final(self).remaining() == old(self).remaining().drop_first()
                },
                None => {
                    &&& old(self).remaining().len() == 0
                    &&& final(self).remaining().len() == 0
                },
            },
    {
        let table = self.table;
        while self.bucket < table.buckets.len()
            invariant
                self.wf(),
                self.table == table,
                self.remaining() == old(self).remaining(),
            decreases table.buckets@.len() - self.bucket,
        {
            let chain = &table.buckets[self.bucket];
            if self.slot < chain.len() {
                let entry = &chain[self.slot];
                self.slot = self.slot + 1;
                return Some((&entry.key, &entry.value));
            }
            proof {
                let chains = chains_of(table.buckets@);
                let next = self.bucket + 1;
                if next < chains.len() {
                    lemma_flatten_from(chains, next);
                }
            }
            self.bucket = self.bucket + 1;
            self.slot = 0;
        }
        None
    }
}

impl<K: Key, V> HashTable<K, V> {
    /// Starts a pass over all entries of the table. The pass yields the pairs
    /// of the table, which hold each key of the view once, with its value.
    pub fn iter(&self) -> (pass: Iter<'_, K, V>)
        requires
            self.wf(),
        ensures
            pass.wf(),
            pass.remaining() == self.pairs(),
            distinct_keys(self.pairs()),
            self.pairs().len() == self@.len(),
    {
        let pass = Iter { table: self, bucket: 0, slot: 0 };
        proof {
            self.lemma_wf();
            self.lemma_chains_of_buckets();
            let chains = self.chains();
            lemma_flatten_from(chains, 0);
        }
        pass
    }
}

} // verus!
