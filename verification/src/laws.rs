//! Laws that relate the operations of a table to one another.
//!
//! Each law speaks of tables before and after an operation and ties them
//! together by what the operation guarantees of the views: `insert` takes the
//! view `m` to `m.insert(k, v)`, `delete` takes it to `m.remove(k)`, and
//! `resize` leaves it alone. `get` reports `m[k]` where `m` contains `k`, and
//! `size` reports `m.len()`.

use crate::key::Key;
use crate::model::{holds, slot_of};
use crate::table::HashTable;
use vstd::prelude::*;

verus! {

/// A key reads back the value that was inserted under it.
pub proof fn law_get_after_insert<K: Key, V>(
    before: HashTable<K, V>,
    after: HashTable<K, V>,
    key: K::V,
    value: V,
)
    requires
        after@ == before@.insert(key, value),
    ensures
        after@.contains_key(key),
        after@[key] == value,
{
}

/// Inserting, deleting or resizing leaves every key other than the one
/// operated on as it was: present with the same value, or absent.
pub proof fn law_other_keys_keep<K: Key, V>(
    before: HashTable<K, V>,
    after: HashTable<K, V>,
    key: K::V,
    value: V,
    other: K::V,
)
    requires
        other != key,
        after@ == before@.insert(key, value) || after@ == before@.remove(key) || after@
            == before@,
    ensures
        after@.contains_key(other) == before@.contains_key(other),
        before@.contains_key(other) ==> after@[other] == before@[other],
{
}

/// Whether the step from the view `before` to the view `after` is one that an
/// operation on a key other than `key`, or a resize, can make.
pub open spec fn spares<A, B>(before: Map<A, B>, after: Map<A, B>, key: A) -> bool {
    ||| after == before
    ||| exists|other: A, value: B| other != key && after == #[trigger] before.insert(other, value)
    ||| exists|other: A| other != key && after == #[trigger] before.remove(other)
}

/// A key keeps the value inserted under it for as long as it is neither
/// deleted nor overwritten: through any number of inserts and deletes of other
/// keys, and of resizes, it reads back that value.
pub proof fn law_value_persists<K: Key, V>(states: Seq<HashTable<K, V>>, key: K::V, value: V)
    requires
        states.len() > 0,
        states[0]@.contains_key(key),
        states[0]@[key] == value,
        forall|i: int|
            0 <= i < states.len() - 1 ==> spares(states[i]@, (#[trigger] states[i + 1])@, key),
    ensures
        states.last()@.contains_key(key),
        states.last()@[key] == value,
    decreases states.len(),
{
    if states.len() > 1 {
        let n = states.len() - 2;
        law_value_persists(states.drop_last(), key, value);
        assert(spares(states[n]@, states[n + 1]@, key));
    }
}

/// Inserting under a key that is present replaces its value and leaves the
/// size as it was; inserting under a new key adds one to the size.
pub proof fn law_insert_size<K: Key, V>(
    before: HashTable<K, V>,
    after: HashTable<K, V>,
    key: K::V,
    value: V,
)
    requires
        before.wf(),
        after@ == before@.insert(key, value),
    ensures
        after@[key] == value,
        after@.len() == before@.len() + if before@.contains_key(key) { 0nat } else { 1nat },
{
    before.lemma_wf();
}

/// Inserting the same key twice keeps the second value and the size that the
/// first insert left.
pub proof fn law_insert_twice<K: Key, V>(
    before: HashTable<K, V>,
    between: HashTable<K, V>,
    after: HashTable<K, V>,
    key: K::V,
    first: V,
    second: V,
)
    requires
        before.wf(),
        between@ == before@.insert(key, first),
        after@ == between@.insert(key, second),
    ensures
        after@[key] == second,
        after@.len() == between@.len(),
        after@ == before@.insert(key, second),
{
    before.lemma_wf();
}

/// A deleted key is no longer found, and the size drops by one where the key
/// was present and stays where it was not.
pub proof fn law_delete<K: Key, V>(before: HashTable<K, V>, after: HashTable<K, V>, key: K::V)
    requires
        before.wf(),
        after@ == before@.remove(key),
    ensures
        !after@.contains_key(key),
        after@.len() == before@.len() - if before@.contains_key(key) { 1nat } else { 0nat },
{
    before.lemma_wf();
}

/// Inserting `keys.len()` distinct keys one after another into an empty table
/// leaves a table of that size, whatever the capacities of the tables on the
/// way were.
pub proof fn law_size_counts_distinct_inserts<K: Key, V>(
    states: Seq<HashTable<K, V>>,
    keys: Seq<K::V>,
    values: Seq<V>,
)
    requires
        states.len() == keys.len() + 1,
        values.len() == keys.len(),
        keys.no_duplicates(),
        states[0]@ == Map::<K::V, V>::empty(),
        forall|i: int|
            0 <= i < keys.len() ==> (#[trigger] states[i + 1])@ == states[i]@.insert(
                keys[i],
                values[i],
            ),
    ensures
        states.last()@.dom().finite(),
        states.last()@.dom() == keys.to_set(),
        states.last()@.len() == keys.len(),
    decreases keys.len(),
{
    if keys.len() > 0 {
        let n = keys.len() - 1;
        let shorter = keys.drop_last();
        law_size_counts_distinct_inserts(states.drop_last(), shorter, values.drop_last());
        assert(!shorter.to_set().contains(keys[n])) by {
            if shorter.to_set().contains(keys[n]) {
                let i = choose|i: int| 0 <= i < shorter.len() && shorter[i] == keys[n];
                assert(keys[i] == keys[n]);
            }
        }
        assert(keys.to_set() =~= shorter.to_set().insert(keys[n])) by {
            assert forall|k: K::V| keys.to_set().contains(k) implies shorter.to_set().insert(
                keys[n],
            ).contains(k) by {
                let i = choose|i: int| 0 <= i < keys.len() && keys[i] == k;
                if i < n {
                    assert(shorter[i] == k);
                }
            }
        }
        assert(states.last()@ == states[n]@.insert(keys[n], values[n]));
    }
}

/// Two distinct keys that hash to the same bucket are stored and removed
/// independently of one another. After both are inserted each reads back its
/// own value, and both stand in the chain of their bucket, at different
/// positions. Deleting one leaves the other in that chain, with its value.
pub proof fn law_colliding_keys_independent<K: Key, V>(
    before: HashTable<K, V>,
    with_one: HashTable<K, V>,
    with_both: HashTable<K, V>,
    after: HashTable<K, V>,
    one: K::V,
    one_value: V,
    two: K::V,
    two_value: V,
)
    requires
        with_both.wf(),
        after.wf(),
        one != two,
        with_both.spec_index(one) == with_both.spec_index(two),
        with_one@ == before@.insert(one, one_value),
        with_both@ == with_one@.insert(two, two_value),
        after@ == with_both@.remove(one),
        after.chains() == with_both.chains_without(one),
    ensures
        with_both@.contains_key(one) && with_both@[one] == one_value,
        with_both@.contains_key(two) && with_both@[two] == two_value,
        ({
            let chain = with_both.chains()[with_both.spec_index(one)];
            &&& holds(chain, one) && chain[slot_of(chain, one)] == (one, one_value)
            &&& holds(chain, two) && chain[slot_of(chain, two)] == (two, two_value)
            &&& slot_of(chain, one) != slot_of(chain, two)
        }),
        !after@.contains_key(one),
        after@.contains_key(two) && after@[two] == two_value,
        ({
            let chain = after.chains()[with_both.spec_index(one)];
            &&& !holds(chain, one)
            &&& holds(chain, two) && chain[slot_of(chain, two)] == (two, two_value)
        }),
{
    with_both.lemma_key_in_its_bucket(one);
    with_both.lemma_key_in_its_bucket(two);
    with_both.lemma_wf();
    after.lemma_wf();
    assert(after.spec_capacity() == with_both.spec_capacity());
    after.lemma_key_in_its_bucket(one);
    after.lemma_key_in_its_bucket(two);
}

} // verus!
