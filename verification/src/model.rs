//! The mathematical model of a chain: a sequence of pairs of key and value,
//! and the map that such a sequence stands for.

use vstd::prelude::*;

verus! {

/// Whether some entry of `s` carries the key `k`.
pub open spec fn holds<A, B>(s: Seq<(A, B)>, k: A) -> bool {
    exists|i: int| 0 <= i < s.len() && (#[trigger] s[i]).0 == k
}

/// A position in `s` at which the key `k` stands, if there is one.
pub open spec fn slot_of<A, B>(s: Seq<(A, B)>, k: A) -> int {
    choose|i: int| 0 <= i < s.len() && (#[trigger] s[i]).0 == k
}

/// Whether no key occurs twice in `s`.
pub open spec fn distinct_keys<A, B>(s: Seq<(A, B)>) -> bool {
    forall|i: int, j: int|
        0 <= i < j < s.len() ==> (#[trigger] s[i]).0 != (#[trigger] s[j]).0
}

/// The map from each key of `s` to the value stored with it.
pub open spec fn to_map<A, B>(s: Seq<(A, B)>) -> Map<A, B> {
    Map::new(|k: A| holds(s, k), |k: A| s[slot_of(s, k)].1)
}

/// The chain `s` with `v` put in place of the value stored under `k`.
pub open spec fn with_value<A, B>(s: Seq<(A, B)>, k: A, v: B) -> Seq<(A, B)> {
    Seq::new(
        s.len(),
        |i: int|
            if s[i].0 == k {
                (k, v)
            } else {
                s[i]
            },
    )
}

/// The chain `s` with the entry under `k` taken out and the others in their order.
pub open spec fn without_key<A, B>(s: Seq<(A, B)>, k: A) -> Seq<(A, B)> {
    if holds(s, k) {
        s.remove(slot_of(s, k))
    } else {
        s
    }
}

/// With distinct keys, the key at position `i` stands at no other position.
pub proof fn lemma_slot_of<A, B>(s: Seq<(A, B)>, i: int)
    requires
        distinct_keys(s),
        0 <= i < s.len(),
    ensures
        holds(s, s[i].0),
        slot_of(s, s[i].0) == i,
{
}

/// With distinct keys, replacing the value under the key at position `i`
/// changes the entry at position `i` and no other.
pub proof fn lemma_with_value<A, B>(s: Seq<(A, B)>, i: int, v: B)
    requires
        distinct_keys(s),
        0 <= i < s.len(),
    ensures
        with_value(s, s[i].0, v) == s.update(i, (s[i].0, v)),
{
    assert forall|j: int| 0 <= j < s.len() && j != i implies (#[trigger] s[j]).0 != s[i].0 by {}
}

/// With distinct keys, taking out the key at position `i` removes position `i`.
pub proof fn lemma_without_key<A, B>(s: Seq<(A, B)>, i: int)
    requires
        distinct_keys(s),
        0 <= i < s.len(),
    ensures
        without_key(s, s[i].0) == s.remove(i),
{
    lemma_slot_of(s, i);
}

/// With distinct keys, the entry at position `i` is the one the map shows for its key.
pub proof fn lemma_to_map_at<A, B>(s: Seq<(A, B)>, i: int)
    requires
        distinct_keys(s),
        0 <= i < s.len(),
    ensures
        holds(s, s[i].0),
        to_map(s).contains_key(s[i].0),
        to_map(s)[s[i].0] == s[i].1,
{
    lemma_slot_of(s, i);
}

/// Putting a new key anywhere into a sequence of distinct keys adds it to the map.
pub proof fn lemma_to_map_insert<A, B>(s: Seq<(A, B)>, p: int, e: (A, B))
    requires
        distinct_keys(s),
        !holds(s, e.0),
        0 <= p <= s.len(),
    ensures
        distinct_keys(s.insert(p, e)),
        to_map(s.insert(p, e)) == to_map(s).insert(e.0, e.1),
{
    let t = s.insert(p, e);
    assert(distinct_keys(t));
    assert forall|k: A| holds(t, k) <==> (holds(s, k) || k == e.0) by {
        if holds(s, k) {
            let a = slot_of(s, k);
            let i = if a < p { a } else { a + 1 };
            assert(t[i].0 == k);
        }
        if k == e.0 {
            assert(t[p].0 == k);
        }
    }
    assert forall|k: A| holds(t, k) implies #[trigger] to_map(t)[k] == to_map(s).insert(
        e.0,
        e.1,
    )[k] by {
        if k == e.0 {
            lemma_to_map_at(t, p);
        } else {
            let a = slot_of(s, k);
            let i = if a < p { a } else { a + 1 };
            lemma_to_map_at(t, i);
            lemma_to_map_at(s, a);
        }
    }
}

/// Replacing an entry by one with the same key changes the value the map shows for it.
pub proof fn lemma_to_map_update<A, B>(s: Seq<(A, B)>, p: int, e: (A, B))
    requires
        distinct_keys(s),
        0 <= p < s.len(),
        s[p].0 == e.0,
    ensures
        distinct_keys(s.update(p, e)),
        to_map(s.update(p, e)) == to_map(s).insert(e.0, e.1),
{
    let t = s.update(p, e);
    assert(distinct_keys(t));
    assert forall|k: A| holds(t, k) <==> (holds(s, k) || k == e.0) by {
        if holds(s, k) {
            let a = slot_of(s, k);
            assert(t[a].0 == k);
        }
    }
    assert forall|k: A| holds(t, k) implies #[trigger] to_map(t)[k] == to_map(s).insert(
        e.0,
        e.1,
    )[k] by {
        if k == e.0 {
            lemma_to_map_at(t, p);
        } else {
            let a = slot_of(s, k);
            lemma_to_map_at(t, a);
            lemma_to_map_at(s, a);
        }
    }
}

/// Taking an entry out of a sequence of distinct keys takes its key out of the map.
pub proof fn lemma_to_map_remove<A, B>(s: Seq<(A, B)>, p: int)
    requires
        distinct_keys(s),
        0 <= p < s.len(),
    ensures
        distinct_keys(s.remove(p)),
        to_map(s.remove(p)) == to_map(s).remove(s[p].0),
{
    let t = s.remove(p);
    let gone = s[p].0;
    assert(distinct_keys(t));
    assert forall|k: A| holds(t, k) <==> (holds(s, k) && k != gone) by {
        if holds(s, k) && k != gone {
            let a = slot_of(s, k);
            let i = if a < p { a } else { a - 1 };
            assert(t[i].0 == k);
        }
    }
    assert forall|k: A| holds(t, k) implies #[trigger] to_map(t)[k] == to_map(s).remove(
        gone,
    )[k] by {
        let a = slot_of(s, k);
        let i = if a < p { a } else { a - 1 };
        lemma_to_map_at(t, i);
        lemma_to_map_at(s, a);
    }
}

/// A sequence of distinct keys stands for a finite map with one key per entry.
pub proof fn lemma_to_map_len<A, B>(s: Seq<(A, B)>)
    requires
        distinct_keys(s),
    ensures
        to_map(s).dom().finite(),
        to_map(s).len() == s.len(),
    decreases s.len(),
{
    if s.len() == 0 {
        assert(to_map(s) =~= Map::<A, B>::empty());
    } else {
        let r = s.drop_last();
        let e = s.last();
        assert(distinct_keys(r));
        assert(!holds(r, e.0));
        lemma_to_map_len(r);
        lemma_to_map_insert(r, r.len() as int, e);
        assert(r.insert(r.len() as int, e) =~= s);
    }
}

} // verus!
