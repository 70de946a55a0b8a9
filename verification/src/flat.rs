//! How a position in a flattened sequence of chains relates to a chain and a
//! position within it.

use vstd::prelude::*;
use vstd::seq_lib::lemma_flatten_concat;

verus! {

/// The number of elements that stand before chain `j` in the flattening of `b`.
pub open spec fn offset<A>(b: Seq<Seq<A>>, j: int) -> int {
    b.take(j).flatten().len() as int
}

/// The flattening is what stands before chain `j`, then chain `j`, then the rest.
pub proof fn lemma_flatten_split<A>(b: Seq<Seq<A>>, j: int)
    requires
        0 <= j < b.len(),
    ensures
        b.flatten() == b.take(j).flatten() + b[j] + b.skip(j + 1).flatten(),
{
    let one = seq![b[j]];
    assert(b =~= b.take(j) + one + b.skip(j + 1));
    lemma_flatten_concat(b.take(j) + one, b.skip(j + 1));
    lemma_flatten_concat(b.take(j), one);
    one.lemma_flatten_one_element();
}

/// Flattening from chain `j` on is chain `j`, then the flattening from the next chain on.
pub proof fn lemma_flatten_from<A>(b: Seq<Seq<A>>, j: int)
    requires
        0 <= j < b.len(),
    ensures
        b.skip(j).flatten() == b[j] + b.skip(j + 1).flatten(),
{
    assert(b.skip(j).drop_first() =~= b.skip(j + 1));
}

/// Replacing chain `j` replaces its stretch of the flattening and nothing else.
pub proof fn lemma_flatten_update<A>(b: Seq<Seq<A>>, j: int, c: Seq<A>)
    requires
        0 <= j < b.len(),
    ensures
        b.update(j, c).flatten() == b.take(j).flatten() + c + b.skip(j + 1).flatten(),
{
    let u = b.update(j, c);
    lemma_flatten_split(u, j);
    assert(u.take(j) =~= b.take(j));
    assert(u.skip(j + 1) =~= b.skip(j + 1));
}

/// Element `p` of chain `j` stands at `offset(b, j) + p` in the flattening.
pub proof fn lemma_flatten_index<A>(b: Seq<Seq<A>>, j: int, p: int)
    requires
        0 <= j < b.len(),
        0 <= p < b[j].len(),
    ensures
        0 <= offset(b, j) + p < b.flatten().len(),
        b.flatten()[offset(b, j) + p] == b[j][p],
{
    lemma_flatten_split(b, j);
}

/// Every position of the flattening lies in some chain: the result names the
/// chain and the position within it.
pub proof fn lemma_flatten_locate<A>(b: Seq<Seq<A>>, f: int) -> (at: (int, int))
    requires
        0 <= f < b.flatten().len(),
    ensures
        0 <= at.0 < b.len(),
        0 <= at.1 < b[at.0].len(),
        offset(b, at.0) + at.1 == f,
        b[at.0][at.1] == b.flatten()[f],
    decreases b.len(),
{
    if b.len() == 0 {
        (0, 0)
    } else {
        let j = b.len() - 1;
        lemma_flatten_split(b, j);
        if f < offset(b, j) {
            let at = lemma_flatten_locate(b.take(j), f);
            assert(b.take(j).take(at.0) =~= b.take(at.0));
            at
        } else {
            (j, f - offset(b, j))
        }
    }
}

/// Chains that are all empty flatten to nothing.
pub proof fn lemma_flatten_empty<A>(b: Seq<Seq<A>>)
    requires
        forall|j: int| 0 <= j < b.len() ==> (#[trigger] b[j]).len() == 0,
    ensures
        b.flatten().len() == 0,
    decreases b.len(),
{
    if b.len() > 0 {
        let j = b.len() - 1;
        lemma_flatten_split(b, j);
        lemma_flatten_empty(b.take(j));
    }
}

/// Appending to chain `j` inserts right behind its stretch of the flattening.
pub proof fn lemma_flatten_chain_push<A>(b: Seq<Seq<A>>, j: int, a: A)
    requires
        0 <= j < b.len(),
    ensures
        b.update(j, b[j].push(a)).flatten() == b.flatten().insert(offset(b, j) + b[j].len(), a),
{
    lemma_flatten_split(b, j);
    lemma_flatten_update(b, j, b[j].push(a));
}

/// Replacing element `p` of chain `j` replaces the matching element of the flattening.
pub proof fn lemma_flatten_chain_update<A>(b: Seq<Seq<A>>, j: int, p: int, a: A)
    requires
        0 <= j < b.len(),
        0 <= p < b[j].len(),
    ensures
        b.update(j, b[j].update(p, a)).flatten() == b.flatten().update(offset(b, j) + p, a),
{
    lemma_flatten_split(b, j);
    lemma_flatten_update(b, j, b[j].update(p, a));
}

/// Removing element `p` of chain `j` removes the matching element of the flattening.
pub proof fn lemma_flatten_chain_remove<A>(b: Seq<Seq<A>>, j: int, p: int)
    requires
        0 <= j < b.len(),
        0 <= p < b[j].len(),
    ensures
        b.update(j, b[j].remove(p)).flatten() == b.flatten().remove(offset(b, j) + p),
{
    lemma_flatten_split(b, j);
    lemma_flatten_update(b, j, b[j].remove(p));
}

} // verus!
