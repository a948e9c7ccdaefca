//! Weighted merging with path compression.
//!
//! The trees are linked by rank exactly as in
//! [`b_quick_union`](crate::union_find::b_quick_union).  In addition, every
//! walk to a root rewrites the leaves it passes so that they point straight
//! at the root.  Compression never touches a rank and never changes which
//! elements are connected; it only shortens later walks.

use vstd::prelude::*;
use crate::union_find::Node;
use crate::union_find::balance::{
    absorbed,
    balanced,
    compressed,
    labels,
    lemma_compressed,
    lemma_fresh_is_balanced,
    lemma_linked,
    lemma_rank_is_small,
    lemma_root_is_root,
    linked,
    parents,
};
use crate::union_find::forest::{depth, root_of};
use crate::union_find::partition::{joined, lemma_merge_unites, merge, same_partition, singletons, unites};

verus! {

/// A fresh structure of `n` singleton groups, each a root of rank one.
pub fn new(n: usize) -> (sets: Vec<Node>)
    requires
        n >= 1,
    ensures
        sets@.len() == n,
        balanced(sets@),
        forall|i: int| 0 <= i < n ==> sets@[i] == Node::Root(1),
        labels(sets@) == singletons(n as nat),
{
    let mut sets: Vec<Node> = Vec::new();
    let mut i: usize = 0;
    while i < n
        invariant
            i <= n,
            sets@.len() == i,
            forall|j: int| 0 <= j < i ==> sets@[j] == Node::Root(1),
        decreases n - i,
    {
        sets.push(Node::Root(1));
        i = i + 1;
    }
    proof {
        lemma_fresh_is_balanced(sets@);
    }
    sets
}

/// Turns node `n` into a leaf that points to `r`.
fn set_leaf(sets: &mut [Node], n: usize, r: usize)
    requires
        n < old(sets)@.len(),
        n != r,
    ensures
        final(sets)@ == old(sets)@.update(n as int, Node::Leaf(r)),
{
    sets[n] = Node::Leaf(r);
}

/// The root of the tree of `n`, together with the rank stored there.  On the
/// way back every leaf of the walk is pointed straight at the root.
fn root(sets: &mut [Node], n: usize) -> (r: (usize, u32))
    requires
        balanced(old(sets)@),
        n < old(sets)@.len(),
    ensures
        final(sets)@ == compressed(old(sets)@, n as int),
        r.0 == root_of(parents(old(sets)@), n as int),
        r.0 < old(sets)@.len(),
        old(sets)@[r.0 as int] == Node::Root(r.1),
    decreases depth(parents(old(sets)@), n as int),
{
    match sets[n] {
        Node::Root(x) => (n, x),
        Node::Leaf(r) => {
            assert(parents(sets@)[n as int] == r);
            let (r, d) = root(sets, r);
            proof {
                lemma_compressed(old(sets)@, parents(old(sets)@)[n as int]);
            }
            set_leaf(sets, n, r);
            (r, d)
        },
    }
}

/// Merges the groups of `from` and `to`: first the walks from `from` and
/// from `to` are compressed, then the two trees are linked by rank as in
/// [`linked`].
pub fn union(sets: &mut [Node], from: usize, to: usize)
    requires
        balanced(old(sets)@),
        from < old(sets)@.len(),
        to < old(sets)@.len(),
    ensures
        balanced(final(sets)@),
        final(sets)@.len() == old(sets)@.len(),
        final(sets)@ == linked(
            compressed(compressed(old(sets)@, from as int), to as int),
            from as int,
            to as int,
        ),
        labels(final(sets)@) == absorbed(old(sets)@, from as int, to as int),
        same_partition(labels(final(sets)@), merge(labels(old(sets)@), from as int, to as int)),
        unites(labels(old(sets)@), labels(final(sets)@), from as int, to as int),
        joined(labels(old(sets)@), from as int, to as int) ==> labels(final(sets)@) == labels(
            old(sets)@,
        ),
{
    let ghost start = sets@;
    let (from_root, from_depth) = root(sets, from);
    let ghost first = sets@;
    proof {
        lemma_compressed(start, from as int);
    }
    let (to_root, to_depth) = root(sets, to);
    let ghost second = sets@;
    proof {
        lemma_compressed(first, to as int);
        lemma_linked(second, from as int, to as int);
        lemma_rank_is_small(second, to_root as int);
        lemma_root_is_root(start, from as int);
        lemma_root_is_root(start, to as int);
        assert(absorbed(second, from as int, to as int) == absorbed(
            start,
            from as int,
            to as int,
        ));
        lemma_merge_unites(
            labels(start),
            labels(linked(second, from as int, to as int)),
            from as int,
            to as int,
        );
    }
    if from_root != to_root {
        if from_depth < to_depth {
            set_leaf(sets, from_root, to_root);
        } else if from_depth == to_depth {
            sets[to_root] = Node::Root(to_depth + 1);
            set_leaf(sets, from_root, to_root);
        } else {
            set_leaf(sets, to_root, from_root);
        }
    }
}

/// Whether `from` and `to` are in the same group.  The walks from `from` and
/// from `to` are compressed on the way: no rank changes, no node gets
/// deeper, `from` and `to` end up at most one pointer from their roots, and
/// the partition stays as it was.
pub fn connected(sets: &mut [Node], from: usize, to: usize) -> (r: bool)
    requires
        balanced(old(sets)@),
        from < old(sets)@.len(),
        to < old(sets)@.len(),
    ensures
        r == joined(labels(old(sets)@), from as int, to as int),
        balanced(final(sets)@),
        final(sets)@.len() == old(sets)@.len(),
        final(sets)@ == compressed(compressed(old(sets)@, from as int), to as int),
        labels(final(sets)@) == labels(old(sets)@),
        forall|i: int|
            0 <= i < old(sets)@.len() && old(sets)@[i] is Root ==> #[trigger] final(sets)@[i]
                == old(sets)@[i],
        forall|i: int|
            0 <= i < old(sets)@.len() ==> #[trigger] depth(parents(final(sets)@), i) <= depth(
                parents(old(sets)@),
                i,
            ),
        depth(parents(final(sets)@), from as int) <= 1,
        depth(parents(final(sets)@), to as int) <= 1,
{
    let ghost start = sets@;
    let (from_root, _) = root(sets, from);
    let ghost first = sets@;
    proof {
        lemma_compressed(start, from as int);
    }
    let (to_root, _) = root(sets, to);
    proof {
        lemma_compressed(first, to as int);
        crate::union_find::forest::lemma_root_is_fixed(parents(start), from as int);
        crate::union_find::forest::lemma_root_is_fixed(parents(first), from as int);
        crate::union_find::forest::lemma_root_is_fixed(parents(first), to as int);
        crate::union_find::forest::lemma_root_is_fixed(parents(sets@), to as int);
        assert forall|i: int| 0 <= i < start.len() implies #[trigger] depth(parents(sets@), i)
            <= depth(parents(start), i) by {
            assert(depth(parents(sets@), i) <= depth(parents(first), i));
            assert(depth(parents(first), i) <= depth(parents(start), i));
        }
        assert(depth(parents(sets@), from as int) <= depth(parents(first), from as int));
    }
    from_root == to_root
}

} // verus!
