//! Weighted merging: trees are linked by rank, so no path grows longer than
//! the logarithm of the universe.
//!
//! Whenever two trees are joined, the root of smaller rank goes under the
//! root of larger rank; only when both ranks are equal does the rank of the
//! surviving root grow, by one.

use vstd::prelude::*;
use crate::union_find::Node;
use crate::union_find::balance::{
    absorbed,
    balanced,
    labels,
    lemma_fresh_is_balanced,
    lemma_linked,
    lemma_rank_is_small,
    linked,
    parents,
};
use crate::union_find::forest::{depth, root_of};
use crate::union_find::partition::{joined, lemma_merge_unites, merge, same_partition, singletons, unites};

verus! {

/// A fresh structure of `n` singleton groups, each a root of rank one.
pub fn new(n: usize) -> (sets: Vec<Node>)
    requires
        n >= 1,
    ensures
        sets@.len() == n,
        balanced(sets@),
        forall|i: int| 0 <= i < n ==> sets@[i] == Node::Root(1),
        labels(sets@) == singletons(n as nat),
{
    let mut sets: Vec<Node> = Vec::new();
    let mut i: usize = 0;
    while i < n
        invariant
            i <= n,
            sets@.len() == i,
            forall|j: int| 0 <= j < i ==> sets@[j] == Node::Root(1),
        decreases n - i,
    {
        sets.push(Node::Root(1));
        i = i + 1;
    }
    proof {
        lemma_fresh_is_balanced(sets@);
    }
    sets
}

/// The root of the tree of `n`, together with the rank stored there.
fn root(sets: &[Node], n: usize) -> (r: (usize, u32))
    requires
        balanced(sets@),
        n < sets@.len(),
    ensures
        r.0 == root_of(parents(sets@), n as int),
        r.0 < sets@.len(),
        sets@[r.0 as int] == Node::Root(r.1),
{
    let mut cur = n;
    loop
        invariant
            balanced(sets@),
            cur < sets@.len(),
            root_of(parents(sets@), cur as int) == root_of(parents(sets@), n as int),
        decreases depth(parents(sets@), cur as int),
    {
        match sets[cur] {
            Node::Root(x) => {
                return (cur, x);
            },
            Node::Leaf(r) => {
                assert(parents(sets@)[cur as int] == r);
                cur = r;
            },
        }
    }
}

/// Turns node `n` into a leaf that points to `r`.
fn set_leaf(sets: &mut [Node], n: usize, r: usize)
    requires
        n < old(sets)@.len(),
        n != r,
    ensures
        final(sets)@ == old(sets)@.update(n as int, Node::Leaf(r)),
{
    sets[n] = Node::Leaf(r);
}

/// Merges the groups of `from` and `to` by linking their trees by rank.
///
/// - If both are already in one group, nothing changes.
/// - If the root of `from` has the smaller rank, it becomes a leaf under the
///   root of `to`.
/// - If both roots have the same rank, the root of `from` becomes a leaf
///   under the root of `to`, whose rank grows by one.
/// - Otherwise the root of `to` becomes a leaf under the root of `from`.
pub fn union(sets: &mut [Node], from: usize, to: usize)
    requires
        balanced(old(sets)@),
        from < old(sets)@.len(),
        to < old(sets)@.len(),
    ensures
        balanced(final(sets)@),
        final(sets)@.len() == old(sets)@.len(),
        final(sets)@ == linked(old(sets)@, from as int, to as int),
        labels(final(sets)@) == absorbed(old(sets)@, from as int, to as int),
        same_partition(labels(final(sets)@), merge(labels(old(sets)@), from as int, to as int)),
        unites(labels(old(sets)@), labels(final(sets)@), from as int, to as int),
        joined(labels(old(sets)@), from as int, to as int) ==> labels(final(sets)@) == labels(
            old(sets)@,
        ),
{
    let (from_root, from_depth) = root(sets, from);
    let (to_root, to_depth) = root(sets, to);
    proof {
        lemma_linked(old(sets)@, from as int, to as int);
        lemma_rank_is_small(old(sets)@, to_root as int);
        lemma_merge_unites(
            labels(old(sets)@),
            labels(linked(old(sets)@, from as int, to as int)),
            from as int,
            to as int,
        );
    }
    if from_root != to_root {
        if from_depth < to_depth {
            set_leaf(sets, from_root, to_root);
        } else if from_depth == to_depth {
            sets[to_root] = Node::Root(to_depth + 1);
            set_leaf(sets, from_root, to_root);
        } else {
            set_leaf(sets, to_root, from_root);
        }
    }
}

/// Whether `from` and `to` are in the same group.
pub fn connected(sets: &[Node], from: usize, to: usize) -> (r: bool)
    requires
        balanced(sets@),
        from < sets@.len(),
        to < sets@.len(),
    ensures
        r == joined(labels(sets@), from as int, to as int),
{
    let (from_root, _) = root(sets, from);
    let (to_root, _) = root(sets, to);
    from_root == to_root
}

} // verus!
