//! Lazy merging: each group is a tree of parent pointers.
//!
//! `sets[i]` is the parent of element `i`; an element that is its own parent
//! is the root, and thereby the representative, of its group.  A merge hangs
//! one root under the other, so trees may grow as deep as the universe is
//! large, and both operations cost as much as the walk to the root.

use vstd::prelude::*;
use crate::union_find::forest;
use crate::union_find::forest::{acyclic, root_of, some_level};
use crate::union_find::partition::{joined, lemma_merge_unites, merge, singletons, unites};
use crate::union_find::start_sets;

verus! {

/// The parent pointers that the array holds.
pub open spec fn parents(sets: Seq<usize>) -> Seq<int> {
    Seq::new(sets.len(), |i: int| sets[i] as int)
}

/// The array is a forest: every entry names an element, and following the
/// entries from any element ends at an element that names itself.
pub open spec fn wf(sets: Seq<usize>) -> bool {
    acyclic(parents(sets))
}

/// The labelling that the array encodes: every element is labelled by the
/// root of its tree.
pub open spec fn labels(sets: Seq<usize>) -> Seq<int> {
    forest::labels(parents(sets))
}

/// A fresh structure of `n` singleton groups.
pub fn new(n: usize) -> (sets: Vec<usize>)
    requires
        n >= 1,
    ensures
        sets@.len() == n,
        wf(sets@),
        forall|i: int| 0 <= i < n ==> sets@[i] == i,
        labels(sets@) == singletons(n as nat),
{
    let mut sets: Vec<usize> = vec![0; n];
    start_sets(&mut sets);
    proof {
        forest::lemma_isolated(n as nat);
        assert(parents(sets@) =~= forest::isolated(n as nat));
    }
    sets
}

/// The representative of the group of `node`: the end of the walk along the
/// parent pointers.
fn root(sets: &[usize], node: usize) -> (r: usize)
    requires
        wf(sets@),
        node < sets@.len(),
    ensures
        r == root_of(parents(sets@), node as int),
        r < sets@.len(),
        sets@[r as int] == r,
{
    let mut cur = node;
    while sets[cur] != cur
        invariant
            wf(sets@),
            cur < sets@.len(),
            root_of(parents(sets@), cur as int) == root_of(parents(sets@), node as int),
        decreases some_level(parents(sets@))[cur as int],
    {
        assert(parents(sets@)[cur as int] == sets@[cur as int]);
        cur = sets[cur];
    }
    cur
}

/// Merges the group of `from` into the group of `to` by making the root of
/// `from` a child of the root of `to`.  Nothing else in the array changes;
/// when both are already in one group, nothing changes at all.
pub fn union(sets: &mut [usize], from: usize, to: usize)
    requires
        wf(old(sets)@),
        from < old(sets)@.len(),
        to < old(sets)@.len(),
    ensures
        wf(final(sets)@),
        final(sets)@ == old(sets)@.update(
            root_of(parents(old(sets)@), from as int),
            root_of(parents(old(sets)@), to as int) as usize,
        ),
        labels(final(sets)@) == merge(labels(old(sets)@), from as int, to as int),
        unites(labels(old(sets)@), labels(final(sets)@), from as int, to as int),
        joined(labels(old(sets)@), from as int, to as int) ==> final(sets)@ == old(sets)@,
{
    let from_root = root(sets, from);
    let to_root = root(sets, to);
    sets[from_root] = to_root;
    proof {
        let before = parents(old(sets)@);
        assert(parents(sets@) =~= before.update(from_root as int, to_root as int));
        forest::lemma_link(before, from_root as int, to_root as int);
        assert(labels(sets@) =~= merge(labels(old(sets)@), from as int, to as int));
        lemma_merge_unites(labels(old(sets)@), labels(sets@), from as int, to as int);
        if from_root == to_root {
            assert(sets@ =~= old(sets)@);
        }
    }
}

/// Whether `from` and `to` are in the same group.
pub fn connected(sets: &[usize], from: usize, to: usize) -> (r: bool)
    requires
        wf(sets@),
        from < sets@.len(),
        to < sets@.len(),
    ensures
        r == joined(labels(sets@), from as int, to as int),
{
    root(sets, from) == root(sets, to)
}

} // verus!
