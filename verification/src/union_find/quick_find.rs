//! Eager relabelling: constant-time queries, linear-time merges.
//!
//! `sets[i]` is the label of element `i`; two elements are connected exactly
//! when their labels are equal.  A merge rewrites every occurrence of one
//! label into the other.

use vstd::prelude::*;
use crate::union_find::partition::{joined, lemma_merge_unites, merge, singletons, unites};
use crate::union_find::start_sets;

verus! {

/// The labelling that the array encodes: the entries themselves.
pub open spec fn labels(sets: Seq<usize>) -> Seq<int> {
    Seq::new(sets.len(), |i: int| sets[i] as int)
}

/// A fresh structure of `n` singleton groups.
pub fn new(n: usize) -> (sets: Vec<usize>)
    requires
        n >= 1,
    ensures
        sets@.len() == n,
        labels(sets@) == singletons(n as nat),
{
    let mut sets: Vec<usize> = vec![0; n];
    start_sets(&mut sets);
    assert(labels(sets@) =~= singletons(n as nat));
    sets
}

/// Whether `from` and `to` are in the same group.
pub fn connected(sets: &[usize], from: usize, to: usize) -> (r: bool)
    requires
        from < sets@.len(),
        to < sets@.len(),
    ensures
        r == joined(labels(sets@), from as int, to as int),
{
    sets[from] == sets[to]
}

/// Merges the group of `from` into the group of `to`: every entry that held
/// the label of `from` now holds the label of `to`; all others are untouched.
pub fn union(sets: &mut [usize], from: usize, to: usize)
    requires
        from < old(sets)@.len(),
        to < old(sets)@.len(),
    ensures
        final(sets)@.len() == old(sets)@.len(),
        forall|i: int|
            0 <= i < old(sets)@.len() ==> #[trigger] final(sets)@[i] == if old(sets)@[i] == old(
                sets,
            )@[from as int] {
                old(sets)@[to as int]
            } else {
                old(sets)@[i]
            },
        labels(final(sets)@) == merge(labels(old(sets)@), from as int, to as int),
        unites(labels(old(sets)@), labels(final(sets)@), from as int, to as int),
        joined(labels(old(sets)@), from as int, to as int) ==> final(sets)@ == old(sets)@,
{
    let from_root = sets[from];
    let to_root = sets[to];
    let n = sets.len();
    let mut i: usize = 0;
    while i < n
        invariant
            i <= n,
            n == sets@.len(),
            sets@.len() == old(sets)@.len(),
            from_root == old(sets)@[from as int],
            to_root == old(sets)@[to as int],
            forall|j: int|
                0 <= j < i ==> #[trigger] sets@[j] == if old(sets)@[j] == from_root {
                    to_root
                } else {
                    old(sets)@[j]
                },
            forall|j: int| i <= j < n ==> #[trigger] sets@[j] == old(sets)@[j],
        decreases n - i,
    {
        if sets[i] == from_root {
            sets[i] = to_root;
        }
        i = i + 1;
    }
    proof {
        let before = labels(old(sets)@);
        assert(labels(sets@) =~= merge(before, from as int, to as int));
        lemma_merge_unites(before, labels(sets@), from as int, to as int);
        if joined(before, from as int, to as int) {
            assert(sets@ =~= old(sets)@);
        }
    }
}

} // verus!
