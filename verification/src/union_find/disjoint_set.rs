//! One interface, four strategies.
//!
//! [`DisjointSet`] is the contract that every strategy meets: a partition
//! of `0..n` that starts as singletons, is only ever made coarser by
//! `union`, and is read by `connected`.  Each of the four structures owns
//! its array and hands the work to the functions of its strategy; a caller
//! picks one by what it needs to be fast.

use vstd::prelude::*;
use crate::union_find::Node;
use crate::union_find::b_quick_union;
use crate::union_find::balance;
use crate::union_find::partition::{
    joined,
    lemma_merge_all_len,
    lemma_same_partition_is_equivalence,
    lemma_unites_tracks_merge_all,
    merge_all,
    pairs_within,
    same_partition,
    singletons,
    unites,
};
use crate::union_find::pc_quick_union;
use crate::union_find::quick_find;
use crate::union_find::quick_union;

verus! {

/// A partition of `0..n` that can be made coarser and asked.
pub trait DisjointSet: Sized {
    /// The structure is in a state that `new` and `union` leave it in.
    spec fn wf(&self) -> bool;

    /// A labelling of the universe that describes the partition.
    spec fn labels(&self) -> Seq<int>;

    /// A fresh structure of `n` singleton groups.
    fn new(n: usize) -> (s: Self)
        requires
            n >= 1,
        ensures
            s.wf(),
            s.labels() == singletons(n as nat),
    ;

    /// Makes the groups of `a` and `b` one and changes nothing else; where
    /// the two are in one group already, the partition stays as it is.
    fn union(&mut self, a: usize, b: usize)
        requires
            old(self).wf(),
            a < old(self).labels().len(),
            b < old(self).labels().len(),
        ensures
            final(self).wf(),
            unites(old(self).labels(), final(self).labels(), a as int, b as int),
            joined(old(self).labels(), a as int, b as int) ==> final(self).labels() == old(
                self,
            ).labels(),
    ;

    /// Whether `a` and `b` are in the same group.  The structure may
    /// rearrange itself, but the partition stays as it is.
    fn connected(&mut self, a: usize, b: usize) -> (r: bool)
        requires
            old(self).wf(),
            a < old(self).labels().len(),
            b < old(self).labels().len(),
        ensures
            final(self).wf(),
            final(self).labels() == old(self).labels(),
            r == joined(old(self).labels(), a as int, b as int),
    ;
}

/// Constant-time queries, linear-time merges.
pub struct QuickFind {
    pub sets: Vec<usize>,
}

/// Merges and queries that cost a walk to the root of a tree of any depth.
pub struct QuickUnion {
    pub sets: Vec<usize>,
}

/// Merges and queries that cost a walk of logarithmic length.
pub struct WeightedQuickUnion {
    pub sets: Vec<Node>,
}

/// Logarithmic walks that get shorter with every use.
pub struct PathCompressedUnion {
    pub sets: Vec<Node>,
}

impl DisjointSet for QuickFind {
    open spec fn wf(&self) -> bool {
        true
    }

    open spec fn labels(&self) -> Seq<int> {
        quick_find::labels(self.sets@)
    }

    fn new(n: usize) -> (s: Self) {
        QuickFind { sets: quick_find::new(n) }
    }

    fn union(&mut self, a: usize, b: usize) {
        quick_find::union(self.sets.as_mut_slice(), a, b);
    }

    fn connected(&mut self, a: usize, b: usize) -> (r: bool) {
        quick_find::connected(self.sets.as_slice(), a, b)
    }
}

impl DisjointSet for QuickUnion {
    open spec fn wf(&self) -> bool {
        quick_union::wf(self.sets@)
    }

    open spec fn labels(&self) -> Seq<int> {
        quick_union::labels(self.sets@)
    }

    fn new(n: usize) -> (s: Self) {
        QuickUnion { sets: quick_union::new(n) }
    }

    fn union(&mut self, a: usize, b: usize) {
        quick_union::union(self.sets.as_mut_slice(), a, b);
    }

    fn connected(&mut self, a: usize, b: usize) -> (r: bool) {
        quick_union::connected(self.sets.as_slice(), a, b)
    }
}

impl DisjointSet for WeightedQuickUnion {
    open spec fn wf(&self) -> bool {
        balance::balanced(self.sets@)
    }

    open spec fn labels(&self) -> Seq<int> {
        balance::labels(self.sets@)
    }

    fn new(n: usize) -> (s: Self) {
        WeightedQuickUnion { sets: b_quick_union::new(n) }
    }

    fn union(&mut self, a: usize, b: usize) {
        b_quick_union::union(self.sets.as_mut_slice(), a, b);
    }

    fn connected(&mut self, a: usize, b: usize) -> (r: bool) {
        b_quick_union::connected(self.sets.as_slice(), a, b)
    }
}

impl DisjointSet for PathCompressedUnion {
    open spec fn wf(&self) -> bool {
        balance::balanced(self.sets@)
    }

    open spec fn labels(&self) -> Seq<int> {
        balance::labels(self.sets@)
    }

    fn new(n: usize) -> (s: Self) {
        PathCompressedUnion { sets: pc_quick_union::new(n) }
    }

    fn union(&mut self, a: usize, b: usize) {
        pc_quick_union::union(self.sets.as_mut_slice(), a, b);
    }

    fn connected(&mut self, a: usize, b: usize) -> (r: bool) {
        pc_quick_union::connected(self.sets.as_mut_slice(), a, b)
    }
}

/// The merges as pairs of mathematical integers.
pub open spec fn pairs(unions: Seq<(usize, usize)>) -> Seq<(int, int)> {
    Seq::new(unions.len(), |k: int| (unions[k].0 as int, unions[k].1 as int))
}

/// Merges the pairs of `unions` one after the other.  Whatever the strategy,
/// the structure ends up describing the partition that the merges describe.
pub fn union_all<S: DisjointSet>(set: &mut S, unions: &[(usize, usize)])
    requires
        old(set).wf(),
        pairs_within(pairs(unions@), old(set).labels().len()),
    ensures
        final(set).wf(),
        same_partition(final(set).labels(), merge_all(old(set).labels(), pairs(unions@))),
{
    let ghost start = set.labels();
    let ghost all = pairs(unions@);
    let len = unions.len();
    let mut k: usize = 0;
    proof {
        assert(all.take(0) =~= Seq::<(int, int)>::empty());
        lemma_same_partition_is_equivalence(start, start, start);
    }
    while k < len
        invariant
            k <= len,
            len == unions@.len(),
            all == pairs(unions@),
            pairs_within(all, start.len()),
            set.wf(),
            same_partition(set.labels(), merge_all(start, all.take(k as int))),
        decreases len - k,
    {
        let (from, to) = unions[k];
        let ghost before = set.labels();
        proof {
            assert(all[k as int] == (from as int, to as int));
            lemma_merge_all_len(start, all.take(k as int));
        }
        set.union(from, to);
        proof {
            let next = all.take(k + 1);
            assert(next.drop_last() =~= all.take(k as int));
            assert(next.last() == all[k as int]);
            lemma_unites_tracks_merge_all(start, next, before, set.labels());
        }
        k = k + 1;
    }
    assert(all.take(len as int) =~= all);
}

} // verus!
