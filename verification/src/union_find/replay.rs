//! The four strategies side by side.
//!
//! A [`Quartet`] holds one structure of each strategy over the same
//! universe.  Feeding all four the same merges keeps them in agreement: they
//! store different arrays, but describe one partition.

use vstd::prelude::*;
use crate::union_find::disjoint_set::{
    pairs,
    union_all,
    DisjointSet,
    PathCompressedUnion,
    QuickFind,
    QuickUnion,
    WeightedQuickUnion,
};
use crate::union_find::partition::{
    joined,
    lemma_merge_all_len,
    lemma_unites_agree,
    merge_all,
    pairs_within,
    same_partition,
    singletons,
    unites,
};

verus! {

/// One structure of each strategy.
pub struct Quartet {
    /// Labels, merged by relabelling.
    pub find: QuickFind,
    /// Parents, merged by hanging one root under the other.
    pub union: QuickUnion,
    /// Nodes, merged by rank.
    pub balanced: WeightedQuickUnion,
    /// Nodes, merged by rank and compressed on every walk.
    pub compressed: PathCompressedUnion,
}

impl Quartet {
    /// The size of the universe.
    pub open spec fn universe(&self) -> nat {
        self.find.labels().len()
    }

    /// All four structures are well formed and range over the same universe.
    pub open spec fn wf(&self) -> bool {
        &&& self.find.wf()
        &&& self.union.wf()
        &&& self.balanced.wf()
        &&& self.compressed.wf()
        &&& self.union.labels().len() == self.universe()
        &&& self.balanced.labels().len() == self.universe()
        &&& self.compressed.labels().len() == self.universe()
    }

    /// All four structures describe the partition that `labels` describes.
    pub open spec fn describes(&self, labels: Seq<int>) -> bool {
        &&& same_partition(self.find.labels(), labels)
        &&& same_partition(self.union.labels(), labels)
        &&& same_partition(self.balanced.labels(), labels)
        &&& same_partition(self.compressed.labels(), labels)
    }

    /// Four fresh structures of `n` singleton groups each.
    pub fn new(n: usize) -> (q: Quartet)
        requires
            n >= 1,
        ensures
            q.wf(),
            q.universe() == n,
            q.describes(singletons(n as nat)),
    {
        Quartet {
            find: QuickFind::new(n),
            union: QuickUnion::new(n),
            balanced: WeightedQuickUnion::new(n),
            compressed: PathCompressedUnion::new(n),
        }
    }

    /// Merges the groups of `from` and `to` in all four structures.  If the
    /// four described one partition before, they describe one partition
    /// afterwards: the one in which the two groups are united.
    pub fn union(&mut self, from: usize, to: usize)
        requires
            old(self).wf(),
            from < old(self).universe(),
            to < old(self).universe(),
        ensures
            final(self).wf(),
            final(self).universe() == old(self).universe(),
            forall|before: Seq<int>, after: Seq<int>|
                old(self).describes(before) && unites(before, after, from as int, to as int)
                    ==> final(self).describes(after),
    {
        self.find.union(from, to);
        self.union.union(from, to);
        self.balanced.union(from, to);
        self.compressed.union(from, to);
        proof {
            assert forall|before: Seq<int>, after: Seq<int>|
                old(self).describes(before) && unites(
                    before,
                    after,
                    from as int,
                    to as int,
                ) implies self.describes(after) by {
                lemma_unites_agree(
                    old(self).find.labels(),
                    self.find.labels(),
                    before,
                    after,
                    from as int,
                    to as int,
                );
                lemma_unites_agree(
                    old(self).union.labels(),
                    self.union.labels(),
                    before,
                    after,
                    from as int,
                    to as int,
                );
                lemma_unites_agree(
                    old(self).balanced.labels(),
                    self.balanced.labels(),
                    before,
                    after,
                    from as int,
                    to as int,
                );
                lemma_unites_agree(
                    old(self).compressed.labels(),
                    self.compressed.labels(),
                    before,
                    after,
                    from as int,
                    to as int,
                );
            }
        }
    }

    /// Whether all four structures say that `from` and `to` are connected.
    /// Where the four describe one partition, each of them gives the answer
    /// of that partition, and so do all four together.
    pub fn connected(&mut self, from: usize, to: usize) -> (r: bool)
        requires
            old(self).wf(),
            from < old(self).universe(),
            to < old(self).universe(),
        ensures
            final(self).wf(),
            final(self).find.labels() == old(self).find.labels(),
            final(self).union.labels() == old(self).union.labels(),
            final(self).balanced.labels() == old(self).balanced.labels(),
            final(self).compressed.labels() == old(self).compressed.labels(),
            forall|labels: Seq<int>|
                old(self).describes(labels) ==> r == joined(labels, from as int, to as int),
    {
        let a = self.find.connected(from, to);
        let b = self.union.connected(from, to);
        let c = self.balanced.connected(from, to);
        let d = self.compressed.connected(from, to);
        a && b && c && d
    }
}

/// Replays a sequence of merges on four fresh structures, one of each
/// strategy.  Whatever the merges are, the four end up describing the same
/// partition: the one that results from merging the pairs one after the
/// other, starting from singletons.
pub fn replay(n: usize, unions: &[(usize, usize)]) -> (q: Quartet)
    requires
        n >= 1,
        pairs_within(pairs(unions@), n as nat),
    ensures
        q.wf(),
        q.universe() == n,
        q.describes(merge_all(singletons(n as nat), pairs(unions@))),
{
    let mut find = QuickFind::new(n);
    let mut union = QuickUnion::new(n);
    let mut balanced = WeightedQuickUnion::new(n);
    let mut compressed = PathCompressedUnion::new(n);
    union_all(&mut find, unions);
    union_all(&mut union, unions);
    union_all(&mut balanced, unions);
    union_all(&mut compressed, unions);
    proof {
        lemma_merge_all_len(singletons(n as nat), pairs(unions@));
    }
    Quartet { find, union, balanced, compressed }
}

/// Agreement across strategies: where the four structures describe one
/// partition, they give the same answer for every pair of elements.
pub proof fn lemma_strategies_agree(q: Quartet, labels: Seq<int>, a: int, b: int)
    requires
        q.describes(labels),
        0 <= a < q.universe(),
        0 <= b < q.universe(),
    ensures
        joined(q.find.labels(), a, b) == joined(labels, a, b),
        joined(q.union.labels(), a, b) == joined(labels, a, b),
        joined(q.balanced.labels(), a, b) == joined(labels, a, b),
        joined(q.compressed.labels(), a, b) == joined(labels, a, b),
{
}

} // verus!
