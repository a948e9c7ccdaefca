//! Disjoint sets over the dense universe `0..n`.
//!
//! A disjoint-set structure keeps a partition of `0..n`.  It starts with `n`
//! singleton groups, `union(a, b)` merges the groups of `a` and `b`, and
//! `connected(a, b)` tells whether `a` and `b` share a group.  The universe
//! never grows or shrinks, and groups are never split.
//!
//! Four strategies keep the same partition at different costs:
//!
//! - [`quick_find`]: queries in constant time, merges by relabelling the
//!   whole array;
//! - [`quick_union`]: merges and queries by walking to the root of a tree
//!   that may be as deep as the universe is large;
//! - [`b_quick_union`]: trees linked by rank, so that no walk is longer than
//!   the logarithm of the universe;
//! - [`pc_quick_union`]: linked by rank, and every walk shortens the paths
//!   it has used.
//!
//! Each strategy is a pair of functions on a caller-owned array.
//! [`disjoint_set`] wraps each of them in a structure behind one interface,
//! and [`replay`] runs all four side by side.  [`partition`] holds the
//! abstract model and the laws that all four obey, [`forest`] the theory of
//! parent-pointer trees, and [`balance`] the rank discipline of the two
//! weighted strategies.

use vstd::prelude::*;

pub mod b_quick_union;
pub mod balance;
pub mod disjoint_set;
pub mod forest;
pub mod partition;
pub mod pc_quick_union;
pub mod quick_find;
pub mod quick_union;
pub mod replay;

verus! {

/// One slot of a weighted forest.
#[derive(Debug, Copy, Clone, PartialEq, Eq, Structural)]
pub enum Node {
    /// The representative of a group; carries an upper bound on the number
    /// of nodes on the longest path of its tree.
    Root(u32),
    /// A member that points to some other node of its group.
    Leaf(usize),
}

/// Resets a plain array of labels or parents to singleton groups: entry `i`
/// becomes `i`.
pub fn start_sets(sets: &mut [usize])
    ensures
        final(sets)@.len() == old(sets)@.len(),
        forall|i: int| 0 <= i < final(sets)@.len() ==> final(sets)@[i] == i,
{
    let n = sets.len();
    let mut i: usize = 0;
    while i < n
        invariant
            i <= n,
            n == sets@.len(),
            sets@.len() == old(sets)@.len(),
            forall|j: int| 0 <= j < i ==> sets@[j] == j,
        decreases n - i,
    {
        sets[i] = i;
        i = i + 1;
    }
}

} // verus!
