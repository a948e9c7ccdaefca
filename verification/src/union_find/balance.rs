//! Rank-guided forests of [`Node`]s.
//!
//! A `Root(rank)` is the representative of its group, a `Leaf(parent)` points
//! to another node of its group.  The rank of a root bounds the number of
//! nodes on any path of its tree, and a tree of rank `k` holds at least
//! `2^(k-1)` nodes.  Together the two facts keep every path logarithmic in
//! the size of the universe.

use vstd::prelude::*;
use vstd::arithmetic::logarithm::{lemma_log_is_ordered, lemma_log_pow, log};
use vstd::arithmetic::power2::{
    lemma2_to64,
    lemma_pow2,
    lemma_pow2_pos,
    lemma_pow2_strictly_increases,
    lemma_pow2_unfold,
    pow2,
};
use crate::union_find::Node;
use crate::union_find::forest;
use crate::union_find::forest::{acyclic, depth, moved, root_of};
use crate::union_find::partition::{merge, same_partition, singletons};

verus! {

/// The parent pointers that the nodes encode; a root points to itself.
pub open spec fn parents(sets: Seq<Node>) -> Seq<int> {
    Seq::new(
        sets.len(),
        |i: int|
            match sets[i] {
                Node::Root(_) => i,
                Node::Leaf(p) => p as int,
            },
    )
}

/// The rank stored at node `i`, or zero if `i` is not a root.
pub open spec fn rank(sets: Seq<Node>, i: int) -> nat {
    match sets[i] {
        Node::Root(k) => k as nat,
        Node::Leaf(_) => 0,
    }
}

/// The labelling that the nodes encode: every element is labelled by the
/// root of its tree.
pub open spec fn labels(sets: Seq<Node>) -> Seq<int> {
    forest::labels(parents(sets))
}

/// The number of elements below `k` whose root is `r`.
pub open spec fn members(parent: Seq<int>, r: int, k: nat) -> nat
    decreases k,
{
    if k == 0 {
        0
    } else {
        members(parent, r, (k - 1) as nat) + if root_of(parent, k - 1) == r {
            1nat
        } else {
            0nat
        }
    }
}

/// The number of elements in the tree of root `r`.
pub open spec fn size(parent: Seq<int>, r: int) -> nat {
    members(parent, r, parent.len())
}

/// The invariant of the weighted strategies.
///
/// - The universe fits into memory.
/// - No leaf points to itself, and the parent pointers form a forest.
/// - The rank of a root exceeds the depth of every node of its tree, so it
///   bounds the number of nodes on any path to the root.
/// - A tree whose root has rank `k` holds at least `2^(k-1)` elements.
pub open spec fn balanced(sets: Seq<Node>) -> bool {
    &&& sets.len() <= usize::MAX
    &&& forall|i: int|
        0 <= i < sets.len() ==> (#[trigger] sets[i] matches Node::Leaf(p) ==> p != i)
    &&& acyclic(parents(sets))
    &&& forall|i: int|
        0 <= i < sets.len() ==> #[trigger] depth(parents(sets), i) < rank(
            sets,
            root_of(parents(sets), i),
        )
    &&& forall|r: int|
        0 <= r < sets.len() && sets[r] is Root ==> pow2((rank(sets, r) - 1) as nat)
            <= #[trigger] size(parents(sets), r)
}

/// The state after the trees of `a` and `b` have been linked by rank.
///
/// - If both have the same root, nothing changes.
/// - If the root of `a` has the smaller rank, it becomes a leaf under the
///   root of `b`.
/// - If the ranks are equal, the root of `a` becomes a leaf under the root of
///   `b`, whose rank grows by one.
/// - Otherwise the root of `b` becomes a leaf under the root of `a`.
pub open spec fn linked(sets: Seq<Node>, a: int, b: int) -> Seq<Node> {
    let ra = root_of(parents(sets), a);
    let rb = root_of(parents(sets), b);
    let ka = rank(sets, ra);
    let kb = rank(sets, rb);
    if ra == rb {
        sets
    } else if ka < kb {
        sets.update(ra, Node::Leaf(rb as usize))
    } else if ka == kb {
        sets.update(rb, Node::Root((kb + 1) as u32)).update(ra, Node::Leaf(rb as usize))
    } else {
        sets.update(rb, Node::Leaf(ra as usize))
    }
}

/// The state after the walk from `i` to its root has been compressed: every
/// leaf on the walk points straight at the root; nothing else changes.
pub open spec fn compressed(sets: Seq<Node>, i: int) -> Seq<Node>
    decreases depth(parents(sets), i),
{
    if acyclic(parents(sets)) && 0 <= i < sets.len() && parents(sets)[i] != i {
        compressed(sets, parents(sets)[i]).update(
            i,
            Node::Leaf(root_of(parents(sets), i) as usize),
        )
    } else {
        sets
    }
}

/// The labelling that results from linking the trees of `a` and `b` by rank:
/// the group whose root has the larger rank absorbs the other, and on equal
/// ranks the group of `b` absorbs the group of `a`.
pub open spec fn absorbed(sets: Seq<Node>, a: int, b: int) -> Seq<int> {
    let ra = root_of(parents(sets), a);
    let rb = root_of(parents(sets), b);
    if rank(sets, ra) > rank(sets, rb) {
        merge(labels(sets), b, a)
    } else {
        merge(labels(sets), a, b)
    }
}

/// The root of every element is a root node of the forest.
pub proof fn lemma_root_is_root(sets: Seq<Node>, i: int)
    requires
        balanced(sets),
        0 <= i < sets.len(),
    ensures
        0 <= root_of(parents(sets), i) < sets.len(),
        sets[root_of(parents(sets), i)] is Root,
        rank(sets, root_of(parents(sets), i)) >= 1,
        sets[i] is Root ==> root_of(parents(sets), i) == i,
{
    forest::lemma_root_is_fixed(parents(sets), i);
    let r = root_of(parents(sets), i);
    assert(parents(sets)[r] == r);
    assert(sets[r] is Root);
}

proof fn lemma_members_bound(parent: Seq<int>, r: int, k: nat)
    ensures
        members(parent, r, k) <= k,
    decreases k,
{
    if k > 0 {
        lemma_members_bound(parent, r, (k - 1) as nat);
    }
}

proof fn lemma_members_moved(parent: Seq<int>, other: Seq<int>, ra: int, rb: int, r: int, k: nat)
    requires
        ra != rb,
        k <= parent.len(),
        forall|i: int|
            0 <= i < parent.len() ==> #[trigger] root_of(other, i) == moved(
                ra,
                rb,
                root_of(parent, i),
            ),
    ensures
        members(other, r, k) == if r == ra {
            0
        } else if r == rb {
            members(parent, ra, k) + members(parent, rb, k)
        } else {
            members(parent, r, k)
        },
    decreases k,
{
    if k > 0 {
        lemma_members_moved(parent, other, ra, rb, r, (k - 1) as nat);
        assert(root_of(other, k - 1) == moved(ra, rb, root_of(parent, k - 1)));
    }
}

proof fn lemma_members_kept(parent: Seq<int>, other: Seq<int>, r: int, k: nat)
    requires
        k <= parent.len(),
        forall|i: int| 0 <= i < parent.len() ==> #[trigger] root_of(other, i) == root_of(parent, i),
    ensures
        members(other, r, k) == members(parent, r, k),
    decreases k,
{
    if k > 0 {
        lemma_members_kept(parent, other, r, (k - 1) as nat);
        assert(root_of(other, k - 1) == root_of(parent, k - 1));
    }
}

proof fn lemma_pow2_monotonic(a: nat, b: nat)
    requires
        a <= b,
    ensures
        pow2(a) <= pow2(b),
{
    if a < b {
        lemma_pow2_strictly_increases(a, b);
    }
}

/// A universe that fits into memory keeps every rank far below the limit of
/// its machine type: a root of rank `k` needs `2^(k-1)` elements.
pub proof fn lemma_rank_is_small(sets: Seq<Node>, r: int)
    requires
        balanced(sets),
        0 <= r < sets.len(),
        sets[r] is Root,
    ensures
        1 <= rank(sets, r) <= 64,
        pow2((rank(sets, r) - 1) as nat) <= sets.len(),
{
    lemma_root_is_root(sets, r);
    let k = rank(sets, r);
    lemma_members_bound(parents(sets), r, sets.len());
    assert(pow2((k - 1) as nat) <= size(parents(sets), r));
    if k > 64 {
        lemma_pow2_monotonic(64, (k - 1) as nat);
        lemma2_to64();
    }
}

/// The balance bound: in a balanced forest over `n` elements no walk to a
/// root follows more than `log2(n)` pointers, rounded down, and so visits no
/// more than `log2(n) + 1` nodes.
pub proof fn lemma_paths_are_short(sets: Seq<Node>, i: int)
    requires
        balanced(sets),
        0 <= i < sets.len(),
    ensures
        pow2(depth(parents(sets), i)) <= sets.len(),
        depth(parents(sets), i) <= log(2, sets.len() as int),
        depth(parents(sets), i) + 1 <= log(2, sets.len() as int) + 1,
{
    let r = root_of(parents(sets), i);
    let d = depth(parents(sets), i);
    lemma_root_is_root(sets, i);
    lemma_members_bound(parents(sets), r, sets.len());
    assert(pow2((rank(sets, r) - 1) as nat) <= size(parents(sets), r));
    lemma_pow2_monotonic(d, (rank(sets, r) - 1) as nat);
    lemma_pow2(d);
    lemma_pow2_pos(d);
    lemma_log_pow(2, d);
    lemma_log_is_ordered(2, pow2(d) as int, sets.len() as int);
}

/// A universe of singletons, each a root of rank one, is balanced.
pub proof fn lemma_fresh_is_balanced(sets: Seq<Node>)
    requires
        sets.len() <= usize::MAX,
        forall|i: int| 0 <= i < sets.len() ==> sets[i] == Node::Root(1),
    ensures
        balanced(sets),
        labels(sets) == singletons(sets.len()),
{
    let n = sets.len();
    forest::lemma_isolated(n);
    assert(parents(sets) =~= forest::isolated(n));
    lemma2_to64();
    assert forall|r: int| 0 <= r < n && sets[r] is Root implies pow2((rank(sets, r) - 1) as nat)
        <= #[trigger] size(parents(sets), r) by {
        lemma_members_self(parents(sets), r, n);
    }
}

proof fn lemma_members_self(parent: Seq<int>, r: int, k: nat)
    requires
        0 <= r < k <= parent.len(),
        root_of(parent, r) == r,
    ensures
        members(parent, r, k) >= 1,
    decreases k,
{
    if k - 1 > r {
        lemma_members_self(parent, r, (k - 1) as nat);
    }
}

/// Linking two trees by rank keeps the forest balanced, its labelling is
/// that of the absorbed partition, no leaf becomes a root, and no rank ever
/// shrinks or grows by more than one.
pub proof fn lemma_linked(sets: Seq<Node>, a: int, b: int)
    requires
        balanced(sets),
        0 <= a < sets.len(),
        0 <= b < sets.len(),
    ensures
        balanced(linked(sets, a, b)),
        linked(sets, a, b).len() == sets.len(),
        labels(linked(sets, a, b)) == absorbed(sets, a, b),
        same_partition(labels(linked(sets, a, b)), merge(labels(sets), a, b)),
        forall|i: int|
            0 <= i < sets.len() && #[trigger] linked(sets, a, b)[i] is Root ==> sets[i] is Root
                && rank(sets, i) <= rank(linked(sets, a, b), i) <= rank(sets, i) + 1,
{
    let ra = root_of(parents(sets), a);
    let rb = root_of(parents(sets), b);
    lemma_root_is_root(sets, a);
    lemma_root_is_root(sets, b);
    lemma_rank_is_small(sets, ra);
    lemma_rank_is_small(sets, rb);
    let after = linked(sets, a, b);
    if ra == rb {
        assert(absorbed(sets, a, b) =~= labels(sets));
        assert(merge(labels(sets), a, b) =~= labels(sets));
    } else if rank(sets, ra) <= rank(sets, rb) {
        lemma_hang(sets, ra, rb);
        assert(labels(after) =~= merge(labels(sets), a, b));
    } else {
        lemma_hang(sets, rb, ra);
        assert(labels(after) =~= merge(labels(sets), b, a));
        crate::union_find::partition::lemma_merge_respects_partition(
            labels(sets),
            labels(sets),
            b,
            a,
        );
    }
}

/// The state after root `lo` has been hung under root `hi`, whose rank is at
/// least as large and grows by one when the two ranks are equal.
pub open spec fn hung(sets: Seq<Node>, lo: int, hi: int) -> Seq<Node> {
    if rank(sets, lo) == rank(sets, hi) {
        sets.update(hi, Node::Root((rank(sets, hi) + 1) as u32)).update(lo, Node::Leaf(hi as usize))
    } else {
        sets.update(lo, Node::Leaf(hi as usize))
    }
}

proof fn lemma_hang(sets: Seq<Node>, lo: int, hi: int)
    requires
        balanced(sets),
        0 <= lo < sets.len(),
        0 <= hi < sets.len(),
        lo != hi,
        sets[lo] is Root,
        sets[hi] is Root,
        rank(sets, lo) <= rank(sets, hi),
    ensures
        balanced(hung(sets, lo, hi)),
        hung(sets, lo, hi).len() == sets.len(),
        forall|i: int|
            0 <= i < sets.len() ==> #[trigger] root_of(parents(hung(sets, lo, hi)), i) == moved(
                lo,
                hi,
                root_of(parents(sets), i),
            ),
{
    let after = hung(sets, lo, hi);
    let before = parents(sets);
    let n = sets.len();
    lemma_rank_is_small(sets, lo);
    lemma_rank_is_small(sets, hi);
    assert(parents(after) =~= before.update(lo, hi));
    forest::lemma_link(before, lo, hi);
    assert(root_of(before, lo) == lo);
    assert(root_of(before, hi) == hi);
    assert forall|i: int| 0 <= i < n implies #[trigger] depth(parents(after), i) < rank(
        after,
        root_of(parents(after), i),
    ) by {
        lemma_root_is_root(sets, i);
        assert(depth(before, i) < rank(sets, root_of(before, i)));
    }
    assert forall|r: int| 0 <= r < n && after[r] is Root implies pow2(
        (rank(after, r) - 1) as nat,
    ) <= #[trigger] size(parents(after), r) by {
        lemma_members_moved(before, parents(after), lo, hi, r, n);
        if r == hi {
            assert(pow2((rank(sets, lo) - 1) as nat) <= size(before, lo));
            assert(pow2((rank(sets, hi) - 1) as nat) <= size(before, hi));
            if rank(sets, lo) == rank(sets, hi) {
                lemma_pow2_unfold(rank(sets, hi));
            }
        } else {
            assert(sets[r] is Root);
            assert(pow2((rank(sets, r) - 1) as nat) <= size(before, r));
        }
    }
}

/// Pointing a leaf straight at its root keeps the forest balanced, keeps the
/// root of every element and every stored rank, and makes no node deeper.
pub proof fn lemma_shortcut(sets: Seq<Node>, j: int)
    requires
        balanced(sets),
        0 <= j < sets.len(),
        sets[j] is Leaf,
    ensures
        balanced(sets.update(j, Node::Leaf(root_of(parents(sets), j) as usize))),
        forall|i: int|
            0 <= i < sets.len() ==> #[trigger] root_of(
                parents(sets.update(j, Node::Leaf(root_of(parents(sets), j) as usize))),
                i,
            ) == root_of(parents(sets), i),
        forall|i: int|
            0 <= i < sets.len() ==> #[trigger] depth(
                parents(sets.update(j, Node::Leaf(root_of(parents(sets), j) as usize))),
                i,
            ) <= depth(parents(sets), i),
        depth(parents(sets.update(j, Node::Leaf(root_of(parents(sets), j) as usize))), j) == 1,
{
    let before = parents(sets);
    let r = root_of(before, j);
    let after = sets.update(j, Node::Leaf(r as usize));
    let n = sets.len();
    lemma_root_is_root(sets, j);
    assert(parents(after) =~= before.update(j, r));
    forest::lemma_shortcut(before, j);
    forest::lemma_root_is_fixed(parents(after), j);
    assert forall|i: int| 0 <= i < n implies #[trigger] depth(parents(after), i) < rank(
        after,
        root_of(parents(after), i),
    ) by {
        lemma_root_is_root(sets, i);
        assert(depth(before, i) < rank(sets, root_of(before, i)));
    }
    assert forall|q: int| 0 <= q < n && after[q] is Root implies pow2(
        (rank(after, q) - 1) as nat,
    ) <= #[trigger] size(parents(after), q) by {
        lemma_members_kept(before, parents(after), q, n);
        assert(pow2((rank(sets, q) - 1) as nat) <= size(before, q));
    }
}

/// Compressing the walk from `i` keeps the forest balanced, keeps the root of
/// every element and every stored rank, turns no leaf into a root, makes no
/// node deeper, and leaves every leaf on the walk one pointer from its root.
pub proof fn lemma_compressed(sets: Seq<Node>, i: int)
    requires
        balanced(sets),
        0 <= i < sets.len(),
    ensures
        balanced(compressed(sets, i)),
        compressed(sets, i).len() == sets.len(),
        labels(compressed(sets, i)) == labels(sets),
        forall|j: int|
            0 <= j < sets.len() ==> #[trigger] root_of(parents(compressed(sets, i)), j) == root_of(
                parents(sets),
                j,
            ),
        forall|j: int|
            0 <= j < sets.len() ==> #[trigger] depth(parents(compressed(sets, i)), j) <= depth(
                parents(sets),
                j,
            ),
        forall|j: int|
            0 <= j < sets.len() ==> (#[trigger] compressed(sets, i)[j] is Root <==> sets[j] is Root),
        forall|j: int|
            0 <= j < sets.len() && sets[j] is Root ==> #[trigger] compressed(sets, i)[j] == sets[j],
        sets[i] is Leaf ==> depth(parents(compressed(sets, i)), i) == 1,
    decreases depth(parents(sets), i),
{
    let before = parents(sets);
    if before[i] != i {
        let p = before[i];
        let mid = compressed(sets, p);
        lemma_compressed(sets, p);
        assert(mid[i] is Leaf);
        assert(root_of(parents(mid), i) == root_of(before, i));
        lemma_shortcut(mid, i);
        let after = mid.update(i, Node::Leaf(root_of(before, i) as usize));
        assert(after == compressed(sets, i));
        assert forall|j: int| 0 <= j < sets.len() implies #[trigger] depth(parents(after), j)
            <= depth(before, j) by {
            assert(depth(parents(after), j) <= depth(parents(mid), j));
            assert(depth(parents(mid), j) <= depth(before, j));
        }
    }
    assert(labels(compressed(sets, i)) =~= labels(sets));
}

} // verus!
