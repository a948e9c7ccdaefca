//! Parent-pointer forests.
//!
//! A forest over `0..n` is a sequence `parent` in which `parent[i]` is the
//! node that `i` points to; a node that points to itself is a root.  The
//! forest is acyclic when following the pointers from any node ends at a
//! root, and that root is the representative of the node's group.

use vstd::prelude::*;

verus! {

/// `level` is a witness of acyclicity: it strictly decreases along every
/// pointer that is not a root's self-loop.
pub open spec fn descends(parent: Seq<int>, level: Seq<nat>) -> bool {
    &&& level.len() == parent.len()
    &&& forall|i: int|
        0 <= i < parent.len() ==> {
            &&& 0 <= #[trigger] parent[i] < parent.len()
            &&& parent[i] != i ==> level[parent[i]] < level[i]
        }
}

/// Every pointer stays inside the universe and no walk along the pointers
/// runs in a circle, except for the self-loops that mark the roots.
pub open spec fn acyclic(parent: Seq<int>) -> bool {
    exists|level: Seq<nat>| descends(parent, level)
}

/// Some witness of acyclicity, when there is one.
pub open spec fn some_level(parent: Seq<int>) -> Seq<nat> {
    choose|level: Seq<nat>| descends(parent, level)
}

/// The root that the walk from `i` ends at.
pub open spec fn root_of(parent: Seq<int>, i: int) -> int
    decreases some_level(parent)[i],
{
    if acyclic(parent) && 0 <= i < parent.len() && parent[i] != i {
        root_of(parent, parent[i])
    } else {
        i
    }
}

/// The number of pointers that the walk from `i` follows before it reaches
/// the root.
pub open spec fn depth(parent: Seq<int>, i: int) -> nat
    decreases some_level(parent)[i],
{
    if acyclic(parent) && 0 <= i < parent.len() && parent[i] != i {
        1 + depth(parent, parent[i])
    } else {
        0
    }
}

/// The labelling that the forest encodes: every node is labelled by its root.
pub open spec fn labels(parent: Seq<int>) -> Seq<int> {
    Seq::new(parent.len(), |i: int| root_of(parent, i))
}

/// The forest in which every node is its own root.
pub open spec fn isolated(n: nat) -> Seq<int> {
    Seq::new(n, |i: int| i)
}

/// The root of a node is a node of the forest, points to itself, and lies no
/// higher than the node under any witness of acyclicity; it lies strictly
/// lower unless the node is the root itself.
pub proof fn lemma_root_of(parent: Seq<int>, level: Seq<nat>, i: int)
    requires
        descends(parent, level),
        0 <= i < parent.len(),
    ensures
        0 <= root_of(parent, i) < parent.len(),
        parent[root_of(parent, i)] == root_of(parent, i),
        root_of(parent, root_of(parent, i)) == root_of(parent, i),
        level[root_of(parent, i)] <= level[i],
        parent[i] != i ==> level[root_of(parent, i)] < level[i],
        (depth(parent, i) == 0) == (parent[i] == i),
    decreases level[i],
{
    if parent[i] != i {
        lemma_root_of(parent, level, parent[i]);
    }
}

/// In an acyclic forest every root is a node that points to itself.
pub proof fn lemma_root_is_fixed(parent: Seq<int>, i: int)
    requires
        acyclic(parent),
        0 <= i < parent.len(),
    ensures
        0 <= root_of(parent, i) < parent.len(),
        parent[root_of(parent, i)] == root_of(parent, i),
        root_of(parent, root_of(parent, i)) == root_of(parent, i),
        (depth(parent, i) == 0) == (parent[i] == i),
{
    lemma_root_of(parent, some_level(parent), i);
}

/// The forest of isolated nodes is acyclic and labels every node by itself.
pub proof fn lemma_isolated(n: nat)
    ensures
        acyclic(isolated(n)),
        labels(isolated(n)) == crate::union_find::partition::singletons(n),
        forall|i: int| 0 <= i < n ==> depth(isolated(n), i) == 0,
{
    let level = Seq::new(n, |i: int| 0nat);
    assert(descends(isolated(n), level));
    assert(labels(isolated(n)) =~= crate::union_find::partition::singletons(n));
}

/// Where the root `r` of the first forest ends up once the tree of `ra` has
/// been put under `rb`.
pub open spec fn moved(ra: int, rb: int, r: int) -> int {
    if r == ra {
        rb
    } else {
        r
    }
}

/// If every pointer of `other` stays within what becomes one group of
/// `parent` once `ra` is put under `rb`, and every root of `other` is the
/// representative of that group, then `other` sends each node to the moved
/// root of `parent`.
pub proof fn lemma_roots_follow(parent: Seq<int>, other: Seq<int>, ra: int, rb: int, i: int)
    requires
        acyclic(other),
        other.len() == parent.len(),
        0 <= i < parent.len(),
        forall|j: int|
            0 <= j < parent.len() ==> moved(ra, rb, root_of(parent, j)) == moved(
                ra,
                rb,
                root_of(parent, #[trigger] other[j]),
            ),
        forall|j: int|
            0 <= j < parent.len() && #[trigger] other[j] == j ==> moved(
                ra,
                rb,
                root_of(parent, j),
            ) == j,
    ensures
        root_of(other, i) == moved(ra, rb, root_of(parent, i)),
    decreases some_level(other)[i],
{
    if other[i] != i {
        lemma_roots_follow(parent, other, ra, rb, other[i]);
    }
}

/// The witness of acyclicity for a forest in which the root `ra` has been
/// put under the root `rb`: the whole tree of `ra` is lifted above `rb`.
pub open spec fn lifted(parent: Seq<int>, level: Seq<nat>, ra: int, rb: int) -> Seq<nat> {
    Seq::new(
        parent.len(),
        |i: int|
            if root_of(parent, i) == ra {
                level[i] + level[rb] + 1
            } else {
                level[i]
            },
    )
}

/// Putting one root under another keeps the forest acyclic, sends the nodes
/// of the first tree to the second root, leaves every other node with the
/// root it had, and makes the nodes of the first tree one pointer deeper.
pub proof fn lemma_link(parent: Seq<int>, ra: int, rb: int)
    requires
        acyclic(parent),
        0 <= ra < parent.len(),
        0 <= rb < parent.len(),
        parent[ra] == ra,
        parent[rb] == rb,
    ensures
        acyclic(parent.update(ra, rb)),
        forall|i: int|
            0 <= i < parent.len() ==> #[trigger] root_of(parent.update(ra, rb), i) == moved(
                ra,
                rb,
                root_of(parent, i),
            ),
        forall|i: int|
            0 <= i < parent.len() ==> #[trigger] depth(parent.update(ra, rb), i) == depth(
                parent,
                i,
            ) + if root_of(parent, i) == ra && ra != rb {
                1nat
            } else {
                0nat
            },
{
    let other = parent.update(ra, rb);
    let level = some_level(parent);
    if ra == rb {
        assert(other =~= parent);
    } else {
        let up = lifted(parent, level, ra, rb);
        assert forall|i: int| 0 <= i < other.len() implies {
            &&& 0 <= #[trigger] other[i] < other.len()
            &&& other[i] != i ==> up[other[i]] < up[i]
        } by {
            lemma_root_of(parent, level, i);
            lemma_root_of(parent, level, other[i]);
        }
        assert(descends(other, up));
        assert forall|i: int| 0 <= i < parent.len() implies #[trigger] root_of(other, i) == moved(
            ra,
            rb,
            root_of(parent, i),
        ) by {
            lemma_roots_follow(parent, other, ra, rb, i);
        }
        assert forall|i: int| 0 <= i < parent.len() implies #[trigger] depth(other, i) == depth(
            parent,
            i,
        ) + if root_of(parent, i) == ra {
            1nat
        } else {
            0nat
        } by {
            lemma_link_depth(parent, level, ra, rb, i);
        }
    }
}

proof fn lemma_link_depth(parent: Seq<int>, level: Seq<nat>, ra: int, rb: int, i: int)
    requires
        descends(parent, level),
        acyclic(parent.update(ra, rb)),
        0 <= ra < parent.len(),
        0 <= rb < parent.len(),
        ra != rb,
        parent[ra] == ra,
        parent[rb] == rb,
        0 <= i < parent.len(),
    ensures
        depth(parent.update(ra, rb), i) == depth(parent, i) + if root_of(parent, i) == ra {
            1nat
        } else {
            0nat
        },
    decreases level[i],
{
    let other = parent.update(ra, rb);
    if i == ra {
        assert(depth(other, rb) == 0);
        assert(depth(other, ra) == 1 + depth(other, rb));
    } else if parent[i] != i {
        lemma_link_depth(parent, level, ra, rb, parent[i]);
    }
}

/// Pointing a node straight at its root keeps the forest acyclic, keeps the
/// root of every node, and makes no node deeper; the node itself ends up at
/// most one pointer away from its root.
pub proof fn lemma_shortcut(parent: Seq<int>, j: int)
    requires
        acyclic(parent),
        0 <= j < parent.len(),
    ensures
        acyclic(parent.update(j, root_of(parent, j))),
        forall|i: int|
            0 <= i < parent.len() ==> #[trigger] root_of(parent.update(j, root_of(parent, j)), i)
                == root_of(parent, i),
        forall|i: int|
            0 <= i < parent.len() ==> #[trigger] depth(parent.update(j, root_of(parent, j)), i)
                <= depth(parent, i),
        depth(parent.update(j, root_of(parent, j)), j) <= 1,
{
    let level = some_level(parent);
    let r = root_of(parent, j);
    let other = parent.update(j, r);
    lemma_root_of(parent, level, j);
    assert(descends(other, level));
    assert forall|i: int| 0 <= i < parent.len() implies #[trigger] root_of(other, i) == root_of(
        parent,
        i,
    ) by {
        assert forall|k: int| 0 <= k < parent.len() implies moved(j, j, root_of(parent, k))
            == moved(j, j, root_of(parent, #[trigger] other[k])) by {
            lemma_root_is_fixed(parent, k);
        }
        assert forall|k: int| 0 <= k < parent.len() && #[trigger] other[k] == k implies moved(
            j,
            j,
            root_of(parent, k),
        ) == k by {
            lemma_root_is_fixed(parent, k);
        }
        lemma_roots_follow(parent, other, j, j, i);
    }
    assert forall|i: int| 0 <= i < parent.len() implies #[trigger] depth(other, i) <= depth(
        parent,
        i,
    ) by {
        lemma_shortcut_depth(parent, level, j, i);
    }
    assert(depth(other, r) == 0);
}

proof fn lemma_shortcut_depth(parent: Seq<int>, level: Seq<nat>, j: int, i: int)
    requires
        descends(parent, level),
        descends(parent.update(j, root_of(parent, j)), level),
        0 <= j < parent.len(),
        0 <= i < parent.len(),
    ensures
        depth(parent.update(j, root_of(parent, j)), i) <= depth(parent, i),
    decreases level[i],
{
    let r = root_of(parent, j);
    let other = parent.update(j, r);
    lemma_root_of(parent, level, j);
    if i == j {
        assert(depth(other, r) == 0);
    } else if parent[i] != i {
        lemma_shortcut_depth(parent, level, j, parent[i]);
    }
}

} // verus!
