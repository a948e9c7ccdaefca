//! An unbalanced binary search tree from machine words to numbers.
//!
//! The tree is described by the map from its keys to their values.  Every
//! node also stores a count, which `put` keeps equal to the size of the
//! node's subtree and `delete` leaves as it finds it.

use vstd::prelude::*;

verus! {

/// A key, its value, a count, and the two subtrees.
pub struct Node {
    pub key: usize,
    pub val: u32,
    pub n: u32,
    pub left: BinaryTree,
    pub right: BinaryTree,
}

/// A tree: nothing, or a node.
pub struct BinaryTree {
    pub root: Option<Box<Node>>,
}

/// The keys of a tree, children before parents, left before right; handed
/// out from the back.
pub struct BinaryTreeIter {
    pub v: Vec<usize>,
}

impl Node {
    /// The entries of the subtree.
    pub open spec fn map(self) -> Map<usize, u32>
        decreases self,
    {
        self.left.map().union_prefer_right(self.right.map()).insert(self.key, self.val)
    }

    /// The number of nodes of the subtree.
    pub open spec fn size(self) -> nat
        decreases self,
    {
        1 + self.left.size() + self.right.size()
    }

    /// Keys grow from left to right, and no count is smaller than one plus
    /// the counts of the two children.
    pub open spec fn wf(self) -> bool
        decreases self,
    {
        &&& self.left.wf()
        &&& self.right.wf()
        &&& forall|k: usize| self.left.map().dom().contains(k) ==> k < self.key
        &&& forall|k: usize| self.right.map().dom().contains(k) ==> self.key < k
        &&& self.n >= 1 + self.left.counted() + self.right.counted()
    }

    /// Every count of the subtree is the size of the subtree it stands on.
    pub open spec fn exact(self) -> bool
        decreases self,
    {
        &&& self.left.exact()
        &&& self.right.exact()
        &&& self.n == self.size()
    }

    /// The keys that leave together with `key`: where the node of `key` has
    /// a left child, that child takes its place and its right subtree is
    /// given up.
    pub open spec fn eclipsed(self, key: usize) -> Set<usize>
        decreases self,
    {
        if self.key == key {
            if self.left.root is Some {
                self.right.map().dom()
            } else {
                Set::empty()
            }
        } else if key < self.key {
            self.left.eclipsed(key)
        } else {
            self.right.eclipsed(key)
        }
    }

    /// The keys of the subtree, children before parents, left before right.
    pub open spec fn postorder(self) -> Seq<usize>
        decreases self,
    {
        (self.left.postorder() + self.right.postorder()).push(self.key)
    }

    /// A node without children.
    pub fn new(key: usize, val: u32) -> (node: Self)
        ensures
            node.wf(),
            node.exact(),
            node.map() == Map::<usize, u32>::empty().insert(key, val),
            node.n == 1,
    {
        let node = Node {
            key: key,
            val: val,
            n: 1,
            left: BinaryTree::new(),
            right: BinaryTree::new(),
        };
        assert(node.map() =~= Map::<usize, u32>::empty().insert(key, val));
        node
    }

    /// Sets the value of `key` in the subtree, with a new node if the key is
    /// not there yet.
    pub fn put(&mut self, key: usize, val: u32)
        requires
            old(self).wf(),
            old(self).n < u32::MAX,
        ensures
            final(self).wf(),
            final(self).map() == old(self).map().insert(key, val),
            final(self).n <= old(self).n + 1,
            old(self).exact() ==> final(self).exact(),
            final(self).size() == old(self).size() + if old(self).map().dom().contains(key) {
                0nat
            } else {
                1nat
            },
            final(self).key == old(self).key,
        decreases *old(self),
    {
        if self.key == key {
            self.val = val;
        } else if key < self.key {
            assert(!self.right.map().dom().contains(key));
            self.left.put(key, val);
        } else {
            assert(!self.left.map().dom().contains(key));
            self.right.put(key, val);
        }
        self.n = 1 + self.left.count() + self.right.count();
        assert(self.map() =~= old(self).map().insert(key, val));
    }

    /// The value of `key` in the subtree.
    pub fn get(&self, key: usize) -> (r: Option<u32>)
        requires
            self.wf(),
        ensures
            r == if self.map().dom().contains(key) {
                Some(self.map()[key])
            } else {
                None
            },
        decreases self,
    {
        if self.key == key {
            Some(self.val)
        } else if key < self.key {
            assert(!self.right.map().dom().contains(key));
            self.left.get(key)
        } else {
            assert(!self.left.map().dom().contains(key));
            self.right.get(key)
        }
    }

    /// The smallest key of the subtree.
    pub fn min_key(&self) -> (r: Option<usize>)
        requires
            self.wf(),
        ensures
            r is Some,
            self.map().dom().contains(r->0),
            forall|k: usize| self.map().dom().contains(k) ==> r->0 <= k,
        decreases self,
    {
        let below = self.left.min_key();
        proof {
            assert forall|k: usize| self.map().dom().contains(k) implies (if below is Some {
                below->0
            } else {
                self.key
            }) <= k by {
                if self.left.map().dom().contains(k) {
                } else if self.right.map().dom().contains(k) {
                    if below is Some {
                        assert(self.left.map().dom().contains(below->0));
                    }
                } else {
                    if below is Some {
                        assert(self.left.map().dom().contains(below->0));
                    }
                }
            }
        }
        match below {
            None => Some(self.key),
            Some(key) => Some(key),
        }
    }

    /// The largest key of the subtree.
    pub fn max_key(&self) -> (r: Option<usize>)
        requires
            self.wf(),
        ensures
            r is Some,
            self.map().dom().contains(r->0),
            forall|k: usize| self.map().dom().contains(k) ==> k <= r->0,
        decreases self,
    {
        let above = self.right.max_key();
        proof {
            assert forall|k: usize| self.map().dom().contains(k) implies k <= (if above is Some {
                above->0
            } else {
                self.key
            }) by {
                if self.right.map().dom().contains(k) {
                } else if self.left.map().dom().contains(k) {
                    if above is Some {
                        assert(self.right.map().dom().contains(above->0));
                    }
                } else {
                    if above is Some {
                        assert(self.right.map().dom().contains(above->0));
                    }
                }
            }
        }
        match above {
            None => Some(self.key),
            Some(key) => Some(key),
        }
    }

    /// The largest key of the subtree that is not above `key`.
    pub fn floor(&self, key: usize) -> (r: Option<usize>)
        requires
            self.wf(),
        ensures
            is_floor(self.map().dom(), key, r),
        decreases self,
    {
        if self.key == key {
            Some(key)
        } else if key < self.key {
            let r = self.left.floor(key);
            proof {
                assert forall|k: usize| self.map().dom().contains(k) && k <= key implies self.left.map().dom().contains(
                    k,
                ) by {
                    if self.right.map().dom().contains(k) {
                    }
                }
            }
            r
        } else {
            let beyond = self.right.floor(key);
            proof {
                assert forall|k: usize|
                    self.map().dom().contains(k) && !self.right.map().dom().contains(
                        k,
                    ) implies k <= self.key by {
                    if self.left.map().dom().contains(k) {
                    }
                }
            }
            match beyond {
                None => Some(self.key),
                Some(sub_tree_floor) => Some(sub_tree_floor),
            }
        }
    }

    /// The count stored at the node.
    pub fn count(&self) -> (r: u32)
        ensures
            r == self.n,
    {
        self.n
    }

    /// Appends the keys of the subtree to `v`, children before parents.
    pub fn iter_rec(&self, v: &mut Vec<usize>)
        ensures
            final(v)@ == old(v)@ + self.postorder(),
        decreases self,
    {
        self.left.iter_rec(v);
        self.right.iter_rec(v);
        v.push(self.key);
        assert(v@ =~= old(v)@ + self.postorder());
    }

    /// Takes `key` out of the subtree.  Where the node has to go itself, it
    /// is left as it is and the answer is `true`: the parent drops it.
    pub fn delete(&mut self, key: usize) -> (gone: bool)
        requires
            old(self).wf(),
        ensures
            gone ==> *final(self) == *old(self) && old(self).key == key && old(self).map()
                == Map::<usize, u32>::empty().insert(key, old(self).val),
            !gone ==> final(self).wf() && final(self).n <= old(self).n && final(self).map()
                == old(self).map().remove(key).remove_keys(old(self).eclipsed(key)),
        decreases *old(self),
    {
        if self.key == key {
            let mut out = false;
            match self.left.root.take() {
                None => match self.right.root.take() {
                    None => {
                        out = true;
                        assert(self.left == old(self).left);
                        assert(self.right == old(self).right);
                        assert(old(self).map() =~= Map::<usize, u32>::empty().insert(
                            key,
                            old(self).val,
                        ));
                    },
                    Some(box_right_node) => {
                        *self = *box_right_node;
                        proof {
                            let l = old(self).left.map();
                            let r = old(self).right.map();
                            assert(l =~= Map::<usize, u32>::empty());
                            assert(!r.dom().contains(key));
                            assert(self.map() == r);
                            assert(old(self).eclipsed(key) =~= Set::<usize>::empty());
                            assert(r =~= old(self).map().remove(key).remove_keys(
                                old(self).eclipsed(key),
                            ));
                        }
                    },
                },
                Some(box_left_node) => {
                    *self = *box_left_node;
                    proof {
                        let l = old(self).left.map();
                        let r = old(self).right.map();
                        assert(!l.dom().contains(key));
                        assert(self.map() == l);
                        assert(old(self).eclipsed(key) == r.dom());
                        assert forall|k: usize| l.dom().contains(k) implies !r.dom().contains(
                            k,
                        ) by {}
                        assert(l =~= old(self).map().remove(key).remove_keys(
                            old(self).eclipsed(key),
                        ));
                    }
                },
            }
            out
        } else if key < self.key {
            self.left.delete(key);
            proof {
                let l = old(self).left.map();
                let r = old(self).right.map();
                let gone = old(self).left.eclipsed(key);
                assert(!r.dom().contains(key));
                assert forall|k: usize| gone.contains(k) implies l.dom().contains(k) by {
                    old(self).left.lemma_eclipsed_are_larger(key, k);
                }
                assert forall|k: usize| r.dom().contains(k) implies !l.dom().contains(k) by {}
                assert(self.map() =~= old(self).map().remove(key).remove_keys(gone));
            }
            false
        } else {
            self.right.delete(key);
            proof {
                let l = old(self).left.map();
                let r = old(self).right.map();
                let gone = old(self).right.eclipsed(key);
                assert(!l.dom().contains(key));
                assert forall|k: usize| gone.contains(k) implies r.dom().contains(k) by {
                    old(self).right.lemma_eclipsed_are_larger(key, k);
                }
                assert forall|k: usize| l.dom().contains(k) implies !r.dom().contains(k) by {}
                assert(self.map() =~= old(self).map().remove(key).remove_keys(gone));
            }
            false
        }
    }
}

/// `r` is the largest element of `keys` that is not above `key`, or `None`
/// if every element of `keys` is above `key`.
pub open spec fn is_floor(keys: Set<usize>, key: usize, r: Option<usize>) -> bool {
    match r {
        None => forall|k: usize| keys.contains(k) ==> key < k,
        Some(f) => {
            &&& keys.contains(f)
            &&& f <= key
            &&& forall|k: usize| keys.contains(k) && k <= key ==> k <= f
        },
    }
}

impl BinaryTree {
    /// The entries of the tree.
    pub open spec fn map(self) -> Map<usize, u32>
        decreases self,
    {
        match self.root {
            None => Map::empty(),
            Some(node) => node.map(),
        }
    }

    /// The number of nodes of the tree.
    pub open spec fn size(self) -> nat
        decreases self,
    {
        match self.root {
            None => 0,
            Some(node) => node.size(),
        }
    }

    /// The count stored at the root; zero for the empty tree.
    pub open spec fn counted(self) -> nat {
        match self.root {
            None => 0,
            Some(node) => node.n as nat,
        }
    }

    /// Keys grow from left to right, and no count is smaller than one plus
    /// the counts of the two children.
    pub open spec fn wf(self) -> bool
        decreases self,
    {
        match self.root {
            None => true,
            Some(node) => node.wf(),
        }
    }

    /// Every count of the tree is the size of the subtree it stands on.
    pub open spec fn exact(self) -> bool
        decreases self,
    {
        match self.root {
            None => true,
            Some(node) => node.exact(),
        }
    }

    /// The keys that leave together with `key`.
    pub open spec fn eclipsed(self, key: usize) -> Set<usize>
        decreases self,
    {
        match self.root {
            None => Set::empty(),
            Some(node) => node.eclipsed(key),
        }
    }

    /// The keys of the tree, children before parents, left before right.
    pub open spec fn postorder(self) -> Seq<usize>
        decreases self,
    {
        match self.root {
            None => Seq::empty(),
            Some(node) => node.postorder(),
        }
    }

    /// The empty tree.
    pub fn new() -> (tree: Self)
        ensures
            tree.wf(),
            tree.exact(),
            tree.root is None,
            tree.map() == Map::<usize, u32>::empty(),
    {
        BinaryTree { root: None }
    }

    /// Whether the tree holds no key.
    pub fn is_empty(&self) -> (r: bool)
        ensures
            r == (self.root is None),
            r == (self.map() == Map::<usize, u32>::empty()),
    {
        proof {
            if self.root is Some {
                let node = self.root->0;
                assert(node.map().dom().contains(node.key));
            }
        }
        match self.root {
            None => true,
            _ => false,
        }
    }

    /// Sets the value of `key`, with a new node if the key is not there yet.
    pub fn put(&mut self, key: usize, val: u32)
        requires
            old(self).wf(),
            old(self).counted() < u32::MAX,
        ensures
            final(self).wf(),
            final(self).map() == old(self).map().insert(key, val),
            final(self).counted() <= old(self).counted() + 1,
            old(self).exact() ==> final(self).exact(),
            final(self).size() == old(self).size() + if old(self).map().dom().contains(key) {
                0nat
            } else {
                1nat
            },
        decreases *old(self),
    {
        match self.root.take() {
            None => {
                self.root = Some(Box::new(Node::new(key, val)));
            },
            Some(box_node) => {
                let mut node = *box_node;
                node.put(key, val);
                self.root = Some(Box::new(node));
            },
        }
    }

    /// The value of `key`.
    pub fn get(&self, key: usize) -> (r: Option<u32>)
        requires
            self.wf(),
        ensures
            r == if self.map().dom().contains(key) {
                Some(self.map()[key])
            } else {
                None
            },
        decreases self,
    {
        match self.root {
            None => None,
            Some(ref box_node) => box_node.get(key),
        }
    }

    /// The smallest key; `None` for the empty tree.
    pub fn min_key(&self) -> (r: Option<usize>)
        requires
            self.wf(),
        ensures
            r is None <==> self.root is None,
            r is Some ==> self.map().dom().contains(r->0) && forall|k: usize|
                self.map().dom().contains(k) ==> r->0 <= k,
        decreases self,
    {
        match self.root {
            None => None,
            Some(ref box_node) => box_node.min_key(),
        }
    }

    /// The largest key; `None` for the empty tree.
    pub fn max_key(&self) -> (r: Option<usize>)
        requires
            self.wf(),
        ensures
            r is None <==> self.root is None,
            r is Some ==> self.map().dom().contains(r->0) && forall|k: usize|
                self.map().dom().contains(k) ==> k <= r->0,
        decreases self,
    {
        match self.root {
            None => None,
            Some(ref box_node) => box_node.max_key(),
        }
    }

    /// The largest key that is not above `key`; `None` if there is none.
    pub fn floor(&self, key: usize) -> (r: Option<usize>)
        requires
            self.wf(),
        ensures
            is_floor(self.map().dom(), key, r),
        decreases self,
    {
        match self.root {
            None => None,
            Some(ref box_node) => box_node.floor(key),
        }
    }

    /// The count stored at the root; zero for the empty tree.  As long as
    /// nothing was deleted this is the number of keys.
    pub fn count(&self) -> (r: u32)
        ensures
            r == self.counted(),
            self.exact() ==> r == self.size(),
    {
        match self.root {
            None => 0,
            Some(ref box_node) => box_node.count(),
        }
    }

    /// Appends the keys of the tree to `v`, children before parents.
    pub fn iter_rec(&self, v: &mut Vec<usize>)
        ensures
            final(v)@ == old(v)@ + self.postorder(),
        decreases self,
    {
        if let Some(ref node) = self.root {
            node.iter_rec(v);
        } else {
            assert(v@ =~= old(v)@ + self.postorder());
        }
    }

    /// The keys of the tree, ready to be handed out one by one.
    pub fn iter(&self) -> (it: BinaryTreeIter)
        ensures
            it.v@ == self.postorder(),
    {
        let mut v = Vec::with_capacity(self.count() as usize);
        self.iter_rec(&mut v);
        assert(v@ =~= self.postorder());
        BinaryTreeIter { v: v }
    }

    /// Takes `key` out of the tree, and with it the keys that it eclipses.
    pub fn delete(&mut self, key: usize)
        requires
            old(self).wf(),
        ensures
            final(self).wf(),
            final(self).counted() <= old(self).counted(),
            final(self).map() == old(self).map().remove(key).remove_keys(old(self).eclipsed(key)),
        decreases *old(self),
    {
        match self.root.take() {
            None => {
                assert(self.map() =~= old(self).map().remove(key).remove_keys(
                    old(self).eclipsed(key),
                ));
            },
            Some(mut box_node) => {
                if !box_node.delete(key) {
                    self.root = Some(box_node);
                } else {
                    assert(self.map() =~= old(self).map().remove(key).remove_keys(
                        old(self).eclipsed(key),
                    ));
                }
            },
        }
    }

    /// Every key that leaves together with `key` is larger than `key`, so a
    /// deletion never costs a key below the one that was asked for.
    pub proof fn lemma_eclipsed_are_larger(self, key: usize, k: usize)
        requires
            self.wf(),
            self.eclipsed(key).contains(k),
        ensures
            key < k,
            self.map().dom().contains(k),
        decreases self,
    {
        let node = self.root->0;
        if node.key == key {
        } else if key < node.key {
            node.left.lemma_eclipsed_are_larger(key, k);
        } else {
            node.right.lemma_eclipsed_are_larger(key, k);
        }
    }

    /// The keys that `iter` hands out are the keys of the tree.
    pub proof fn lemma_postorder_keys(self, k: usize)
        ensures
            self.postorder().contains(k) <==> self.map().dom().contains(k),
        decreases self,
    {
        match self.root {
            None => {},
            Some(node) => {
                node.left.lemma_postorder_keys(k);
                node.right.lemma_postorder_keys(k);
                let l = node.left.postorder();
                let r = node.right.postorder();
                let all = (l + r).push(node.key);
                if all.contains(k) {
                    let i = choose|i: int| 0 <= i < all.len() && all[i] == k;
                    if i < l.len() {
                        assert(l[i] == k);
                    } else if i < l.len() + r.len() {
                        assert(r[i - l.len()] == k);
                    }
                }
                if l.contains(k) {
                    let i = choose|i: int| 0 <= i < l.len() && l[i] == k;
                    assert(all[i] == k);
                }
                if r.contains(k) {
                    let i = choose|i: int| 0 <= i < r.len() && r[i] == k;
                    assert(all[i + l.len()] == k);
                }
                if k == node.key {
                    assert(all[all.len() - 1] == k);
                }
            },
        }
    }
}

impl BinaryTreeIter {
    /// Hands out the last key that is left.
    pub fn next(&mut self) -> (r: Option<usize>)
        ensures
            old(self).v@.len() == 0 ==> r is None && final(self).v@ == old(self).v@,
            old(self).v@.len() > 0 ==> r == Some(old(self).v@.last()) && final(self).v@ == old(
                self,
            ).v@.drop_last(),
    {
        self.v.pop()
    }
}

} // verus!
