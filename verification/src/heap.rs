//! A binary max-heap in a fixed array, and the in-place sort built on it.
//!
//! The heap lives in the slots `1..=n` of its array; slot `0` is never used.
//! The parent of slot `c` is slot `c / 2`, and no element is larger than its
//! parent, so the largest element stands in slot `1`.

use vstd::prelude::*;
use vstd::multiset::Multiset;
use crate::sort::{
    lemma_rearranged_keeps_bounds,
    lemma_rearranged_twice,
    lemma_rearranged_widens,
    lemma_swap_within,
    rearranged_within,
};
use crate::util::rand_upto;

verus! {

/// The number of slots of the array.
pub const N: usize = 10;

/// A max-heap of at most `N - 1` numbers.
#[derive(Debug)]
pub struct BinaryHeap {
    a: [u32; N],
    n: usize,
}

/// The element in slot `c` is no larger than its parent.
pub open spec fn below_parent(a: Seq<u32>, c: int) -> bool {
    a[c / 2] >= a[c]
}

/// The element in slot `c` is no larger than the parent of its parent.
pub open spec fn below_grandparent(a: Seq<u32>, c: int) -> bool {
    a[c / 2 / 2] >= a[c]
}

/// Among the slots `2..=n`, every element whose parent stands in slot `k` or
/// behind it is no larger than its parent.
pub open spec fn ordered_from(a: Seq<u32>, n: int, k: int) -> bool {
    forall|c: int| 2 <= c <= n && c / 2 >= k ==> #[trigger] below_parent(a, c)
}

/// As [`ordered_from`], except that the element in slot `i` may be smaller
/// than its children.  In exchange the children of `i` are no larger than
/// the parent of `i`, where that parent stands in slot `k` or behind it.
pub open spec fn ordered_except_below(a: Seq<u32>, n: int, k: int, i: int) -> bool {
    &&& forall|c: int| 2 <= c <= n && c / 2 >= k && c / 2 != i ==> #[trigger] below_parent(a, c)
    &&& i >= 2 && i / 2 >= k ==> forall|c: int|
        2 <= c <= n && c / 2 == i ==> #[trigger] below_grandparent(a, c)
}

/// As [`ordered_from`] the first slot, except that the element in slot `i`
/// may be larger than its parent.  In exchange the children of `i` are no
/// larger than the parent of `i`.
pub open spec fn ordered_except_above(a: Seq<u32>, n: int, i: int) -> bool {
    &&& forall|c: int| 2 <= c <= n && c != i ==> #[trigger] below_parent(a, c)
    &&& i >= 2 ==> forall|c: int| 2 <= c <= n && c / 2 == i ==> #[trigger] below_grandparent(a, c)
}

/// `top` occurs in `m`, and nothing in `m` is larger.
pub open spec fn is_max(m: Multiset<u32>, top: u32) -> bool {
    &&& m.count(top) > 0
    &&& forall|x: u32| m.count(x) > 0 ==> x <= top
}

/// The sequence is in non-decreasing order.
pub open spec fn ascending(s: Seq<u32>) -> bool {
    forall|i: int, j: int| 0 <= i <= j < s.len() ==> s[i] <= s[j]
}

proof fn lemma_top_is_largest(a: Seq<u32>, n: int, c: int)
    requires
        ordered_from(a, n, 1),
        1 <= c <= n,
    ensures
        a[c] <= a[1],
    decreases c,
{
    if c >= 2 {
        lemma_top_is_largest(a, n, c / 2);
        assert(below_parent(a, c));
    }
}

impl BinaryHeap {
    /// The heap fits its array and is ordered.
    pub closed spec fn wf(&self) -> bool {
        &&& self.n < N
        &&& ordered_from(self.a@, self.n as int, 1)
    }

    /// The number of elements.
    pub closed spec fn len(&self) -> nat {
        self.n as nat
    }

    /// The elements, each as often as it was inserted.
    pub closed spec fn view(&self) -> Multiset<u32> {
        self.a@.subrange(1, self.n + 1).to_multiset()
    }

    /// The element in the first slot.
    pub closed spec fn top(&self) -> u32 {
        self.a@[1]
    }

    /// An empty heap.
    pub fn new() -> (heap: Self)
        ensures
            heap.wf(),
            heap.len() == 0,
            heap.view() == Multiset::<u32>::empty(),
    {
        let heap = BinaryHeap { a: [0;N], n: 0 };
        proof {
            let none = heap.a@.subrange(1, 1);
            vstd::seq_lib::to_multiset_len(none);
            assert(none.to_multiset() =~= Multiset::empty());
        }
        heap
    }

    /// Whether the heap holds no element.
    pub fn is_empty(&self) -> (r: bool)
        ensures
            r == (self.len() == 0),
    {
        self.n == 0
    }

    /// The slot of the parent of slot `i`.
    pub fn parent(&self, i: usize) -> (p: usize)
        requires
            i != 1,
        ensures
            p == i / 2,
    {
        i / 2
    }

    /// The slot of the first child of slot `i`, which has to lie in the heap.
    pub fn first_child(&self, i: usize) -> (out: usize)
        requires
            i != 0,
            2 * i <= self.len(),
        ensures
            out == 2 * i,
    {
        2 * i
    }

    /// The slot of the second child of slot `i`, if it lies in the heap.
    pub fn second_child(&self, i: usize) -> (out: Option<usize>)
        requires
            i != 0,
            2 * i + 1 <= usize::MAX,
        ensures
            out == if self.len() < 2 * i + 1 {
                None
            } else {
                Some((2 * i + 1) as usize)
            },
    {
        let out = 2 * i + 1;
        if self.n < out {
            None
        } else {
            Some(out)
        }
    }

    /// Lets the element in slot `i` rise until its parent is no smaller.
    fn swim(&mut self, i: usize)
        requires
            old(self).n < N,
            1 <= i <= old(self).n,
            ordered_except_above(old(self).a@, old(self).n as int, i as int),
        ensures
            final(self).n == old(self).n,
            ordered_from(final(self).a@, final(self).n as int, 1),
            rearranged_within(old(self).a@, final(self).a@, 1, old(self).n + 1),
        decreases i,
    {
        if i != 1 {
            let e = self.a[i];
            let pi = self.parent(i);
            let p = self.a[pi];
            if p < e {
                self.a[pi] = e;
                self.a[i] = p;
                let ghost mid = self.a@;
                proof {
                    lemma_swap_within(old(self).a@, 1, self.n + 1, pi as int, i as int);
                    assert(mid =~= old(self).a@.update(pi as int, e).update(i as int, p));
                    lemma_swum(old(self).a@, mid, self.n as int, i as int);
                }
                self.swim(pi);
                proof {
                    lemma_rearranged_twice(old(self).a@, mid, self.a@, 1, self.n + 1);
                }
            } else {
                proof {
                    lemma_rearranged_widens(old(self).a@, self.a@, 1, 1, 1, self.n + 1);
                    assert forall|c: int| 2 <= c <= self.n implies #[trigger] below_parent(
                        self.a@,
                        c,
                    ) by {}
                }
            }
        } else {
            proof {
                lemma_rearranged_widens(old(self).a@, self.a@, 1, 1, 1, self.n + 1);
                assert forall|c: int| 2 <= c <= self.n implies #[trigger] below_parent(
                    self.a@,
                    c,
                ) by {}
            }
        }
    }

    /// Exchanges the elements in the slots `i` and `j`.
    fn swap(&mut self, i: usize, j: usize)
        requires
            i < j < N,
        ensures
            final(self).n == old(self).n,
            final(self).a@ == old(self).a@.update(i as int, old(self).a@[j as int]).update(
                j as int,
                old(self).a@[i as int],
            ),
    {
        let min = self.a[i];
        let max = self.a[j];
        self.a[i] = max;
        self.a[j] = min;
    }

    /// Lets the element in slot `i` sink until neither child is larger.
    fn sink(&mut self, i: usize)
        requires
            old(self).n < N,
            1 <= i < N,
        ensures
            final(self).n == old(self).n,
            i <= old(self).n ==> rearranged_within(
                old(self).a@,
                final(self).a@,
                i as int,
                old(self).n + 1,
            ),
            i > old(self).n ==> final(self).a@ == old(self).a@,
            forall|k: int|
                1 <= k <= i && #[trigger] ordered_except_below(
                    old(self).a@,
                    old(self).n as int,
                    k,
                    i as int,
                ) ==> ordered_from(final(self).a@, final(self).n as int, k),
        decreases N - i,
    {
        let ghost start = self.a@;
        let ghost n = self.n as int;
        if 2 * i <= self.n {
            let e = self.a[i];
            let fi = self.first_child(i);
            let fc = self.a[fi];
            match self.second_child(i) {
                None => {
                    if e < fc {
                        self.swap(i, fi);
                        let ghost mid = self.a@;
                        self.sink(fi);
                        proof {
                            lemma_sunk(start, mid, self.a@, n, i as int, fi as int);
                        }
                    } else {
                        proof {
                            lemma_rearranged_widens(start, start, i as int, i as int, i as int, n + 1);
                            lemma_settled(start, n, i as int);
                        }
                    }
                },
                Some(si) => {
                    let sc = self.a[si];
                    if e < fc && sc <= fc {
                        self.swap(i, fi);
                        let ghost mid = self.a@;
                        self.sink(fi);
                        proof {
                            lemma_sunk(start, mid, self.a@, n, i as int, fi as int);
                        }
                    } else if e < sc && fc < sc {
                        self.swap(i, si);
                        let ghost mid = self.a@;
                        self.sink(si);
                        proof {
                            lemma_sunk(start, mid, self.a@, n, i as int, si as int);
                        }
                    } else {
                        proof {
                            lemma_rearranged_widens(start, start, i as int, i as int, i as int, n + 1);
                            lemma_settled(start, n, i as int);
                        }
                    }
                },
            }
        } else {
            proof {
                if i <= self.n {
                    lemma_rearranged_widens(start, start, i as int, i as int, i as int, n + 1);
                }
                lemma_settled(start, n, i as int);
            }
        }
    }

    /// Puts `elem` into the heap.
    pub fn insert(&mut self, elem: u32)
        requires
            old(self).wf(),
            old(self).len() + 1 < N,
        ensures
            final(self).wf(),
            final(self).len() == old(self).len() + 1,
            final(self).view() == old(self).view().insert(elem),
    {
        self.n = self.n + 1;
        self.a[self.n] = elem;
        let elem_index = self.n;
        let ghost mid = self.a@;
        proof {
            let n = old(self).n as int;
            assert forall|c: int| 2 <= c <= n + 1 && c != n + 1 implies #[trigger] below_parent(
                mid,
                c,
            ) by {
                assert(below_parent(old(self).a@, c));
            }
        }
        self.swim(elem_index);
        proof {
            let n = old(self).n as int;
            assert(mid.subrange(1, n + 2) =~= old(self).a@.subrange(1, n + 1).push(elem));
            vstd::seq_lib::to_multiset_build(old(self).a@.subrange(1, n + 1), elem);
        }
    }

    /// Takes the largest element out of the heap and returns it.
    pub fn remove_max(&mut self) -> (max: u32)
        requires
            old(self).wf(),
            old(self).len() > 0,
        ensures
            final(self).wf(),
            final(self).len() == old(self).len() - 1,
            is_max(old(self).view(), max),
            final(self).view() == old(self).view().remove(max),
    {
        let max = self.peek_max();
        self.a[1] = self.a[self.n];
        // delete last node
        self.a[self.n] = 0;
        self.n = self.n - 1;
        let ghost mid = self.a@;
        proof {
            lemma_top_removed(old(self).a@, mid, old(self).n as int);
        }
        self.sink(1);
        proof {
            let n = old(self).n as int;
            if n == 1 {
                assert(self.a@.subrange(1, n) =~= mid.subrange(1, n));
            }
        }
        max
    }

    /// The largest element of the heap.
    pub fn peek_max(&self) -> (max: u32)
        requires
            self.wf(),
            self.len() > 0,
        ensures
            is_max(self.view(), max),
            max == self.top(),
    {
        proof {
            let part = self.a@.subrange(1, self.n + 1);
            assert(part[0] == self.a@[1]);
            assert(part.contains(self.a@[1]));
            vstd::seq_lib::to_multiset_contains(part, self.a@[1]);
            assert forall|x: u32| self.view().count(x) > 0 implies x <= self.a@[1] by {
                vstd::seq_lib::to_multiset_contains(part, x);
                let c = choose|c: int| 0 <= c < part.len() && part[c] == x;
                lemma_top_is_largest(self.a@, self.n as int, c + 1);
            }
        }
        self.a[1]
    }
}

proof fn lemma_swum(start: Seq<u32>, mid: Seq<u32>, n: int, i: int)
    requires
        2 <= i <= n < start.len(),
        mid == start.update(i / 2, start[i]).update(i, start[i / 2]),
        start[i / 2] < start[i],
        ordered_except_above(start, n, i),
    ensures
        ordered_except_above(mid, n, i / 2),
{
    let pi = i / 2;
    assert forall|c: int| 2 <= c <= n && c != pi implies #[trigger] below_parent(mid, c) by {
        if c == i {
        } else if c / 2 == i {
            assert(below_grandparent(start, c));
        } else {
            assert(below_parent(start, c));
        }
    }
    if pi >= 2 {
        assert(below_parent(start, pi));
        assert forall|c: int| 2 <= c <= n && c / 2 == pi implies #[trigger] below_grandparent(
            mid,
            c,
        ) by {
            if c != i {
                assert(below_parent(start, c));
            }
        }
    }
}

proof fn lemma_settled(a: Seq<u32>, n: int, i: int)
    requires
        1 <= i,
        forall|c: int| 2 <= c <= n && c / 2 == i ==> #[trigger] below_parent(a, c),
    ensures
        forall|k: int|
            1 <= k <= i && #[trigger] ordered_except_below(a, n, k, i) ==> ordered_from(a, n, k),
{
    assert forall|k: int| 1 <= k <= i && #[trigger] ordered_except_below(
        a,
        n,
        k,
        i,
    ) implies ordered_from(a, n, k) by {
        assert forall|c: int| 2 <= c <= n && c / 2 >= k implies #[trigger] below_parent(a, c) by {
            if c / 2 != i {
                assert(below_parent(a, c));
            }
        }
    }
}

proof fn lemma_top_removed(before: Seq<u32>, mid: Seq<u32>, n: int)
    requires
        1 <= n < before.len(),
        ordered_from(before, n, 1),
        mid == before.update(1, before[n]).update(n, 0u32),
    ensures
        ordered_except_below(mid, n - 1, 1, 1),
        mid.subrange(1, n).to_multiset() == before.subrange(1, n + 1).to_multiset().remove(
            before[1],
        ),
{
    broadcast use vstd::multiset::group_multiset_axioms;

    assert forall|c: int| 2 <= c <= n - 1 && c / 2 >= 1 && c / 2 != 1 implies #[trigger] below_parent(
        mid,
        c,
    ) by {
        assert(below_parent(before, c));
    }
    let part = before.subrange(1, n + 1);
    let last = part[n - 1];
    let top = part[0];
    vstd::seq_lib::to_multiset_update(part, 0, last);
    vstd::seq_lib::to_multiset_remove(part.update(0, last), n - 1);
    vstd::seq_lib::to_multiset_contains(part, last);
    vstd::seq_lib::to_multiset_contains(part, top);
    assert(part.contains(last));
    assert(part.contains(top));
    assert(mid.subrange(1, n) =~= part.update(0, last).remove(n - 1));
    assert(part.update(0, last).remove(n - 1).to_multiset() =~= part.to_multiset().remove(top));
}

proof fn lemma_sunk(start: Seq<u32>, mid: Seq<u32>, end: Seq<u32>, n: int, i: int, child: int)
    requires
        1 <= i < child <= n < start.len(),
        child / 2 == i,
        mid == start.update(i, start[child]).update(child, start[i]),
        start[i] < start[child],
        forall|c: int| 2 <= c <= n && c / 2 == i ==> start[c] <= start[child],
        rearranged_within(mid, end, child, n + 1),
        forall|k: int|
            1 <= k <= child && #[trigger] ordered_except_below(mid, n, k, child) ==> ordered_from(
                end,
                n,
                k,
            ),
    ensures
        rearranged_within(start, end, i, n + 1),
        forall|k: int|
            1 <= k <= i && #[trigger] ordered_except_below(start, n, k, i) ==> ordered_from(
                end,
                n,
                k,
            ),
{
    lemma_swap_within(start, i, n + 1, i, child);
    lemma_rearranged_widens(mid, end, child, n + 1, i, n + 1);
    lemma_rearranged_twice(start, mid, end, i, n + 1);
    assert forall|k: int| 1 <= k <= i && #[trigger] ordered_except_below(
        start,
        n,
        k,
        i,
    ) implies ordered_from(end, n, k) by {
        assert forall|c: int| 2 <= c <= n && c / 2 >= k && c / 2 != child implies #[trigger] below_parent(
            mid,
            c,
        ) by {
            if c / 2 == i {
                assert(start[c] <= start[child]);
            } else if c == i {
                assert(below_grandparent(start, child));
            } else {
                assert(below_parent(start, c));
            }
        }
        assert forall|c: int| 2 <= c <= n && c / 2 == child implies #[trigger] below_grandparent(
            mid,
            c,
        ) by {
            assert(below_parent(start, c));
        }
        assert(ordered_except_below(mid, n, k, child));
    }
}

/// `n` random numbers, each below `n`.
pub fn rand_vec(n: usize) -> (v: Vec<u32>)
    ensures
        v@.len() == n,
        forall|i: int| 0 <= i < n ==> v@[i] < n,
{
    let mut v: Vec<u32> = Vec::with_capacity(n);
    let mut i: usize = 0;
    while i < n
        invariant
            i <= n,
            v@.len() == i,
            forall|k: int| 0 <= k < i ==> v@[k] < n,
        decreases n - i,
    {
        let r = rand_upto(n);
        v.push(#[verifier::truncate] (r as u32));
        i = i + 1;
    }
    v
}

/// Sorts the first `N - 1` numbers of `v` with a heap: the numbers are made
/// a heap in place, then the largest is moved behind the heap again and
/// again until the heap is used up.
pub fn heap_sort(v: Vec<u32>) -> (out: Vec<u32>)
    requires
        v@.len() >= N - 1,
    ensures
        out@.len() == N - 1,
        ascending(out@),
        out@.to_multiset() == v@.subrange(0, N - 1).to_multiset(),
{
    let mut a: [u32; N] = [0;N];
    let mut i: usize = 0;
    while i < N - 1
        invariant
            i <= N - 1,
            v@.len() >= N - 1,
            forall|k: int| 0 <= k < i ==> a@[k + 1] == v@[k],
        decreases N - i,
    {
        a[i + 1] = v[i];
        i = i + 1;
    }
    let mut h = BinaryHeap { a: a, n: N - 1 };
    let ghost filled = h.a@;
    proof {
        assert(filled.subrange(1, N as int) =~= v@.subrange(0, N - 1)) by {
            assert forall|k: int| 0 <= k < N - 1 implies filled.subrange(1, N as int)[k]
                == v@.subrange(0, N - 1)[k] by {
                assert(filled[k + 1] == v@[k]);
            }
        }
        lemma_rearranged_widens(filled, filled, 1, 1, 1, N as int);
    }
    // balance the heap
    let mut i: usize = 1;
    while i < N
        invariant
            1 <= i <= N,
            h.n == N - 1,
            filled.len() == N,
            ordered_from(h.a@, N - 1, N - i + 1),
            rearranged_within(filled, h.a@, 1, N as int),
        decreases N - i,
    {
        let ghost before = h.a@;
        proof {
            assert forall|c: int|
                2 <= c <= N - 1 && c / 2 >= N - i && c / 2 != N - i implies #[trigger] below_parent(
                before,
                c,
            ) by {}
            assert(ordered_except_below(before, N - 1, N - i, N - i));
        }
        h.sink(N - i);
        proof {
            lemma_rearranged_widens(before, h.a@, N - i, N as int, 1, N as int);
            lemma_rearranged_twice(filled, before, h.a@, 1, N as int);
        }
        i = i + 1;
    }
    // sort by swapping the max down and clearing it
    let mut i = h.n;
    while 1 < i
        invariant
            1 <= i <= N - 1,
            h.n == i,
            ordered_from(h.a@, i as int, 1),
            rearranged_within(filled, h.a@, 1, N as int),
            filled.len() == N,
            forall|x: int, y: int| i < x <= y < N ==> h.a@[x] <= h.a@[y],
            forall|c: int, x: int| 1 <= c <= i < x < N ==> h.a@[c] <= h.a@[x],
        decreases i,
    {
        let ghost before = h.a@;
        h.swap(1, i);
        // forget the last item from the heap
        h.n = h.n - 1;
        let ghost mid = h.a@;
        proof {
            assert forall|c: int|
                2 <= c <= i - 1 && c / 2 >= 1 && c / 2 != 1 implies #[trigger] below_parent(
                mid,
                c,
            ) by {
                assert(below_parent(before, c));
            }
            assert(ordered_except_below(mid, i - 1, 1, 1));
        }
        h.sink(1);
        proof {
            let after = h.a@;
            lemma_swap_within(before, 1, N as int, 1, i as int);
            lemma_rearranged_widens(mid, after, 1, i as int, 1, N as int);
            lemma_rearranged_twice(before, mid, after, 1, N as int);
            lemma_rearranged_twice(filled, before, after, 1, N as int);
            assert forall|c: int| 1 <= c < i implies after[c] <= before[1] by {
                lemma_rearranged_keeps_bounds(mid, after, 1, i as int, c);
                let m = choose|m: int| 1 <= m < i && mid[m] == after[c];
                lemma_top_is_largest(before, i as int, m);
                lemma_top_is_largest(before, i as int, i as int);
            }
            assert forall|c: int, x: int| 1 <= c <= i - 1 < x < N implies after[c] <= after[x] by {
                assert(after[c] <= before[1]);
            }
        }
        i = i - 1;
    }
    let ghost sorted = h.a@;
    let mut out: Vec<u32> = Vec::with_capacity(N - 1);
    let mut k: usize = 1;
    while k < N
        invariant
            1 <= k <= N,
            h.a@ == sorted,
            out@ == sorted.subrange(1, k as int),
        decreases N - k,
    {
        out.push(h.a[k]);
        k = k + 1;
        assert(out@ =~= sorted.subrange(1, k as int));
    }
    proof {
        lemma_heap_sorted(v@, filled, sorted, out@);
    }
    out
}

proof fn lemma_heap_sorted(v: Seq<u32>, filled: Seq<u32>, sorted: Seq<u32>, out: Seq<u32>)
    requires
        v.len() >= N - 1,
        filled.len() == N,
        filled.subrange(1, N as int) == v.subrange(0, N - 1),
        rearranged_within(filled, sorted, 1, N as int),
        forall|x: int, y: int| 1 < x <= y < N ==> sorted[x] <= sorted[y],
        forall|x: int| 1 < x < N ==> sorted[1] <= #[trigger] sorted[x],
        out == sorted.subrange(1, N as int),
    ensures
        out.len() == N - 1,
        ascending(out),
        out.to_multiset() == v.subrange(0, N - 1).to_multiset(),
{
    assert forall|i: int, j: int| 0 <= i <= j < out.len() implies out[i] <= out[j] by {
        assert(out[i] == sorted[i + 1]);
        assert(out[j] == sorted[j + 1]);
    }
}

} // verus!
