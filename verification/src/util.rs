//! Helpers shared by the sorting routines and the heap: random test data, a
//! sortedness check, and the vocabulary in which sorting is specified.

use vstd::prelude::*;
use crate::order::{gt, le, lemma_order_laws, lemma_total_order, ordered};

verus! {

/// The sequence is in non-decreasing order.
pub open spec fn sorted<T: Ord>(s: Seq<T>) -> bool {
    sorted_between(s, 0, s.len() as int)
}

/// The part of the sequence from `lo` up to, but not including, `hi` is in
/// non-decreasing order.
pub open spec fn sorted_between<T: Ord>(s: Seq<T>, lo: int, hi: int) -> bool {
    forall|i: int, j: int| lo <= i <= j < hi ==> le(s[i], s[j])
}

/// The element at `i` is no larger than its successor.
pub open spec fn in_step<T: Ord>(s: Seq<T>, i: int) -> bool {
    le(s[i], s[i + 1])
}

/// No element is larger than its successor.
pub open spec fn stepwise_sorted<T: Ord>(s: Seq<T>) -> bool {
    forall|i: int| 0 <= i < s.len() - 1 ==> #[trigger] in_step(s, i)
}

/// A sequence in which no element is larger than its successor is in
/// non-decreasing order, and the other way round.
pub proof fn lemma_stepwise_sorted<T: Ord>(s: Seq<T>)
    requires
        ordered::<T>(),
    ensures
        stepwise_sorted(s) <==> sorted(s),
{
    if stepwise_sorted(s) {
        assert forall|i: int, j: int| 0 <= i <= j < s.len() implies le(s[i], s[j]) by {
            lemma_climb(s, i, j);
        }
    }
    if sorted(s) {
        assert forall|i: int| 0 <= i < s.len() - 1 implies #[trigger] in_step(s, i) by {}
    }
}

proof fn lemma_climb<T: Ord>(s: Seq<T>, i: int, j: int)
    requires
        ordered::<T>(),
        stepwise_sorted(s),
        0 <= i <= j < s.len(),
    ensures
        le(s[i], s[j]),
    decreases j - i,
{
    if i < j {
        lemma_climb(s, i, j - 1);
        assert(in_step(s, j - 1));
        lemma_total_order(s[i], s[j - 1], s[j]);
    } else {
        lemma_total_order(s[i], s[i], s[i]);
    }
}

/// Exchanging two elements of a sequence rearranges it and nothing more.
pub proof fn lemma_swap_is_permutation<T>(s: Seq<T>, i: int, j: int)
    requires
        0 <= i < s.len(),
        0 <= j < s.len(),
    ensures
        s.update(i, s[j]).update(j, s[i]).to_multiset() == s.to_multiset(),
{
    broadcast use vstd::multiset::group_multiset_axioms;

    let mid = s.update(i, s[j]);
    vstd::seq_lib::to_multiset_update(s, i, s[j]);
    vstd::seq_lib::to_multiset_update(mid, j, s[i]);
    vstd::seq_lib::to_multiset_contains(s, s[i]);
    vstd::seq_lib::to_multiset_contains(s, s[j]);
    assert(s.contains(s[i]));
    assert(s.contains(s[j]));
    assert(mid.update(j, s[i]).to_multiset() =~= s.to_multiset());
}

/// Exchanges the elements at `i` and `j`.
pub fn swap<T>(xs: &mut [T], i: usize, j: usize)
    requires
        i < old(xs)@.len(),
        j < old(xs)@.len(),
    ensures
        final(xs)@ == old(xs)@.update(i as int, old(xs)@[j as int]).update(
            j as int,
            old(xs)@[i as int],
        ),
        final(xs)@.to_multiset() == old(xs)@.to_multiset(),
{
    if i != j {
        let (lo, hi) = if i < j {
            (i, j)
        } else {
            (j, i)
        };
        let (left, right) = xs.split_at_mut(hi);
        core::mem::swap(&mut left[lo], &mut right[0]);
    }
    proof {
        assert(xs@ =~= old(xs)@.update(i as int, old(xs)@[j as int]).update(
            j as int,
            old(xs)@[i as int],
        ));
        lemma_swap_is_permutation(old(xs)@, i as int, j as int);
    }
}

/// A number drawn by the thread-local generator of the `rand` crate
/// (`rand::random::<usize>()`).  Nothing is claimed of the number: every
/// `usize` may come back, and two calls need not agree.  The generator is
/// seeded by the operating system on first use; `rand` gives up with a panic
/// if that fails.
#[verifier::external_body]
fn random_usize() -> usize {
    rand::random::<usize>()
}

/// A random number below `n`: a number drawn at random, reduced into `0..n`.
pub fn rand_upto(n: usize) -> (out: usize)
    requires
        n > 0,
    ensures
        out < n,
{
    reduce(random_usize(), n)
}

/// Reduces `draw` into `0..n`: the remainder of `draw` on division by `n`.
pub fn reduce(draw: usize, n: usize) -> (out: usize)
    requires
        n > 0,
    ensures
        out == draw % n,
        out < n,
{
    draw % n
}

/// `n` random numbers, each below `n`.
pub fn rand_vec(n: usize) -> (v: Vec<usize>)
    ensures
        v@.len() == n,
        forall|i: int| 0 <= i < n ==> v@[i] < n,
{
    let mut v: Vec<usize> = Vec::with_capacity(n);
    let mut i: usize = 0;
    while i < n
        invariant
            i <= n,
            v@.len() == i,
            forall|k: int| 0 <= k < i ==> v@[k] < n,
        decreases n - i,
    {
        v.push(rand_upto(n));
        i = i + 1;
    }
    v
}

/// Whether the slice is in non-decreasing order.
pub fn is_sorted<T: Ord>(a: &[T]) -> (r: bool)
    requires
        ordered::<T>(),
        a@.len() >= 1,
    ensures
        r == sorted(a@),
{
    let n = a.len();
    let mut i: usize = 0;
    while i < n - 1
        invariant
            ordered::<T>(),
            n == a@.len(),
            n >= 1,
            i <= n - 1,
            forall|k: int| 0 <= k < i ==> #[trigger] in_step(a@, k),
        decreases n - i,
    {
        proof {
            lemma_order_laws::<T>();
        }
        if a[i] > a[i + 1] {
            assert(gt(a@[i as int], a@[i + 1]));
            assert(!sorted(a@));
            return false;
        }
        assert(!gt(a@[i as int], a@[i + 1]));
        assert(in_step(a@, i as int));
        i = i + 1;
    }
    proof {
        lemma_stepwise_sorted(a@);
    }
    true
}

} // verus!
