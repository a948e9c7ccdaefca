//! Elementary sorts, merge sort and quicksort.
//!
//! The sorts work on any type whose comparisons form a total order (see
//! [`ordered`]).  Every sort promises the same two things: the result is in
//! non-decreasing order, and it is a rearrangement of the input.

use vstd::prelude::*;
use crate::order::{le, lemma_order_laws, lt, ordered};
use crate::util::{rand_upto, sorted, sorted_between, swap};

verus! {

/// Selection sort: repeatedly moves the smallest remaining element to the
/// front of the unsorted part.
pub fn selection<T: Ord>(xs: &mut [T])
    requires
        ordered::<T>(),
        old(xs)@.len() >= 1,
    ensures
        sorted(final(xs)@),
        final(xs)@.to_multiset() == old(xs)@.to_multiset(),
{
    let l = xs.len();
    let mut i: usize = 0;
    while i < l - 1
        invariant
            ordered::<T>(),
            l == xs@.len(),
            l >= 1,
            i <= l - 1,
            xs@.to_multiset() == old(xs)@.to_multiset(),
            sorted_between(xs@, 0, i as int),
            forall|a: int, b: int| 0 <= a < i <= b < l ==> le(xs@[a], xs@[b]),
        decreases l - i,
    {
        let mut min = i;
        let mut j = i + 1;
        proof {
            lemma_order_laws::<T>();
        }
        while j < l
            invariant
                ordered::<T>(),
                l == xs@.len(),
                i <= min < j <= l,
                forall|k: int| i <= k < j ==> le(xs@[min as int], xs@[k]),
            decreases l - j,
        {
            proof {
                lemma_order_laws::<T>();
            }
            let ghost before = min;
            if xs[j] < xs[min] {
                min = j;
            }
            proof {
                if min == j {
                    assert(lt(xs@[j as int], xs@[before as int]));
                    assert forall|k: int| i <= k < j + 1 implies le(xs@[j as int], xs@[k]) by {
                        if k < j {
                            assert(le(xs@[before as int], xs@[k]));
                        }
                    }
                } else {
                    assert(!lt(xs@[j as int], xs@[min as int]));
                }
            }
            j = j + 1;
        }
        let ghost unsorted = xs@;
        swap(xs, i, min);
        proof {
            lemma_order_laws::<T>();
            assert forall|a: int, b: int| 0 <= a <= b < i + 1 implies le(xs@[a], xs@[b]) by {
                if b < i {
                    assert(le(unsorted[a], unsorted[b]));
                } else if a < i {
                    assert(le(unsorted[a], unsorted[min as int]));
                }
            }
            assert forall|a: int, b: int| 0 <= a < i + 1 <= b < l implies le(xs@[a], xs@[b]) by {
                let from = if b == min {
                    i as int
                } else {
                    b
                };
                assert(xs@[b] == unsorted[from]);
                if a < i {
                    assert(le(unsorted[a], unsorted[from]));
                } else {
                    assert(le(unsorted[min as int], unsorted[from]));
                }
            }
        }
        i = i + 1;
    }
    proof {
        lemma_order_laws::<T>();
    }
}

/// Insertion sort: grows a sorted prefix by sinking each new element to its
/// place.
pub fn insertion<T: Ord>(xs: &mut [T])
    requires
        ordered::<T>(),
    ensures
        sorted(final(xs)@),
        final(xs)@.to_multiset() == old(xs)@.to_multiset(),
{
    let l = xs.len();
    let mut i: usize = 1;
    proof {
        lemma_order_laws::<T>();
    }
    while i < l
        invariant
            ordered::<T>(),
            l == xs@.len(),
            1 <= i,
            xs@.to_multiset() == old(xs)@.to_multiset(),
            sorted_between(xs@, 0, if i <= l { i as int } else { l as int }),
        decreases l - i,
    {
        sink(xs, i, 1);
        i = i + 1;
    }
}

/// Lets the element at `i` sink in steps of `h` as long as the element `h`
/// places before it is larger.  With steps of one, a sorted part before `i`
/// becomes a sorted part up to and including `i`.
fn sink<T: Ord>(xs: &mut [T], i: usize, h: usize)
    requires
        ordered::<T>(),
        1 <= h,
        i < old(xs)@.len(),
        h == 1 ==> sorted_between(old(xs)@, 0, i as int),
    ensures
        final(xs)@.len() == old(xs)@.len(),
        final(xs)@.to_multiset() == old(xs)@.to_multiset(),
        h == 1 ==> sorted_between(final(xs)@, 0, i + 1),
{
    let mut j = i;
    proof {
        lemma_order_laws::<T>();
    }
    while h <= j && xs[j] < xs[j - h]
        invariant
            ordered::<T>(),
            1 <= h,
            j <= i < xs@.len(),
            xs@.len() == old(xs)@.len(),
            xs@.to_multiset() == old(xs)@.to_multiset(),
            h == 1 ==> sorted_between(xs@, 0, j as int),
            h == 1 ==> sorted_between(xs@, j as int, i + 1),
            h == 1 ==> forall|a: int, b: int| 0 <= a < j < b <= i ==> le(xs@[a], xs@[b]),
        decreases j,
    {
        let ghost before = xs@;
        swap(xs, j - h, j);
        proof {
            lemma_order_laws::<T>();
            if h == 1 {
                assert(lt(before[j as int], before[j - 1]));
                assert forall|a: int, b: int| 0 <= a <= b < j - 1 implies le(xs@[a], xs@[b]) by {
                    assert(le(before[a], before[b]));
                }
                assert forall|a: int, b: int| j - 1 <= a <= b < i + 1 implies le(
                    xs@[a],
                    xs@[b],
                ) by {
                    if a == j - 1 {
                        if b == j - 1 {
                        } else if b == j {
                            assert(le(before[j as int], before[j - 1]));
                        } else {
                            assert(le(before[j as int], before[b]));
                        }
                    } else if a == j {
                        if b > j {
                            assert(le(before[j - 1], before[b]));
                        }
                    } else {
                        assert(le(before[a], before[b]));
                    }
                }
                assert forall|a: int, b: int| 0 <= a < j - 1 < b <= i implies le(xs@[a], xs@[b]) by {
                    if b == j {
                        assert(le(before[a], before[j - 1]));
                    } else {
                        assert(le(before[a], before[b]));
                    }
                }
            }
        }
        j = j - h;
    }
    proof {
        lemma_order_laws::<T>();
        if h == 1 {
            if j > 0 {
                assert(!lt(xs@[j as int], xs@[j - 1]));
            }
            assert forall|a: int, b: int| 0 <= a <= b < i + 1 implies le(xs@[a], xs@[b]) by {
                if b < j {
                } else if a >= j {
                } else if b == j {
                    assert(le(xs@[a], xs@[j - 1]));
                    assert(le(xs@[j - 1], xs@[j as int]));
                } else {
                }
            }
        }
    }
}

/// `h` is one of the gaps 1, 4, 13, 40, ...: dividing it by three again and
/// again passes through 1.
pub open spec fn is_gap(h: int) -> bool
    decreases h,
{
    h == 1 || (h > 1 && h % 3 == 1 && is_gap(h / 3))
}

/// Shell sort with the gaps 1, 4, 13, 40, ...: insertion passes over ever
/// finer strides, the last of which is a plain insertion sort.
pub fn shell<T: Ord>(xs: &mut [T])
    requires
        ordered::<T>(),
    ensures
        sorted(final(xs)@),
        final(xs)@.to_multiset() == old(xs)@.to_multiset(),
{
    let l = xs.len();
    let mut h: usize = 1;
    while h < l / 3
        invariant
            is_gap(h as int),
            l == xs@.len(),
        decreases l - h,
    {
        h = 3 * h + 1;
    }
    while 1 <= h
        invariant
            ordered::<T>(),
            l == xs@.len(),
            xs@.to_multiset() == old(xs)@.to_multiset(),
            h >= 1 ==> is_gap(h as int),
            h == 0 ==> sorted(xs@),
        decreases h,
    {
        let mut i = h;
        proof {
            lemma_order_laws::<T>();
        }
        while i < l
            invariant
                ordered::<T>(),
                l == xs@.len(),
                1 <= h <= i,
                xs@.to_multiset() == old(xs)@.to_multiset(),
                h == 1 ==> sorted_between(xs@, 0, if i <= l { i as int } else { l as int }),
            decreases l - i,
        {
            sink(xs, i, h);
            if l - i < h {
                i = l;
            } else {
                i = i + h;
            }
        }
        h = h / 3;
    }
}

/// Shuffles the slice: every element but the first is exchanged, in turn,
/// with the element at a randomly drawn earlier position.  Whatever is
/// drawn, the result is what those exchanges make of the input.
pub fn shuffle<T>(xs: &mut [T])
    ensures
        final(xs)@.to_multiset() == old(xs)@.to_multiset(),
        exists|draws: Seq<usize>|
            #[trigger] earlier(draws, old(xs)@.len()) && final(xs)@ == exchanged(old(xs)@, draws),
{
    let l = xs.len();
    let mut i: usize = 0;
    let ghost mut draws = Seq::<usize>::empty();
    while i < l
        invariant
            i <= l,
            l == xs@.len(),
            l == old(xs)@.len(),
            xs@.to_multiset() == old(xs)@.to_multiset(),
            draws.len() == i,
            forall|k: int| 1 <= k < i ==> draws[k] < k,
            xs@ == exchanged(old(xs)@, draws),
        decreases l - i,
    {
        let ghost drawn = draws;
        if i != 0 {
            let draw = rand_upto(i);
            swap(xs, i, draw);
            proof {
                draws = drawn.push(draw);
            }
        } else {
            proof {
                draws = drawn.push(0);
            }
        }
        assert(draws.drop_last() =~= drawn);
        i = i + 1;
    }
    assert(earlier(draws, l as nat));
}

/// `draws` names an earlier position for every position of a sequence of
/// `len` elements but the first.
pub open spec fn earlier(draws: Seq<usize>, len: nat) -> bool {
    &&& draws.len() == len
    &&& forall|i: int| 1 <= i < len ==> draws[i] < i
}

/// What becomes of `s` when its elements, from the second to the last of
/// those that `draws` covers, are exchanged one after the other with the
/// element at the position drawn for them.
pub open spec fn exchanged<T>(s: Seq<T>, draws: Seq<usize>) -> Seq<T>
    decreases draws.len(),
{
    if draws.len() <= 1 {
        s
    } else {
        let i = draws.len() - 1;
        let before = exchanged(s, draws.drop_last());
        before.update(i, before[draws[i] as int]).update(draws[i] as int, before[i])
    }
}

/// The part of `t` from `a` up to `b` is a rearrangement of the same part of
/// `s`, and outside that part the two agree.
pub open spec fn rearranged_within<T>(s: Seq<T>, t: Seq<T>, a: int, b: int) -> bool {
    &&& t.len() == s.len()
    &&& t.subrange(a, b).to_multiset() == s.subrange(a, b).to_multiset()
    &&& forall|k: int| 0 <= k < s.len() && !(a <= k < b) ==> t[k] == s[k]
}

/// A rearrangement within a part is a rearrangement within every larger
/// part, and of the whole.
pub proof fn lemma_rearranged_widens<T>(s: Seq<T>, t: Seq<T>, a: int, b: int, lo: int, hi: int)
    requires
        0 <= lo <= a <= b <= hi <= s.len(),
        rearranged_within(s, t, a, b),
    ensures
        rearranged_within(s, t, lo, hi),
        t.to_multiset() == s.to_multiset(),
{
    broadcast use vstd::seq_lib::lemma_multiset_commutative;

    assert(t.subrange(lo, a) =~= s.subrange(lo, a));
    assert(t.subrange(b, hi) =~= s.subrange(b, hi));
    assert(t.subrange(lo, hi) =~= t.subrange(lo, a) + t.subrange(a, b) + t.subrange(b, hi));
    assert(s.subrange(lo, hi) =~= s.subrange(lo, a) + s.subrange(a, b) + s.subrange(b, hi));
    let n = s.len() as int;
    assert(t.subrange(0, a) =~= s.subrange(0, a));
    assert(t.subrange(b, n) =~= s.subrange(b, n));
    assert(t =~= t.subrange(0, a) + t.subrange(a, b) + t.subrange(b, n));
    assert(s =~= s.subrange(0, a) + s.subrange(a, b) + s.subrange(b, n));
}

/// A rearrangement of a rearrangement is a rearrangement.
pub proof fn lemma_rearranged_twice<T>(s: Seq<T>, t: Seq<T>, u: Seq<T>, a: int, b: int)
    requires
        rearranged_within(s, t, a, b),
        rearranged_within(t, u, a, b),
    ensures
        rearranged_within(s, u, a, b),
{
}

/// Rearranging a part keeps every bound on its elements.
pub proof fn lemma_rearranged_keeps_bounds<T>(s: Seq<T>, t: Seq<T>, a: int, b: int, k: int)
    requires
        0 <= a <= k < b <= s.len(),
        rearranged_within(s, t, a, b),
    ensures
        exists|m: int| a <= m < b && s[m] == t[k],
{
    let part_s = s.subrange(a, b);
    let part_t = t.subrange(a, b);
    assert(part_t[k - a] == t[k]);
    assert(part_t.contains(t[k]));
    vstd::seq_lib::to_multiset_contains(part_t, t[k]);
    vstd::seq_lib::to_multiset_contains(part_s, t[k]);
    assert(part_s.contains(t[k]));
    let m = choose|m: int| 0 <= m < part_s.len() && part_s[m] == t[k];
    assert(s[m + a] == t[k]);
}

/// Appends the elements of `a` from index `from` on to `out`.
fn append_from<T: Copy>(a: &[T], from: usize, out: &mut Vec<T>)
    requires
        from < a@.len(),
    ensures
        final(out)@ == old(out)@ + a@.subrange(from as int, a@.len() as int),
{
    let n = a.len();
    let mut i = from;
    while i < n
        invariant
            n == a@.len(),
            from <= i <= n,
            out@ == old(out)@ + a@.subrange(from as int, i as int),
        decreases n - i,
    {
        out.push(a[i]);
        i = i + 1;
        assert(out@ =~= old(out)@ + a@.subrange(from as int, i as int));
    }
}

/// Merges two sorted slices into one sorted vector that holds the elements
/// of both.
pub fn merge<T: Ord + Copy>(a: &[T], b: &[T]) -> (out: Vec<T>)
    requires
        ordered::<T>(),
        a@.len() >= 1,
        b@.len() >= 1,
        sorted(a@),
        sorted(b@),
        a@.len() + b@.len() <= usize::MAX,
    ensures
        sorted(out@),
        out@.to_multiset() == a@.to_multiset().add(b@.to_multiset()),
        out@.len() == a@.len() + b@.len(),
{
    let na = a.len();
    let nb = b.len();
    let mut out: Vec<T> = Vec::with_capacity(na + nb);
    let mut i: usize = 0;
    let mut j: usize = 0;
    proof {
        broadcast use vstd::multiset::group_multiset_axioms;

        let none = Seq::<T>::empty();
        assert(a@.take(0) =~= none);
        assert(b@.take(0) =~= none);
        assert(out@ =~= none);
        vstd::seq_lib::to_multiset_len(none);
        assert(none.to_multiset() =~= vstd::multiset::Multiset::empty());
        assert(out@.to_multiset() =~= a@.take(0).to_multiset().add(b@.take(0).to_multiset()));
    }
    while i < na && j < nb
        invariant
            ordered::<T>(),
            na == a@.len(),
            nb == b@.len(),
            i <= na,
            j <= nb,
            sorted(a@),
            sorted(b@),
            sorted(out@),
            i < na && j < nb ==> {
                &&& out@.to_multiset() == a@.take(i as int).to_multiset().add(
                    b@.take(j as int).to_multiset(),
                )
                &&& forall|k: int| 0 <= k < out@.len() ==> le(out@[k], a@[i as int])
                &&& forall|k: int| 0 <= k < out@.len() ==> le(out@[k], b@[j as int])
            },
            !(i < na && j < nb) ==> out@.to_multiset() == a@.to_multiset().add(b@.to_multiset()),
        decreases (na - i) + (nb - j),
    {
        let next_a = a[i];
        let next_b = b[j];
        let ghost before = out@;
        proof {
            lemma_order_laws::<T>();
        }
        if next_a < next_b {
            out.push(next_a);
            i = i + 1;
            proof {
                broadcast use vstd::multiset::group_multiset_axioms;

                assert(lt(next_a, next_b));
                assert(a@.take(i as int) =~= a@.take(i - 1).push(next_a));
                vstd::seq_lib::to_multiset_build(before, next_a);
                vstd::seq_lib::to_multiset_build(a@.take(i - 1), next_a);
                assert(out@.to_multiset() =~= a@.take(i as int).to_multiset().add(
                    b@.take(j as int).to_multiset(),
                ));
                lemma_pushed(before, next_a);
                if i < na {
                    assert forall|k: int| 0 <= k < out@.len() implies le(out@[k], a@[i as int]) by {
                        assert(le(a@[i - 1], a@[i as int]));
                        if k < before.len() {
                            assert(le(before[k], a@[i - 1]));
                        }
                    }
                }
                assert forall|k: int| 0 <= k < out@.len() implies le(out@[k], b@[j as int]) by {
                    if k < before.len() {
                        assert(le(before[k], b@[j as int]));
                    }
                }
            }
            if i == na {
                let ghost mid = out@;
                append_from(b, j, &mut out);
                proof {
                    let rest = b@.subrange(j as int, nb as int);
                    assert(a@.take(na as int) =~= a@);
                    assert(b@ =~= b@.take(j as int) + rest);
                    assert(out@ == mid + rest);
                    broadcast use vstd::multiset::group_multiset_axioms;

                    vstd::seq_lib::lemma_multiset_commutative(mid, rest);
                    vstd::seq_lib::lemma_multiset_commutative(b@.take(j as int), rest);
                    assert(out@.to_multiset() =~= a@.to_multiset().add(b@.to_multiset()));
                    lemma_appended(mid, b@, j as int);
                }
            }
        } else {
            out.push(next_b);
            j = j + 1;
            proof {
                broadcast use vstd::multiset::group_multiset_axioms;

                assert(!lt(next_a, next_b));
                assert(b@.take(j as int) =~= b@.take(j - 1).push(next_b));
                vstd::seq_lib::to_multiset_build(before, next_b);
                vstd::seq_lib::to_multiset_build(b@.take(j - 1), next_b);
                assert(out@.to_multiset() =~= a@.take(i as int).to_multiset().add(
                    b@.take(j as int).to_multiset(),
                ));
                lemma_pushed(before, next_b);
                if j < nb {
                    assert forall|k: int| 0 <= k < out@.len() implies le(out@[k], b@[j as int]) by {
                        assert(le(b@[j - 1], b@[j as int]));
                        if k < before.len() {
                            assert(le(before[k], b@[j - 1]));
                        }
                    }
                }
                assert forall|k: int| 0 <= k < out@.len() implies le(out@[k], a@[i as int]) by {
                    if k < before.len() {
                        assert(le(before[k], a@[i as int]));
                    }
                }
            }
            if j == nb {
                let ghost mid = out@;
                append_from(a, i, &mut out);
                proof {
                    let rest = a@.subrange(i as int, na as int);
                    assert(b@.take(nb as int) =~= b@);
                    assert(a@ =~= a@.take(i as int) + rest);
                    assert(out@ == mid + rest);
                    broadcast use vstd::multiset::group_multiset_axioms;

                    vstd::seq_lib::lemma_multiset_commutative(mid, rest);
                    vstd::seq_lib::lemma_multiset_commutative(a@.take(i as int), rest);
                    assert(out@.to_multiset() =~= a@.to_multiset().add(b@.to_multiset()));
                    lemma_appended(mid, a@, i as int);
                }
            }
        }
    }
    proof {
        vstd::seq_lib::to_multiset_len(out@);
        vstd::seq_lib::to_multiset_len(a@);
        vstd::seq_lib::to_multiset_len(b@);
    }
    out
}

/// A sorted sequence stays sorted when an element is added that is no
/// smaller than any of it.
proof fn lemma_pushed<T: Ord>(s: Seq<T>, x: T)
    requires
        ordered::<T>(),
        sorted(s),
        forall|k: int| 0 <= k < s.len() ==> le(s[k], x),
    ensures
        sorted(s.push(x)),
{
    lemma_order_laws::<T>();
    let t = s.push(x);
    assert forall|i: int, j: int| 0 <= i <= j < t.len() implies le(t[i], t[j]) by {
        if j < s.len() {
            assert(le(s[i], s[j]));
        } else if i < s.len() {
            assert(le(s[i], x));
        }
    }
}

/// A sorted sequence stays sorted when the sorted rest of another is added
/// whose first element is no smaller than any of it.
proof fn lemma_appended<T: Ord>(s: Seq<T>, other: Seq<T>, from: int)
    requires
        ordered::<T>(),
        sorted(s),
        sorted(other),
        0 <= from < other.len(),
        forall|k: int| 0 <= k < s.len() ==> le(s[k], other[from]),
    ensures
        sorted(s + other.subrange(from, other.len() as int)),
{
    lemma_order_laws::<T>();
    let rest = other.subrange(from, other.len() as int);
    let t = s + rest;
    assert forall|i: int, j: int| 0 <= i <= j < t.len() implies le(t[i], t[j]) by {
        if j < s.len() {
            assert(le(s[i], s[j]));
        } else if i < s.len() {
            assert(le(s[i], other[from]));
            assert(le(other[from], other[j - s.len() + from]));
        } else {
            assert(le(other[i - s.len() + from], other[j - s.len() + from]));
        }
    }
}

/// Merge sort: sorts each half, then merges the two.
pub fn merge_sort<T: Ord + Copy>(v: &[T]) -> (out: Vec<T>)
    requires
        ordered::<T>(),
        v@.len() >= 1,
    ensures
        sorted(out@),
        out@.to_multiset() == v@.to_multiset(),
        out@.len() == v@.len(),
    decreases v@.len(),
{
    let n = v.len();
    if n == 1 {
        let mut out: Vec<T> = Vec::with_capacity(1);
        out.push(v[0]);
        proof {
            lemma_order_laws::<T>();
            assert(out@ =~= v@);
        }
        out
    } else {
        let slices = v.split_at(n / 2);
        let a = slices.0;
        let b = slices.1;
        proof {
            assert(v@ =~= a@ + b@);
            vstd::seq_lib::lemma_multiset_commutative(a@, b@);
        }
        let left = merge_sort(a);
        let right = merge_sort(b);
        merge(left.as_slice(), right.as_slice())
    }
}

/// Partitions the part of `v` from `lo` to `hi`, both included, around the
/// element that stands at `lo`: afterwards that element stands at the
/// returned index, nothing larger stands before it and nothing smaller
/// after it.
pub fn partition<T: Ord>(v: &mut Vec<T>, lo: usize, hi: usize) -> (j: usize)
    requires
        ordered::<T>(),
        lo < hi < old(v)@.len(),
    ensures
        lo <= j <= hi,
        rearranged_within(old(v)@, final(v)@, lo as int, hi + 1),
        final(v)@[j as int] == old(v)@[lo as int],
        forall|k: int| lo <= k < j ==> le(final(v)@[k], final(v)@[j as int]),
        forall|k: int| j < k <= hi ==> le(final(v)@[j as int], final(v)@[k]),
{
    let ghost p = v@[lo as int];
    let mut i = lo;
    let mut j = hi;
    proof {
        lemma_order_laws::<T>();
        lemma_rearranged_widens(v@, v@, lo as int, lo as int, lo as int, hi + 1);
    }
    while i < j
        invariant
            ordered::<T>(),
            v@.len() == old(v)@.len(),
            lo < hi < v@.len(),
            lo <= i <= hi,
            lo <= j <= hi,
            v@[lo as int] == p,
            p == old(v)@[lo as int],
            forall|k: int| lo <= k < i ==> le(v@[k], p),
            forall|k: int| j < k <= hi ==> le(p, v@[k]),
            i < j ==> le(v@[i as int], p),
            i >= j ==> (j == lo || lt(v@[j as int], p)),
            rearranged_within(old(v)@, v@, lo as int, hi + 1),
        decreases hi - i,
    {
        proof {
            lemma_order_laws::<T>();
        }
        let ghost entry = i;
        while i < hi && v[i] <= v[lo]
            invariant
                ordered::<T>(),
                lo < hi < v@.len(),
                lo <= i <= hi,
                entry <= i,
                v@[lo as int] == p,
                forall|k: int| lo <= k < i ==> le(v@[k], p),
            decreases hi - i,
        {
            proof {
                lemma_order_laws::<T>();
            }
            i = i + 1;
        }
        while lo < j && v[lo] <= v[j]
            invariant
                ordered::<T>(),
                lo < hi < v@.len(),
                lo <= j <= hi,
                v@[lo as int] == p,
                forall|k: int| j < k <= hi ==> le(p, v@[k]),
            decreases j,
        {
            proof {
                lemma_order_laws::<T>();
            }
            j = j - 1;
        }
        proof {
            lemma_order_laws::<T>();
            if i < hi {
                assert(!le(v@[i as int], p));
            }
            if lo < j {
                assert(!le(p, v@[j as int]));
                assert(lt(v@[j as int], p));
            }
        }
        if i < j {
            let ghost before = v@;
            swap(v.as_mut_slice(), i, j);
            proof {
                lemma_swap_within(before, lo as int, hi + 1, i as int, j as int);
                lemma_rearranged_twice(old(v)@, before, v@, lo as int, hi + 1);
                assert(lt(before[j as int], p));
                assert(le(v@[i as int], p));
                assert(le(p, v@[j as int]));
                assert forall|k: int| lo <= k < i implies le(v@[k], p) by {
                    assert(le(before[k], p));
                }
                assert forall|k: int| j < k <= hi implies le(p, v@[k]) by {
                    assert(le(p, before[k]));
                }
            }
        }
    }
    let ghost before = v@;
    swap(v.as_mut_slice(), lo, j);
    proof {
        lemma_order_laws::<T>();
        lemma_swap_within(before, lo as int, hi + 1, lo as int, j as int);
        lemma_rearranged_twice(old(v)@, before, v@, lo as int, hi + 1);
        assert forall|k: int| lo <= k < j implies le(v@[k], v@[j as int]) by {
            if k == lo {
                assert(lt(before[j as int], p));
            } else {
                assert(le(before[k], p));
            }
        }
        assert forall|k: int| j < k <= hi implies le(v@[j as int], v@[k]) by {
            assert(le(p, before[k]));
        }
    }
    j
}

/// Exchanging two elements of a part rearranges that part and nothing more.
pub proof fn lemma_swap_within<T>(s: Seq<T>, a: int, b: int, i: int, j: int)
    requires
        0 <= a <= i < b <= s.len(),
        a <= j < b,
    ensures
        rearranged_within(s, s.update(i, s[j]).update(j, s[i]), a, b),
{
    let t = s.update(i, s[j]).update(j, s[i]);
    let part = s.subrange(a, b);
    crate::util::lemma_swap_is_permutation(part, i - a, j - a);
    assert(t.subrange(a, b) =~= part.update(i - a, part[j - a]).update(j - a, part[i - a]));
}

/// Sorts the part of `v` from `lo` to `hi`, both included, and leaves the
/// rest as it is.  Where `lo` is not below `hi` there is nothing to do.
pub fn quick_sort_rec<T: Ord>(v: &mut Vec<T>, lo: usize, hi: usize)
    requires
        ordered::<T>(),
        hi < old(v)@.len(),
    ensures
        final(v)@.len() == old(v)@.len(),
        lo <= hi ==> rearranged_within(old(v)@, final(v)@, lo as int, hi + 1),
        lo <= hi ==> sorted_between(final(v)@, lo as int, hi + 1),
        lo > hi ==> final(v)@ == old(v)@,
        final(v)@.to_multiset() == old(v)@.to_multiset(),
    decreases
            if lo <= hi {
                hi + 1 - lo
            } else {
                0
            },
{
    let n = v.len();
    proof {
        lemma_order_laws::<T>();
    }
    if lo < hi {
        let j = partition(v, lo, hi);
        let ghost parted = v@;
        let ghost p = parted[j as int];
        if j > 0 {
            quick_sort_rec(v, lo, j - 1);
        }
        let ghost left_done = v@;
        proof {
            if j > lo {
                lemma_rearranged_widens(parted, left_done, lo as int, j as int, lo as int, hi + 1);
                assert forall|k: int| lo <= k < j implies le(left_done[k], p) by {
                    lemma_rearranged_keeps_bounds(parted, left_done, lo as int, j as int, k);
                    let m = choose|m: int| lo <= m < j && parted[m] == left_done[k];
                    assert(le(parted[m], p));
                }
            } else {
                assert(left_done =~= parted);
                lemma_rearranged_widens(parted, left_done, lo as int, lo as int, lo as int, hi + 1);
            }
        }
        if j + 1 < hi {
            quick_sort_rec(v, j + 1, hi);
        }
        let ghost both_done = v@;
        proof {
            if j + 1 < hi {
                lemma_rearranged_widens(left_done, both_done, j + 1, hi + 1, lo as int, hi + 1);
                assert forall|k: int| j < k <= hi implies le(p, both_done[k]) by {
                    lemma_rearranged_keeps_bounds(left_done, both_done, j + 1, hi + 1, k);
                    let m = choose|m: int| j + 1 <= m < hi + 1 && left_done[m] == both_done[k];
                    assert(le(p, parted[m]));
                }
            } else {
                assert(both_done =~= left_done);
                lemma_rearranged_widens(left_done, both_done, hi + 1, hi + 1, lo as int, hi + 1);
                assert forall|k: int| j < k <= hi implies le(p, both_done[k]) by {
                    assert(le(p, parted[k]));
                }
            }
            lemma_rearranged_twice(parted, left_done, both_done, lo as int, hi + 1);
            lemma_rearranged_twice(old(v)@, parted, both_done, lo as int, hi + 1);
            lemma_rearranged_widens(old(v)@, both_done, lo as int, hi + 1, lo as int, hi + 1);
            assert forall|a: int, b: int| lo <= a <= b < hi + 1 implies le(
                both_done[a],
                both_done[b],
            ) by {
                if b < j {
                    assert(le(left_done[a], left_done[b]));
                } else if a > j {
                } else if a == j {
                    if b > j {
                        assert(le(p, both_done[b]));
                    }
                } else {
                    assert(le(left_done[a], p));
                    if b > j {
                        assert(le(p, both_done[b]));
                    }
                }
            }
        }
    } else if lo == hi {
        proof {
            lemma_rearranged_widens(v@, v@, lo as int, lo as int, lo as int, hi + 1);
        }
    }
}

/// Quicksort.
pub fn quick_sort<T: Ord>(v: &mut Vec<T>)
    requires
        ordered::<T>(),
        old(v)@.len() >= 1,
    ensures
        sorted(final(v)@),
        final(v)@.to_multiset() == old(v)@.to_multiset(),
{
    let n = v.len();
    quick_sort_rec(v, 0, n - 1);
}

} // verus!
