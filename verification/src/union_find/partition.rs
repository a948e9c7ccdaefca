//! The abstract state shared by all strategies: a labelling of `0..n`.
//!
//! A labelling gives every element a label; two elements belong to the same
//! group exactly when their labels agree.  Different labellings can describe
//! the same partition, which is what lets four concrete encodings stand for
//! one abstract state.

use vstd::prelude::*;

verus! {

/// `a` and `b` lie in the same group of the partition that `labels` describes.
pub open spec fn joined(labels: Seq<int>, a: int, b: int) -> bool {
    labels[a] == labels[b]
}

/// The finest partition of `0..n`: every element is alone.
pub open spec fn singletons(n: nat) -> Seq<int> {
    Seq::new(n, |i: int| i)
}

/// The labelling after the group of `a` has been absorbed by the group of `b`:
/// every element that carried `a`'s label now carries `b`'s.
pub open spec fn merge(labels: Seq<int>, a: int, b: int) -> Seq<int> {
    Seq::new(labels.len(), |i: int| if labels[i] == labels[a] { labels[b] } else { labels[i] })
}

/// The labelling after a whole sequence of merges, applied first to last.
pub open spec fn merge_all(labels: Seq<int>, pairs: Seq<(int, int)>) -> Seq<int>
    decreases pairs.len(),
{
    if pairs.len() == 0 {
        labels
    } else {
        merge(merge_all(labels, pairs.drop_last()), pairs.last().0, pairs.last().1)
    }
}

/// Two labellings of the same universe describe the same partition.
pub open spec fn same_partition(x: Seq<int>, y: Seq<int>) -> bool {
    &&& x.len() == y.len()
    &&& forall|a: int, b: int|
        0 <= a < x.len() && 0 <= b < x.len() ==> (joined(x, a, b) <==> joined(y, a, b))
}

/// `after` describes the partition that results from `before` when the
/// groups of `a` and `b` are made one and nothing else changes: two elements
/// are together afterwards exactly when they were together before, or one of
/// them was with `a` and the other with `b`.
pub open spec fn unites(before: Seq<int>, after: Seq<int>, a: int, b: int) -> bool {
    &&& after.len() == before.len()
    &&& forall|x: int, y: int|
        0 <= x < before.len() && 0 <= y < before.len() ==> (joined(after, x, y) <==> {
            ||| joined(before, x, y)
            ||| joined(before, x, a) && joined(before, y, b)
            ||| joined(before, x, b) && joined(before, y, a)
        })
}

/// Every pair of `pairs` names two elements of `0..n`.
pub open spec fn pairs_within(pairs: Seq<(int, int)>, n: nat) -> bool {
    forall|k: int| 0 <= k < pairs.len() ==> 0 <= (#[trigger] pairs[k]).0 < n && 0 <= pairs[k].1 < n
}

/// Being in the same group is an equivalence relation: it is reflexive,
/// symmetric and transitive.
pub proof fn lemma_joined_is_equivalence(labels: Seq<int>, a: int, b: int, c: int)
    ensures
        joined(labels, a, a),
        joined(labels, a, b) == joined(labels, b, a),
        joined(labels, a, b) && joined(labels, b, c) ==> joined(labels, a, c),
{
}

/// A merge joins exactly what it has to: two elements are together afterwards
/// if and only if they were together before, or one of them was with `a` and
/// the other with `b`.
pub proof fn lemma_merge_joins(labels: Seq<int>, a: int, b: int, x: int, y: int)
    requires
        0 <= a < labels.len(),
        0 <= b < labels.len(),
        0 <= x < labels.len(),
        0 <= y < labels.len(),
    ensures
        joined(merge(labels, a, b), x, y) <==> {
            ||| joined(labels, x, y)
            ||| joined(labels, x, a) && joined(labels, y, b)
            ||| joined(labels, x, b) && joined(labels, y, a)
        },
        joined(merge(labels, a, b), a, b),
{
}

/// Merges never split a group: whatever was together stays together.
pub proof fn lemma_merge_keeps_joined(labels: Seq<int>, a: int, b: int, x: int, y: int)
    requires
        0 <= a < labels.len(),
        0 <= b < labels.len(),
        0 <= x < labels.len(),
        0 <= y < labels.len(),
        joined(labels, x, y),
    ensures
        joined(merge(labels, a, b), x, y),
{
}

/// Whatever is together at some point of a sequence of merges is still
/// together after any further merges.
pub proof fn lemma_merge_all_keeps_joined(
    labels: Seq<int>,
    pairs: Seq<(int, int)>,
    x: int,
    y: int,
)
    requires
        pairs_within(pairs, labels.len()),
        0 <= x < labels.len(),
        0 <= y < labels.len(),
        joined(labels, x, y),
    ensures
        merge_all(labels, pairs).len() == labels.len(),
        joined(merge_all(labels, pairs), x, y),
    decreases pairs.len(),
{
    if pairs.len() > 0 {
        lemma_merge_all_keeps_joined(labels, pairs.drop_last(), x, y);
    }
}

/// Merging two elements that are already together changes nothing.
pub proof fn lemma_merge_idempotent(labels: Seq<int>, a: int, b: int)
    requires
        0 <= a < labels.len(),
        0 <= b < labels.len(),
        joined(labels, a, b),
    ensures
        merge(labels, a, b) == labels,
{
    assert(merge(labels, a, b) =~= labels);
}

/// Merging the same two groups in two descriptions of the same partition
/// yields two descriptions of the same partition again, whichever of the two
/// groups absorbs the other.
pub proof fn lemma_merge_respects_partition(x: Seq<int>, y: Seq<int>, a: int, b: int)
    requires
        same_partition(x, y),
        0 <= a < x.len(),
        0 <= b < x.len(),
    ensures
        same_partition(merge(x, a, b), merge(y, a, b)),
        same_partition(merge(x, a, b), merge(y, b, a)),
{
    assert forall|p: int, q: int| 0 <= p < x.len() && 0 <= q < x.len() implies (joined(
        merge(x, a, b),
        p,
        q,
    ) <==> joined(merge(y, a, b), p, q)) by {
        lemma_merge_joins(x, a, b, p, q);
        lemma_merge_joins(y, a, b, p, q);
    }
    assert forall|p: int, q: int| 0 <= p < x.len() && 0 <= q < x.len() implies (joined(
        merge(x, a, b),
        p,
        q,
    ) <==> joined(merge(y, b, a), p, q)) by {
        lemma_merge_joins(x, a, b, p, q);
        lemma_merge_joins(y, b, a, p, q);
    }
}

/// Replaying the same merges on two descriptions of the same partition
/// yields two descriptions of the same partition again.
pub proof fn lemma_merge_all_respects_partition(x: Seq<int>, y: Seq<int>, pairs: Seq<(int, int)>)
    requires
        same_partition(x, y),
        pairs_within(pairs, x.len()),
    ensures
        same_partition(merge_all(x, pairs), merge_all(y, pairs)),
    decreases pairs.len(),
{
    if pairs.len() > 0 {
        let rest = pairs.drop_last();
        lemma_merge_all_respects_partition(x, y, rest);
        lemma_merge_all_len(x, rest);
        lemma_merge_respects_partition(
            merge_all(x, rest),
            merge_all(y, rest),
            pairs.last().0,
            pairs.last().1,
        );
    }
}

/// Describing the same partition is itself reflexive, symmetric and
/// transitive.
pub proof fn lemma_same_partition_is_equivalence(x: Seq<int>, y: Seq<int>, z: Seq<int>)
    ensures
        same_partition(x, x),
        same_partition(x, y) ==> same_partition(y, x),
        same_partition(x, y) && same_partition(y, z) ==> same_partition(x, z),
{
}

/// A merge, in either direction, unites the two groups and changes nothing
/// else; so does any labelling that describes the same partition as the
/// merge.
pub proof fn lemma_merge_unites(labels: Seq<int>, after: Seq<int>, a: int, b: int)
    requires
        0 <= a < labels.len(),
        0 <= b < labels.len(),
        same_partition(after, merge(labels, a, b)) || same_partition(after, merge(labels, b, a)),
    ensures
        unites(labels, after, a, b),
{
    assert forall|x: int, y: int| 0 <= x < labels.len() && 0 <= y < labels.len() implies (joined(
        after,
        x,
        y,
    ) <==> {
        ||| joined(labels, x, y)
        ||| joined(labels, x, a) && joined(labels, y, b)
        ||| joined(labels, x, b) && joined(labels, y, a)
    }) by {
        lemma_merge_joins(labels, a, b, x, y);
        lemma_merge_joins(labels, b, a, x, y);
    }
}

/// Monotonicity: uniting two groups never separates two elements that were
/// together.
pub proof fn lemma_unites_keeps_joined(
    before: Seq<int>,
    after: Seq<int>,
    a: int,
    b: int,
    x: int,
    y: int,
)
    requires
        unites(before, after, a, b),
        0 <= x < before.len(),
        0 <= y < before.len(),
        joined(before, x, y),
    ensures
        joined(after, x, y),
{
}

/// Uniting two groups joins the two elements that were named.
pub proof fn lemma_unites_joins(before: Seq<int>, after: Seq<int>, a: int, b: int)
    requires
        unites(before, after, a, b),
        0 <= a < before.len(),
        0 <= b < before.len(),
    ensures
        joined(after, a, b),
{
}

/// Idempotence: uniting two elements that are already together leaves the
/// answer for every pair of elements as it was.
pub proof fn lemma_unites_idempotent(before: Seq<int>, after: Seq<int>, a: int, b: int)
    requires
        unites(before, after, a, b),
        0 <= a < before.len(),
        0 <= b < before.len(),
        joined(before, a, b),
    ensures
        same_partition(before, after),
{
}

/// Agreement: if two structures describe the same partition and the same two
/// elements are united in both, they describe the same partition afterwards,
/// however differently each of them stores it.
pub proof fn lemma_unites_agree(
    before1: Seq<int>,
    after1: Seq<int>,
    before2: Seq<int>,
    after2: Seq<int>,
    a: int,
    b: int,
)
    requires
        same_partition(before1, before2),
        0 <= a < before1.len(),
        0 <= b < before1.len(),
        unites(before1, after1, a, b),
        unites(before2, after2, a, b),
    ensures
        same_partition(after1, after2),
{
    assert forall|x: int, y: int| 0 <= x < after1.len() && 0 <= y < after1.len() implies (joined(
        after1,
        x,
        y,
    ) <==> joined(after2, x, y)) by {
        assert(joined(before1, x, y) <==> joined(before2, x, y));
        assert(joined(before1, x, a) <==> joined(before2, x, a));
        assert(joined(before1, y, b) <==> joined(before2, y, b));
        assert(joined(before1, x, b) <==> joined(before2, x, b));
        assert(joined(before1, y, a) <==> joined(before2, y, a));
    }
}

/// A structure that unites the pairs of `pairs` one after the other, starting
/// from `start`, describes the same partition as `merge_all(start, pairs)`:
/// if it did so before the last pair, it does so after it.
pub proof fn lemma_unites_tracks_merge_all(
    start: Seq<int>,
    pairs: Seq<(int, int)>,
    before: Seq<int>,
    after: Seq<int>,
)
    requires
        pairs.len() > 0,
        pairs_within(pairs, start.len()),
        same_partition(before, merge_all(start, pairs.drop_last())),
        unites(before, after, pairs.last().0, pairs.last().1),
    ensures
        same_partition(after, merge_all(start, pairs)),
{
    let a = pairs.last().0;
    let b = pairs.last().1;
    let model = merge_all(start, pairs.drop_last());
    lemma_merge_all_len(start, pairs.drop_last());
    lemma_same_partition_is_equivalence(model, model, model);
    lemma_merge_unites(model, merge(model, a, b), a, b);
    lemma_unites_agree(before, after, model, merge(model, a, b), a, b);
}

/// Merging never changes the size of the universe.
pub proof fn lemma_merge_all_len(labels: Seq<int>, pairs: Seq<(int, int)>)
    ensures
        merge_all(labels, pairs).len() == labels.len(),
    decreases pairs.len(),
{
    if pairs.len() > 0 {
        lemma_merge_all_len(labels, pairs.drop_last());
    }
}

} // verus!
