//! The vocabulary of total orders, for sorting anything that can be
//! compared.

use vstd::prelude::*;
use vstd::laws_cmp::obeys_cmp;
use vstd::std_specs::cmp::{OrdSpec, PartialOrdSpec};
use core::cmp::Ordering;

verus! {

/// The comparisons of `T` do what their specification says, and that
/// specification is a total order.
pub open spec fn ordered<T: Ord>() -> bool {
    obeys_cmp::<T>()
}

/// `a` comes before `b`, or the two are equal in the order.
pub open spec fn le<T: Ord>(a: T, b: T) -> bool {
    a.partial_cmp_spec(&b) matches Some(Ordering::Less | Ordering::Equal)
}

/// `a` comes strictly before `b`.
pub open spec fn lt<T: Ord>(a: T, b: T) -> bool {
    a.partial_cmp_spec(&b) == Some(Ordering::Less)
}

/// `a` comes strictly after `b`.
pub open spec fn gt<T: Ord>(a: T, b: T) -> bool {
    a.partial_cmp_spec(&b) == Some(Ordering::Greater)
}

/// `a` comes after `b`, or the two are equal in the order.
pub open spec fn ge<T: Ord>(a: T, b: T) -> bool {
    a.partial_cmp_spec(&b) matches Some(Ordering::Greater | Ordering::Equal)
}

/// A total order is reflexive, total and transitive, and its strict part is
/// the complement of its converse.
pub proof fn lemma_total_order<T: Ord>(a: T, b: T, c: T)
    requires
        ordered::<T>(),
    ensures
        T::obeys_partial_cmp_spec(),
        le(a, a),
        le(a, b) || le(b, a),
        le(a, b) && le(b, c) ==> le(a, c),
        lt(a, b) <==> !le(b, a),
        lt(a, b) ==> le(a, b),
        gt(a, b) <==> lt(b, a),
        ge(a, b) <==> le(b, a),
{
    reveal(vstd::laws_cmp::obeys_partial_cmp_spec_properties);
    reveal(vstd::laws_cmp::obeys_cmp_partial_ord);
    reveal(vstd::laws_cmp::obeys_cmp_ord);
    reveal(vstd::laws_eq::obeys_eq_spec_properties);
    let ab = a.partial_cmp_spec(&b);
    let ba = b.partial_cmp_spec(&a);
    let bc = b.partial_cmp_spec(&c);
    let ac = a.partial_cmp_spec(&c);
    let aa = a.partial_cmp_spec(&a);
    assert(ab == Some(a.cmp_spec(&b)));
    assert(ba == Some(b.cmp_spec(&a)));
    assert(bc == Some(b.cmp_spec(&c)));
    assert(ac == Some(a.cmp_spec(&c)));
    assert(aa == Some(a.cmp_spec(&a)));
}

/// The laws of a total order, for all elements at once.
pub proof fn lemma_order_laws<T: Ord>()
    requires
        ordered::<T>(),
    ensures
        T::obeys_partial_cmp_spec(),
        forall|a: T| #[trigger] le(a, a),
        forall|a: T, b: T| #[trigger] le(a, b) || le(b, a),
        forall|a: T, b: T, c: T| #[trigger] le(a, b) && #[trigger] le(b, c) ==> le(a, c),
        forall|a: T, b: T| #[trigger] lt(a, b) <==> !le(b, a),
        forall|a: T, b: T| #[trigger] gt(a, b) <==> !le(a, b),
        forall|a: T, b: T| #[trigger] ge(a, b) <==> le(b, a),
{
    assert forall|a: T, b: T| #[trigger] gt(a, b) <==> !le(a, b) by {
        lemma_total_order(a, b, a);
        lemma_total_order(b, a, b);
    }
    assert forall|a: T, b: T| #[trigger] ge(a, b) <==> le(b, a) by {
        lemma_total_order(a, b, a);
    }
    assert forall|a: T| #[trigger] le(a, a) by {
        lemma_total_order(a, a, a);
    }
    assert forall|a: T, b: T| #[trigger] le(a, b) || le(b, a) by {
        lemma_total_order(a, b, a);
    }
    assert forall|a: T, b: T, c: T| #[trigger] le(a, b) && #[trigger] le(b, c) implies le(
        a,
        c,
    ) by {
        lemma_total_order(a, b, c);
    }
    assert forall|a: T, b: T| #[trigger] lt(a, b) <==> !le(b, a) by {
        lemma_total_order(a, b, a);
    }
    lemma_total_order(arbitrary::<T>(), arbitrary::<T>(), arbitrary::<T>());
}

/// Machine words are ordered by size.
pub proof fn lemma_usize_order()
    ensures
        ordered::<usize>(),
        forall|a: usize, b: usize| #[trigger] le(a, b) <==> a <= b,
        forall|a: usize, b: usize| #[trigger] lt(a, b) <==> a < b,
{
    broadcast use vstd::laws_cmp::group_laws_cmp;

}

} // verus!
