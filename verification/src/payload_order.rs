//! The order of payloads that the reducers rely on.

use core::cmp::Ordering;
use vstd::laws_cmp::{obeys_cmp, obeys_cmp_ord, obeys_cmp_partial_ord, obeys_partial_cmp_spec_properties};
use vstd::laws_eq::obeys_concrete_eq;
use vstd::prelude::*;
use vstd::std_specs::cmp::{OrdSpec, PartialEqSpec, PartialOrdSpec};

verus! {

/// The comparison of `T` is a total order whose equal values are the same value.
pub open spec fn total_order<T: Ord>() -> bool {
    obeys_cmp::<T>() && obeys_concrete_eq::<T>()
}

/// Values of `T` compare equal exactly when they are the same value.
pub open spec fn exact_equality<T: PartialEq>() -> bool {
    obeys_concrete_eq::<T>()
}

/// Whether `a` and `b` are the same value.
pub fn same<T: PartialEq>(a: &T, b: &T) -> (r: bool)
    ensures
        exact_equality::<T>() ==> r == (*a == *b),
{
    proof {
        reveal(obeys_concrete_eq);
    }
    *a == *b
}

/// `a` does not come after `b` in the order of `T`.
pub open spec fn at_most<T: Ord>(a: T, b: T) -> bool {
    a.cmp_spec(&b) != Ordering::Greater
}

/// Whether `a` comes after `b`.
pub fn exceeds<T: Ord>(a: &T, b: &T) -> (r: bool)
    ensures
        total_order::<T>() ==> r == !at_most(*a, *b),
{
    proof {
        reveal(obeys_cmp_ord);
    }
    match a.cmp(b) {
        Ordering::Greater => true,
        _ => false,
    }
}

/// Of two values one is at most the other.
pub proof fn lemma_at_most_total<T: Ord>(a: T, b: T)
    requires
        total_order::<T>(),
    ensures
        at_most(a, b) || at_most(b, a),
{
    reveal(obeys_cmp_ord);
    reveal(obeys_partial_cmp_spec_properties);
    assert(b.partial_cmp_spec(&a) == Some(b.cmp_spec(&a)));
    assert(a.partial_cmp_spec(&b) == Some(a.cmp_spec(&b)));
}

/// Two values that are at most each other are the same value.
pub proof fn lemma_at_most_antisymmetric<T: Ord>(a: T, b: T)
    requires
        total_order::<T>(),
        at_most(a, b),
        at_most(b, a),
    ensures
        a == b,
{
    reveal(obeys_cmp_ord);
    reveal(obeys_cmp_partial_ord);
    reveal(obeys_partial_cmp_spec_properties);
    reveal(obeys_concrete_eq);
    assert(b.partial_cmp_spec(&a) == Some(b.cmp_spec(&a)));
    assert(a.partial_cmp_spec(&b) == Some(a.cmp_spec(&b)));
    if a.cmp_spec(&b) == Ordering::Less {
        assert(b.partial_cmp_spec(&a) == Some(Ordering::Greater));
    }
    assert(a.eq_spec(&b));
}

/// Every value is at most itself.
pub proof fn lemma_at_most_reflexive<T: Ord>(a: T)
    requires
        total_order::<T>(),
    ensures
        at_most(a, a),
{
    reveal(obeys_cmp_ord);
    reveal(obeys_partial_cmp_spec_properties);
    assert(a.partial_cmp_spec(&a) == Some(a.cmp_spec(&a)));
    if a.cmp_spec(&a) == Ordering::Greater {
        assert(a.partial_cmp_spec(&a) == Some(Ordering::Less));
    }
}

/// What is at most a value that is at most a third is at most the third.
pub proof fn lemma_at_most_transitive<T: Ord>(a: T, b: T, c: T)
    requires
        total_order::<T>(),
        at_most(a, b),
        at_most(b, c),
    ensures
        at_most(a, c),
{
    reveal(obeys_cmp_ord);
    reveal(obeys_cmp_partial_ord);
    reveal(obeys_partial_cmp_spec_properties);
    reveal(obeys_concrete_eq);
    assert(a.partial_cmp_spec(&b) == Some(a.cmp_spec(&b)));
    assert(b.partial_cmp_spec(&c) == Some(b.cmp_spec(&c)));
    assert(a.partial_cmp_spec(&c) == Some(a.cmp_spec(&c)));
    if a.cmp_spec(&b) == Ordering::Equal {
        assert(a.eq_spec(&b));
        assert(a == b);
    } else if b.cmp_spec(&c) == Ordering::Equal {
        assert(b.eq_spec(&c));
        assert(b == c);
    } else {
        assert(a.partial_cmp_spec(&c) == Some(Ordering::Less));
    }
}

} // verus!
