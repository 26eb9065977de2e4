//! What the library assumes of an element type's ordering, and the laws it gets from it.
use vstd::prelude::*;
use vstd::std_specs::cmp::{OrdSpec, PartialEqSpec, PartialOrdSpec};

verus! {

/// The element type's `Ord` implementation behaves as a total order
/// (as it does for the integer types).
pub open spec fn total_order<T: Ord>() -> bool {
    vstd::laws_cmp::obeys_cmp::<T>()
}

/// The element type's comparison operators answer as its specification says.
pub open spec fn comparisons_follow_spec<T: PartialOrd>() -> bool {
    T::obeys_partial_cmp_spec()
}

/// `a <= b` as the element type's `PartialOrd` decides it.
pub open spec fn le<T: PartialOrd>(a: T, b: T) -> bool {
    a.partial_cmp_spec(&b) matches Some(core::cmp::Ordering::Less | core::cmp::Ordering::Equal)
}

/// `a < b` as the element type's `PartialOrd` decides it.
pub open spec fn lt<T: PartialOrd>(a: T, b: T) -> bool {
    a.partial_cmp_spec(&b) == Some(core::cmp::Ordering::Less)
}

/// `a > b` as the element type's `PartialOrd` decides it.
pub open spec fn gt<T: PartialOrd>(a: T, b: T) -> bool {
    a.partial_cmp_spec(&b) == Some(core::cmp::Ordering::Greater)
}

/// `le` is total and transitive for a type whose `Ord` is a total order.
pub proof fn lemma_total_order_laws<T: Ord>()
    requires
        total_order::<T>(),
    ensures
        comparisons_follow_spec::<T>(),
        forall|x: T, y: T| #[trigger] le(x, y) || le(y, x),
        forall|x: T, y: T, z: T| #[trigger] le(x, y) && #[trigger] le(y, z) ==> le(x, z),
{
    reveal(vstd::laws_cmp::obeys_partial_cmp_spec_properties);
    reveal(vstd::laws_cmp::obeys_cmp_ord);
    reveal(vstd::laws_cmp::obeys_cmp_partial_ord);
    reveal(vstd::laws_eq::obeys_eq_spec_properties);
    assert forall|x: T, y: T| #[trigger] le(x, y) || le(y, x) by {
        assert(x.partial_cmp_spec(&y) == Some(x.cmp_spec(&y)));
        assert(y.partial_cmp_spec(&x) == Some(y.cmp_spec(&x)));
    }
    assert forall|x: T, y: T, z: T| #[trigger] le(x, y) && #[trigger] le(y, z) implies le(x, z) by {
        lemma_le_transitive(x, y, z);
    }
}

/// For a total order: every element is `<=` itself, two elements that are not
/// in one strict order are in the other non-strict one, and `<=` rules out the
/// opposite strict order.
pub proof fn lemma_order_facts<T: Ord>(x: T, y: T)
    requires
        total_order::<T>(),
    ensures
        le(x, x),
        !lt(x, y) ==> le(y, x),
        !gt(x, y) ==> le(x, y),
        le(x, y) ==> !lt(y, x),
        le(x, y) ==> !gt(x, y),
{
    reveal(vstd::laws_cmp::obeys_partial_cmp_spec_properties);
    reveal(vstd::laws_cmp::obeys_cmp_ord);
    reveal(vstd::laws_cmp::obeys_cmp_partial_ord);
    reveal(vstd::laws_eq::obeys_eq_spec_properties);
    assert(x.partial_cmp_spec(&x) == Some(x.cmp_spec(&x)));
    assert(x.partial_cmp_spec(&y) == Some(x.cmp_spec(&y)));
    assert(y.partial_cmp_spec(&x) == Some(y.cmp_spec(&x)));
    assert(x.eq_spec(&x));
    if x.partial_cmp_spec(&y) == Some(core::cmp::Ordering::Equal) {
        assert(x.eq_spec(&y));
        assert(y.eq_spec(&x));
    }
    if y.partial_cmp_spec(&x) == Some(core::cmp::Ordering::Equal) {
        assert(y.eq_spec(&x));
        assert(x.eq_spec(&y));
    }
}

proof fn lemma_le_transitive<T: Ord>(x: T, y: T, z: T)
    requires
        total_order::<T>(),
        le(x, y),
        le(y, z),
    ensures
        le(x, z),
{
    reveal(vstd::laws_cmp::obeys_partial_cmp_spec_properties);
    reveal(vstd::laws_cmp::obeys_cmp_ord);
    reveal(vstd::laws_cmp::obeys_cmp_partial_ord);
    reveal(vstd::laws_eq::obeys_eq_spec_properties);
    let xy = x.partial_cmp_spec(&y);
    let yz = y.partial_cmp_spec(&z);
    let xz = x.partial_cmp_spec(&z);
    assert(xz == Some(x.cmp_spec(&z)));
    assert(z.partial_cmp_spec(&x) == Some(z.cmp_spec(&x)));
    assert(y.partial_cmp_spec(&x) == Some(y.cmp_spec(&x)));
    assert(z.partial_cmp_spec(&y) == Some(z.cmp_spec(&y)));
    if xy == Some(core::cmp::Ordering::Equal) && yz == Some(core::cmp::Ordering::Equal) {
        assert(x.eq_spec(&y));
        assert(y.eq_spec(&z));
        assert(x.eq_spec(&z));
    } else if xy == Some(core::cmp::Ordering::Equal) {
        assert(x.eq_spec(&y));
        assert(y.eq_spec(&x));
        if xz == Some(core::cmp::Ordering::Greater) {
            assert(z.partial_cmp_spec(&x) == Some(core::cmp::Ordering::Less));
            assert(y.partial_cmp_spec(&x) == Some(core::cmp::Ordering::Less));
        }
    } else if yz == Some(core::cmp::Ordering::Equal) {
        assert(y.eq_spec(&z));
        assert(z.eq_spec(&y));
        if xz == Some(core::cmp::Ordering::Greater) {
            assert(z.partial_cmp_spec(&x) == Some(core::cmp::Ordering::Less));
            assert(z.partial_cmp_spec(&y) == Some(core::cmp::Ordering::Less));
        }
    } else {
        assert(xy == Some(core::cmp::Ordering::Less));
        assert(yz == Some(core::cmp::Ordering::Less));
    }
}

} // verus!
