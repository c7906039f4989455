//! What the sorts and the search ask of the order on their elements.
//!
//! The functions of this library compare elements with `<`, `<=`, `>` and
//! `==`. What those operators compute for a type is given by its comparison
//! specification; the notions below name the answers and say when a type's
//! comparison is a total order.

use core::cmp::Ordering;
use vstd::prelude::*;
use vstd::std_specs::cmp::{PartialEqSpec, PartialOrdSpec};

verus! {

/// `a < b` holds.
pub open spec fn less<T: PartialOrd>(a: T, b: T) -> bool {
    a.partial_cmp_spec(&b) == Some(Ordering::Less)
}

/// `a > b` holds.
pub open spec fn greater<T: PartialOrd>(a: T, b: T) -> bool {
    a.partial_cmp_spec(&b) == Some(Ordering::Greater)
}

/// `a` and `b` compare as equal.
pub open spec fn equivalent<T: PartialOrd>(a: T, b: T) -> bool {
    a.partial_cmp_spec(&b) == Some(Ordering::Equal)
}

/// `a <= b` holds.
pub open spec fn at_most<T: PartialOrd>(a: T, b: T) -> bool {
    less(a, b) || equivalent(a, b)
}

/// The comparison operators of `T` compute a total order: they do what the
/// type's specification says, any two values compare, `a > b` means `b < a`,
/// and `<=` is transitive.
pub open spec fn total_order<T: PartialOrd>() -> bool {
    &&& T::obeys_partial_cmp_spec()
    &&& forall|a: T, b: T| #![trigger a.partial_cmp_spec(&b)] a.partial_cmp_spec(&b) is Some
    &&& forall|a: T, b: T|
        #![trigger greater(a, b)]
        #![trigger less(b, a)]
        greater(a, b) <==> less(b, a)
    &&& forall|a: T, b: T, c: T|
        #![trigger at_most(a, b), at_most(b, c)]
        at_most(a, b) && at_most(b, c) ==> at_most(a, c)
}

/// `==` on `T` does what the type's specification says.
pub open spec fn equality_specified<T: PartialOrd>() -> bool {
    T::obeys_eq_spec()
}

/// `==` on `T` does what the type's specification says, and says that two
/// values are equal exactly where the order says so.
pub open spec fn equality_follows_order<T: PartialOrd>() -> bool {
    &&& equality_specified::<T>()
    &&& forall|a: T, b: T|
        #![trigger a.eq_spec(&b)]
        #![trigger equivalent(a, b)]
        a.eq_spec(&b) <==> equivalent(a, b)
}

/// `a == b` holds.
pub open spec fn same<T: PartialOrd>(a: T, b: T) -> bool {
    a.eq_spec(&b)
}

/// Every element of `s` is at most each element after it.
pub open spec fn sorted<T: PartialOrd>(s: Seq<T>) -> bool {
    forall|i: int, j: int| 0 <= i < j < s.len() ==> at_most(#[trigger] s[i], #[trigger] s[j])
}

/// In a total order every value is at most itself, and of two values one is
/// at most the other.
pub proof fn lemma_total_order_basics<T: PartialOrd>(a: T, b: T)
    requires
        total_order::<T>(),
    ensures
        at_most(a, a),
        at_most(a, b) || at_most(b, a),
        !at_most(a, b) ==> less(b, a),
        !greater(a, b) ==> at_most(a, b),
        greater(a, b) ==> at_most(b, a),
{
    assert(a.partial_cmp_spec(&b) is Some);
    assert(a.partial_cmp_spec(&a) is Some);
    assert(greater(a, b) <==> less(b, a));
    assert(greater(a, a) <==> less(a, a));
    let same_side = a.partial_cmp_spec(&a)->0;
    let two_sides = a.partial_cmp_spec(&b)->0;
    assert(same_side == Ordering::Less || same_side == Ordering::Equal || same_side
        == Ordering::Greater);
    assert(two_sides == Ordering::Less || two_sides == Ordering::Equal || two_sides
        == Ordering::Greater);
}

/// Where `==` agrees with the order, two equal values are each at most the
/// other.
pub proof fn lemma_equivalent_bounds<T: PartialOrd>(a: T, b: T)
    requires
        total_order::<T>(),
        equality_follows_order::<T>(),
        same(a, b),
    ensures
        at_most(a, b),
        at_most(b, a),
{
    assert(equivalent(a, b));
    lemma_total_order_basics(b, a);
    lemma_total_order_basics(a, b);
}

} // verus!
