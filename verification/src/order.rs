//! The total order on sample values that every other module speaks of.

use core::cmp::Ordering;
use vstd::laws_cmp::obeys_cmp;
use vstd::laws_eq::obeys_concrete_eq;
use vstd::prelude::*;
use vstd::std_specs::cmp::OrdSpec;

verus! {

/// `T`'s comparison operators compute one total order, its `==` is
/// equality of values, and a clone of a value is that value.
pub open spec fn totally_ordered<T: Ord + Clone>() -> bool {
    &&& obeys_cmp::<T>()
    &&& obeys_concrete_eq::<T>()
    &&& forall|a: T, b: T| #[trigger] cloned(a, b) ==> a == b
}

/// `a` is strictly below `b`.
pub open spec fn lt<T: Ord>(a: T, b: T) -> bool {
    a.cmp_spec(&b) == Ordering::Less
}

/// `a` is below or equal to `b`.
pub open spec fn le<T: Ord>(a: T, b: T) -> bool {
    a.cmp_spec(&b) != Ordering::Greater
}

/// The facts about `le` and `lt` that follow from `totally_ordered`.
pub proof fn lemma_order_laws<T: Ord + Clone>()
    requires
        totally_ordered::<T>(),
    ensures
        forall|a: T| #[trigger] le(a, a),
        forall|a: T, b: T| #[trigger] le(a, b) || le(b, a),
        forall|a: T, b: T| #[trigger] le(a, b) && le(b, a) ==> a == b,
        forall|a: T, b: T, c: T| #[trigger] le(a, b) && #[trigger] le(b, c) ==> le(a, c),
        forall|a: T, b: T| #[trigger] lt(a, b) <==> le(a, b) && a != b,
        forall|a: T, b: T| #[trigger] lt(a, b) <==> !le(b, a),
{
    reveal(vstd::laws_cmp::obeys_cmp_partial_ord);
    reveal(vstd::laws_cmp::obeys_cmp_ord);
    reveal(vstd::laws_cmp::obeys_partial_cmp_spec_properties);
    reveal(vstd::laws_eq::obeys_eq_spec_properties);
    reveal(obeys_concrete_eq);
}

/// Whether `a` is strictly below `b`.
pub fn is_lt<T: Ord + Clone>(a: &T, b: &T) -> (r: bool)
    requires
        totally_ordered::<T>(),
    ensures
        r == lt(*a, *b),
{
    proof {
        reveal(vstd::laws_cmp::obeys_cmp_partial_ord);
        reveal(vstd::laws_cmp::obeys_cmp_ord);
    }
    *a < *b
}

/// Whether `a` is below or equal to `b`.
pub fn is_le<T: Ord + Clone>(a: &T, b: &T) -> (r: bool)
    requires
        totally_ordered::<T>(),
    ensures
        r == le(*a, *b),
{
    proof {
        reveal(vstd::laws_cmp::obeys_cmp_partial_ord);
        reveal(vstd::laws_cmp::obeys_cmp_ord);
    }
    *a <= *b
}

/// Whether `a` and `b` are the same value.
pub fn is_equal<T: Ord + Clone>(a: &T, b: &T) -> (r: bool)
    requires
        totally_ordered::<T>(),
    ensures
        r == (*a == *b),
{
    proof {
        reveal(vstd::laws_cmp::obeys_cmp_partial_ord);
        reveal(obeys_concrete_eq);
    }
    *a == *b
}

/// The integer types are totally ordered, by their usual order.
pub proof fn lemma_integers_totally_ordered()
    ensures
        totally_ordered::<u8>(),
        totally_ordered::<u16>(),
        totally_ordered::<u32>(),
        totally_ordered::<u64>(),
        totally_ordered::<u128>(),
        totally_ordered::<usize>(),
        totally_ordered::<i8>(),
        totally_ordered::<i16>(),
        totally_ordered::<i32>(),
        totally_ordered::<i64>(),
        totally_ordered::<i128>(),
        totally_ordered::<isize>(),
{
    broadcast use vstd::laws_cmp::group_laws_cmp;
    broadcast use vstd::laws_eq::group_laws_eq;

}

} // verus!
