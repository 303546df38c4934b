//! The slice operations of the standard library that the algorithms use,
//! each with the contract its callers are verified against.

use crate::order::{lt, totally_ordered};
use crate::sample::sorted;
use vstd::prelude::*;

verus! {

/// `<[T]>::sort`: afterwards the vector ascends and holds the values it
/// held before, each as often as before.
#[verifier::external_body]
pub(crate) fn sort_samples<T: Ord + Clone>(v: &mut Vec<T>)
    requires
        totally_ordered::<T>(),
    ensures
        sorted(final(v)@),
        final(v)@.to_multiset() == old(v)@.to_multiset(),
{
    v.sort();
}

/// `<[T]>::swap`: the values at `a` and `b` change places and every other
/// position keeps its value.
#[verifier::external_body]
pub(crate) fn swap_samples<T>(v: &mut Vec<T>, a: usize, b: usize)
    requires
        a < old(v)@.len(),
        b < old(v)@.len(),
    ensures
        final(v)@ == old(v)@.update(a as int, old(v)@[b as int]).update(
            b as int,
            old(v)@[a as int],
        ),
{
    v.swap(a, b);
}

/// `<[T]>::binary_search` on an ascending vector: `Ok` with a position
/// that holds `t`, or, where no position holds it, `Err` with the position
/// that parts the values below `t` from those above it.
#[verifier::external_body]
pub(crate) fn search_sorted<T: Ord + Clone>(v: &Vec<T>, t: &T) -> (r: Result<usize, usize>)
    requires
        totally_ordered::<T>(),
        sorted(v@),
    ensures
        match r {
            Ok(i) => i < v@.len() && v@[i as int] == *t,
            Err(i) => {
                &&& i <= v@.len()
                &&& forall|j: int| 0 <= j < i ==> lt(#[trigger] v@[j], *t)
                &&& forall|j: int| i <= j < v@.len() ==> lt(*t, #[trigger] v@[j])
            },
        },
{
    v.binary_search(t)
}

/// A vector that holds the values of `samples`, in their order.
pub(crate) fn copy_samples<T: Ord + Clone>(samples: &[T]) -> (v: Vec<T>)
    requires
        totally_ordered::<T>(),
    ensures
        v@ == samples@,
{
    let mut v: Vec<T> = Vec::new();
    let mut i: usize = 0;
    while i < samples.len()
        invariant
            totally_ordered::<T>(),
            i <= samples@.len(),
            v@ == samples@.subrange(0, i as int),
        decreases samples@.len() - i,
    {
        let x = samples[i].clone();
        assert(cloned(samples@[i as int], x));
        v.push(x);
        i += 1;
        assert(v@ =~= samples@.subrange(0, i as int));
    }
    assert(samples@.subrange(0, i as int) =~= samples@);
    v
}

} // verus!
