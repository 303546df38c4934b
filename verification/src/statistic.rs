//! The Kolmogorov-Smirnov statistic of two samples, as a number: what it
//! is, and what holds of it.

use crate::order::{lemma_order_laws, lt, totally_ordered};
use crate::ratio::Ratio;
use crate::sample::{
    ascending, count_le, lemma_ascending, lemma_count_where_bound, lemma_count_where_permutation,
    lemma_count_where_prefix, lemma_rank_extremes, rank_element, up_to,
};
use crate::sweep::{lemma_sweep_finishes, lemma_sweep_start};
use vstd::prelude::*;

verus! {

/// The distance between `a` and `b`.
pub open spec fn distance(a: int, b: int) -> nat {
    if a >= b {
        (a - b) as nat
    } else {
        (b - a) as nat
    }
}

/// The distance at `t` between the empirical distribution functions of
/// `xs` and `ys`, in units of `1 / (xs.len() * ys.len())`.
pub open spec fn ecdf_gap<T: Ord>(xs: Seq<T>, ys: Seq<T>, t: T) -> nat {
    distance((count_le(xs, t) * ys.len()) as int, (count_le(ys, t) * xs.len()) as int)
}

/// `g` is the greatest distance between the empirical distribution
/// functions of `xs` and `ys`, in units of `1 / (xs.len() * ys.len())`: no
/// point has a greater one, and a value of one of the samples has it.
pub open spec fn is_max_gap<T: Ord>(xs: Seq<T>, ys: Seq<T>, g: nat) -> bool {
    &&& forall|t: T| #[trigger] ecdf_gap(xs, ys, t) <= g
    &&& exists|t: T| (xs.contains(t) || ys.contains(t)) && #[trigger] ecdf_gap(xs, ys, t) == g
}

/// The greatest distance between the empirical distribution functions of
/// `xs` and `ys`, in units of `1 / (xs.len() * ys.len())`.
pub open spec fn max_gap<T: Ord>(xs: Seq<T>, ys: Seq<T>) -> nat {
    choose|g: nat| is_max_gap(xs, ys, g)
}

/// The Kolmogorov-Smirnov statistic of two samples: the greatest vertical
/// distance between their empirical distribution functions.
pub open spec fn ks_statistic<T: Ord>(xs: Seq<T>, ys: Seq<T>) -> Ratio {
    Ratio { numer: max_gap(xs, ys) as u128, denom: (xs.len() * ys.len()) as u128 }
}

/// Only one number is the greatest distance.
pub proof fn lemma_max_gap_unique<T: Ord>(xs: Seq<T>, ys: Seq<T>, g: nat)
    requires
        is_max_gap(xs, ys, g),
    ensures
        g == max_gap(xs, ys),
{
    let h = max_gap(xs, ys);
    assert(is_max_gap(xs, ys, h));
    let t = choose|t: T| (xs.contains(t) || ys.contains(t)) && #[trigger] ecdf_gap(xs, ys, t) == g;
    let u = choose|t: T| (xs.contains(t) || ys.contains(t)) && #[trigger] ecdf_gap(xs, ys, t) == h;
    assert(ecdf_gap(xs, ys, t) <= h);
    assert(ecdf_gap(xs, ys, u) <= g);
}

/// The greatest distance depends only on which values each sample holds
/// how often, not on their order.
pub proof fn lemma_max_gap_permutation<T: Ord>(
    xs: Seq<T>,
    ys: Seq<T>,
    a: Seq<T>,
    b: Seq<T>,
    g: nat,
)
    requires
        a.to_multiset() == xs.to_multiset(),
        b.to_multiset() == ys.to_multiset(),
        is_max_gap(a, b, g),
    ensures
        is_max_gap(xs, ys, g),
{
    vstd::seq_lib::to_multiset_len(a);
    vstd::seq_lib::to_multiset_len(b);
    vstd::seq_lib::to_multiset_len(xs);
    vstd::seq_lib::to_multiset_len(ys);
    a.to_multiset_ensures();
    b.to_multiset_ensures();
    xs.to_multiset_ensures();
    ys.to_multiset_ensures();
    assert forall|t: T| #[trigger] ecdf_gap(xs, ys, t) == ecdf_gap(a, b, t) by {
        lemma_count_where_permutation(a, xs, up_to(t));
        lemma_count_where_permutation(b, ys, up_to(t));
    }
    let t = choose|t: T| (a.contains(t) || b.contains(t)) && #[trigger] ecdf_gap(a, b, t) == g;
    assert(ecdf_gap(xs, ys, t) == g);
    if a.contains(t) {
        assert(a.to_multiset().count(t) > 0);
        assert(xs.contains(t));
    } else {
        assert(b.to_multiset().count(t) > 0);
        assert(ys.contains(t));
    }
}

/// No distance between two empirical distribution functions is above 1.
pub proof fn lemma_ecdf_gap_bound<T: Ord>(xs: Seq<T>, ys: Seq<T>, t: T)
    ensures
        ecdf_gap(xs, ys, t) <= xs.len() * ys.len(),
{
    lemma_count_where_bound(xs, up_to(t));
    lemma_count_where_bound(ys, up_to(t));
    let cx = count_le(xs, t) as int;
    let cy = count_le(ys, t) as int;
    let n = xs.len() as int;
    let m = ys.len() as int;
    assert(0 <= cx * m <= n * m && 0 <= cy * n <= n * m) by (nonlinear_arith)
        requires
            0 <= cx <= n,
            0 <= cy <= m,
    ;
}

/// Two samples that are not empty have a greatest distance between their
/// empirical distribution functions, and it is at most `1`.
pub proof fn lemma_max_gap<T: Ord + Clone>(xs: Seq<T>, ys: Seq<T>)
    requires
        totally_ordered::<T>(),
        xs.len() > 0,
        ys.len() > 0,
    ensures
        is_max_gap(xs, ys, max_gap(xs, ys)),
        max_gap(xs, ys) <= xs.len() * ys.len(),
{
    lemma_ascending(xs);
    lemma_ascending(ys);
    let a = ascending(xs);
    let b = ascending(ys);
    lemma_sweep_start(a, b);
    lemma_sweep_finishes(a, b, (0, 0, 0, 0, 0));
    let g = choose|g: nat| is_max_gap(a, b, g);
    lemma_max_gap_permutation(xs, ys, a, b, g);
    let h = max_gap(xs, ys);
    let t = choose|t: T| (xs.contains(t) || ys.contains(t)) && #[trigger] ecdf_gap(xs, ys, t) == h;
    lemma_ecdf_gap_bound(xs, ys, t);
}

/// Two samples that hold the same values, each as often, in whatever
/// order, have the statistic 0.
pub proof fn lemma_statistic_of_same_values<T: Ord + Clone>(xs: Seq<T>, ys: Seq<T>)
    requires
        totally_ordered::<T>(),
        xs.len() > 0,
        xs.to_multiset() == ys.to_multiset(),
    ensures
        max_gap(xs, ys) == 0,
        ks_statistic(xs, ys).numer == 0,
{
    vstd::seq_lib::to_multiset_len(xs);
    vstd::seq_lib::to_multiset_len(ys);
    assert forall|t: T| #[trigger] ecdf_gap(xs, ys, t) == 0 by {
        lemma_count_where_permutation(xs, ys, up_to(t));
    }
    assert(xs.contains(xs[0]));
    assert(ecdf_gap(xs, ys, xs[0]) == 0);
    lemma_max_gap_unique(xs, ys, 0);
}

/// Where every value of `ys` is strictly above every value of `xs`, the
/// statistic is 1.
pub proof fn lemma_statistic_of_separated<T: Ord + Clone>(xs: Seq<T>, ys: Seq<T>)
    requires
        totally_ordered::<T>(),
        0 < xs.len() <= usize::MAX,
        0 < ys.len() <= usize::MAX,
        forall|i: int, j: int|
            0 <= i < xs.len() && 0 <= j < ys.len() ==> lt(#[trigger] xs[i], #[trigger] ys[j]),
    ensures
        max_gap(xs, ys) == xs.len() * ys.len(),
        ks_statistic(xs, ys).numer == ks_statistic(xs, ys).denom,
{
    lemma_order_laws::<T>();
    lemma_rank_extremes(xs);
    let top = rank_element(xs, xs.len() as int);
    let n = xs.len() as int;
    let m = ys.len() as int;
    assert forall|t: T| #[trigger] ecdf_gap(xs, ys, t) <= n * m by {
        lemma_ecdf_gap_bound(xs, ys, t);
    }
    assert forall|i: int| 0 <= i < xs.len() implies up_to(top)(#[trigger] xs[i]) by {}
    lemma_count_where_prefix(xs, up_to(top), n);
    let k = choose|k: int| 0 <= k < xs.len() && xs[k] == top;
    assert forall|j: int| 0 <= j < ys.len() implies !up_to(top)(#[trigger] ys[j]) by {
        assert(lt(xs[k], ys[j]));
    }
    lemma_count_where_prefix(ys, up_to(top), 0);
    assert(ecdf_gap(xs, ys, top) == n * m) by {
        assert(0 * n == 0) by (nonlinear_arith);
    }
    assert(n * m <= 0xffff_ffff_ffff_ffff * 0xffff_ffff_ffff_ffff) by (nonlinear_arith)
        requires
            0 < n <= 0xffff_ffff_ffff_ffff,
            0 < m <= 0xffff_ffff_ffff_ffff,
    ;
    lemma_max_gap_unique(xs, ys, (n * m) as nat);
}

/// The statistic is what comparing the cached empirical distribution
/// functions of the two samples at every value of either gives as the
/// greatest distance.
pub proof fn lemma_statistic_is_greatest_at_values<T: Ord + Clone>(xs: Seq<T>, ys: Seq<T>)
    requires
        totally_ordered::<T>(),
        xs.len() > 0,
        ys.len() > 0,
    ensures
        forall|t: T|
            xs.contains(t) || ys.contains(t) ==> #[trigger] ecdf_gap(
                ascending(xs),
                ascending(ys),
                t,
            ) <= max_gap(xs, ys),
        exists|t: T|
            (xs.contains(t) || ys.contains(t)) && #[trigger] ecdf_gap(
                ascending(xs),
                ascending(ys),
                t,
            ) == max_gap(xs, ys),
{
    lemma_max_gap(xs, ys);
    lemma_ascending(xs);
    lemma_ascending(ys);
    let a = ascending(xs);
    let b = ascending(ys);
    vstd::seq_lib::to_multiset_len(xs);
    vstd::seq_lib::to_multiset_len(ys);
    vstd::seq_lib::to_multiset_len(a);
    vstd::seq_lib::to_multiset_len(b);
    assert forall|t: T| #[trigger] ecdf_gap(a, b, t) == ecdf_gap(xs, ys, t) by {
        lemma_count_where_permutation(a, xs, up_to(t));
        lemma_count_where_permutation(b, ys, up_to(t));
    }
    let g = max_gap(xs, ys);
    let t = choose|t: T| (xs.contains(t) || ys.contains(t)) && #[trigger] ecdf_gap(xs, ys, t) == g;
    assert(ecdf_gap(a, b, t) == g);
}

} // verus!
