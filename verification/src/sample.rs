//! What a sample is, mathematically: a finite sequence of values, the
//! counts of its values below a point, and its order statistics.

use crate::order::{le, lemma_order_laws, lt, totally_ordered};
use crate::ratio::Ratio;
use vstd::prelude::*;
use vstd::relations::{sorted_by, total_ordering};

verus! {

/// How many positions of `s` hold a value that satisfies `p`.
pub open spec fn count_where<T>(s: Seq<T>, p: spec_fn(T) -> bool) -> nat
    decreases s.len(),
{
    if s.len() == 0 {
        0
    } else {
        count_where(s.drop_last(), p) + if p(s.last()) {
            1nat
        } else {
            0nat
        }
    }
}

/// The property of being below or equal to `t`.
pub open spec fn up_to<T: Ord>(t: T) -> spec_fn(T) -> bool {
    |x: T| le(x, t)
}

/// The property of being strictly below `t`.
pub open spec fn below<T: Ord>(t: T) -> spec_fn(T) -> bool {
    |x: T| lt(x, t)
}

/// How many values of `s` are below or equal to `t`.
pub open spec fn count_le<T: Ord>(s: Seq<T>, t: T) -> nat {
    count_where(s, up_to(t))
}

/// How many values of `s` are strictly below `t`.
pub open spec fn count_lt<T: Ord>(s: Seq<T>, t: T) -> nat {
    count_where(s, below(t))
}

/// `s` ascends: no value is above one that follows it.
pub open spec fn sorted<T: Ord>(s: Seq<T>) -> bool {
    forall|i: int, j: int| 0 <= i <= j < s.len() ==> le(#[trigger] s[i], #[trigger] s[j])
}

/// `x` is the value of 1-based rank `r` in `s`: it occurs in `s`, fewer
/// than `r` values are strictly below it, and at least `r` are below or
/// equal to it.
pub open spec fn is_rank_element<T: Ord>(s: Seq<T>, r: int, x: T) -> bool {
    &&& s.contains(x)
    &&& count_lt(s, x) < r <= count_le(s, x)
}

/// The order of the values, as a relation.
pub open spec fn order<T: Ord>() -> spec_fn(T, T) -> bool {
    |a: T, b: T| le(a, b)
}

/// The values of `s`, each as often as in `s`, in ascending order.
pub open spec fn ascending<T: Ord>(s: Seq<T>) -> Seq<T> {
    s.sort_by(order::<T>())
}

/// The value of 1-based rank `r` in `s`: rank 1 is the least value, rank
/// `s.len()` the greatest.
pub open spec fn rank_element<T: Ord>(s: Seq<T>, r: int) -> T {
    ascending(s)[r - 1]
}

/// The fraction of the values of `s` that are below or equal to `t`.
pub open spec fn ecdf_value<T: Ord>(s: Seq<T>, t: T) -> Ratio {
    Ratio { numer: count_le(s, t) as u128, denom: s.len() as u128 }
}

/// The 1-based rank that the nearest-rank method gives to the fraction
/// `p / scale` of a sample of `n` values: `p * n / scale`, rounded up.
pub open spec fn nearest_rank(p: int, n: int, scale: int) -> int {
    (p * n + scale - 1) / scale
}

/// No more positions are counted than there are.
pub proof fn lemma_count_where_bound<T>(s: Seq<T>, p: spec_fn(T) -> bool)
    ensures
        count_where(s, p) <= s.len(),
    decreases s.len(),
{
    if s.len() > 0 {
        lemma_count_where_bound(s.drop_last(), p);
    }
}

/// Where `p` holds of exactly the first `k` positions, the count is `k`.
pub proof fn lemma_count_where_prefix<T>(s: Seq<T>, p: spec_fn(T) -> bool, k: int)
    requires
        0 <= k <= s.len(),
        forall|i: int| 0 <= i < k ==> p(#[trigger] s[i]),
        forall|i: int| k <= i < s.len() ==> !p(#[trigger] s[i]),
    ensures
        count_where(s, p) == k,
    decreases s.len(),
{
    if s.len() > 0 {
        let t = s.drop_last();
        assert forall|i: int| 0 <= i < t.len() implies t[i] == s[i] by {}
        if k == s.len() {
            lemma_count_where_prefix(t, p, k - 1);
        } else {
            lemma_count_where_prefix(t, p, k);
        }
    }
}

/// Where `p` implies `q` on every value of `s`, `p` counts no more than `q`.
pub proof fn lemma_count_where_mono<T>(s: Seq<T>, p: spec_fn(T) -> bool, q: spec_fn(T) -> bool)
    requires
        forall|i: int| 0 <= i < s.len() ==> (p(#[trigger] s[i]) ==> q(s[i])),
    ensures
        count_where(s, p) <= count_where(s, q),
    decreases s.len(),
{
    if s.len() > 0 {
        let t = s.drop_last();
        assert forall|i: int| 0 <= i < t.len() && p(#[trigger] t[i]) implies q(t[i]) by {
            assert(t[i] == s[i]);
        }
        lemma_count_where_mono(t, p, q);
    }
}

/// Taking the value at `k` out lowers the count by one if `p` holds of it.
pub proof fn lemma_count_where_remove<T>(s: Seq<T>, p: spec_fn(T) -> bool, k: int)
    requires
        0 <= k < s.len(),
    ensures
        count_where(s, p) == count_where(s.remove(k), p) + if p(s[k]) {
            1nat
        } else {
            0nat
        },
    decreases s.len(),
{
    let t = s.drop_last();
    if k == s.len() - 1 {
        assert(s.remove(k) =~= t);
    } else {
        lemma_count_where_remove(t, p, k);
        assert(s.remove(k).drop_last() =~= t.remove(k));
        assert(s.remove(k).last() == s.last());
    }
}

/// The count depends only on which values occur how often.
pub proof fn lemma_count_where_permutation<T>(a: Seq<T>, b: Seq<T>, p: spec_fn(T) -> bool)
    requires
        a.to_multiset() == b.to_multiset(),
    ensures
        count_where(a, p) == count_where(b, p),
    decreases a.len(),
{
    broadcast use vstd::seq_lib::group_to_multiset_ensures;

    a.to_multiset_ensures();
    b.to_multiset_ensures();
    if a.len() == 0 {
        assert(b.len() == 0);
    } else {
        let x = a.last();
        assert(a.contains(x));
        assert(a.to_multiset().count(x) > 0);
        assert(b.contains(x));
        let k = choose|k: int| 0 <= k < b.len() && b[k] == x;
        let a1 = a.drop_last();
        let b1 = b.remove(k);
        assert(a1 =~= a.remove(a.len() - 1));
        assert(a1.to_multiset() =~= a.to_multiset().remove(x));
        assert(b1.to_multiset() =~= b.to_multiset().remove(x));
        lemma_count_where_permutation(a1, b1, p);
        lemma_count_where_remove(b, p, k);
    }
}

/// Where `p` holds of the first `k` positions, the count is at least `k`.
pub proof fn lemma_count_where_at_least<T>(s: Seq<T>, p: spec_fn(T) -> bool, k: int)
    requires
        0 <= k <= s.len(),
        forall|i: int| 0 <= i < k ==> p(#[trigger] s[i]),
    ensures
        count_where(s, p) >= k,
    decreases s.len(),
{
    if s.len() > 0 {
        let t = s.drop_last();
        assert forall|i: int| 0 <= i < t.len() implies t[i] == s[i] by {}
        if k == s.len() {
            lemma_count_where_at_least(t, p, k - 1);
        } else {
            lemma_count_where_at_least(t, p, k);
        }
    }
}

/// Where `p` fails from position `k` on, the count is at most `k`.
pub proof fn lemma_count_where_at_most<T>(s: Seq<T>, p: spec_fn(T) -> bool, k: int)
    requires
        0 <= k <= s.len(),
        forall|i: int| k <= i < s.len() ==> !p(#[trigger] s[i]),
    ensures
        count_where(s, p) <= k,
    decreases s.len(),
{
    if s.len() > 0 {
        let t = s.drop_last();
        assert forall|i: int| 0 <= i < t.len() implies t[i] == s[i] by {}
        if k == s.len() {
            lemma_count_where_bound(t, p);
        } else {
            lemma_count_where_at_most(t, p, k);
        }
    }
}

/// `ascending(s)` ascends and holds the values of `s`, each as often.
pub proof fn lemma_ascending<T: Ord + Clone>(s: Seq<T>)
    requires
        totally_ordered::<T>(),
    ensures
        sorted(ascending(s)),
        ascending(s).to_multiset() == s.to_multiset(),
        ascending(s).len() == s.len(),
{
    lemma_order_laws::<T>();
    let leq = order::<T>();
    assert(total_ordering(leq)) by {
        assert forall|a: T, b: T| #[trigger] leq(a, b) == le(a, b) by {}
    }
    s.lemma_sort_by_ensures(leq);
    let a = ascending(s);
    assert forall|i: int, j: int| 0 <= i <= j < a.len() implies le(
        #[trigger] a[i],
        #[trigger] a[j],
    ) by {
        if i < j {
            assert(leq(a[i], a[j]));
        }
    }
    vstd::seq_lib::to_multiset_len(a);
    vstd::seq_lib::to_multiset_len(s);
}

/// `ascending(s)` is the only ascending sequence that holds the values of
/// `s`, each as often.
pub proof fn lemma_ascending_unique<T: Ord + Clone>(s: Seq<T>, a: Seq<T>)
    requires
        totally_ordered::<T>(),
        sorted(a),
        a.to_multiset() == s.to_multiset(),
    ensures
        a == ascending(s),
{
    lemma_order_laws::<T>();
    lemma_ascending(s);
    let leq = order::<T>();
    assert(total_ordering(leq)) by {
        assert forall|a: T, b: T| #[trigger] leq(a, b) == le(a, b) by {}
    }
    let b = ascending(s);
    assert(sorted_by(a, leq)) by {
        assert forall|i: int, j: int| 0 <= i < j < a.len() implies #[trigger] leq(a[i], a[j]) by {
            assert(le(a[i], a[j]));
        }
    }
    assert(sorted_by(b, leq)) by {
        assert forall|i: int, j: int| 0 <= i < j < b.len() implies #[trigger] leq(b[i], b[j]) by {
            assert(le(b[i], b[j]));
        }
    }
    vstd::seq_lib::lemma_sorted_unique(a, b, leq);
}

/// In a rearrangement `v` of `samples` where the positions `[from, to)`
/// all hold one value, nothing before `from` is above it and nothing from
/// `from` on is below it, that value has every rank in `from + 1 ..= to`.
pub proof fn lemma_rank_found<T: Ord + Clone>(
    samples: Seq<T>,
    v: Seq<T>,
    from: int,
    to: int,
    r: int,
)
    requires
        totally_ordered::<T>(),
        v.to_multiset() == samples.to_multiset(),
        0 <= from < r <= to <= v.len(),
        forall|i: int| from <= i < to ==> #[trigger] v[i] == v[from],
        forall|i: int| 0 <= i < from ==> le(#[trigger] v[i], v[from]),
        forall|i: int| from <= i < v.len() ==> le(v[from], #[trigger] v[i]),
    ensures
        is_rank_element(samples, r, v[from]),
{
    let x = v[from];
    lemma_order_laws::<T>();
    assert forall|i: int| from <= i < v.len() implies !below(x)(#[trigger] v[i]) by {
        assert(le(x, v[i]));
    }
    assert forall|i: int| 0 <= i < to implies up_to(x)(#[trigger] v[i]) by {
        if i < from {
            assert(le(v[i], x));
        } else {
            assert(v[i] == x);
        }
    }
    lemma_count_where_at_most(v, below(x), from);
    lemma_count_where_at_least(v, up_to(x), to);
    lemma_count_where_permutation(v, samples, below(x));
    lemma_count_where_permutation(v, samples, up_to(x));
    v.to_multiset_ensures();
    samples.to_multiset_ensures();
    assert(v.contains(x));
    assert(v.to_multiset().count(x) > 0);
}

/// The value of a rank is the one value that `is_rank_element` accepts at
/// that rank.
pub proof fn lemma_rank_element<T: Ord + Clone>(s: Seq<T>, r: int)
    requires
        totally_ordered::<T>(),
        1 <= r <= s.len(),
    ensures
        is_rank_element(s, r, rank_element(s, r)),
        forall|x: T| is_rank_element(s, r, x) ==> x == rank_element(s, r),
{
    lemma_order_laws::<T>();
    lemma_ascending(s);
    let a = ascending(s);
    let y = a[r - 1];
    lemma_rank_found(s, a, r - 1, r, r);
    assert forall|x: T| is_rank_element(s, r, x) implies x == y by {
        if lt(x, y) {
            assert forall|i: int| 0 <= i < s.len() && up_to(x)(#[trigger] s[i]) implies below(y)(
                s[i],
            ) by {}
            lemma_count_where_mono(s, up_to(x), below(y));
        } else if lt(y, x) {
            assert forall|i: int| 0 <= i < s.len() && up_to(y)(#[trigger] s[i]) implies below(x)(
                s[i],
            ) by {}
            lemma_count_where_mono(s, up_to(y), below(x));
        }
    }
}

/// The empirical distribution function never falls: a greater point has
/// at least as many values below or equal to it.
pub proof fn lemma_ecdf_monotone<T: Ord + Clone>(s: Seq<T>, t1: T, t2: T)
    requires
        totally_ordered::<T>(),
        le(t1, t2),
        s.len() <= usize::MAX,
    ensures
        count_le(s, t1) <= count_le(s, t2),
        ecdf_value(s, t1).at_most(ecdf_value(s, t2)),
{
    lemma_order_laws::<T>();
    assert forall|i: int| 0 <= i < s.len() && up_to(t1)(#[trigger] s[i]) implies up_to(t2)(
        s[i],
    ) by {}
    lemma_count_where_mono(s, up_to(t1), up_to(t2));
    lemma_count_where_bound(s, up_to(t2));
    let a = count_le(s, t1) as int;
    let b = count_le(s, t2) as int;
    let n = s.len() as int;
    assert(a * n <= b * n) by (nonlinear_arith)
        requires
            a <= b,
            n >= 0,
    ;
}

/// The empirical distribution function of a sample lies between 0 and 1.
pub proof fn lemma_ecdf_is_proportion<T: Ord>(s: Seq<T>, t: T)
    requires
        0 < s.len() <= usize::MAX,
    ensures
        ecdf_value(s, t).is_proportion(),
{
    lemma_count_where_bound(s, up_to(t));
}

/// The empirical distribution function depends only on which values the
/// sample holds how often; so that of the ascending copy is that of the
/// sample.
pub proof fn lemma_ecdf_permutation<T: Ord + Clone>(a: Seq<T>, b: Seq<T>, t: T)
    requires
        totally_ordered::<T>(),
        a.to_multiset() == b.to_multiset(),
    ensures
        ecdf_value(a, t) == ecdf_value(b, t),
        ecdf_value(ascending(a), t) == ecdf_value(a, t),
{
    lemma_count_where_permutation(a, b, up_to(t));
    vstd::seq_lib::to_multiset_len(a);
    vstd::seq_lib::to_multiset_len(b);
    lemma_ascending(a);
    lemma_count_where_permutation(ascending(a), a, up_to(t));
}

/// `x` occurs in `s` and no value of `s` is below it.
pub open spec fn is_least<T: Ord>(s: Seq<T>, x: T) -> bool {
    &&& s.contains(x)
    &&& forall|i: int| 0 <= i < s.len() ==> le(x, #[trigger] s[i])
}

/// `x` occurs in `s` and no value of `s` is above it.
pub open spec fn is_greatest<T: Ord>(s: Seq<T>, x: T) -> bool {
    &&& s.contains(x)
    &&& forall|i: int| 0 <= i < s.len() ==> le(#[trigger] s[i], x)
}

/// Rank 1 is the least value of the sample and the last rank its greatest.
pub proof fn lemma_rank_extremes<T: Ord + Clone>(s: Seq<T>)
    requires
        totally_ordered::<T>(),
        s.len() > 0,
    ensures
        is_least(s, rank_element(s, 1)),
        is_greatest(s, rank_element(s, s.len() as int)),
{
    lemma_order_laws::<T>();
    lemma_ascending(s);
    let a = ascending(s);
    let n = s.len() as int;
    a.to_multiset_ensures();
    s.to_multiset_ensures();
    assert(a.contains(a[0]) && a.contains(a[n - 1]));
    assert(a.to_multiset().count(a[0]) > 0 && a.to_multiset().count(a[n - 1]) > 0);
    assert forall|i: int| 0 <= i < s.len() implies le(a[0], #[trigger] s[i]) && le(
        s[i],
        a[n - 1],
    ) by {
        assert(s.contains(s[i]));
        assert(s.to_multiset().count(s[i]) > 0);
        assert(a.contains(s[i]));
        let k = choose|k: int| 0 <= k < a.len() && a[k] == s[i];
        assert(le(a[0], a[k]) && le(a[k], a[n - 1]));
    }
}

/// A greater rank never has a lesser value.
pub proof fn lemma_rank_monotone<T: Ord + Clone>(s: Seq<T>, r1: int, r2: int)
    requires
        totally_ordered::<T>(),
        1 <= r1 <= r2 <= s.len(),
    ensures
        le(rank_element(s, r1), rank_element(s, r2)),
{
    lemma_ascending(s);
    let a = ascending(s);
    assert(le(a[r1 - 1], a[r2 - 1]));
}

/// A rank that does not pass the number of values below or equal to a
/// point has a value below or equal to that point.
pub proof fn lemma_rank_within_count<T: Ord + Clone>(s: Seq<T>, r: int, t: T)
    requires
        totally_ordered::<T>(),
        1 <= r <= count_le(s, t),
    ensures
        le(rank_element(s, r), t),
{
    lemma_order_laws::<T>();
    lemma_ascending(s);
    lemma_count_where_bound(s, up_to(t));
    let a = ascending(s);
    lemma_count_where_permutation(a, s, up_to(t));
    if !le(a[r - 1], t) {
        assert forall|i: int| r - 1 <= i < a.len() implies !up_to(t)(#[trigger] a[i]) by {
            assert(le(a[r - 1], a[i]));
        }
        lemma_count_where_at_most(a, up_to(t), r - 1);
    }
}

/// Below the least value of a sample its empirical distribution function
/// is 0.
pub proof fn lemma_ecdf_below_least<T: Ord + Clone>(s: Seq<T>, t: T)
    requires
        totally_ordered::<T>(),
        0 < s.len() <= usize::MAX,
        lt(t, rank_element(s, 1)),
    ensures
        ecdf_value(s, t).numer == 0,
{
    lemma_order_laws::<T>();
    lemma_rank_extremes(s);
    assert forall|i: int| 0 <= i < s.len() implies !up_to(t)(#[trigger] s[i]) by {
        assert(le(rank_element(s, 1), s[i]));
    }
    lemma_count_where_prefix(s, up_to(t), 0);
}

/// At the greatest value of a sample its empirical distribution function
/// is 1.
pub proof fn lemma_ecdf_at_greatest<T: Ord + Clone>(s: Seq<T>)
    requires
        totally_ordered::<T>(),
        0 < s.len() <= usize::MAX,
    ensures
        ecdf_value(s, rank_element(s, s.len() as int)).numer == s.len(),
        ecdf_value(s, rank_element(s, s.len() as int)).denom == s.len(),
{
    lemma_rank_extremes(s);
    let top = rank_element(s, s.len() as int);
    assert forall|i: int| 0 <= i < s.len() implies up_to(top)(#[trigger] s[i]) by {}
    lemma_count_where_prefix(s, up_to(top), s.len() as int);
}

/// The nearest rank of a sample of `n` values is one of its ranks; the
/// last part of the scale has the last rank; and a percentile has the
/// rank of ten times as many permilles.
pub proof fn lemma_nearest_rank(p: int, n: int, scale: int)
    requires
        0 < p <= scale,
        0 < n,
    ensures
        1 <= nearest_rank(p, n, scale) <= n,
        nearest_rank(scale, n, scale) == n,
        nearest_rank(10 * p, n, 10 * scale) == nearest_rank(p, n, scale),
        p * n <= scale * nearest_rank(p, n, scale),
{
    let r = nearest_rank(p, n, scale);
    let k = p * n + scale - 1;
    assert(scale <= k <= scale * n + scale - 1) by (nonlinear_arith)
        requires
            0 < p <= scale,
            0 < n,
            k == p * n + scale - 1,
    ;
    vstd::arithmetic::div_mod::lemma_fundamental_div_mod(k, scale);
    assert(k == scale * r + k % scale && 0 <= k % scale < scale);
    assert(1 <= r <= n && p * n <= scale * r) by (nonlinear_arith)
        requires
            scale <= k <= scale * n + scale - 1,
            k == scale * r + k % scale,
            0 <= k % scale < scale,
            k == p * n + scale - 1,
            scale > 0,
    ;
    assert(nearest_rank(scale, n, scale) == n) by {
        assert(scale * n + scale - 1 == n * scale + (scale - 1)) by (nonlinear_arith);
        vstd::arithmetic::div_mod::lemma_fundamental_div_mod_converse(
            scale * n + scale - 1,
            scale,
            n,
            scale - 1,
        );
    }
    assert(nearest_rank(10 * p, n, 10 * scale) == r) by {
        let big = 10 * p * n + 10 * scale - 1;
        assert(big == r * (10 * scale) + (10 * (k % scale) + 9)) by (nonlinear_arith)
            requires
                big == 10 * p * n + 10 * scale - 1,
                k == scale * r + k % scale,
                k == p * n + scale - 1,
        ;
        vstd::arithmetic::div_mod::lemma_fundamental_div_mod_converse(
            big,
            10 * scale,
            r,
            10 * (k % scale) + 9,
        );
    }
}

/// At the value of a rank, at least that many values are below or equal:
/// the empirical distribution function at the `p`-th of `scale` parts is
/// at least `p / scale`.
pub proof fn lemma_ecdf_at_rank<T: Ord + Clone>(s: Seq<T>, p: int, scale: int)
    requires
        totally_ordered::<T>(),
        0 < s.len() <= usize::MAX,
        0 < p <= scale,
    ensures
        nearest_rank(p, s.len() as int, scale) <= count_le(
            s,
            rank_element(s, nearest_rank(p, s.len() as int, scale)),
        ),
        p * s.len() <= scale * count_le(
            s,
            rank_element(s, nearest_rank(p, s.len() as int, scale)),
        ),
        p * ecdf_value(s, rank_element(s, nearest_rank(p, s.len() as int, scale))).denom <= scale
            * ecdf_value(s, rank_element(s, nearest_rank(p, s.len() as int, scale))).numer,
{
    let n = s.len() as int;
    let r = nearest_rank(p, n, scale);
    lemma_nearest_rank(p, n, scale);
    lemma_rank_element(s, r);
    let c = count_le(s, rank_element(s, r)) as int;
    lemma_count_where_bound(s, up_to(rank_element(s, r)));
    assert(scale * r <= scale * c) by (nonlinear_arith)
        requires
            r <= c,
            scale > 0,
    ;
}

/// The last percentile and the last permille of a sample are its greatest
/// value, and a percentile is the permille of ten times its number.
pub proof fn lemma_percentiles<T: Ord + Clone>(s: Seq<T>, p: int)
    requires
        totally_ordered::<T>(),
        s.len() > 0,
        0 < p <= 100,
    ensures
        is_greatest(s, rank_element(s, nearest_rank(100, s.len() as int, 100))),
        is_greatest(s, rank_element(s, nearest_rank(1000, s.len() as int, 1000))),
        rank_element(s, nearest_rank(p, s.len() as int, 100)) == rank_element(
            s,
            nearest_rank(10 * p, s.len() as int, 1000),
        ),
{
    lemma_nearest_rank(p, s.len() as int, 100);
    lemma_nearest_rank(100, s.len() as int, 100);
    lemma_nearest_rank(1000, s.len() as int, 1000);
    lemma_rank_extremes(s);
}

} // verus!
