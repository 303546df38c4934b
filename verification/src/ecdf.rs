//! Empirical cumulative distribution functions and order statistics.

use crate::order::{is_equal, is_le, is_lt, le, lemma_order_laws, lt, totally_ordered};
use crate::ratio::Ratio;
use crate::sample::{
    ascending, count_le, ecdf_value, lemma_ascending, lemma_ascending_unique,
    lemma_count_where_bound, lemma_count_where_prefix, lemma_ecdf_permutation,
    lemma_rank_element, lemma_rank_found, nearest_rank, rank_element, sorted, up_to,
};
use crate::slices::{copy_samples, search_sorted, sort_samples, swap_samples};
use vstd::prelude::*;

verus! {

/// Empirical cumulative distribution function of one sample, made once
/// and then asked any number of times.
pub struct Ecdf<T: Ord> {
    samples: Vec<T>,
    length: usize,
}

impl<T: Ord> View for Ecdf<T> {
    type V = Seq<T>;

    /// The values of the sample, in ascending order.
    closed spec fn view(&self) -> Seq<T> {
        self.samples@
    }
}

impl<T: Ord + Clone> Ecdf<T> {
    /// The recorded length is the number of values held.
    pub closed spec fn length_recorded(&self) -> bool {
        self.length == self.samples@.len()
    }

    /// The structure holds a sample: at least one value, in ascending order.
    pub open spec fn wf(&self) -> bool {
        &&& self.length_recorded()
        &&& self@.len() > 0
        &&& sorted(self@)
    }

    /// Construct a new representation of a cumulative distribution
    /// function for a given sample.
    ///
    /// The construction sorts a copy of the sample, which pays off where
    /// the structure is asked often. The sample must not be empty.
    pub fn new(samples: &[T]) -> (e: Ecdf<T>)
        requires
            totally_ordered::<T>(),
            samples@.len() > 0,
        ensures
            e.wf(),
            e@ == ascending(samples@),
    {
        let length = samples.len();
        // Sort a copied sample for binary searching.
        let mut sorted_samples = copy_samples(samples);
        sort_samples(&mut sorted_samples);
        proof {
            lemma_ascending_unique(samples@, sorted_samples@);
            vstd::seq_lib::to_multiset_len(samples@);
            vstd::seq_lib::to_multiset_len(sorted_samples@);
        }
        Ecdf { samples: sorted_samples, length: length }
    }

    /// Calculate a value of the empirical cumulative distribution function
    /// for the sample: the fraction of the sample that is below or equal
    /// to `t`.
    pub fn value(&self, t: T) -> (r: Ratio)
        requires
            totally_ordered::<T>(),
            self.wf(),
        ensures
            r == ecdf_value(self@, t),
            r.is_proportion(),
    {
        proof {
            lemma_order_laws::<T>();
            lemma_count_where_bound(self@, up_to(t));
        }
        let num_samples_leq_t = match search_sorted(&self.samples, &t) {
            Ok(found) => {
                // At least one sample is a t and we have the index of it. Need
                // to walk down the sorted samples until at last that == t.
                let mut index = found;
                while index + 1 < self.length && is_equal(&self.samples[index + 1], &t)
                    invariant
                        totally_ordered::<T>(),
                        self.wf(),
                        index < self.length,
                        self@[index as int] == t,
                    decreases self.length - index,
                {
                    index += 1;
                }
                proof {
                    lemma_order_laws::<T>();
                    let s = self@;
                    assert forall|i: int| 0 <= i < index + 1 implies up_to(t)(#[trigger] s[i]) by {
                        assert(le(s[i], s[index as int]));
                    }
                    assert forall|i: int| index + 1 <= i < s.len() implies !up_to(t)(
                        #[trigger] s[i],
                    ) by {
                        assert(le(s[index as int], s[index + 1]));
                        assert(le(s[index + 1], s[i]));
                    }
                    lemma_count_where_prefix(s, up_to(t), index + 1);
                }
                // Compensate for 0-based indexing.
                index + 1
            },
            Err(index) => {
                // No sample is a t but if we had to put one in it would go at
                // index. This means all indices to the left have samples < t
                // and should be counted in the cdf proportion.
                proof {
                    let s = self@;
                    assert forall|i: int| 0 <= i < index implies up_to(t)(#[trigger] s[i]) by {}
                    assert forall|i: int| index <= i < s.len() implies !up_to(t)(
                        #[trigger] s[i],
                    ) by {}
                    lemma_count_where_prefix(s, up_to(t), index as int);
                }
                index
            },
        };
        Ratio { numer: num_samples_leq_t as u128, denom: self.length as u128 }
    }

    /// Calculate a percentile for the sample using the Nearest Rank method.
    ///
    /// The percentile requested must be between 1 and 100 inclusive: there
    /// is no 0-percentile.
    pub fn percentile(&self, p: u8) -> (x: T)
        requires
            totally_ordered::<T>(),
            self.wf(),
            0 < p <= 100,
        ensures
            x == self@[nearest_rank(p as int, self@.len() as int, 100) - 1],
    {
        let r = nearest_rank_of(p as u16, self.length, 100);
        let x = self.samples[r - 1].clone();
        assert(cloned(self@[r - 1], x));
        x
    }

    /// Calculate a permille for the sample using the Nearest Rank method.
    ///
    /// The permille requested must be between 1 and 1000 inclusive: there
    /// is no 0-permille.
    pub fn permille(&self, p: u16) -> (x: T)
        requires
            totally_ordered::<T>(),
            self.wf(),
            0 < p <= 1000,
        ensures
            x == self@[nearest_rank(p as int, self@.len() as int, 1000) - 1],
    {
        let r = nearest_rank_of(p, self.length, 1000);
        let x = self.samples[r - 1].clone();
        assert(cloned(self@[r - 1], x));
        x
    }

    /// Calculate a rank element for the sample.
    ///
    /// The rank requested must be between 1 and the sample's length
    /// inclusive: there is no 0-rank.
    pub fn rank(&self, r: usize) -> (x: T)
        requires
            totally_ordered::<T>(),
            self.wf(),
            0 < r <= self@.len(),
        ensures
            x == self@[r - 1],
    {
        let x = self.samples[r - 1].clone();
        assert(cloned(self@[r - 1], x));
        x
    }

    /// Return the minimal element of the samples.
    pub fn min(&self) -> (x: T)
        requires
            totally_ordered::<T>(),
            self.wf(),
        ensures
            x == self@[0],
    {
        let x = self.samples[0].clone();
        assert(cloned(self@[0], x));
        x
    }

    /// Return the maximal element of the samples.
    pub fn max(&self) -> (x: T)
        requires
            totally_ordered::<T>(),
            self.wf(),
        ensures
            x == self@[self@.len() - 1],
    {
        let x = self.samples[self.samples.len() - 1].clone();
        assert(cloned(self@[self@.len() - 1], x));
        x
    }
}

/// The structure made from a sample answers as the one-time functions do
/// on that sample: the same value of the distribution function at every
/// point, and at every rank the value of that rank.
pub proof fn lemma_cached_agrees<T: Ord + Clone>(e: Ecdf<T>, samples: Seq<T>, t: T, r: int)
    requires
        totally_ordered::<T>(),
        e@ == ascending(samples),
        1 <= r <= samples.len(),
    ensures
        ecdf_value(e@, t) == ecdf_value(samples, t),
        e@[r - 1] == rank_element(samples, r),
        e@[0] == rank_element(samples, 1),
        e@[e@.len() - 1] == rank_element(samples, samples.len() as int),
{
    lemma_ecdf_permutation(samples, samples, t);
    lemma_ascending(samples);
}

/// Within `s`, the window `[low, high)` holds the values of the ranks
/// `low + 1 ..= high`: nothing before it is above a value from `low` on,
/// and nothing from `high` on is below a value before `high`.
spec fn window_holds_ranks<T: Ord>(s: Seq<T>, low: int, high: int) -> bool {
    &&& forall|i: int, j: int| 0 <= i < low <= j < s.len() ==> le(#[trigger] s[i], #[trigger] s[j])
    &&& forall|j: int, k: int| 0 <= j < high <= k < s.len() ==> le(#[trigger] s[j], #[trigger] s[k])
}

/// Exchanging two values of the window leaves it a window of the same ranks.
proof fn lemma_swap_in_window<T: Ord>(s: Seq<T>, low: int, high: int, a: int, b: int)
    requires
        window_holds_ranks(s, low, high),
        0 <= low <= a < high <= s.len(),
        low <= b < high,
    ensures
        window_holds_ranks(s.update(a, s[b]).update(b, s[a]), low, high),
        s.update(a, s[b]).update(b, s[a]).to_multiset() == s.to_multiset(),
{
    let t = s.update(a, s[b]).update(b, s[a]);
    assert forall|i: int, j: int| 0 <= i < low <= j < t.len() implies le(
        #[trigger] t[i],
        #[trigger] t[j],
    ) by {
        assert(t[i] == s[i]);
        assert(le(s[i], s[j]) && le(s[i], s[a]) && le(s[i], s[b]));
    }
    assert forall|j: int, k: int| 0 <= j < high <= k < t.len() implies le(
        #[trigger] t[j],
        #[trigger] t[k],
    ) by {
        assert(t[k] == s[k]);
        assert(le(s[j], s[k]) && le(s[a], s[k]) && le(s[b], s[k]));
    }
    vstd::seq_lib::to_multiset_update(s, a, s[b]);
    vstd::seq_lib::to_multiset_update(s.update(a, s[b]), b, s[a]);
    s.to_multiset_ensures();
    assert(t.to_multiset() =~= s.to_multiset());
}

/// Rearranges the window `[low, high)` of `v`, whose first value is
/// `pivot`, so that its values strictly below `pivot` come first, and
/// returns the position where they end.
fn partition_below<T: Ord + Clone>(v: &mut Vec<T>, low: usize, high: usize, pivot: &T) -> (bottom:
    usize)
    requires
        totally_ordered::<T>(),
        low < high <= old(v)@.len(),
        old(v)@[low as int] == *pivot,
        window_holds_ranks(old(v)@, low as int, high as int),
    ensures
        final(v)@.len() == old(v)@.len(),
        final(v)@.to_multiset() == old(v)@.to_multiset(),
        window_holds_ranks(final(v)@, low as int, high as int),
        low <= bottom < high,
        forall|i: int| low <= i < bottom ==> lt(#[trigger] final(v)@[i], *pivot),
        forall|i: int| bottom <= i < high ==> le(*pivot, #[trigger] final(v)@[i]),
        bottom == low ==> final(v)@[low as int] == *pivot,
{
    proof {
        lemma_order_laws::<T>();
    }
    let ghost original = v@;
    let mut bottom: usize = low;
    let mut top: usize = high - 1;
    while bottom < top
        invariant
            totally_ordered::<T>(),
            low <= bottom <= top < high <= v@.len(),
            v@.len() == original.len(),
            v@.to_multiset() == original.to_multiset(),
            window_holds_ranks(v@, low as int, high as int),
            forall|i: int| low <= i < bottom ==> lt(#[trigger] v@[i], *pivot),
            forall|i: int| top < i < high ==> le(*pivot, #[trigger] v@[i]),
            le(*pivot, v@[top as int]) || le(*pivot, v@[bottom as int]),
            le(v@[low as int], *pivot),
        decreases
            top - bottom,
            (if bottom < top && !lt(v@[bottom as int], *pivot) && lt(v@[top as int], *pivot) {
                1int
            } else {
                0int
            }),
    {
        proof {
            lemma_order_laws::<T>();
        }
        let ghost bottom_before = bottom;
        let ghost top_before = top;
        while bottom < top && is_lt(&v[bottom], pivot)
            invariant
                totally_ordered::<T>(),
                low <= bottom_before <= bottom <= top < high <= v@.len(),
                forall|i: int| low <= i < bottom ==> lt(#[trigger] v@[i], *pivot),
                le(*pivot, v@[top as int]) || le(*pivot, v@[bottom as int]),
            decreases top - bottom,
        {
            proof {
                lemma_order_laws::<T>();
            }
            bottom += 1;
        }
        assert(le(*pivot, v@[bottom as int]));
        while bottom < top && !is_lt(&v[top], pivot)
            invariant
                totally_ordered::<T>(),
                low <= bottom <= top <= top_before < high <= v@.len(),
                forall|i: int| top < i < high ==> le(*pivot, #[trigger] v@[i]),
            decreases top - bottom,
        {
            proof {
                lemma_order_laws::<T>();
            }
            top -= 1;
        }
        if bottom < top {
            proof {
                lemma_swap_in_window(v@, low as int, high as int, bottom as int, top as int);
            }
            swap_samples(v, bottom, top);
        }
    }
    bottom
}

/// Rearranges the window `[low, high)` of `v`, none of whose values is
/// below `pivot`, so that its values equal to `pivot` come first, and
/// returns a position before which every value of the window is `pivot`.
fn partition_equal<T: Ord + Clone>(v: &mut Vec<T>, low: usize, high: usize, pivot: &T) -> (bottom:
    usize)
    requires
        totally_ordered::<T>(),
        low < high <= old(v)@.len(),
        window_holds_ranks(old(v)@, low as int, high as int),
        forall|i: int| low <= i < high ==> le(*pivot, #[trigger] old(v)@[i]),
    ensures
        final(v)@.len() == old(v)@.len(),
        final(v)@.to_multiset() == old(v)@.to_multiset(),
        window_holds_ranks(final(v)@, low as int, high as int),
        low <= bottom < high,
        forall|i: int| low <= i < bottom ==> #[trigger] final(v)@[i] == *pivot,
        forall|i: int| low <= i < high ==> le(*pivot, #[trigger] final(v)@[i]),
        old(v)@[low as int] == *pivot && low + 1 < high ==> low < bottom,
{
    let ghost original = v@;
    let mut bottom: usize = low;
    let mut top: usize = high - 1;
    while bottom < top
        invariant
            totally_ordered::<T>(),
            low <= bottom <= top < high <= v@.len(),
            v@.len() == original.len(),
            v@.to_multiset() == original.to_multiset(),
            window_holds_ranks(v@, low as int, high as int),
            forall|i: int| low <= i < bottom ==> #[trigger] v@[i] == *pivot,
            forall|i: int| low <= i < high ==> le(*pivot, #[trigger] v@[i]),
            original[low as int] == *pivot ==> v@[low as int] == *pivot,
            original[low as int] == *pivot && low + 1 < high && bottom == low ==> bottom < top,
        decreases
            top - bottom,
            (if bottom < top && v@[bottom as int] != *pivot && v@[top as int] == *pivot {
                1int
            } else {
                0int
            }),
    {
        let ghost bottom_before = bottom;
        let ghost top_before = top;
        while bottom < top && is_equal(&v[bottom], pivot)
            invariant
                totally_ordered::<T>(),
                low <= bottom_before <= bottom <= top < high <= v@.len(),
                forall|i: int| low <= i < bottom ==> #[trigger] v@[i] == *pivot,
            decreases top - bottom,
        {
            bottom += 1;
        }
        while bottom < top && !is_equal(&v[top], pivot)
            invariant
                totally_ordered::<T>(),
                low <= bottom <= top <= top_before < high <= v@.len(),
                bottom < top ==> v@[bottom as int] != *pivot,
            decreases top - bottom,
        {
            top -= 1;
        }
        if bottom < top {
            proof {
                lemma_swap_in_window(v@, low as int, high as int, bottom as int, top as int);
            }
            swap_samples(v, bottom, top);
        }
    }
    bottom
}


/// Calculate a one-time rank for a given sample using Quick Select.
///
/// The running time is linear in the sample's length on average and is
/// not shared between calls: where many ranks of one sample are wanted,
/// `Ecdf::new` sorts the sample once and answers each in constant time.
///
/// The sample must not be empty, and the rank requested must be between 1
/// and the sample's length inclusive: there is no 0-rank.
pub fn rank<T: Ord + Clone>(samples: &[T], r: usize) -> (x: T)
    requires
        totally_ordered::<T>(),
        0 < r <= samples@.len(),
    ensures
        x == rank_element(samples@, r as int),
{
    let length = samples.len();
    let mut v = copy_samples(samples);
    let mut low: usize = 0;
    let mut high: usize = length;
    loop
        invariant
            totally_ordered::<T>(),
            v@.len() == length == samples@.len(),
            v@.to_multiset() == samples@.to_multiset(),
            low < r <= high <= length,
            window_holds_ranks(v@, low as int, high as int),
        decreases high - low,
    {
        let pivot = v[low].clone();
        assert(cloned(v@[low as int], pivot));
        if low >= high - 1 {
            proof {
                lemma_order_laws::<T>();
                lemma_rank_found(samples@, v@, low as int, r as int, r as int);
                lemma_rank_element(samples@, r as int);
            }
            return pivot;
        }
        // First determine if the rank item is less than the pivot.
        let bottom = partition_below(&mut v, low, high, &pivot);
        if r <= bottom {
            // Rank item is less than pivot. Exclude pivot and larger items.
            proof {
                lemma_order_laws::<T>();
            }
            high = bottom;
        } else {
            // Rank item is pivot or in the larger set. Exclude smaller items.
            proof {
                lemma_order_laws::<T>();
            }
            let ghost below = v@;
            let middle = bottom;
            // Next, determine if the pivot is the rank item.
            let bottom = partition_equal(&mut v, middle, high, &pivot);
            if r <= bottom {
                proof {
                    lemma_rank_found(samples@, v@, middle as int, bottom as int, r as int);
                    lemma_rank_element(samples@, r as int);
                }
                return pivot;
            }
            // Rank item is greater than pivot. Exclude pivot and smaller items.
            low = bottom;
        }
    }
}

/// The rank that the nearest-rank method gives to `p` parts in `scale` of
/// a sample of `n` values.
fn nearest_rank_of(p: u16, n: usize, scale: u16) -> (r: usize)
    requires
        0 < p <= scale,
        0 < n,
    ensures
        r == nearest_rank(p as int, n as int, scale as int),
        1 <= r <= n,
{
    let parts = p as u128;
    let size = n as u128;
    let whole = scale as u128;
    assert(parts * size <= whole * size && parts * size >= 1 && whole * size <= 0xffff
        * 0xffff_ffff_ffff_ffff) by (nonlinear_arith)
        requires
            0 < parts <= whole <= 0xffff,
            0 < size <= 0xffff_ffff_ffff_ffff,
    ;
    let scaled = parts * size + (whole - 1);
    assert(1 <= scaled / whole <= size) by (nonlinear_arith)
        requires
            whole <= scaled <= whole * size + whole - 1,
            whole > 0,
    ;
    (scaled / whole) as usize
}

/// Calculate a one-time value of the empirical cumulative distribution
/// function for a given sample: the fraction of the sample that is below
/// or equal to `t`.
///
/// The running time is linear in the sample's length and is not shared
/// between calls: where many values are wanted, `Ecdf::new` sorts the
/// sample once and `Ecdf::value` answers each in logarithmic time.
///
/// The sample must not be empty.
pub fn ecdf<T: Ord + Clone>(samples: &[T], t: T) -> (r: Ratio)
    requires
        totally_ordered::<T>(),
        samples@.len() > 0,
    ensures
        r == ecdf_value(samples@, t),
        r.is_proportion(),
{
    let mut num_samples_leq_t: usize = 0;
    let mut length: usize = 0;
    while length < samples.len()
        invariant
            totally_ordered::<T>(),
            length <= samples@.len(),
            num_samples_leq_t == count_le(samples@.subrange(0, length as int), t),
            num_samples_leq_t <= length,
        decreases samples@.len() - length,
    {
        let ghost seen = samples@.subrange(0, length as int);
        let ghost next = samples@.subrange(0, length + 1);
        assert(next.drop_last() =~= seen);
        assert(next.last() == samples@[length as int]);
        if is_le(&samples[length], &t) {
            num_samples_leq_t += 1;
        }
        length += 1;
    }
    assert(samples@.subrange(0, length as int) =~= samples@);
    Ratio { numer: num_samples_leq_t as u128, denom: length as u128 }
}

/// Calculate a one-time percentile for a given sample using the Nearest
/// Rank method and Quick Select.
///
/// The sample must not be empty, and the percentile requested must be
/// between 1 and 100 inclusive: there is no 0-percentile.
pub fn percentile<T: Ord + Clone>(samples: &[T], p: u8) -> (x: T)
    requires
        totally_ordered::<T>(),
        samples@.len() > 0,
        0 < p <= 100,
    ensures
        x == rank_element(samples@, nearest_rank(p as int, samples@.len() as int, 100)),
{
    let r = nearest_rank_of(p as u16, samples.len(), 100);
    rank(samples, r)
}

/// Calculate a one-time permille for a given sample using the Nearest
/// Rank method and Quick Select.
///
/// The sample must not be empty, and the permille requested must be
/// between 1 and 1000 inclusive: there is no 0-permille.
pub fn permille<T: Ord + Clone>(samples: &[T], p: u16) -> (x: T)
    requires
        totally_ordered::<T>(),
        samples@.len() > 0,
        0 < p <= 1000,
    ensures
        x == rank_element(samples@, nearest_rank(p as int, samples@.len() as int, 1000)),
{
    let r = nearest_rank_of(p, samples.len(), 1000);
    rank(samples, r)
}

} // verus!
