//! Two Sample Kolmogorov-Smirnov Test

use crate::order::{is_equal, is_le, lemma_order_laws, totally_ordered};
use crate::ratio::Ratio;
use crate::slices::{copy_samples, sort_samples};
use crate::statistic::{
    distance, is_max_gap, ks_statistic, lemma_max_gap_permutation, lemma_max_gap_unique,
};
use crate::sweep::{
    cursor_in_run, lemma_sweep_done, lemma_sweep_start, lemma_sweep_step, sweep_state,
};
use vstd::prelude::*;

verus! {

/// A critical value of the test: the non-negative number whose square is
/// `squared`. The formula for it takes a square root, so it is held by
/// its square, which is a fraction.
#[derive(Clone, Copy, Debug, PartialEq, Eq)]
pub struct CriticalValue {
    pub squared: Ratio,
}

impl CriticalValue {
    /// `statistic` is strictly above the critical value.
    pub open spec fn exceeded_by(self, statistic: Ratio) -> bool {
        statistic.numer * statistic.numer * self.squared.denom > self.squared.numer
            * statistic.denom * statistic.denom
    }
}

/// Two sample test result.
#[derive(Clone, Copy, Debug, PartialEq, Eq)]
pub struct TestResult {
    pub is_rejected: bool,
    pub statistic: Ratio,
    pub critical_value: CriticalValue,
    pub confidence: Ratio,
}

/// The only confidence level that the test supports: 0.95.
pub open spec fn supported_confidence(confidence: Ratio) -> bool {
    &&& confidence.wf()
    &&& confidence.less_than(Ratio { numer: 1, denom: 1 })
    &&& confidence.numer > 0
    &&& confidence.is(95, 100)
}

/// The critical value of the test at confidence 0.95 for samples of `n1`
/// and `n2` values, both more than 12: `1.36 * sqrt((n1 + n2) / (n1 * n2))`,
/// whose square is `1156 * (n1 + n2) / (625 * n1 * n2)`.
pub open spec fn critical_value(n1: int, n2: int) -> CriticalValue {
    CriticalValue {
        squared: Ratio { numer: (1156 * (n1 + n2)) as u128, denom: (625 * n1 * n2) as u128 },
    }
}

/// The distance between `cx / n` and `cy / m`, in units of `1 / (n * m)`.
fn gap_between(cx: usize, n: usize, cy: usize, m: usize) -> (g: u128)
    requires
        cx <= n,
        cy <= m,
    ensures
        g == distance(cx as int * m as int, cy as int * n as int),
        g <= n * m,
{
    let left = cx as u128;
    let right = cy as u128;
    let rows = n as u128;
    let columns = m as u128;
    assert(left * columns <= rows * columns && right * rows <= rows * columns && rows * columns
        <= 0xffff_ffff_ffff_ffff * 0xffff_ffff_ffff_ffff) by (nonlinear_arith)
        requires
            left <= rows <= 0xffff_ffff_ffff_ffff,
            right <= columns <= 0xffff_ffff_ffff_ffff,
    ;
    let a = left * columns;
    let b = right * rows;
    if a >= b {
        a - b
    } else {
        b - a
    }
}

/// Calculate the test statistic for the two sample Kolmogorov-Smirnov
/// test.
///
/// The test statistic is the maximum vertical distance between the ECDFs
/// of the two samples. Both samples must hold at least one value.
pub fn calculate_statistic<T: Ord + Clone>(xs: &[T], ys: &[T]) -> (d: Ratio)
    requires
        totally_ordered::<T>(),
        xs@.len() > 0,
        ys@.len() > 0,
    ensures
        d == ks_statistic(xs@, ys@),
        is_max_gap(xs@, ys@, d.numer as nat),
        d.is_proportion(),
{
    let n = xs.len();
    let m = ys.len();

    let mut xs_sorted = copy_samples(xs);
    let mut ys_sorted = copy_samples(ys);

    // xs and ys must be sorted for the stepwise ECDF calculations to work.
    sort_samples(&mut xs_sorted);
    sort_samples(&mut ys_sorted);
    proof {
        vstd::seq_lib::to_multiset_len(xs@);
        vstd::seq_lib::to_multiset_len(ys@);
        vstd::seq_lib::to_multiset_len(xs_sorted@);
        vstd::seq_lib::to_multiset_len(ys_sorted@);
        lemma_sweep_start(xs_sorted@, ys_sorted@);
    }

    // i, j index the first values in xs and ys that are not counted yet.
    let mut i: usize = 0;
    let mut j: usize = 0;

    // ecdf_xs / n and ecdf_ys / m are the ECDFs of xs and ys at the
    // value that the sweep has reached.
    let mut ecdf_xs: usize = 0;
    let mut ecdf_ys: usize = 0;

    // The test statistic value computed over the values passed, in
    // units of 1 / (n * m).
    let mut statistic: u128 = 0;

    while i < n && j < m
        invariant
            totally_ordered::<T>(),
            n == xs_sorted@.len(),
            m == ys_sorted@.len(),
            sweep_state(
                xs_sorted@,
                ys_sorted@,
                ecdf_xs as int,
                i as int,
                ecdf_ys as int,
                j as int,
                statistic as nat,
            ),
            statistic <= n * m,
        decreases (n - i) + (m - j),
    {
        // Advance i through duplicate samples in xs.
        let x_i = &xs_sorted[i];
        while i + 1 < n && is_equal(x_i, &xs_sorted[i + 1])
            invariant
                totally_ordered::<T>(),
                n == xs_sorted@.len(),
                i < n,
                *x_i == xs_sorted@[i as int],
                cursor_in_run(xs_sorted@, ecdf_xs as int, i as int),
            decreases n - i,
        {
            i += 1;
        }

        // Advance j through duplicate samples in ys.
        let y_j = &ys_sorted[j];
        while j + 1 < m && is_equal(y_j, &ys_sorted[j + 1])
            invariant
                totally_ordered::<T>(),
                m == ys_sorted@.len(),
                j < m,
                *y_j == ys_sorted@[j as int],
                cursor_in_run(ys_sorted@, ecdf_ys as int, j as int),
            decreases m - j,
        {
            j += 1;
        }

        let ghost before = (ecdf_xs as int, i as int, ecdf_ys as int, j as int, statistic as nat);

        // Step to the next sample value in the ECDF sweep from low to high.
        let current = if is_le(x_i, y_j) {
            x_i
        } else {
            y_j
        };

        // Update invariant conditions for i, j, ecdf_xs, and ecdf_ys.
        if is_equal(current, x_i) {
            ecdf_xs = i + 1;
            i += 1;
        }
        if is_equal(current, y_j) {
            ecdf_ys = j + 1;
            j += 1;
        }

        // Update invariant conditions for the test statistic.
        let diff = gap_between(ecdf_xs, n, ecdf_ys, m);
        if diff > statistic {
            statistic = diff;
        }
        proof {
            lemma_order_laws::<T>();
            let after = (ecdf_xs as int, i as int, ecdf_ys as int, j as int, statistic as nat);
            lemma_sweep_step(xs_sorted@, ys_sorted@, before, after);
        }
    }

    // Don't need to walk the rest of the samples because one of the ecdfs
    // is already one and the other will be increasing up to one. This
    // means the difference will be monotonically decreasing, so we have
    // our test statistic value already.
    proof {
        lemma_sweep_done(
            xs_sorted@,
            ys_sorted@,
            ecdf_xs as int,
            i as int,
            ecdf_ys as int,
            j as int,
            statistic as nat,
        );
        lemma_max_gap_permutation(xs@, ys@, xs_sorted@, ys_sorted@, statistic as nat);
        lemma_max_gap_unique(xs@, ys@, statistic as nat);
        assert(n * m <= 0xffff_ffff_ffff_ffff * 0xffff_ffff_ffff_ffff && n * m > 0)
            by (nonlinear_arith)
            requires
                0 < n <= 0xffff_ffff_ffff_ffff,
                0 < m <= 0xffff_ffff_ffff_ffff,
        ;
    }
    Ratio { numer: statistic, denom: (n as u128) * (m as u128) }
}

/// Calculate the critical value for the two sample Kolmogorov-Smirnov
/// test.
///
/// Both sample sizes must be above 12 and the confidence level must be
/// 0.95: the formula is an approximation for that case only. The square
/// of the value is returned as a fraction, so `625 * n1 * n2` must fit
/// its denominator.
pub fn calculate_critical_value(n1: usize, n2: usize, confidence: Ratio) -> (c: CriticalValue)
    requires
        n1 > 12,
        n2 > 12,
        supported_confidence(confidence),
        625 * n1 * n2 <= u128::MAX,
    ensures
        c == critical_value(n1 as int, n2 as int),
{
    let first = n1 as u128;
    let second = n2 as u128;
    assert(625 * first * second == 625 * (first * second)) by (nonlinear_arith);
    CriticalValue {
        squared: Ratio { numer: 1156 * (first + second), denom: 625 * (first * second) },
    }
}

/// Whether a statistic of `gap / (n * m)` is strictly above the critical
/// value for samples of `n` and `m` values.
fn exceeds_critical_value(gap: u128, n: usize, m: usize) -> (r: bool)
    requires
        n > 12,
        m > 12,
        625 * n * m <= u128::MAX,
        gap <= n * m,
    ensures
        r == critical_value(n as int, m as int).exceeded_by(
            Ratio { numer: gap, denom: (n * m) as u128 },
        ),
{
    let first = n as u128;
    let second = m as u128;
    assert(625 * n * m == 625 * (first * second) && first * second > 0 && 625 * gap <= 625
        * (first * second)) by (nonlinear_arith)
        requires
            first == n,
            second == m,
            n > 12,
            m > 12,
            gap <= n * m,
    ;
    let product = first * second;
    proof {
        let g = gap as int;
        let p = product as int;
        let s = first + second;
        // gap^2 * 625 * p > 1156 * s * p^2, with the common factor p taken out.
        assert((g * g * (625 * p) > (1156 * s) * p * p) == ((1156 * s) * p < g * (625 * g)))
            by (nonlinear_arith)
            requires
                p > 0,
        ;
    }
    if gap == 0 {
        false
    } else {
        // statistic^2 > critical^2 exactly if statistic > critical^2 / statistic:
        // gap / (n * m) against 1156 * (n + m) / (625 * gap).
        let statistic = Ratio { numer: gap, denom: product };
        let bound = Ratio { numer: 1156 * (first + second), denom: 625 * gap };
        statistic.is_above(bound)
    }
}

/// Perform a two sample Kolmogorov-Smirnov test on given samples.
///
/// The samples must have length > 12 elements for the test to be valid,
/// and only the 0.95 confidence level is supported. The square of the
/// critical value is returned as a fraction, so 625 times the product of
/// the two lengths must fit its denominator.
///
/// The null hypothesis, that both samples come from one distribution, is
/// rejected exactly if the statistic is strictly above the critical
/// value.
pub fn test<T: Ord + Clone>(xs: &[T], ys: &[T], confidence: Ratio) -> (result: TestResult)
    requires
        totally_ordered::<T>(),
        xs@.len() > 12,
        ys@.len() > 12,
        supported_confidence(confidence),
        625 * xs@.len() * ys@.len() <= u128::MAX,
    ensures
        result.statistic == ks_statistic(xs@, ys@),
        result.statistic.is_proportion(),
        result.critical_value == critical_value(xs@.len() as int, ys@.len() as int),
        result.confidence == confidence,
        result.is_rejected == result.critical_value.exceeded_by(result.statistic),
{
    let statistic = calculate_statistic(xs, ys);
    let critical_value = calculate_critical_value(xs.len(), ys.len(), confidence);
    let is_rejected = exceeds_critical_value(statistic.numer, xs.len(), ys.len());

    TestResult {
        is_rejected: is_rejected,
        statistic: statistic,
        critical_value: critical_value,
        confidence: confidence,
    }
}

} // verus!
