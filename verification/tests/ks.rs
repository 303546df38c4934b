use kolmogorov_smirnov::ecdf::Ecdf;
use kolmogorov_smirnov::ratio::Ratio;
use kolmogorov_smirnov::test::{CriticalValue, TestResult};
use quickcheck::{Arbitrary, Gen, QuickCheck, Testable};
use rand::seq::SliceRandom;
use std::cmp;

const EPSILON: f64 = 1e-10;

fn check<A: Testable>(f: A) {
    QuickCheck::new().rng(Gen::new(1024)).quickcheck(f);
}

/// A test result in floating point numbers, beside the exact one.
struct FloatResult {
    is_rejected: bool,
    statistic: f64,
    critical_value: f64,
    confidence: f64,
    exact: TestResult,
}

/// Runs the test at the confidence level given as a floating point number.
fn ks_test<T: Ord + Clone>(xs: &[T], ys: &[T], confidence: f64) -> FloatResult {
    assert_eq!(confidence, 0.95);
    let exact = kolmogorov_smirnov::test::test(xs, ys, Ratio { numer: 95, denom: 100 });
    let squared = exact.critical_value.squared;
    FloatResult {
        is_rejected: exact.is_rejected,
        statistic: exact.statistic.numer as f64 / exact.statistic.denom as f64,
        critical_value: (squared.numer as f64 / squared.denom as f64).sqrt(),
        confidence: exact.confidence.numer as f64 / exact.confidence.denom as f64,
        exact: exact,
    }
}

/// Whether the statistic is strictly above the critical value.
fn above(statistic: Ratio, critical_value: CriticalValue) -> bool {
    statistic.numer * statistic.numer * critical_value.squared.denom
        > critical_value.squared.numer * statistic.denom * statistic.denom
}

/// The distance between two fractions, in units of one over the product
/// of their denominators.
fn distance(a: Ratio, b: Ratio) -> u128 {
    let left = a.numer * b.denom;
    let right = b.numer * a.denom;
    if left >= right {
        left - right
    } else {
        right - left
    }
}

/// A sample value with room for 1024 lesser and 1024 greater values.
fn inner(raw: u64) -> u64 {
    1024 + raw % (u64::MAX - 2048)
}

/// Wrapper for generating sample data with QuickCheck.
///
/// Samples must be sequences of u64 values with more than 12 elements.
#[derive(Debug, Clone)]
struct Samples {
    vec: Vec<u64>,
}

impl Samples {
    fn min(&self) -> u64 {
        let &min = self.vec.iter().min().unwrap();
        min
    }

    fn max(&self) -> u64 {
        let &max = self.vec.iter().max().unwrap();
        max
    }

    fn shuffle(&mut self) {
        let mut rng = rand::thread_rng();
        self.vec.shuffle(&mut rng);
    }
}

impl Arbitrary for Samples {
    fn arbitrary(g: &mut Gen) -> Samples {
        // Limit size of generated sample set to 1024
        let max = cmp::min(g.size(), 1024);

        let size = 13 + usize::arbitrary(g) % (max - 13);
        let vec = (0..size).map(|_| inner(u64::arbitrary(g))).collect();

        Samples { vec: vec }
    }

    fn shrink(&self) -> Box<dyn Iterator<Item = Samples>> {
        let vec: Vec<u64> = self.vec.clone();
        let shrunk: Box<dyn Iterator<Item = Vec<u64>>> = vec.shrink();

        Box::new(
            shrunk
                .filter(|v| v.len() > 12 && v.iter().all(|&x| 1024 <= x && x < u64::MAX - 1024))
                .map(|v| Samples { vec: v }),
        )
    }
}

#[test]
fn test_is_rejected_if_test_statistic_greater_than_critical_value() {
    fn prop(xs: Samples, ys: Samples) -> bool {
        let result = ks_test(&xs.vec, &ys.vec, 0.95);

        if result.is_rejected {
            above(result.exact.statistic, result.exact.critical_value)
        } else {
            !above(result.exact.statistic, result.exact.critical_value)
        }
    }

    check(prop as fn(Samples, Samples) -> bool);
}

/// Alternative calculation for the test statistic for the two sample
/// Kolmogorov-Smirnov test. This simple implementation is used as a
/// verification check against actual calculation used. It compares the
/// cached distribution functions at every sample value, in exact
/// arithmetic.
fn calculate_statistic_alt<T: Ord + Clone>(xs: &[T], ys: &[T]) -> Ratio {
    assert!(xs.len() > 0 && ys.len() > 0);

    let ecdf_xs = Ecdf::new(xs);
    let ecdf_ys = Ecdf::new(ys);

    let denom = xs.len() as u128 * ys.len() as u128;
    let mut statistic = 0;

    for x in xs.iter() {
        let diff = distance(ecdf_xs.value(x.clone()), ecdf_ys.value(x.clone()));
        if diff > statistic {
            statistic = diff;
        }
    }

    for y in ys.iter() {
        let diff = distance(ecdf_xs.value(y.clone()), ecdf_ys.value(y.clone()));
        if diff > statistic {
            statistic = diff;
        }
    }

    Ratio { numer: statistic, denom: denom }
}

#[test]
fn test_calculate_statistic() {
    fn prop(xs: Samples, ys: Samples) -> bool {
        let result = ks_test(&xs.vec, &ys.vec, 0.95);
        let actual = result.exact.statistic;
        let expected = calculate_statistic_alt(&xs.vec, &ys.vec);

        actual == expected
    }

    check(prop as fn(Samples, Samples) -> bool);
}

#[test]
fn test_statistic_is_between_zero_and_one() {
    fn prop(xs: Samples, ys: Samples) -> bool {
        let result = ks_test(&xs.vec, &ys.vec, 0.95);
        let actual = result.statistic;

        0.0 <= actual && actual <= 1.0
    }

    check(prop as fn(Samples, Samples) -> bool);
}

#[test]
fn test_statistic_is_zero_for_identical_samples() {
    fn prop(xs: Samples) -> bool {
        let ys = xs.clone();

        let result = ks_test(&xs.vec, &ys.vec, 0.95);

        result.statistic == 0.0
    }

    check(prop as fn(Samples) -> bool);
}

#[test]
fn test_statistic_is_zero_for_permuted_sample() {
    fn prop(xs: Samples) -> bool {
        let mut ys = xs.clone();
        ys.shuffle();

        let result = ks_test(&xs.vec, &ys.vec, 0.95);

        result.statistic == 0.0
    }

    check(prop as fn(Samples) -> bool);
}

#[test]
fn test_statistic_is_one_for_samples_with_no_overlap_in_support() {
    fn prop(xs: Samples) -> bool {
        let mut ys = xs.clone();

        // Shift ys so that ys.min > xs.max.
        let ys_min = xs.max() + 1;
        ys.vec = ys.vec.iter().map(|&y| cmp::max(y, ys_min)).collect();

        let result = ks_test(&xs.vec, &ys.vec, 0.95);

        result.statistic == 1.0
    }

    check(prop as fn(Samples) -> bool);
}

#[test]
fn test_statistic_is_one_half_for_sample_with_non_overlapping_in_support_replicate_added() {
    fn prop(xs: Samples) -> bool {
        let mut ys = xs.clone();

        // Shift ys so that ys.min > xs.max.
        let ys_min = xs.max() + 1;
        ys.vec = ys.vec.iter().map(|&y| cmp::max(y, ys_min)).collect();

        // Add all the items of xs back too.
        for &x in xs.vec.iter() {
            ys.vec.push(x);
        }

        let result = ks_test(&xs.vec, &ys.vec, 0.95);

        result.statistic == 0.5
    }

    check(prop as fn(Samples) -> bool);
}

#[test]
fn test_statistic_is_one_div_length_for_sample_with_additional_low_value() {
    fn prop(xs: Samples) -> bool {
        // Add a extra sample of early weight to ys.
        let min = xs.min();
        let mut ys = xs.clone();
        ys.vec.push(min - 1);

        let result = ks_test(&xs.vec, &ys.vec, 0.95);
        let expected = 1.0 / ys.vec.len() as f64;

        result.statistic == expected
    }

    check(prop as fn(Samples) -> bool);
}

#[test]
fn test_statistic_is_one_div_length_for_sample_with_additional_high_value() {
    fn prop(xs: Samples) -> bool {
        // Add a extra sample of late weight to ys.
        let max = xs.max();
        let mut ys = xs.clone();
        ys.vec.push(max + 1);

        let result = ks_test(&xs.vec, &ys.vec, 0.95);
        let expected = 1.0 / ys.vec.len() as f64;

        (result.statistic - expected).abs() < EPSILON
    }

    check(prop as fn(Samples) -> bool);
}

#[test]
fn test_statistic_is_one_div_length_for_sample_with_additional_low_and_high_values() {
    fn prop(xs: Samples) -> bool {
        // Add a extra sample of late weight to ys.
        let min = xs.min();
        let max = xs.max();

        let mut ys = xs.clone();

        ys.vec.push(min - 1);
        ys.vec.push(max + 1);

        let result = ks_test(&xs.vec, &ys.vec, 0.95);
        let expected = 1.0 / ys.vec.len() as f64;

        (result.statistic - expected).abs() < EPSILON
    }

    check(prop as fn(Samples) -> bool);
}

#[test]
fn test_statistic_is_n_div_length_for_sample_with_additional_n_low_values() {
    fn prop(xs: Samples, n: u8) -> bool {
        // Add extra sample of early weight to ys.
        let min = xs.min();
        let mut ys = xs.clone();
        for j in 0..n {
            ys.vec.push(min - (j as u64) - 1);
        }

        let result = ks_test(&xs.vec, &ys.vec, 0.95);
        let expected = n as f64 / ys.vec.len() as f64;

        result.statistic == expected
    }

    check(prop as fn(Samples, u8) -> bool);
}

#[test]
fn test_statistic_is_n_div_length_for_sample_with_additional_n_high_values() {
    fn prop(xs: Samples, n: u8) -> bool {
        // Add extra sample of early weight to ys.
        let max = xs.max();
        let mut ys = xs.clone();
        for j in 0..n {
            ys.vec.push(max + (j as u64) + 1);
        }

        let result = ks_test(&xs.vec, &ys.vec, 0.95);
        let expected = n as f64 / ys.vec.len() as f64;

        (result.statistic - expected).abs() < EPSILON
    }

    check(prop as fn(Samples, u8) -> bool);
}

#[test]
fn test_statistic_is_n_div_length_for_sample_with_additional_n_low_and_high_values() {
    fn prop(xs: Samples, n: u8) -> bool {
        // Add extra sample of early weight to ys.
        let min = xs.min();
        let max = xs.max();
        let mut ys = xs.clone();
        for j in 0..n {
            ys.vec.push(min - (j as u64) - 1);
            ys.vec.push(max + (j as u64) + 1);
        }

        let result = ks_test(&xs.vec, &ys.vec, 0.95);
        let expected = n as f64 / ys.vec.len() as f64;

        (result.statistic - expected).abs() < EPSILON
    }

    check(prop as fn(Samples, u8) -> bool);
}

#[test]
fn test_statistic_is_n_or_m_div_length_for_sample_with_additional_n_low_and_m_high_values() {
    fn prop(xs: Samples, n: u8, m: u8) -> bool {
        // Add extra sample of early weight to ys.
        let min = xs.min();
        let max = xs.max();
        let mut ys = xs.clone();
        for j in 0..n {
            ys.vec.push(min - (j as u64) - 1);
        }

        for j in 0..m {
            ys.vec.push(max + (j as u64) + 1);
        }

        let result = ks_test(&xs.vec, &ys.vec, 0.95);
        let expected = cmp::max(n, m) as f64 / ys.vec.len() as f64;

        (result.statistic - expected).abs() < EPSILON
    }

    check(prop as fn(Samples, u8, u8) -> bool);
}
