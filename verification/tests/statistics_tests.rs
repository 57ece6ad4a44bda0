//! Tests of the significance-testing module.

use rank_eval::frac::Frac;
use rank_eval::statistics::{cohens_d, confidence_interval, paired_t_test};

fn f(x: Frac) -> f64 {
    x.num as f64 / x.den as f64
}

fn scores(v: &[(i128, i128)]) -> Vec<Frac> {
    v.iter().map(|(n, d)| Frac::new(*n, *d)).collect()
}

#[test]
fn test_paired_t_test() {
    // Data with variance in the differences gives a real t-statistic.
    let method_a = scores(&[(5, 10), (6, 10), (7, 10), (8, 10), (9, 10)]);
    let method_b = scores(&[(4, 10), (55, 100), (6, 10), (75, 100), (8, 10)]);

    let result = paired_t_test(&method_a, &method_b, Frac::new(5, 100));
    assert!(f(result.t_statistic).abs() >= 0.0 || f(result.t_statistic) == 0.0);
    assert!(f(result.p_value) >= 0.0 && f(result.p_value) <= 1.0);
    assert_eq!(result.degrees_of_freedom, 4);
}

#[test]
fn test_confidence_interval() {
    let data = scores(&[(5, 10), (6, 10), (7, 10), (8, 10), (9, 10)]);
    let (lower, upper) = confidence_interval(&data, Frac::new(95, 100));
    assert!(f(lower) < f(upper));
    assert!(f(lower) >= 0.0 && f(upper) <= 1.0);
}

#[test]
fn test_cohens_d() {
    let method_a = scores(&[(5, 10), (6, 10), (7, 10)]);
    let method_b = scores(&[(4, 10), (5, 10), (6, 10)]);

    let d = cohens_d(&method_a, &method_b);
    assert!(f(d) > 0.0);
}

#[test]
fn test_t_test_fewer_than_two_pairs() {
    // One pair gives the neutral result: t = 0, p = 1, df = 0.
    let a = scores(&[(5, 10)]);
    let b = scores(&[(4, 10)]);
    let r = paired_t_test(&a, &b, Frac::new(5, 100));
    assert_eq!(f(r.t_statistic), 0.0);
    assert_eq!(f(r.p_value), 1.0);
    assert_eq!(r.degrees_of_freedom, 0);
    assert!(!r.significant);

    let empty: Vec<Frac> = vec![];
    let r2 = paired_t_test(&empty, &empty, Frac::new(5, 100));
    assert_eq!(f(r2.p_value), 1.0);
    assert!(!r2.significant);
}

#[test]
fn test_cohens_d_identical_vectors() {
    let a = scores(&[(3, 10), (6, 10), (9, 10)]);
    let b = scores(&[(3, 10), (6, 10), (9, 10)]);
    assert_eq!(f(cohens_d(&a, &b)), 0.0);
}

#[test]
fn test_t_test_clearly_significant() {
    // A large difference with a little spread is reported as
    // significant.
    let a = scores(&[(9, 10), (8, 10), (95, 100), (9, 10), (85, 100), (9, 10)]);
    let b = scores(&[(1, 10), (15, 100), (1, 10), (2, 10), (5, 100), (1, 10)]);
    let r = paired_t_test(&a, &b, Frac::new(5, 100));
    assert!(r.significant);
    assert!(f(r.mean_difference) > 0.7);
    assert!(f(r.p_value) < 0.05);
}

#[test]
fn test_confidence_interval_empty() {
    let empty: Vec<Frac> = vec![];
    let (lower, upper) = confidence_interval(&empty, Frac::new(95, 100));
    assert_eq!(f(lower), 0.0);
    assert_eq!(f(upper), 0.0);
}

#[test]
fn test_wider_confidence_wider_interval() {
    let data = scores(&[(5, 10), (6, 10), (7, 10), (8, 10), (9, 10)]);
    let (l95, u95) = confidence_interval(&data, Frac::new(95, 100));
    let (l99, u99) = confidence_interval(&data, Frac::new(99, 100));
    assert!(f(u99) - f(l99) >= f(u95) - f(l95));
}
