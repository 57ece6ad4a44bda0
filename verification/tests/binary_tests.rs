//! Tests of the binary relevance metrics.

use rank_eval::binary::{
    average_precision, dcg_at_k, err_at_k, f_measure_at_k, idcg_at_k, mrr, ndcg_at_k,
    precision_at_k, r_precision, rbp_at_k, recall_at_k, success_at_k, Metrics, RelevantSet,
};
use rank_eval::frac::Frac;

fn ids(v: &[&str]) -> Vec<String> {
    v.iter().map(|s| s.to_string()).collect()
}

fn rel(v: &[&str]) -> RelevantSet {
    RelevantSet::from_vec(ids(v))
}

fn f(x: Frac) -> f64 {
    x.num as f64 / x.den as f64
}

#[test]
fn test_precision_at_k() {
    let ranked = ids(&["a", "b", "c", "d", "e"]);
    let relevant = rel(&["a", "c", "e"]);

    assert!((f(precision_at_k(&ranked, &relevant, 1)) - 1.0).abs() < 1e-9);
    assert!((f(precision_at_k(&ranked, &relevant, 2)) - 0.5).abs() < 1e-9);
    assert!((f(precision_at_k(&ranked, &relevant, 5)) - 0.6).abs() < 1e-9);
}

#[test]
fn test_recall_at_k() {
    let ranked = ids(&["a", "b", "c"]);
    let relevant = rel(&["a", "c", "e"]);

    assert!((f(recall_at_k(&ranked, &relevant, 3)) - 2.0 / 3.0).abs() < 1e-9);
}

#[test]
fn test_mrr() {
    let ranked = ids(&["a", "b", "c"]);
    let relevant = rel(&["b"]);

    assert!((f(mrr(&ranked, &relevant)) - 0.5).abs() < 1e-9);
}

#[test]
fn test_ndcg() {
    let ranked = ids(&["a", "b", "c", "d"]);
    let relevant = rel(&["a", "c"]);

    // a at pos 0, c at pos 2
    let dcg = 1.0 / 2.0_f64.log2() + 1.0 / 4.0_f64.log2();
    // ideal: both at top
    let idcg = 1.0 / 2.0_f64.log2() + 1.0 / 3.0_f64.log2();

    assert!((f(ndcg_at_k(&ranked, &relevant, 4)) - dcg / idcg).abs() < 1e-9);
}

#[test]
fn test_average_precision() {
    let ranked = ids(&["a", "b", "c", "d"]);
    let relevant = rel(&["a", "c"]);

    // a at pos 0: precision = 1/1 = 1.0
    // c at pos 2: precision = 2/3
    // AP = (1.0 + 2/3) / 2
    let ap = f(average_precision(&ranked, &relevant));
    assert!(ap > 0.8 && ap < 0.85);
}

#[test]
fn test_metrics_struct() {
    let ranked = ids(&["a", "b", "c"]);
    let relevant = rel(&["a", "c"]);

    let metrics = Metrics::compute(&ranked, &relevant);
    assert!(f(metrics.precision_at_1) > 0.0);
    assert!(f(metrics.ndcg_at_10) > 0.0);
    assert!(f(metrics.err_at_10) >= 0.0 && f(metrics.err_at_10) <= 1.0);
    assert!(f(metrics.rbp_at_10) >= 0.0 && f(metrics.rbp_at_10) <= 1.0);
    assert!(f(metrics.f1_at_10) >= 0.0 && f(metrics.f1_at_10) <= 1.0);
    assert!(f(metrics.success_at_10) >= 0.0 && f(metrics.success_at_10) <= 1.0);
    assert!(f(metrics.r_precision) >= 0.0 && f(metrics.r_precision) <= 1.0);
}

#[test]
fn test_err_at_k() {
    let ranked = ids(&["doc1", "doc2", "doc3"]);
    let relevant = rel(&["doc2"]);

    // First relevant at rank 2, so ERR = 1/2 = 0.5 (same as MRR for binary)
    let err = f(err_at_k(&ranked, &relevant, 10));
    assert!((err - 0.5).abs() < 1e-9);

    // Perfect ranking: relevant at rank 1
    let ranked2 = ids(&["doc1", "doc2", "doc3"]);
    let relevant2 = rel(&["doc1"]);
    let err2 = f(err_at_k(&ranked2, &relevant2, 10));
    assert!((err2 - 1.0).abs() < 1e-9);

    // No relevant docs
    let relevant3 = rel(&[]);
    let err3 = f(err_at_k(&ranked, &relevant3, 10));
    assert_eq!(err3, 0.0);
}

#[test]
fn test_rbp_at_k() {
    let ranked = ids(&["doc1", "doc2", "doc3", "doc4"]);
    let relevant = rel(&["doc1", "doc3"]);

    // With p=0.95
    let rbp = f(rbp_at_k(&ranked, &relevant, 10, Frac::new(95, 100)));
    // RBP = (1-0.95) * (1.0 + 0.95^2) = 0.095125
    assert!(rbp > 0.0 && rbp <= 1.0);

    // With p=0.8
    let rbp2 = f(rbp_at_k(&ranked, &relevant, 10, Frac::new(8, 10)));
    assert!(rbp2 > 0.0 && rbp2 <= 1.0);
    // Lower persistence should give different (typically lower) RBP
    assert!(rbp2 != rbp);

    // Invalid persistence
    assert_eq!(f(rbp_at_k(&ranked, &relevant, 10, Frac::new(0, 1))), 0.0);
    assert_eq!(f(rbp_at_k(&ranked, &relevant, 10, Frac::new(1, 1))), 0.0);
}

#[test]
fn test_f_measure_at_k() {
    let ranked = ids(&["doc1", "doc2", "doc3"]);
    let relevant = rel(&["doc1", "doc3"]);

    // F1 score (beta=1.0)
    let f1 = f(f_measure_at_k(&ranked, &relevant, 3, Frac::new(1, 1)));
    let precision = f(precision_at_k(&ranked, &relevant, 3));
    let recall = f(recall_at_k(&ranked, &relevant, 3));
    let expected_f1 = 2.0 * (precision * recall) / (precision + recall);
    assert!((f1 - expected_f1).abs() < 1e-9);

    // F2 score (beta=2.0, emphasizes recall)
    let f2 = f(f_measure_at_k(&ranked, &relevant, 3, Frac::new(2, 1)));
    assert!(f2 >= 0.0 && f2 <= 1.0);
    // F2 should be >= F1 when recall > precision
    if recall > precision {
        assert!(f2 >= f1);
    }
}

#[test]
fn test_success_at_k() {
    let ranked = ids(&["doc1", "doc2", "doc3"]);
    let relevant = rel(&["doc2"]);

    assert_eq!(f(success_at_k(&ranked, &relevant, 1)), 0.0);
    assert_eq!(f(success_at_k(&ranked, &relevant, 2)), 1.0);
    assert_eq!(f(success_at_k(&ranked, &relevant, 3)), 1.0);

    // No relevant docs
    let relevant2 = rel(&[]);
    assert_eq!(f(success_at_k(&ranked, &relevant2, 10)), 0.0);
}

#[test]
fn test_r_precision() {
    let ranked = ids(&["doc1", "doc2", "doc3", "doc4"]);
    let relevant = rel(&["doc1", "doc3"]);

    // R = 2, so we check precision at top-2
    let r_prec = f(r_precision(&ranked, &relevant));
    // Top-2: doc1 (relevant), doc2 (not relevant) -> precision = 1/2 = 0.5
    assert!((r_prec - 0.5).abs() < 1e-9);

    // Perfect case: all relevant docs in top-R
    let ranked2 = ids(&["doc1", "doc3", "doc2", "doc4"]);
    let r_prec2 = f(r_precision(&ranked2, &relevant));
    assert!((r_prec2 - 1.0).abs() < 1e-9);
}

#[test]
fn test_dcg_idcg_exact_top_rank() {
    // The discount of the top rank is exactly one, so a single hit at
    // rank 0 gives DCG exactly 1 and IDCG(1, k) exactly 1.
    let ranked = ids(&["a"]);
    let relevant = rel(&["a"]);
    let d = dcg_at_k(&ranked, &relevant, 5);
    assert_eq!(d.num, d.den);
    let i = idcg_at_k(1, 5);
    assert_eq!(i.num, i.den);
    // No relevant documents: IDCG is exactly zero.
    let z = idcg_at_k(0, 7);
    assert_eq!(z.num, 0);
}

#[test]
fn test_relevant_set_deduplicates() {
    let set = rel(&["a", "b", "a", "c", "b"]);
    assert_eq!(set.len(), 3);
    assert!(set.contains(&"a".to_string()));
    assert!(!set.contains(&"d".to_string()));
}
