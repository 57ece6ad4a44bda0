//! Cross-metric behavior on concrete rankings: bounds, monotonicity,
//! perfect rankings, and the empty edge cases.

use rank_eval::binary::{
    average_precision, mrr, ndcg_at_k, precision_at_k, recall_at_k, RelevantSet,
};
use rank_eval::graded::{compute_map, compute_ndcg};
use rank_eval::frac::Frac;
use rank_eval::score::{parse_score, Score, ScoreParse};

fn ids(v: &[&str]) -> Vec<String> {
    v.iter().map(|s| s.to_string()).collect()
}

fn rel(v: &[&str]) -> RelevantSet {
    RelevantSet::from_vec(ids(v))
}

fn f(x: Frac) -> f64 {
    x.num as f64 / x.den as f64
}

fn sc(s: &str) -> Score {
    match parse_score(s.as_bytes()) {
        ScoreParse::Value(v) => v,
        _ => panic!("not a finite score"),
    }
}

fn scored(v: &[(&str, &str)]) -> Vec<(String, Score)> {
    v.iter().map(|(d, s)| (d.to_string(), sc(s))).collect()
}

fn grades(v: &[(&str, u32)]) -> Vec<(String, u32)> {
    v.iter().map(|(d, g)| (d.to_string(), *g)).collect()
}

#[test]
fn test_ndcg_consistency() {
    // For perfect rankings, nDCG should be 1.0 at every cutoff.
    let ranked = ids(&["doc1", "doc2", "doc3", "doc4", "doc5"]);
    let relevant = rel(&["doc1", "doc2", "doc3", "doc4", "doc5"]);

    let ndcg1 = f(ndcg_at_k(&ranked, &relevant, 1));
    let ndcg3 = f(ndcg_at_k(&ranked, &relevant, 3));
    let ndcg5 = f(ndcg_at_k(&ranked, &relevant, 5));
    let ndcg10 = f(ndcg_at_k(&ranked, &relevant, 10));

    assert!((ndcg1 - 1.0).abs() < 1e-9, "Perfect ranking should give nDCG@1 = 1.0");
    assert!((ndcg3 - 1.0).abs() < 1e-9, "Perfect ranking should give nDCG@3 = 1.0");
    assert!((ndcg5 - 1.0).abs() < 1e-9, "Perfect ranking should give nDCG@5 = 1.0");
    assert!((ndcg10 - 1.0).abs() < 1e-9, "Perfect ranking should give nDCG@10 = 1.0");
}

#[test]
fn test_precision_non_increasing() {
    let ranked = ids(&["doc1", "doc2", "doc3", "doc4", "doc5"]);
    let relevant = rel(&["doc1", "doc3"]);

    let p1 = f(precision_at_k(&ranked, &relevant, 1));
    let p3 = f(precision_at_k(&ranked, &relevant, 3));
    let p5 = f(precision_at_k(&ranked, &relevant, 5));

    assert!(p1 >= p3, "Precision@1 should be >= Precision@3");
    assert!(p3 >= p5, "Precision@3 should be >= Precision@5");
}

#[test]
fn test_recall_non_decreasing() {
    let ranked = ids(&["doc1", "doc2", "doc3", "doc4", "doc5"]);
    let relevant = rel(&["doc1", "doc3", "doc5"]);

    let r1 = f(recall_at_k(&ranked, &relevant, 1));
    let r3 = f(recall_at_k(&ranked, &relevant, 3));
    let r5 = f(recall_at_k(&ranked, &relevant, 5));

    assert!(r3 >= r1 - 1e-9, "Recall@3 should be >= Recall@1");
    assert!(r5 >= r3 - 1e-9, "Recall@5 should be >= Recall@3");
}

#[test]
fn test_metrics_bounded() {
    let ranked = ids(&["doc1", "doc2", "doc3"]);
    let relevant = rel(&["doc1", "doc2"]);

    let ndcg = f(ndcg_at_k(&ranked, &relevant, 10));
    let precision = f(precision_at_k(&ranked, &relevant, 10));
    let recall = f(recall_at_k(&ranked, &relevant, 10));
    let mrr_score = f(mrr(&ranked, &relevant));
    let ap = f(average_precision(&ranked, &relevant));

    assert!(ndcg >= 0.0 && ndcg <= 1.0, "nDCG should be in [0, 1]");
    assert!(precision >= 0.0 && precision <= 1.0, "Precision should be in [0, 1]");
    assert!(recall >= 0.0 && recall <= 1.0, "Recall should be in [0, 1]");
    assert!(mrr_score >= 0.0 && mrr_score <= 1.0, "MRR should be in [0, 1]");
    assert!(ap >= 0.0 && ap <= 1.0, "AP should be in [0, 1]");
}

#[test]
fn test_perfect_ranking_properties() {
    let ranked = ids(&["doc1", "doc2", "doc3", "doc4", "doc5"]);
    let relevant = rel(&["doc1", "doc2", "doc3"]);

    let ndcg = f(ndcg_at_k(&ranked, &relevant, 10));
    let precision = f(precision_at_k(&ranked, &relevant, 3));
    let recall = f(recall_at_k(&ranked, &relevant, 3));
    let mrr_score = f(mrr(&ranked, &relevant));
    let ap = f(average_precision(&ranked, &relevant));

    assert!((ndcg - 1.0).abs() < 1e-9, "Perfect ranking should give nDCG = 1.0");
    assert!((precision - 1.0).abs() < 1e-9, "Perfect ranking should give precision = 1.0");
    assert!((recall - 1.0).abs() < 1e-9, "Perfect ranking should give recall = 1.0");
    assert!((mrr_score - 1.0).abs() < 1e-9, "Perfect ranking should give MRR = 1.0");
    assert!((ap - 1.0).abs() < 1e-9, "Perfect ranking should give AP = 1.0");
}

#[test]
fn test_empty_ranking_properties() {
    let ranked: Vec<String> = vec![];
    let relevant = rel(&["doc1", "doc2"]);

    let ndcg = f(ndcg_at_k(&ranked, &relevant, 10));
    let precision = f(precision_at_k(&ranked, &relevant, 10));
    let recall = f(recall_at_k(&ranked, &relevant, 10));
    let mrr_score = f(mrr(&ranked, &relevant));
    let ap = f(average_precision(&ranked, &relevant));

    assert_eq!(ndcg, 0.0, "Empty ranking should give nDCG = 0");
    assert_eq!(precision, 0.0, "Empty ranking should give precision = 0");
    assert_eq!(recall, 0.0, "Empty ranking should give recall = 0");
    assert_eq!(mrr_score, 0.0, "Empty ranking should give MRR = 0");
    assert_eq!(ap, 0.0, "Empty ranking should give AP = 0");
}

#[test]
fn test_no_relevant_properties() {
    let ranked = ids(&["doc1", "doc2", "doc3"]);
    let relevant = rel(&[]);

    let ndcg = f(ndcg_at_k(&ranked, &relevant, 10));
    let precision = f(precision_at_k(&ranked, &relevant, 10));
    let recall = f(recall_at_k(&ranked, &relevant, 10));
    let mrr_score = f(mrr(&ranked, &relevant));
    let ap = f(average_precision(&ranked, &relevant));

    assert_eq!(ndcg, 0.0, "No relevant docs should give nDCG = 0");
    assert_eq!(precision, 0.0, "No relevant docs should give precision = 0");
    assert_eq!(recall, 0.0, "No relevant docs should give recall = 0");
    assert_eq!(mrr_score, 0.0, "No relevant docs should give MRR = 0");
    assert_eq!(ap, 0.0, "No relevant docs should give AP = 0");
}

#[test]
fn test_graded_ndcg_bounded() {
    let ranked = scored(&[("doc1", "0.9"), ("doc2", "0.8"), ("doc3", "0.7")]);
    let qrels = grades(&[("doc1", 2), ("doc2", 1), ("doc3", 0)]);

    let ndcg = f(compute_ndcg(&ranked, &qrels, 10));
    let map = f(compute_map(&ranked, &qrels));

    assert!(ndcg >= 0.0 && ndcg <= 1.0, "Graded nDCG should be in [0, 1]");
    assert!(map >= 0.0 && map <= 1.0, "Graded MAP should be in [0, 1]");
}

#[test]
fn test_graded_ndcg_perfect_ranking() {
    let ranked = scored(&[("doc1", "0.9"), ("doc2", "0.8"), ("doc3", "0.7")]);
    let qrels = grades(&[("doc1", 3), ("doc2", 2), ("doc3", 1)]);

    let ndcg = f(compute_ndcg(&ranked, &qrels, 10));

    assert!((ndcg - 1.0).abs() < 1e-9, "Perfect graded ranking should give nDCG = 1.0");
}

#[test]
fn test_mrr_first_relevant_rank() {
    let ranked = ids(&["doc1", "doc2", "doc3", "doc4"]);
    let relevant = rel(&["doc3"]);

    let mrr_score = f(mrr(&ranked, &relevant));
    let expected = 1.0 / 3.0;

    assert!(
        (mrr_score - expected).abs() < 1e-9,
        "MRR should equal 1 / rank_of_first_relevant"
    );
}

#[test]
fn test_precision_recall_relationship() {
    let ranked = ids(&["doc1", "doc2", "doc3"]);
    let relevant = rel(&["doc1", "doc2", "doc3"]);

    let precision = f(precision_at_k(&ranked, &relevant, 3));
    let recall = f(recall_at_k(&ranked, &relevant, 3));

    assert!(
        (precision - recall).abs() < 1e-9,
        "When all ranked are relevant, precision = recall"
    );
}

#[test]
fn test_ndcg_identity_ranking() {
    let ranked = ids(&["doc1", "doc2", "doc3", "doc4", "doc5"]);
    let relevant = rel(&["doc1", "doc2", "doc3"]);

    let ndcg = f(ndcg_at_k(&ranked, &relevant, 10));

    assert!((ndcg - 1.0).abs() < 1e-9, "All relevant docs first should give nDCG = 1.0");
}

#[test]
fn test_metrics_symmetry() {
    // Same inputs must give the same outputs, in particular on empty
    // inputs.
    let ranked_empty: Vec<String> = vec![];
    let relevant_empty = rel(&[]);

    let ndcg1 = f(ndcg_at_k(&ranked_empty, &relevant_empty, 10));
    let ndcg2 = f(ndcg_at_k(&ranked_empty, &relevant_empty, 10));

    assert_eq!(ndcg1, ndcg2, "Same inputs should give same outputs");
}

#[test]
fn test_k_larger_than_ranked() {
    let ranked = ids(&["doc1", "doc2"]);
    let relevant = rel(&["doc1"]);

    let ndcg = f(ndcg_at_k(&ranked, &relevant, 100));
    let precision = f(precision_at_k(&ranked, &relevant, 100));
    let recall = f(recall_at_k(&ranked, &relevant, 100));

    assert!(ndcg >= 0.0 && ndcg <= 1.0, "nDCG with k > ranked should be valid");
    assert!(
        precision >= 0.0 && precision <= 1.0,
        "Precision with k > ranked should be valid"
    );
    assert!(recall >= 0.0 && recall <= 1.0, "Recall with k > ranked should be valid");
}

#[test]
fn test_graded_ndcg_empty() {
    let ranked: Vec<(String, Score)> = vec![];
    let qrels: Vec<(String, u32)> = vec![];

    let ndcg = f(compute_ndcg(&ranked, &qrels, 10));
    let map = f(compute_map(&ranked, &qrels));

    assert_eq!(ndcg, 0.0, "Empty ranked list should give nDCG = 0");
    assert_eq!(map, 0.0, "Empty ranked list should give MAP = 0");
}

#[test]
fn test_graded_ndcg_no_relevant() {
    let ranked = scored(&[("doc1", "0.9"), ("doc2", "0.8")]);
    let qrels: Vec<(String, u32)> = vec![];

    let ndcg = f(compute_ndcg(&ranked, &qrels, 10));
    let map = f(compute_map(&ranked, &qrels));

    assert_eq!(ndcg, 0.0, "No relevant docs should give nDCG = 0");
    assert_eq!(map, 0.0, "No relevant docs should give MAP = 0");
}
