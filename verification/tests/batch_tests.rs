//! Tests of the batch evaluator and its dispatch table.

use rank_eval::batch::{compute_metric, evaluate_batch_binary, evaluate_trec_batch};
use rank_eval::binary::{average_precision, ndcg_at_k};
use rank_eval::binary::RelevantSet;
use rank_eval::frac::Frac;
use rank_eval::score::{parse_score, Score, ScoreParse};
use rank_eval::trec::{load_qrels, load_trec_runs};

fn ids(v: &[&str]) -> Vec<String> {
    v.iter().map(|s| s.to_string()).collect()
}

fn f(x: Frac) -> f64 {
    x.num as f64 / x.den as f64
}

fn get<'a>(m: &'a Vec<(String, Frac)>, k: &str) -> Option<&'a Frac> {
    for (key, v) in m.iter() {
        if key == k {
            return Some(v);
        }
    }
    None
}

#[test]
fn test_evaluate_batch_binary() {
    let rankings = vec![ids(&["doc1", "doc2", "doc3"]), ids(&["doc4", "doc5", "doc6"])];
    let qrels = vec![
        RelevantSet::from_vec(ids(&["doc1", "doc3"])),
        RelevantSet::from_vec(ids(&["doc4"])),
    ];

    let results = evaluate_batch_binary(
        &rankings,
        &qrels,
        &ids(&["ndcg@10", "precision@5"]),
    );

    assert_eq!(results.query_results.len(), 2);
    assert!(get(&results.aggregated, "ndcg@10").is_some());
    assert!(get(&results.aggregated, "precision@5").is_some());
}

#[test]
fn test_batch_query_labels_and_values() {
    let rankings = vec![ids(&["a", "b"]), ids(&["c"])];
    let qrels = vec![
        RelevantSet::from_vec(ids(&["a", "b"])),
        RelevantSet::from_vec(ids(&["c"])),
    ];

    let results = evaluate_batch_binary(&rankings, &qrels, &ids(&["precision@1", "mrr"]));
    assert_eq!(results.query_results[0].query_id, "query_0");
    assert_eq!(results.query_results[1].query_id, "query_1");
    // Both rankings are perfect at rank 1, so both metrics average to 1.
    assert_eq!(f(*get(&results.aggregated, "precision@1").unwrap()), 1.0);
    assert_eq!(f(*get(&results.aggregated, "mrr").unwrap()), 1.0);
}

#[test]
fn test_unknown_metric_skipped() {
    let rankings = vec![ids(&["a"])];
    let qrels = vec![RelevantSet::from_vec(ids(&["a"]))];

    let results = evaluate_batch_binary(&rankings, &qrels, &ids(&["nosuch@3", "mrr"]));
    assert!(get(&results.query_results[0].metrics, "nosuch@3").is_none());
    assert!(get(&results.query_results[0].metrics, "mrr").is_some());
    assert!(get(&results.aggregated, "nosuch@3").is_none());
}

#[test]
fn test_evaluate_trec_batch_basic() {
    let runs = load_trec_runs("1 Q0 doc1 1 0.9 r1\n1 Q0 doc2 2 0.8 r1\n").unwrap();
    let qrels = load_qrels("1 0 doc1 2\n1 0 doc2 0\n2 0 doc9 1\n").unwrap();

    let results = evaluate_trec_batch(&runs, &qrels, &ids(&["precision@1", "recall@5"]));
    // Query 2 has judgments but no runs, so only query 1 is evaluated.
    assert_eq!(results.query_results.len(), 1);
    assert_eq!(results.query_results[0].query_id, "1");
    // doc1 (the only relevant doc) ranks first.
    assert_eq!(f(*get(&results.query_results[0].metrics, "precision@1").unwrap()), 1.0);
    assert_eq!(f(*get(&results.query_results[0].metrics, "recall@5").unwrap()), 1.0);
}

#[test]
fn test_trec_batch_uses_first_tag() {
    // Two methods for the same query: only the first tag encountered
    // is evaluated.
    let runs = load_trec_runs(
        "1 Q0 doc1 1 0.95 bm25\n1 Q0 doc2 2 0.87 bm25\n1 Q0 doc2 1 0.93 dense\n",
    )
    .unwrap();
    let qrels = load_qrels("1 0 doc1 2\n1 0 doc2 1\n").unwrap();

    let results = evaluate_trec_batch(&runs, &qrels, &ids(&["mrr"]));
    assert_eq!(results.query_results.len(), 1);
    // Under bm25 the first-ranked doc1 is relevant.
    assert_eq!(f(*get(&results.query_results[0].metrics, "mrr").unwrap()), 1.0);
}

#[test]
fn test_compute_metric_dispatch_matches_direct() {
    let ranked = ids(&["a", "b", "c"]);
    let relevant = RelevantSet::from_vec(ids(&["a", "c"]));

    let via_name = compute_metric(&"ndcg@10".to_string(), &ranked, &relevant).unwrap();
    let direct = ndcg_at_k(&ranked, &relevant, 10);
    assert_eq!(via_name, direct);

    let ap1 = compute_metric(&"ap".to_string(), &ranked, &relevant).unwrap();
    let ap2 = compute_metric(&"map".to_string(), &ranked, &relevant).unwrap();
    let ap3 = average_precision(&ranked, &relevant);
    assert_eq!(ap1, ap3);
    assert_eq!(ap2, ap3);
}

#[test]
fn test_scores_survive_grouping() {
    // The grouped entry must carry the parsed score through unchanged;
    // a wrapper that replaced identifiers or scores would break the
    // exact values here.
    let runs = load_trec_runs("7 Q0 docA 1 2.5e-1 tag\n").unwrap();
    let grouped = rank_eval::trec::group_runs_by_query(&runs);
    assert_eq!(grouped[0].0, "7");
    assert_eq!(grouped[0].1[0].0, "tag");
    let entry: &(String, Score) = &grouped[0].1[0].1[0];
    assert_eq!(entry.0, "docA");
    match parse_score(b"0.25") {
        ScoreParse::Value(v) => assert_eq!(entry.1, v),
        _ => panic!("not a finite score"),
    }
}

#[test]
fn test_multi_query_evaluation() {
    let runs = load_trec_runs(
        "1 Q0 doc1 1 0.95 bm25\n1 Q0 doc2 2 0.87 bm25\n2 Q0 doc3 1 0.92 bm25\n2 Q0 doc4 2 0.85 bm25\n3 Q0 doc5 1 0.9 bm25\n",
    )
    .unwrap();
    let qrels =
        load_qrels("1 0 doc1 2\n1 0 doc2 1\n2 0 doc3 2\n2 0 doc4 1\n3 0 doc5 1\n").unwrap();

    let results = evaluate_trec_batch(&runs, &qrels, &ids(&["ndcg@10"]));
    assert_eq!(results.query_results.len(), 3, "Should evaluate all 3 queries");
    for qr in &results.query_results {
        let v = f(*get(&qr.metrics, "ndcg@10").unwrap());
        assert!(v >= 0.0 && v <= 1.0, "All nDCG values should be valid");
    }
}

#[test]
fn test_metrics_consistency_across_queries() {
    let runs = load_trec_runs(
        "1 Q0 doc1 1 0.95 bm25\n1 Q0 doc2 2 0.87 bm25\n2 Q0 doc3 1 0.92 bm25\n2 Q0 doc4 2 0.85 bm25\n",
    )
    .unwrap();
    let qrels = load_qrels("1 0 doc1 2\n1 0 doc2 1\n2 0 doc3 2\n2 0 doc4 1\n").unwrap();

    let results = evaluate_trec_batch(&runs, &qrels, &ids(&["ndcg@10", "mrr"]));
    assert_eq!(results.query_results.len(), 2);
    // Both queries rank their relevant documents perfectly.
    assert_eq!(f(*get(&results.aggregated, "mrr").unwrap()), 1.0);
}
