//! End-to-end usage patterns over the public surface.

use rank_eval::binary::{ndcg_at_k, precision_at_k, RelevantSet};
use rank_eval::frac::Frac;
use rank_eval::graded::{compute_map, compute_ndcg};
use rank_eval::score::{parse_score, Score, ScoreParse};

fn f(x: Frac) -> f64 {
    x.num as f64 / x.den as f64
}

fn sc(s: &str) -> Score {
    match parse_score(s.as_bytes()) {
        ScoreParse::Value(v) => v,
        _ => panic!("not a finite score"),
    }
}

#[test]
fn test_rank_refine_usage_pattern() {
    // A reranking pipeline: candidates are rescored, sorted, and the
    // resulting order is evaluated.
    let candidates = vec![("doc1", 0.9_f32), ("doc2", 0.7), ("doc3", 0.5)];

    let mut reranked: Vec<(&str, f32)> = candidates
        .iter()
        .map(|(id, score)| (*id, *score * 1.2))
        .collect();
    reranked.sort_by(|a, b| b.1.partial_cmp(&a.1).unwrap());

    let ranked_ids: Vec<String> = reranked.iter().map(|(id, _)| id.to_string()).collect();
    let relevant = RelevantSet::from_vec(vec!["doc1".to_string(), "doc2".to_string()]);

    let ndcg = f(ndcg_at_k(&ranked_ids, &relevant, 10));
    let precision = f(precision_at_k(&ranked_ids, &relevant, 3));

    assert!(ndcg > 0.0 && ndcg <= 1.0);
    assert!(precision > 0.0 && precision <= 1.0);
    assert_eq!(ranked_ids[0], "doc1", "Most relevant should be first");
}

#[test]
fn test_graded_relevance_evaluation() {
    let ranked = vec![
        ("doc1".to_string(), sc("0.95")),
        ("doc2".to_string(), sc("0.87")),
        ("doc3".to_string(), sc("0.75")),
    ];

    let qrels = vec![
        ("doc1".to_string(), 3_u32),
        ("doc2".to_string(), 2),
        ("doc3".to_string(), 1),
    ];

    let ndcg = f(compute_ndcg(&ranked, &qrels, 10));
    let map = f(compute_map(&ranked, &qrels));

    assert!(ndcg > 0.0 && ndcg <= 1.0);
    assert!(map > 0.0 && map <= 1.0);
}
