//! Tests of the graded relevance metrics.

use rank_eval::frac::Frac;
use rank_eval::graded::{compute_map, compute_ndcg};
use rank_eval::score::{parse_score, Score, ScoreParse};

fn f(x: Frac) -> f64 {
    x.num as f64 / x.den as f64
}

fn sc(s: &str) -> Score {
    match parse_score(s.as_bytes()) {
        ScoreParse::Value(v) => v,
        _ => panic!("not a finite score"),
    }
}

fn scored(v: &[(&str, &str)]) -> Vec<(String, Score)> {
    v.iter().map(|(d, s)| (d.to_string(), sc(s))).collect()
}

fn grades(v: &[(&str, u32)]) -> Vec<(String, u32)> {
    v.iter().map(|(d, g)| (d.to_string(), *g)).collect()
}

#[test]
fn test_compute_ndcg_graded() {
    let ranked = scored(&[("doc1", "0.9"), ("doc2", "0.8"), ("doc3", "0.7")]);
    let qrels = grades(&[("doc1", 2), ("doc2", 1), ("doc3", 0)]);

    let ndcg = f(compute_ndcg(&ranked, &qrels, 3));
    assert!(ndcg > 0.0 && ndcg <= 1.0);
    // The highly relevant document ranks first, so the score is high.
    assert!(ndcg > 0.5);
}

#[test]
fn test_compute_map_graded() {
    let ranked = scored(&[("doc1", "0.9"), ("doc2", "0.8"), ("doc3", "0.7")]);
    let qrels = grades(&[("doc1", 2), ("doc2", 1), ("doc3", 0)]);

    let map = f(compute_map(&ranked, &qrels));
    assert!(map >= 0.0 && map <= 1.0);
    // doc1 at rank 1: precision 1/1; doc2 at rank 2: precision 2/2;
    // MAP = (1 + 1) / 2 = 1.
    assert!((map - 1.0).abs() < 1e-9);
}

#[test]
fn test_compute_ndcg_no_relevant() {
    let ranked = scored(&[("doc1", "0.9"), ("doc2", "0.8")]);
    let qrels: Vec<(String, u32)> = vec![];

    let ndcg = f(compute_ndcg(&ranked, &qrels, 2));
    assert_eq!(ndcg, 0.0);
}

#[test]
fn test_compute_map_no_relevant() {
    let ranked = scored(&[("doc1", "0.9"), ("doc2", "0.8")]);
    let qrels: Vec<(String, u32)> = vec![];

    let map = f(compute_map(&ranked, &qrels));
    assert_eq!(map, 0.0);
}

#[test]
fn test_graded_ndcg_two_docs_ideal_order() {
    // Two documents in already-ideal order score exactly one.
    let ranked = scored(&[("d1", "0.9"), ("d2", "0.8")]);
    let qrels = grades(&[("d1", 2), ("d2", 1)]);
    let ndcg = compute_ndcg(&ranked, &qrels, 2);
    assert_eq!(ndcg.num, ndcg.den);
    assert_eq!(f(ndcg), 1.0);
}

#[test]
fn test_graded_ndcg_swapped_order_below_one() {
    let ranked = scored(&[("d2", "0.9"), ("d1", "0.8")]);
    let qrels = grades(&[("d1", 2), ("d2", 1)]);
    let ndcg = f(compute_ndcg(&ranked, &qrels, 2));
    assert!(ndcg > 0.0 && ndcg < 1.0);
}
