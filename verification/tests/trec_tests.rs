//! Tests of TREC parsing and grouping.

use rank_eval::score::{parse_score, Score, ScoreParse};
use rank_eval::trec::{
    group_qrels_by_query, group_runs_by_query, load_qrels, load_trec_runs, Qrel, TrecErrorKind,
    TrecRun,
};

fn sc(s: &str) -> Score {
    match parse_score(s.as_bytes()) {
        ScoreParse::Value(v) => v,
        _ => panic!("not a finite score"),
    }
}

fn get<'a, T>(m: &'a Vec<(String, T)>, k: &str) -> Option<&'a T> {
    for (key, v) in m.iter() {
        if key == k {
            return Some(v);
        }
    }
    None
}

#[test]
fn test_load_trec_runs() {
    let text = "1 Q0 doc1 1 0.9 run1\n1 Q0 doc2 2 0.8 run1\n2 Q0 doc3 1 0.95 run1\n";

    let runs = load_trec_runs(text).unwrap();
    assert_eq!(runs.len(), 3);
    assert_eq!(runs[0].query_id, "1");
    assert_eq!(runs[0].doc_id, "doc1");
    assert_eq!(runs[0].rank, 1);
    assert_eq!(runs[0].score, sc("0.9"));
    assert_eq!(runs[0].run_tag, "run1");
}

#[test]
fn test_load_qrels() {
    let text = "1 0 doc1 2\n1 0 doc2 1\n2 0 doc3 2\n";

    let qrels = load_qrels(text).unwrap();
    assert_eq!(qrels.len(), 3);
    assert_eq!(qrels[0].query_id, "1");
    assert_eq!(qrels[0].doc_id, "doc1");
    assert_eq!(qrels[0].relevance, 2);
}

#[test]
fn test_group_runs_by_query() {
    let runs = vec![
        TrecRun {
            query_id: "1".to_string(),
            doc_id: "doc1".to_string(),
            rank: 1,
            score: sc("0.9"),
            run_tag: "run1".to_string(),
        },
        TrecRun {
            query_id: "1".to_string(),
            doc_id: "doc2".to_string(),
            rank: 2,
            score: sc("0.8"),
            run_tag: "run1".to_string(),
        },
        TrecRun {
            query_id: "2".to_string(),
            doc_id: "doc3".to_string(),
            rank: 1,
            score: sc("0.95"),
            run_tag: "run1".to_string(),
        },
    ];

    let grouped = group_runs_by_query(&runs);
    assert_eq!(grouped.len(), 2);
    assert!(get(&grouped, "1").is_some());
    assert!(get(&grouped, "2").is_some());
    assert_eq!(get(get(&grouped, "1").unwrap(), "run1").unwrap().len(), 2);
}

#[test]
fn test_group_qrels_by_query() {
    let qrels = vec![
        Qrel { query_id: "1".to_string(), doc_id: "doc1".to_string(), relevance: 2 },
        Qrel { query_id: "1".to_string(), doc_id: "doc2".to_string(), relevance: 1 },
        Qrel { query_id: "2".to_string(), doc_id: "doc3".to_string(), relevance: 2 },
    ];

    let grouped = group_qrels_by_query(&qrels);
    assert_eq!(grouped.len(), 2);
    assert!(get(&grouped, "1").is_some());
    assert!(get(&grouped, "2").is_some());
    assert_eq!(*get(get(&grouped, "1").unwrap(), "doc1").unwrap(), 2);
}

#[test]
fn test_run_tag_with_spaces() {
    let text = "1 Q0 doc1 1 0.9 my run tag\n";

    let runs = load_trec_runs(text).unwrap();
    assert_eq!(runs[0].run_tag, "my run tag");
}

#[test]
fn test_error_invalid_format() {
    // Missing the Q0 field entirely.
    let result = load_trec_runs("1 doc1 1 0.9\n");
    assert!(result.is_err());
}

#[test]
fn test_round_trip_grouping() {
    // Parsing a run and a qrels file and grouping them lands the
    // expected entries under the expected keys.
    let runs = load_trec_runs("1 Q0 doc1 1 0.9 r1\n").unwrap();
    let qrels = load_qrels("1 0 doc1 2\n").unwrap();

    let grouped_runs = group_runs_by_query(&runs);
    let list = get(get(&grouped_runs, "1").unwrap(), "r1").unwrap();
    assert_eq!(list.len(), 1);
    assert_eq!(list[0].0, "doc1");
    assert_eq!(list[0].1, sc("0.9"));

    let grouped_qrels = group_qrels_by_query(&qrels);
    assert_eq!(*get(get(&grouped_qrels, "1").unwrap(), "doc1").unwrap(), 2);
}

#[test]
fn test_grouped_runs_sorted_descending() {
    // Scores come back sorted by score descending within a tag.
    let text = "1 Q0 a 1 0.2 t\n1 Q0 b 2 0.9 t\n1 Q0 c 3 0.5 t\n";
    let runs = load_trec_runs(text).unwrap();
    let grouped = group_runs_by_query(&runs);
    let list = get(get(&grouped, "1").unwrap(), "t").unwrap();
    let docs: Vec<&str> = list.iter().map(|p| p.0.as_str()).collect();
    assert_eq!(docs, vec!["b", "c", "a"]);
}

#[test]
fn test_group_qrels_last_write_wins() {
    let qrels = load_qrels("1 0 doc1 2\n1 0 doc1 3\n").unwrap();
    let grouped = group_qrels_by_query(&qrels);
    assert_eq!(*get(get(&grouped, "1").unwrap(), "doc1").unwrap(), 3);
}

#[test]
fn test_parse_error_kinds() {
    // Five fields with a wrong second token names the missing Q0.
    let e = load_trec_runs("1 X0 doc1 1 0.9\n").unwrap_err();
    assert_eq!(e.kind, TrecErrorKind::ExpectedQ0);
    assert_eq!(e.line, 1);
    // Fewer fields are a plain format error.
    let e = load_trec_runs("1 Q0 doc1\n").unwrap_err();
    assert_eq!(e.kind, TrecErrorKind::RunFieldCount);
    // Six fields with a wrong second token.
    let e = load_trec_runs("1 X0 doc1 1 0.9 tag\n").unwrap_err();
    assert_eq!(e.kind, TrecErrorKind::ExpectedQ0);
    // A rank that is not a non-negative integer.
    let e = load_trec_runs("1 Q0 doc1 -1 0.9 tag\n").unwrap_err();
    assert_eq!(e.kind, TrecErrorKind::InvalidRank);
    // A score that is not a decimal number.
    let e = load_trec_runs("ok Q0 doc 1 0.5 tag\n2 Q0 doc1 1 abc tag\n").unwrap_err();
    assert_eq!(e.kind, TrecErrorKind::InvalidScore);
    assert_eq!(e.line, 2);
    assert_eq!(e.content, "2 Q0 doc1 1 abc tag");
    // A score beyond the finite 32-bit float range.
    let e = load_trec_runs("1 Q0 doc1 1 1e40 tag\n").unwrap_err();
    assert_eq!(e.kind, TrecErrorKind::NonFiniteScore);
    // Qrels with too few fields.
    let e = load_qrels("1 0 doc1\n").unwrap_err();
    assert_eq!(e.kind, TrecErrorKind::QrelFieldCount);
    // Qrels with a wrong literal second field.
    let e = load_qrels("1 1 doc1 2\n").unwrap_err();
    assert_eq!(e.kind, TrecErrorKind::ExpectedZero);
    // Qrels with a bad relevance.
    let e = load_qrels("1 0 doc1 x\n").unwrap_err();
    assert_eq!(e.kind, TrecErrorKind::InvalidRelevance);
}

#[test]
fn test_comments_and_blank_lines_skipped() {
    let text = "# a comment\n\n  \n1 Q0 doc1 1 0.9 r1\n";
    let runs = load_trec_runs(text).unwrap();
    assert_eq!(runs.len(), 1);
}

#[test]
fn test_score_parsing_forms() {
    // Scientific notation, signs, and bare fractions all parse; the
    // value is kept exactly as the decimal written.
    assert_eq!(sc("0.9"), sc("+0.900"));
    assert_eq!(sc("1e2"), sc("100"));
    assert_eq!(sc("-2.5"), sc("-25e-1"));
    assert_eq!(sc(".5"), sc("0.5"));
    assert!(matches!(parse_score(b"nan"), ScoreParse::Invalid));
    assert!(matches!(parse_score(b"inf"), ScoreParse::Invalid));
    assert!(matches!(parse_score(b""), ScoreParse::Invalid));
    assert!(matches!(parse_score(b"1e39"), ScoreParse::TooLarge));
    assert!(matches!(parse_score(b"3.4e38"), ScoreParse::Value(_)));
    assert!(matches!(parse_score(b"3.41e38"), ScoreParse::TooLarge));
}

#[test]
fn test_score_ordering() {
    let le = |a: &str, b: &str| rank_eval::score::score_le(&sc(a), &sc(b));
    assert!(le("0.8", "0.9"));
    assert!(!le("0.9", "0.8"));
    assert!(le("-1.5", "0"));
    assert!(le("-2", "-1.5"));
    assert!(le("99", "100"));
    assert!(le("0.9", "0.9"));
    assert!(le("1e-10", "1e10"));
}
