//! Tests of input validation and the dataset helpers.

use rank_eval::binary::RelevantSet;
use rank_eval::dataset::loaders::{
    detect_dataset_type, get_dataset_stats, load_beir_qrels, load_msmarco_qrels,
    load_trec_qrels_from_dir, DatasetType,
};
use rank_eval::frac::Frac;
use rank_eval::trec::{load_qrels, load_trec_runs, TrecErrorKind};
use rank_eval::validation::{
    validate_beta, validate_metric_inputs, validate_persistence, ValidationError,
};

fn ids(v: &[&str]) -> Vec<String> {
    v.iter().map(|s| s.to_string()).collect()
}

#[test]
fn test_validate_metric_inputs() {
    let ranked = ids(&["doc1", "doc2", "doc3"]);
    let relevant = RelevantSet::from_vec(ids(&["doc1"]));

    // Valid
    assert!(validate_metric_inputs(&ranked, &relevant, 3, false).is_ok());
    assert!(validate_metric_inputs(&ranked, &relevant, 3, true).is_ok());

    // Invalid: k = 0
    assert!(matches!(
        validate_metric_inputs(&ranked, &relevant, 0, false),
        Err(ValidationError::KZero)
    ));

    // Invalid: empty ranked
    let empty: Vec<String> = vec![];
    assert!(matches!(
        validate_metric_inputs(&empty, &relevant, 3, false),
        Err(ValidationError::EmptyRanked)
    ));

    // Invalid: no relevant (when required)
    let empty_relevant = RelevantSet::from_vec(vec![]);
    assert!(matches!(
        validate_metric_inputs(&ranked, &empty_relevant, 3, true),
        Err(ValidationError::NoRelevant)
    ));

    // Valid: no relevant (when not required)
    assert!(validate_metric_inputs(&ranked, &empty_relevant, 3, false).is_ok());
}

#[test]
fn test_validate_persistence() {
    assert!(validate_persistence(Frac::new(5, 10)).is_ok());
    assert!(validate_persistence(Frac::new(95, 100)).is_ok());
    assert!(validate_persistence(Frac::new(1, 100)).is_ok());
    assert!(validate_persistence(Frac::new(99, 100)).is_ok());

    assert!(matches!(
        validate_persistence(Frac::new(0, 1)),
        Err(ValidationError::InvalidPersistence { .. })
    ));
    assert!(matches!(
        validate_persistence(Frac::new(1, 1)),
        Err(ValidationError::InvalidPersistence { .. })
    ));
    assert!(matches!(
        validate_persistence(Frac::new(-1, 1)),
        Err(ValidationError::InvalidPersistence { .. })
    ));
}

#[test]
fn test_validate_beta() {
    assert!(validate_beta(Frac::new(1, 1)).is_ok());
    assert!(validate_beta(Frac::new(2, 1)).is_ok());
    assert!(validate_beta(Frac::new(5, 10)).is_ok());

    assert!(matches!(
        validate_beta(Frac::new(0, 1)),
        Err(ValidationError::InvalidBeta { .. })
    ));
    assert!(matches!(
        validate_beta(Frac::new(-1, 1)),
        Err(ValidationError::InvalidBeta { .. })
    ));
}

#[test]
fn test_dataset_type_detection() {
    let t = DatasetType::detect(&ids(&["msmarco", "runs.txt"]));
    assert_eq!(t, DatasetType::MsMarco);
    assert_eq!(t.name(), "MS MARCO");

    let t2 = DatasetType::detect(&ids(&["runs.txt", "qrels.txt"]));
    assert_eq!(t2, DatasetType::Trec);
    assert_eq!(t2.name(), "TREC");

    let t3 = detect_dataset_type(&ids(&["mteb"]));
    assert_eq!(t3, DatasetType::Mteb);
    let t4 = detect_dataset_type(&ids(&["hotpotqa"]));
    assert_eq!(t4, DatasetType::HotpotQA);
}

#[test]
fn test_qrels_loaders_delegate() {
    let text = "1 0 doc1 2\n";
    let a = load_msmarco_qrels(text).unwrap();
    let b = load_beir_qrels(text).unwrap();
    let c = load_qrels(text).unwrap();
    assert_eq!(a, c);
    assert_eq!(b, c);
}

#[test]
fn test_load_qrels_from_dir_listing() {
    let files = vec![
        ("runs.txt".to_string(), "1 Q0 doc1 1 0.9 r\n".to_string()),
        ("qrels.txt".to_string(), "1 0 doc1 2\n".to_string()),
    ];
    let qrels = load_trec_qrels_from_dir(&files).unwrap();
    assert_eq!(qrels.len(), 1);
    assert_eq!(qrels[0].relevance, 2);

    let none = vec![("runs.txt".to_string(), String::new())];
    let e = load_trec_qrels_from_dir(&none).unwrap_err();
    assert_eq!(e.kind, TrecErrorKind::NoQrelsFile);
}

#[test]
fn test_get_dataset_stats_counts() {
    let runs = load_trec_runs(
        "1 Q0 doc1 1 0.9 a\n1 Q0 doc2 2 0.8 a\n2 Q0 doc1 1 0.7 b\n",
    )
    .unwrap();
    let qrels = load_qrels("1 0 doc1 2\n1 0 doc2 0\n2 0 doc1 1\n").unwrap();
    let stats = get_dataset_stats(&runs, &qrels);
    assert_eq!(stats.total_runs, 3);
    assert_eq!(stats.unique_queries, 2);
    assert_eq!(stats.unique_documents, 2);
    assert_eq!(stats.unique_run_tags, 2);
    assert_eq!(stats.total_qrels, 3);
    assert_eq!(stats.queries_with_qrels, 2);
    assert_eq!(stats.relevant_documents, 2);
}
