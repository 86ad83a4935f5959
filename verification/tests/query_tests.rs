use rust_note_search::error::AppError;
use rust_note_search::query::{parse_query, QueryMode};
use rust_note_search::search::normalized_query_terms;
use rust_note_search::tokenizer::SimpleTokenizer;

#[test]
fn parses_default_or_terms() {
    let query = parse_query("rust ownership", &SimpleTokenizer).expect("parse");

    assert_eq!(query.mode, QueryMode::Any);
    assert_eq!(query.positive_terms, vec!["ownership", "rust"]);
    assert!(query.excluded_terms.is_empty());
}

#[test]
fn parses_and_mode() {
    let query = parse_query("rust AND ownership", &SimpleTokenizer).expect("parse");

    assert_eq!(query.mode, QueryMode::All);
    assert_eq!(query.positive_terms, vec!["ownership", "rust"]);
}

#[test]
fn parses_or_mode() {
    let query = parse_query("ownership OR borrowing", &SimpleTokenizer).expect("parse");

    assert_eq!(query.mode, QueryMode::Any);
    assert_eq!(query.positive_terms, vec!["borrowing", "ownership"]);
}

#[test]
fn parses_excluded_terms() {
    let query = parse_query("rust ownership -database", &SimpleTokenizer).expect("parse");

    assert_eq!(query.positive_terms, vec!["ownership", "rust"]);
    assert_eq!(query.excluded_terms, vec!["database"]);
}

#[test]
fn empty_positive_terms_are_rejected() {
    assert!(parse_query("-database", &SimpleTokenizer).is_err());
}

#[test]
fn blank_query_is_empty_query_error() {
    let error = parse_query("   ", &SimpleTokenizer).expect_err("blank query");
    assert!(matches!(error, AppError::EmptyQuery));
}

#[test]
fn and_with_or_falls_back_to_or_mode() {
    let query = parse_query("rust and ownership Or x", &SimpleTokenizer).expect("parse");
    assert_eq!(query.mode, QueryMode::Any);
    assert_eq!(query.positive_terms, vec!["ownership", "rust", "x"]);
    assert_eq!(query.original, "rust and ownership Or x");
}

#[test]
fn repeated_terms_are_kept_once_and_sorted() {
    let query = parse_query("b a B\ta -c -C", &SimpleTokenizer).expect("parse");
    assert_eq!(query.positive_terms, vec!["a", "b"]);
    assert_eq!(query.excluded_terms, vec!["c"]);
    assert!(!query.requires_all_terms());
}

#[test]
fn mode_labels() {
    assert_eq!(QueryMode::Any.label(), "OR");
    assert_eq!(QueryMode::All.label(), "AND");
}

#[test]
fn normalized_terms_are_positive_terms() {
    let terms = normalized_query_terms("Rust 所有权 -db", &SimpleTokenizer).expect("terms");
    assert_eq!(terms, vec!["rust", "所有", "有权"]);
    assert!(normalized_query_terms("AND OR", &SimpleTokenizer).is_err());
}
