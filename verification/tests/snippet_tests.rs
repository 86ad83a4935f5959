use rust_note_search::cli::join_query;
use rust_note_search::ranker::{RankerKind, TfIdfRanker};
use rust_note_search::snippet::{display_terms, make_snippet, try_make_snippet};

#[test]
fn highlights_english_keyword() {
    let snippet = make_snippet(
        "Rust ownership means each value has one owner.",
        "ownership",
        &["ownership".to_string()],
        80,
    );
    assert!(snippet.contains("**ownership**"));
}

#[test]
fn snippet_marks_every_occurrence_ignoring_case() {
    let snippet = make_snippet("Owner, OWNER and owner.", "owner", &["owner".to_string()], 80);
    assert_eq!(snippet, "**Owner**, **OWNER** and **owner**.");
}

#[test]
fn long_content_is_cut_around_the_first_hit() {
    let content = format!("{}needle{}", "a ".repeat(50), " b".repeat(50));
    let snippet = make_snippet(&content, "needle", &["needle".to_string()], 30);
    let expected = format!("...{}**needle**{}...", "a ".repeat(5), " b".repeat(7));
    assert_eq!(snippet, expected);
}

#[test]
fn display_terms_prefer_whole_cjk_runs_and_longer_terms() {
    let terms = display_terms("所有权 Rust", &["所有".to_string(), "rust".to_string()]);
    assert_eq!(terms, vec!["rust", "所有权"]);
    let fallback = display_terms("zzz", &["b".to_string(), "aa".to_string(), "a".to_string()]);
    assert_eq!(fallback, vec!["aa", "a", "b"]);
}

#[test]
fn snippet_is_undefined_where_lowercase_shifts_bytes() {
    // U+1E9E lowercases to a shorter character, so the offset found in the
    // lowercase text falls inside it in the text itself.
    assert_eq!(
        try_make_snippet("\u{1E9E}ab", "ab", &["ab".to_string()], 80),
        None
    );
    assert_eq!(
        try_make_snippet("xab", "ab", &["ab".to_string()], 80),
        Some("x**ab**".to_string())
    );
}

#[test]
fn join_query_restores_spaces() {
    let parts = vec!["rust".to_string(), "AND".to_string(), "-db".to_string()];
    assert_eq!(join_query(&parts), "rust AND -db");
    assert_eq!(join_query(&[]), "");
}

#[test]
fn ranker_labels() {
    assert_eq!(RankerKind::Tfidf.label(), "tfidf");
    assert_eq!(RankerKind::Bm25.label(), "bm25");
    assert_eq!(TfIdfRanker.name(), "tfidf");
}
