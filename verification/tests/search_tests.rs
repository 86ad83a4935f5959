use rust_note_search::direct_search::direct_candidates;
use rust_note_search::document::Document;
use rust_note_search::filter::PathFilter;
use rust_note_search::index::build_index;
use rust_note_search::query::parse_query;
use rust_note_search::search::{
    collect_candidates, document_has_excluded_terms, has_all_required_terms, title_matches,
};
use rust_note_search::tokenizer::{SimpleTokenizer, Tokenizer};

fn document(id: usize, path: &str, title: &str, content: &str) -> Document {
    let tokenizer = SimpleTokenizer;
    Document {
        id,
        path: path.to_string(),
        title: title.to_string(),
        content: content.to_string(),
        token_count: tokenizer.tokenize(content).len(),
    }
}

fn paths(index_docs: Vec<Document>, query: &str, filter: PathFilter) -> Vec<String> {
    let tokenizer = SimpleTokenizer;
    let index = build_index(index_docs, &tokenizer);
    let parsed = parse_query(query, &tokenizer).expect("parse");
    collect_candidates(&index, &parsed, &tokenizer, &filter)
        .into_iter()
        .map(|c| c.path)
        .collect()
}

#[test]
fn candidates_of_single_keyword() {
    let found = paths(
        vec![
            document(0, "ownership.md", "Ownership", "ownership borrowing"),
            document(1, "graph.md", "Graph", "graph search"),
        ],
        "ownership",
        PathFilter::default(),
    );
    assert_eq!(found, vec!["ownership.md"]);
}

#[test]
fn candidates_of_missing_keyword_are_empty() {
    let found = paths(vec![document(0, "rust.md", "Rust", "rust")], "database", PathFilter::default());
    assert!(found.is_empty());
}

#[test]
fn candidates_of_and_query_hold_all_terms() {
    let found = paths(
        vec![
            document(0, "a.md", "Rust", "rust rust"),
            document(1, "b.md", "Ownership", "rust ownership"),
        ],
        "rust AND ownership",
        PathFilter::default(),
    );
    assert_eq!(found, vec!["b.md"]);
}

#[test]
fn candidates_exclude_documents_with_excluded_terms() {
    let found = paths(
        vec![
            document(0, "rust.md", "Rust", "rust ownership"),
            document(1, "database.md", "Database", "rust ownership database"),
        ],
        "rust ownership -database",
        PathFilter::default(),
    );
    assert_eq!(found, vec!["rust.md"]);
}

#[test]
fn candidates_respect_path_filter() {
    let found = paths(
        vec![
            document(0, "rust/ownership.md", "Ownership", "ownership"),
            document(1, "database/transaction.txt", "Transaction", "ownership"),
        ],
        "ownership",
        PathFilter::new(Some("rust".to_string())),
    );
    assert_eq!(found, vec!["rust/ownership.md"]);
}

#[test]
fn candidate_records_term_statistics() {
    let tokenizer = SimpleTokenizer;
    let index = build_index(
        vec![
            document(0, "a.md", "Rust", "rust rust"),
            document(1, "b.md", "Ownership Notes", "rust ownership ownership"),
        ],
        &tokenizer,
    );
    let parsed = parse_query("rust ownership", &tokenizer).expect("parse");
    let found = collect_candidates(&index, &parsed, &tokenizer, &PathFilter::default());
    assert_eq!(found.len(), 2);
    let b = &found[1];
    assert_eq!(b.doc_id, 1);
    assert_eq!(b.matched_terms, vec!["ownership", "rust"]);
    assert_eq!(b.title_matches, vec!["ownership"]);
    assert_eq!(b.contributions.len(), 2);
    assert_eq!(b.contributions[0].term, "ownership");
    assert_eq!(b.contributions[0].term_freq, 2);
    assert_eq!(b.contributions[0].document_frequency, 1);
    assert_eq!(b.contributions[0].document_length, 3);
    assert_eq!(b.contributions[1].term, "rust");
    assert_eq!(b.contributions[1].document_frequency, 2);
    assert_eq!(b.explained, vec![0, 1]);
    assert_eq!(found[0].matched_terms, vec!["rust"]);
    assert!(found[0].title_matches.iter().any(|t| t == "rust"));
}

#[test]
fn direct_scan_selects_like_the_index() {
    let tokenizer = SimpleTokenizer;
    let docs = vec![
        document(0, "rust.md", "Rust", "rust ownership rust"),
        document(1, "database.md", "Database", "rust ownership database"),
        document(2, "graph.md", "Graph", "graph"),
    ];
    let parsed = parse_query("rust ownership -database", &tokenizer).expect("parse");
    let direct = direct_candidates(&docs, &parsed, &tokenizer, &PathFilter::default());
    assert_eq!(direct.len(), 1);
    assert_eq!(direct[0].path, "rust.md");
    assert_eq!(direct[0].hit_count, 3);
    assert_eq!(direct[0].matched_terms, vec!["ownership", "rust"]);
    assert_eq!(direct[0].title_matches, vec!["rust"]);
    let all = parse_query("rust AND graph", &tokenizer).expect("parse");
    assert!(direct_candidates(&docs, &all, &tokenizer, &PathFilter::default()).is_empty());
}

#[test]
fn excluded_terms_and_required_terms_helpers() {
    let tokenizer = SimpleTokenizer;
    let index = build_index(
        vec![
            document(0, "a.md", "A", "rust"),
            document(1, "b.md", "B", "rust database"),
        ],
        &tokenizer,
    );
    let excluded = vec!["database".to_string()];
    assert!(document_has_excluded_terms(&index, 1, &excluded));
    assert!(!document_has_excluded_terms(&index, 0, &excluded));
    let matched = vec!["a".to_string(), "b".to_string()];
    assert!(has_all_required_terms(&matched, &["b".to_string()]));
    assert!(!has_all_required_terms(&matched, &["c".to_string()]));
    assert_eq!(
        title_matches("Rust Ownership", &["ownership".to_string(), "x".to_string()], &tokenizer),
        vec!["ownership"]
    );
}

#[test]
fn index_and_direct_scan_return_the_same_candidates() {
    let tokenizer = SimpleTokenizer;
    let docs = vec![
        document(0, "rust/own.md", "Rust Ownership", "rust ownership rust borrow"),
        document(1, "db/tx.md", "Transactions", "rust database ownership"),
        document(2, "rust/graph.md", "Graph", "graph search rust"),
        document(3, "notes/mix.txt", "所有权", "所有权 rust"),
    ];
    let index = build_index(docs.clone(), &tokenizer);
    let queries = [
        "rust",
        "rust ownership",
        "rust AND ownership",
        "rust -database",
        "ownership OR graph",
        "所有权",
        "missing",
    ];
    let filters = [PathFilter::default(), PathFilter::new(Some("rust".to_string()))];
    for query in queries {
        let parsed = parse_query(query, &tokenizer).expect("parse");
        for filter in &filters {
            let indexed = collect_candidates(&index, &parsed, &tokenizer, filter);
            let direct = direct_candidates(&docs, &parsed, &tokenizer, filter);
            assert_eq!(indexed.len(), direct.len(), "query {query}");
            for (a, b) in indexed.iter().zip(direct.iter()) {
                assert_eq!(a.doc_id, b.doc_id);
                assert_eq!(a.path, b.path);
                assert_eq!(a.matched_terms, b.matched_terms);
                assert_eq!(a.title_matches, b.title_matches);
            }
        }
    }
}

#[test]
fn index_and_direct_scan_agree_for_unordered_ids() {
    let tokenizer = SimpleTokenizer;
    let docs = vec![
        document(7, "b.md", "B", "rust ownership"),
        document(2, "a.md", "Rust", "rust"),
        document(9, "c.md", "C", "graph"),
        document(4, "d.md", "D", "ownership rust rust"),
    ];
    let index = build_index(docs.clone(), &tokenizer);
    for query in ["rust", "rust AND ownership", "ownership -graph", "graph OR rust"] {
        let parsed = parse_query(query, &tokenizer).expect("parse");
        let filter = PathFilter::default();
        let mut indexed: Vec<(usize, String, Vec<String>, Vec<String>)> =
            collect_candidates(&index, &parsed, &tokenizer, &filter)
                .into_iter()
                .map(|c| (c.doc_id, c.path, c.matched_terms, c.title_matches))
                .collect();
        let mut direct: Vec<(usize, String, Vec<String>, Vec<String>)> =
            direct_candidates(&docs, &parsed, &tokenizer, &filter)
                .into_iter()
                .map(|c| (c.doc_id, c.path, c.matched_terms, c.title_matches))
                .collect();
        indexed.sort();
        direct.sort();
        assert_eq!(indexed, direct, "query {query}");
    }
}
