use rust_note_search::document::Document;
use rust_note_search::index::build_index;
use rust_note_search::storage::index_file_path;
use rust_note_search::tokenizer::{SimpleTokenizer, Tokenizer};

fn document(id: usize, path: &str, title: &str, content: &str) -> Document {
    let tokenizer = SimpleTokenizer;
    Document {
        id,
        path: path.to_string(),
        title: title.to_string(),
        content: content.to_string(),
        token_count: tokenizer.tokenize(content).len(),
    }
}

#[test]
fn builds_document_statistics() {
    let tokenizer = SimpleTokenizer;
    let docs = vec![
        document(0, "a.md", "A", "rust ownership"),
        document(1, "b.md", "B", "rust borrowing"),
    ];
    let index = build_index(docs, &tokenizer);

    assert_eq!(index.total_docs, 2);
    assert_eq!(index.total_tokens, 4);
}

#[test]
fn records_which_documents_contain_terms() {
    let tokenizer = SimpleTokenizer;
    let docs = vec![
        document(0, "a.md", "A", "rust ownership"),
        document(1, "b.md", "B", "rust borrowing"),
    ];
    let index = build_index(docs, &tokenizer);

    let postings = index.postings("rust").expect("rust is indexed");
    assert_eq!(postings.len(), 2);
}

#[test]
fn records_term_frequency() {
    let tokenizer = SimpleTokenizer;
    let docs = vec![document(0, "a.md", "A", "rust rust ownership")];
    let index = build_index(docs, &tokenizer);

    assert_eq!(index.postings("rust").expect("rust")[0].term_freq, 2);
}

#[test]
fn records_term_frequency_and_positions() {
    let tokenizer = SimpleTokenizer;
    let document = Document {
        id: 0,
        path: "rust/ownership.md".to_string(),
        title: "Rust Ownership".to_string(),
        content: "ownership and ownership".to_string(),
        token_count: tokenizer.tokenize("ownership and ownership").len(),
    };

    let index = build_index(vec![document], &tokenizer);
    let posting = &index.postings("ownership").expect("ownership")[0];

    assert_eq!(posting.term_freq, 2);
    assert_eq!(posting.positions, vec![0, 2]);
}

#[test]
fn index_terms_are_sorted_and_postings_ordered_by_document() {
    let tokenizer = SimpleTokenizer;
    let docs = vec![
        document(5, "e.md", "E", "zeta alpha"),
        document(2, "b.md", "B", "alpha beta alpha"),
        document(9, "z.md", "Z", "所有权"),
    ];
    let index = build_index(docs, &tokenizer);
    let terms: Vec<&str> = index.inverted_index.iter().map(|e| e.term.as_str()).collect();
    assert_eq!(terms, vec!["alpha", "beta", "zeta", "所有", "有权"]);
    let alpha = index.postings("alpha").expect("alpha");
    assert_eq!(alpha.len(), 2);
    assert_eq!(alpha[0].doc_id, 2);
    assert_eq!(alpha[0].positions, vec![0, 2]);
    assert_eq!(alpha[1].doc_id, 5);
    assert_eq!(alpha[1].positions, vec![1]);
    assert_eq!(index.term_count(), 5);
    assert!(index.contains_term("beta"));
    assert!(!index.contains_term("gamma"));
    assert!(index.postings("gamma").is_none());
    assert_eq!(index.document_by_id(9).expect("doc 9").path, "z.md");
    assert!(index.document_by_id(3).is_none());
}

#[test]
fn documents_sharing_an_id_share_a_posting() {
    let tokenizer = SimpleTokenizer;
    let docs = vec![
        document(1, "a.md", "A", "x y x"),
        document(1, "b.md", "B", "x"),
    ];
    let index = build_index(docs, &tokenizer);
    let x = index.postings("x").expect("x");
    assert_eq!(x.len(), 1);
    assert_eq!(x[0].positions, vec![0, 2, 0]);
    assert_eq!(x[0].term_freq, 3);
    assert_eq!(index.total_tokens, 4);
}

#[test]
fn index_file_lives_in_rns_directory() {
    assert_eq!(index_file_path("kb"), "kb/.rns/index.json");
}
