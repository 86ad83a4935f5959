use rust_note_search::history::{filter_history, history_file_path, HistoryEntry, HistoryFilter};

fn sample_entries() -> Vec<HistoryEntry> {
    vec![
        HistoryEntry::new(
            "data structure".to_string(),
            "tfidf".to_string(),
            "none".to_string(),
            10,
            3,
            120,
        ),
        HistoryEntry::new(
            "rust ownership".to_string(),
            "bm25".to_string(),
            "rust".to_string(),
            10,
            2,
            90,
        ),
        HistoryEntry::new(
            "database data".to_string(),
            "bm25".to_string(),
            "database".to_string(),
            5,
            1,
            80,
        ),
    ]
}

#[test]
fn filters_history_by_query_keyword() {
    let entries = sample_entries();
    let filter = HistoryFilter::new(Some("Data".to_string()), None);

    let filtered = filter_history(&entries, &filter);

    assert_eq!(filtered.len(), 2);
    assert!(filtered.iter().all(|entry| entry.query.contains("data")));
}

#[test]
fn filters_history_by_ranker() {
    let entries = sample_entries();
    let filter = HistoryFilter::new(None, Some("bm25".to_string()));

    let filtered = filter_history(&entries, &filter);

    assert_eq!(filtered.len(), 2);
    assert!(filtered.iter().all(|entry| entry.ranker == "bm25"));
}

#[test]
fn combines_query_and_ranker_filters() {
    let entries = sample_entries();
    let filter = HistoryFilter::new(Some("data".to_string()), Some("tfidf".to_string()));

    let filtered = filter_history(&entries, &filter);

    assert_eq!(filtered.len(), 1);
    assert_eq!(filtered[0].query, "data structure");
    assert_eq!(filtered[0].ranker, "tfidf");
}

#[test]
fn empty_history_filter_is_inactive() {
    let filter = HistoryFilter::new(Some("   ".to_string()), None);

    assert!(!filter.is_active());
}

#[test]
fn inactive_filter_keeps_every_entry() {
    let entries = sample_entries();
    let filtered = filter_history(&entries, &HistoryFilter::new(None, None));
    assert_eq!(filtered.len(), 3);
    assert!(HistoryFilter::new(None, Some(" BM25 ".to_string())).is_active());
}

#[test]
fn ranker_filter_ignores_case_and_lowercases_unicode_keyword() {
    let entries = vec![HistoryEntry::new(
        "ÜBER Rust".to_string(),
        "BM25".to_string(),
        "none".to_string(),
        1,
        1,
        1,
    )];
    let filter = HistoryFilter::new(Some("über".to_string()), Some("bm25".to_string()));
    assert_eq!(filter_history(&entries, &filter).len(), 1);
    let filter = HistoryFilter::new(Some("ÜBER".to_string()), None);
    assert_eq!(filter_history(&entries, &filter).len(), 1);
}

#[test]
fn history_entry_keeps_its_fields() {
    let entry = HistoryEntry::new("q".to_string(), "tfidf".to_string(), "f".to_string(), 7, 2, 99);
    assert_eq!(entry.query, "q");
    assert_eq!(entry.top, 7);
    assert_eq!(entry.result_count, 2);
    assert_eq!(entry.elapsed_micros, 99);
}

#[test]
fn history_file_lives_in_rns_directory() {
    let path = history_file_path("/tmp/kb");
    assert_eq!(path, "/tmp/kb/.rns/history.json");
}
