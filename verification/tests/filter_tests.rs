use rust_note_search::filter::PathFilter;

#[test]
fn empty_filter_matches_everything() {
    assert!(PathFilter::new(None).matches("rust/ownership.md"));
}

#[test]
fn segment_filter_matches_directory() {
    let filter = PathFilter::new(Some("rust".to_string()));
    assert!(filter.matches("rust/ownership.md"));
    assert!(!filter.matches("algorithm/graph.md"));
}

#[test]
fn path_filter_matches_prefix() {
    let filter = PathFilter::new(Some("algorithm".to_string()));
    assert!(filter.matches("algorithm/dynamic_programming.md"));
}

#[test]
fn filter_with_slash_matches_path_prefix_only() {
    let filter = PathFilter::new(Some(" \\Notes\\Rust/ ".to_string()));
    assert_eq!(filter.label(), "notes/rust");
    assert!(filter.matches("notes/rust/a.md"));
    assert!(filter.matches("NOTES\\RUST"));
    assert!(!filter.matches("notes/rusty/a.md"));
    assert!(!filter.matches("x/notes/rust/a.md"));
}

#[test]
fn blank_filter_is_no_filter() {
    let filter = PathFilter::new(Some(" // ".to_string()));
    assert_eq!(filter.label(), "none");
    assert!(filter.matches("anything.txt"));
    assert_eq!(PathFilter::default().label(), "none");
}

#[test]
fn word_filter_matches_inside_file_names() {
    let filter = PathFilter::new(Some("Graph".to_string()));
    assert!(filter.matches("algorithm/graph_search.md"));
    assert!(!filter.matches("algorithm/tree.md"));
}
