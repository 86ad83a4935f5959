use rust_note_search::document::{
    extract_title, is_supported_file, make_document, relative_path, should_keep_entry,
    sort_by_relative_path,
};
use rust_note_search::markdown::{clean_document_content, clean_markdown};
use rust_note_search::tokenizer::SimpleTokenizer;

#[test]
fn extracts_first_markdown_heading() {
    let title = extract_title("note.md", "text\n# Real Title\nbody");
    assert_eq!(title, "Real Title");
}

#[test]
fn falls_back_to_file_name() {
    let title = extract_title("plain.txt", "hello");
    assert_eq!(title, "plain");
}

#[test]
fn markdown_without_heading_uses_file_stem() {
    assert_eq!(extract_title("dir/Notes.MD", "## Sub\n#NoSpace\n#   \n"), "Notes");
    assert_eq!(extract_title("dir/x.md", "  #  Indented  \n"), "Indented");
    assert_eq!(extract_title("", "# T"), "Untitled");
}

#[test]
fn supported_files_are_markdown_and_text() {
    assert!(is_supported_file("a/b/note.md"));
    assert!(is_supported_file("NOTE.TXT"));
    assert!(!is_supported_file("image.png"));
    assert!(!is_supported_file("README"));
    assert!(!is_supported_file(".md"));
}

#[test]
fn ignored_directories_are_skipped() {
    assert!(!should_keep_entry(true, Some(".git")));
    assert!(!should_keep_entry(true, Some("target")));
    assert!(!should_keep_entry(true, Some(".rns")));
    assert!(!should_keep_entry(true, Some("node_modules")));
    assert!(should_keep_entry(true, Some("notes")));
    assert!(should_keep_entry(false, Some("target")));
    assert!(should_keep_entry(true, None));
}

#[test]
fn relative_paths_use_forward_slashes() {
    assert_eq!(relative_path("/kb", "/kb/rust/a.md"), "rust/a.md");
    assert_eq!(relative_path("/kb", "/other/a.md"), "/other/a.md");
    assert_eq!(relative_path("/kb", "/kb/dir\\name.md"), "dir/name.md");
}

#[test]
fn files_are_ordered_by_relative_path() {
    let files = vec![
        "/kb/b.md".to_string(),
        "/kb/a/z.md".to_string(),
        "/kb/a.md".to_string(),
    ];
    let sorted = sort_by_relative_path("/kb", files);
    assert_eq!(sorted, vec!["/kb/a.md", "/kb/a/z.md", "/kb/b.md"]);
}

#[test]
fn files_with_equal_relative_paths_keep_their_order() {
    let files = vec![
        "/kb/c.md".to_string(),
        "/kb/a\\b.md".to_string(),
        "/kb/a/b.md".to_string(),
    ];
    let sorted = sort_by_relative_path("/kb", files);
    assert_eq!(sorted, vec!["/kb/a\\b.md", "/kb/a/b.md", "/kb/c.md"]);
    let files = vec!["/kb/a/b.md".to_string(), "/kb/a\\b.md".to_string()];
    let sorted = sort_by_relative_path("/kb", files);
    assert_eq!(sorted, vec!["/kb/a/b.md", "/kb/a\\b.md"]);
}

#[test]
fn documents_are_made_from_files() {
    let doc = make_document(
        3,
        "/kb",
        "/kb/rust/own.md",
        "# Ownership\n- Rust **owns** [values](http://x)\n",
        &SimpleTokenizer,
    );
    assert_eq!(doc.id, 3);
    assert_eq!(doc.path, "rust/own.md");
    assert_eq!(doc.title, "Ownership");
    assert_eq!(doc.content, "Ownership\nRust owns values\n");
    assert_eq!(doc.token_count, 4);
}

#[test]
fn removes_heading_markers_and_inline_symbols() {
    let cleaned = clean_markdown("# **Rust Ownership**");
    assert_eq!(cleaned.trim(), "Rust Ownership");
}

#[test]
fn keeps_link_text_and_removes_url() {
    let cleaned = clean_markdown("Read [ownership](https://example.com) docs.");
    assert_eq!(cleaned.trim(), "Read ownership docs.");
}

#[test]
fn removes_code_fence_markers_but_keeps_code_text() {
    let cleaned = clean_markdown("```rust\nlet owner = value;\n```");
    assert_eq!(cleaned.trim(), "let owner = value;");
}

#[test]
fn markdown_cleaning_keeps_fenced_lines_verbatim() {
    let cleaned = clean_markdown("  ~~~\n  - item_x  \n~~~\n> quote\n####### seven\n* star\r\n![img](a.png) [bad](x\n");
    assert_eq!(
        cleaned,
        "  - itemx\nquote\n####### seven\nstar\nimg [bad](x\n"
    );
}

#[test]
fn text_files_are_not_cleaned() {
    assert_eq!(clean_document_content("a.txt", "# **x**"), "# **x**");
    assert_eq!(clean_document_content("a.Md", "# **x**"), "x\n");
}
