use rust_note_search::tokenizer::{SimpleTokenizer, Tokenizer};

#[test]
fn tokenizes_english_and_lowercase() {
    let tokenizer = SimpleTokenizer;
    assert_eq!(
        tokenizer.tokenize("Rust Ownership!"),
        vec!["rust", "ownership"]
    );
}

#[test]
fn tokenizes_multiple_english_words() {
    let tokenizer = SimpleTokenizer;
    assert_eq!(
        tokenizer.tokenize("borrowed values"),
        vec!["borrowed", "values"]
    );
}

#[test]
fn tokenizes_chinese_ownership_bigram() {
    let tokenizer = SimpleTokenizer;
    assert_eq!(tokenizer.tokenize("所有权"), vec!["所有", "有权"]);
}

#[test]
fn tokenizes_chinese_dynamic_programming_bigram() {
    let tokenizer = SimpleTokenizer;
    assert_eq!(tokenizer.tokenize("动态规划"), vec!["动态", "态规", "规划"]);
}

#[test]
fn empty_input_returns_no_tokens() {
    let tokenizer = SimpleTokenizer;
    assert!(tokenizer.tokenize("   ").is_empty());
}

#[test]
fn tokenizes_english_words() {
    let tokenizer = SimpleTokenizer;
    assert_eq!(
        tokenizer.tokenize("Rust Ownership!"),
        vec!["rust", "ownership"]
    );
}

#[test]
fn tokenizes_chinese_bigram() {
    let tokenizer = SimpleTokenizer;
    assert_eq!(tokenizer.tokenize("所有权"), vec!["所有", "有权"]);
}

#[test]
fn tokenizer_splits_mixed_scripts_and_digits() {
    let tokenizer = SimpleTokenizer;
    assert_eq!(
        tokenizer.tokenize("Rust2024所有权,OK 中"),
        vec!["rust2024", "所有", "有权", "ok", "中"]
    );
}

#[test]
fn tokenizer_keeps_non_ascii_letters_out() {
    let tokenizer = SimpleTokenizer;
    assert_eq!(tokenizer.tokenize("café-Über"), vec!["caf", "ber"]);
}

#[test]
fn separator_splits_tokens() {
    let tokenizer = SimpleTokenizer;
    for (a, b) in [("Rust own", "所有权"), ("中文", "文本"), ("abc", "DEF1")] {
        for sep in [" ", "!", "-", "é"] {
            let joined = format!("{a}{sep}{b}");
            let mut expected = tokenizer.tokenize(a);
            expected.extend(tokenizer.tokenize(b));
            assert_eq!(tokenizer.tokenize(&joined), expected);
        }
    }
}

#[test]
fn ascii_case_does_not_change_tokens() {
    let tokenizer = SimpleTokenizer;
    for text in ["Rust Ownership", "所有权 Borrow", "HTTP2 server", ""] {
        assert_eq!(
            tokenizer.tokenize(&text.to_ascii_uppercase()),
            tokenizer.tokenize(text)
        );
    }
}
