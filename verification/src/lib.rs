//! Search over a local knowledge base of Markdown and text notes: scanning
//! notes, building an inverted index, parsing queries, selecting and
//! explaining matching documents, snippets and search history.
pub mod agreement;
pub mod cli;
pub mod direct_search;
pub mod document;
pub mod error;
pub mod filter;
pub mod history;
pub mod index;
pub mod markdown;
pub mod query;
pub mod ranker;
pub mod search;
pub mod snippet;
pub mod storage;
pub mod text;
pub mod tokenizer;
