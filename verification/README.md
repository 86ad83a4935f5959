# rust_note_search

A local search tool for a knowledge base of Markdown and plain-text notes:
it scans a directory, builds an inverted index, parses queries (`AND`, `OR`,
`-excluded`), selects and explains matching documents, makes highlighted
snippets and keeps a search history.

## Layout

- `src/` is the verified library (Verus). Every function there carries a
  contract over mathematical models (`Seq`, `Set`, `Multiset`, views):
  - `text`, `tokenizer`: character-level helpers and the tokenizer (ASCII
    words lowercased, CJK runs as bigrams);
  - `markdown`, `document`: cleaning note contents, titles, relative paths,
    the stable ordering of scanned files;
  - `index`: building the inverted index, with the statement that it holds
    exactly the term positions of every document;
  - `query`: query parsing;
  - `search`, `direct_search`: which documents a query selects, through the
    index or by scanning, with the statistics a ranker needs;
  - `agreement`: proofs that the index agrees with its documents and that
    both ways of searching select the same documents with the same matches;
  - `filter`, `history`, `snippet`, `storage`, `cli`, `ranker`.
- `app/` is the command-line program around the library: argument parsing,
  file and directory access, JSON storage, the floating-point rankers
  (TF-IDF, BM25), result ordering and printing.
- `tests/` exercises the library on concrete values.
