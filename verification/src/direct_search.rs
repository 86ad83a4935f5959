//! Searching by scanning every document, without an index: which documents
//! a query selects and how many query terms each holds.
use crate::document::Document;
use crate::filter::{filter_matches, PathFilter};
use crate::query::{ParsedQuery, QueryMode};
use crate::search::{contains_string, has_all_required_terms, title_matches};
use crate::text::{insert_sorted, sorted_strict, views};
use crate::tokenizer::Tokenizer;
use vstd::prelude::*;

verus! {

/// A document that the direct scan selects, before scoring.
#[derive(Debug, Clone)]
pub struct DirectCandidate {
    pub doc_id: usize,
    pub path: String,
    pub title: String,
    /// Number of tokens of the document that are positive query terms.
    pub hit_count: usize,
    /// The positive terms found in the document, sorted and without repeats.
    pub matched_terms: Vec<String>,
    /// The matched terms that also occur in the title, in the same order.
    pub title_matches: Vec<String>,
}

/// The tokens of `doc` that are positive terms of `q`.
pub open spec fn hits<T: Tokenizer>(tok: &T, q: ParsedQuery, doc: Document) -> Seq<Seq<char>> {
    tok.spec_tokenize(doc.content@).filter(|t: Seq<char>| views(q.positive_terms@).contains(t))
}

/// Some token of `doc` is an excluded term of `q`.
pub open spec fn has_excluded<T: Tokenizer>(tok: &T, q: ParsedQuery, doc: Document) -> bool {
    exists|j: int|
        0 <= j < tok.spec_tokenize(doc.content@).len() && views(q.excluded_terms@).contains(
            #[trigger] tok.spec_tokenize(doc.content@)[j],
        )
}

/// The direct scan selects `doc`: its path passes the filter, it holds no
/// excluded term, it holds some positive term, and in `AND` mode it holds
/// every positive term.
pub open spec fn direct_selected<T: Tokenizer>(
    tok: &T,
    q: ParsedQuery,
    fp: Option<Seq<char>>,
    doc: Document,
) -> bool {
    &&& filter_matches(fp, doc.path@)
    &&& !has_excluded(tok, q, doc)
    &&& hits(tok, q, doc).len() > 0
    &&& q.mode == QueryMode::All ==> forall|i: int|
        0 <= i < q.positive_terms@.len() ==> tok.spec_tokenize(doc.content@).contains(
            #[trigger] q.positive_terms@[i]@,
        )
}

/// What the candidate of `doc` holds.
pub open spec fn direct_candidate_spec<T: Tokenizer>(
    tok: &T,
    q: ParsedQuery,
    doc: Document,
    c: DirectCandidate,
) -> bool {
    &&& c.doc_id == doc.id
    &&& c.path@ == doc.path@
    &&& c.title@ == doc.title@
    &&& c.hit_count == hits(tok, q, doc).len()
    &&& sorted_strict(views(c.matched_terms@))
    &&& views(c.matched_terms@).to_set() == hits(tok, q, doc).to_set()
    &&& views(c.title_matches@) == views(c.matched_terms@).filter(
        |t: Seq<char>| tok.spec_tokenize(doc.title@).contains(t),
    )
}

/// The scan of one document: its candidate when the query selects it.
pub fn scan_document<T: Tokenizer>(
    document: &Document,
    q: &ParsedQuery,
    tokenizer: &T,
    filter: &PathFilter,
) -> (r: Option<DirectCandidate>)
    ensures
        r is Some <==> direct_selected(tokenizer, *q, filter.pattern_of(), *document),
        r matches Some(c) ==> direct_candidate_spec(tokenizer, *q, *document, c),
{
    if !filter.matches(document.path.as_str()) {
        return None;
    }
    let tokens = tokenizer.tokenize(document.content.as_str());
    let ghost toks = views(tokens@);
    let ghost pos = views(q.positive_terms@);
    let ghost pred = |t: Seq<char>| pos.contains(t);
    let mut has_excluded_term = false;
    let mut hit_count: usize = 0;
    let mut matched: Vec<String> = Vec::new();
    let mut j: usize = 0;
    proof {
        reveal(Seq::filter);
        assert(toks.take(0).filter(pred) =~= seq![]);
        assert(views(matched@).to_set() =~= Set::empty());
    }
    while j < tokens.len()
        invariant
            j <= tokens@.len(),
            toks == views(tokens@),
            toks == tokenizer.spec_tokenize(document.content@),
            pos == views(q.positive_terms@),
            pred == (|t: Seq<char>| pos.contains(t)),
            has_excluded_term == exists|j2: int|
                0 <= j2 < j && views(q.excluded_terms@).contains(#[trigger] toks[j2]),
            hit_count == toks.take(j as int).filter(pred).len(),
            sorted_strict(views(matched@)),
            views(matched@).to_set() == toks.take(j as int).filter(pred).to_set(),
        decreases tokens.len() - j,
    {
        let ghost s = toks.take(j + 1);
        proof {
            reveal(Seq::filter);
            assert(s.drop_last() =~= toks.take(j as int));
            assert(s.last() == toks[j as int]);
            assert(toks[j as int] == tokens@[j as int]@);
        }
        if contains_string(&q.excluded_terms, tokens[j].as_str()) {
            has_excluded_term = true;
        }
        if contains_string(&q.positive_terms, tokens[j].as_str()) {
            proof {
                assert(s.filter(pred) == toks.take(j as int).filter(pred).push(toks[j as int]));
                toks.take(j as int).filter(pred).lemma_push_to_set_commute(toks[j as int]);
                lemma_filter_len_le(s, pred);
            }
            hit_count = hit_count + 1;
            insert_sorted(&mut matched, tokens[j].clone());
        } else {
            proof {
                assert(s.filter(pred) == toks.take(j as int).filter(pred));
            }
        }
        proof {
            assert(has_excluded_term == exists|j2: int|
                0 <= j2 < j + 1 && views(q.excluded_terms@).contains(#[trigger] toks[j2]));
        }
        j += 1;
    }
    assert(toks.take(j as int) =~= toks);
    if has_excluded_term || hit_count == 0 {
        return None;
    }
    let keep = if q.requires_all_terms() {
        has_all_required_terms(&matched, &q.positive_terms)
    } else {
        true
    };
    proof {
        let h = toks.filter(pred);
        assert forall|x: Seq<char>| views(matched@).contains(x) <==> (toks.contains(x) && pos.contains(x)) by {
            assert(views(matched@).to_set().contains(x) == views(matched@).contains(x));
            assert(h.to_set().contains(x) == h.contains(x));
            if h.contains(x) {
                toks.lemma_filter_contains_rev(pred, x);
                toks.filter_lemma(pred);
                let k = choose|k: int| 0 <= k < h.len() && h[k] == x;
                assert(pred(h[k]));
            }
            if toks.contains(x) && pos.contains(x) {
                let k = choose|k: int| 0 <= k < toks.len() && toks[k] == x;
                toks.filter_lemma(pred);
                assert(h.contains(toks[k]));
            }
        }
        if q.mode == QueryMode::All {
            assert forall|i: int| 0 <= i < q.positive_terms@.len() implies (views(matched@).contains(
                #[trigger] q.positive_terms@[i]@,
            ) <==> toks.contains(q.positive_terms@[i]@)) by {
                assert(pos[i] == q.positive_terms@[i]@);
                assert(pos.contains(q.positive_terms@[i]@));
            }
        }
    }
    if !keep {
        return None;
    }
    let tm = title_matches(document.title.as_str(), &matched, tokenizer);
    Some(
        DirectCandidate {
            doc_id: document.id,
            path: document.path.clone(),
            title: document.title.clone(),
            hit_count,
            matched_terms: matched,
            title_matches: tm,
        },
    )
}

/// Filtering keeps at most every element.
pub proof fn lemma_filter_len_le(s: Seq<Seq<char>>, pred: spec_fn(Seq<char>) -> bool)
    ensures
        s.filter(pred).len() <= s.len(),
    decreases s.len(),
{
    reveal(Seq::filter);
    if s.len() > 0 {
        lemma_filter_len_le(s.drop_last(), pred);
    }
}

/// The documents that the direct scan selects, in document order.
pub open spec fn direct_selection<T: Tokenizer>(
    tok: &T,
    q: ParsedQuery,
    fp: Option<Seq<char>>,
    docs: Seq<Document>,
) -> Seq<Document> {
    docs.filter(|doc: Document| direct_selected(tok, q, fp, doc))
}

/// Scans every document for a parsed query: the candidates of the selected
/// documents, in document order.
pub fn direct_candidates<T: Tokenizer>(
    documents: &[Document],
    q: &ParsedQuery,
    tokenizer: &T,
    filter: &PathFilter,
) -> (r: Vec<DirectCandidate>)
    ensures
        r@.len() == direct_selection(tokenizer, *q, filter.pattern_of(), documents@).len(),
        forall|k: int|
            0 <= k < r@.len() ==> direct_candidate_spec(
                tokenizer,
                *q,
                direct_selection(tokenizer, *q, filter.pattern_of(), documents@)[k],
                #[trigger] r@[k],
            ),
{
    let ghost fp = filter.pattern_of();
    let ghost pred = |doc: Document| direct_selected(tokenizer, *q, fp, doc);
    let mut out: Vec<DirectCandidate> = Vec::new();
    let mut i: usize = 0;
    proof {
        reveal(Seq::filter);
        assert(documents@.take(0).filter(pred) =~= seq![]);
    }
    while i < documents.len()
        invariant
            i <= documents@.len(),
            fp == filter.pattern_of(),
            pred == (|doc: Document| direct_selected(tokenizer, *q, fp, doc)),
            out@.len() == documents@.take(i as int).filter(pred).len(),
            forall|k: int|
                0 <= k < out@.len() ==> direct_candidate_spec(
                    tokenizer,
                    *q,
                    documents@.take(i as int).filter(pred)[k],
                    #[trigger] out@[k],
                ),
        decreases documents.len() - i,
    {
        let ghost s = documents@.take(i + 1);
        let ghost prev = documents@.take(i as int).filter(pred);
        proof {
            reveal(Seq::filter);
            assert(s.drop_last() =~= documents@.take(i as int));
            assert(s.last() == documents@[i as int]);
        }
        match scan_document(&documents[i], q, tokenizer, filter) {
            Some(c) => {
                assert(s.filter(pred) == prev.push(documents@[i as int]));
                out.push(c);
            },
            None => {
                assert(s.filter(pred) == prev);
            },
        }
        i += 1;
    }
    assert(documents@.take(i as int) =~= documents@);
    out
}

} // verus!
