//! The index agrees with the documents it was built from: its postings are
//! the occurrences of terms among the documents' tokens, and searching it
//! selects the same documents, with the same matched terms, as scanning
//! those documents one by one.
use crate::direct_search::{
    direct_candidate_spec, direct_selected, direct_selection, has_excluded, hits, DirectCandidate,
};
use crate::document::Document;
use crate::index::{
    doc_by_id, doc_term_positions, doc_tokens, first_doc, first_entry, indexes, lemma_first_doc,
    lemma_first_entry, lemma_unique_term, postings_wf, term_positions, term_postings, IndexEntry,
    Posting, SearchIndex,
};
use crate::query::ParsedQuery;
use crate::search::{
    candidate_spec, candidates_spec, contributions, doc_counts, excluded_doc, excluded_ids,
    record_terms, selected, term_contribs, Candidate,
};
use crate::text::{lemma_sorted_strict_unique, views};
use crate::tokenizer::Tokenizer;
use vstd::prelude::*;

verus! {

/// No two documents share an id.
pub open spec fn ids_distinct(docs: Seq<Document>) -> bool {
    forall|a: int, b: int| #![trigger docs[a], docs[b]] 0 <= a < b < docs.len() ==> docs[a].id != docs[b].id
}

/// Term `t` has a posting for document `d`.
pub open spec fn has_posting(idx: Seq<IndexEntry>, t: Seq<char>, d: usize) -> bool {
    exists|k: int| 0 <= k < term_postings(idx, t).len() && #[trigger] term_postings(idx, t)[k].doc_id == d
}

/// A term has positions in a token sequence exactly when it occurs there.
pub proof fn lemma_term_positions_nonempty(toks: Seq<Seq<char>>, t: Seq<char>)
    ensures
        term_positions(toks, t).len() > 0 <==> toks.contains(t),
    decreases toks.len(),
{
    if toks.len() > 0 {
        let init = toks.drop_last();
        lemma_term_positions_nonempty(init, t);
        if init.contains(t) {
            let j = choose|j: int| 0 <= j < init.len() && init[j] == t;
            assert(toks[j] == t);
        }
        if toks.contains(t) && toks.last() != t {
            let j = choose|j: int| 0 <= j < toks.len() && toks[j] == t;
            assert(init[j] == t);
        }
        if toks.last() == t {
            assert(toks[toks.len() - 1] == t);
        }
    }
}

/// With no document of id `d`, a term has no positions for `d`.
proof fn lemma_doc_term_positions_absent<T: Tokenizer>(
    tok: &T,
    docs: Seq<Document>,
    t: Seq<char>,
    d: usize,
)
    requires
        forall|k: int| 0 <= k < docs.len() ==> #[trigger] docs[k].id != d,
    ensures
        doc_term_positions(tok, docs, t, d) == Seq::<usize>::empty(),
    decreases docs.len(),
{
    if docs.len() > 0 {
        assert(docs.last().id != d);
        lemma_doc_term_positions_absent(tok, docs.drop_last(), t, d);
    }
}

/// With distinct ids, the positions of a term for the id of `docs[i]` are
/// its positions in that document.
proof fn lemma_doc_term_positions_unique<T: Tokenizer>(
    tok: &T,
    docs: Seq<Document>,
    t: Seq<char>,
    i: int,
)
    requires
        ids_distinct(docs),
        0 <= i < docs.len(),
    ensures
        doc_term_positions(tok, docs, t, docs[i].id) == term_positions(doc_tokens(tok, docs[i]), t),
    decreases docs.len(),
{
    let d = docs[i].id;
    let init = docs.drop_last();
    if i == docs.len() - 1 {
        assert forall|k: int| 0 <= k < init.len() implies #[trigger] init[k].id != d by {
            assert(docs[k].id != docs[i].id);
        }
        lemma_doc_term_positions_absent(tok, init, t, d);
        assert(doc_term_positions(tok, docs, t, d) =~= term_positions(doc_tokens(tok, docs[i]), t));
    } else {
        assert(docs[i].id != docs[docs.len() - 1].id);
        assert(init[i] == docs[i]);
        lemma_doc_term_positions_unique(tok, init, t, i);
        assert(doc_term_positions(tok, docs, t, d) =~= doc_term_positions(tok, init, t, d));
    }
}

/// In an index of documents with distinct ids, a term has a posting for a
/// document exactly when it is one of the document's tokens.
pub proof fn lemma_posting_iff_occurs<T: Tokenizer>(
    tok: &T,
    docs: Seq<Document>,
    idx: Seq<IndexEntry>,
    t: Seq<char>,
    i: int,
)
    requires
        indexes(tok, docs, idx),
        ids_distinct(docs),
        0 <= i < docs.len(),
    ensures
        has_posting(idx, t, docs[i].id) <==> doc_tokens(tok, docs[i]).contains(t),
{
    let d = docs[i].id;
    let f = |t: Seq<char>, d: usize| doc_term_positions(tok, docs, t, d);
    lemma_doc_term_positions_unique(tok, docs, t, i);
    lemma_term_positions_nonempty(doc_tokens(tok, docs[i]), t);
    lemma_first_entry(idx, t, 0);
    if doc_tokens(tok, docs[i]).contains(t) {
        assert(f(t, d).len() > 0);
        let (ei, k) = choose|ei: int, k: int|
            0 <= ei < idx.len() && 0 <= k < idx[ei].postings@.len() && idx[ei].term@ == t
                && #[trigger] idx[ei].postings@[k].doc_id == d;
        let j = first_entry(idx, t, 0)->0;
        lemma_unique_term(idx, j, ei);
        assert(term_postings(idx, t)[k].doc_id == d);
    }
    if has_posting(idx, t, d) {
        let k = choose|k: int|
            0 <= k < term_postings(idx, t).len() && #[trigger] term_postings(idx, t)[k].doc_id == d;
        let j = first_entry(idx, t, 0)->0;
        assert(idx[j].postings@[k].positions@ == f(idx[j].term@, idx[j].postings@[k].doc_id));
        assert(postings_wf(idx[j].postings@));
        assert(idx[j].postings@[k].positions@.len() > 0);
    }
}

/// The records that the postings `ps` give to `d` all carry the term `t`,
/// and there are some exactly when `d` counts and has a posting in `ps`.
proof fn lemma_term_contribs(
    index: SearchIndex,
    excl: Seq<Seq<char>>,
    filter: Option<Seq<char>>,
    t: Seq<char>,
    df: usize,
    ps: Seq<Posting>,
    d: usize,
)
    ensures
        term_contribs(index, excl, filter, t, df, ps, d).len() > 0 <==> doc_counts(index, excl, filter, d)
            && exists|k: int| 0 <= k < ps.len() && #[trigger] ps[k].doc_id == d,
        forall|e: int|
            0 <= e < term_contribs(index, excl, filter, t, df, ps, d).len() ==> (#[trigger] term_contribs(
                index,
                excl,
                filter,
                t,
                df,
                ps,
                d,
            )[e]).0 == t,
    decreases ps.len(),
{
    if ps.len() > 0 {
        let init = ps.drop_last();
        lemma_term_contribs(index, excl, filter, t, df, init, d);
        if exists|k: int| 0 <= k < init.len() && #[trigger] init[k].doc_id == d {
            let k = choose|k: int| 0 <= k < init.len() && #[trigger] init[k].doc_id == d;
            assert(ps[k].doc_id == d);
        }
        if exists|k: int| 0 <= k < ps.len() && #[trigger] ps[k].doc_id == d {
            let k = choose|k: int| 0 <= k < ps.len() && #[trigger] ps[k].doc_id == d;
            if k < ps.len() - 1 {
                assert(init[k].doc_id == d);
            }
        }
    }
}

/// A term is among the terms of the records that `terms` give to `d`
/// exactly when `d` counts, `t` is one of `terms`, and `t` has a posting for
/// `d`.
proof fn lemma_contribution_terms(
    index: SearchIndex,
    excl: Seq<Seq<char>>,
    filter: Option<Seq<char>>,
    terms: Seq<Seq<char>>,
    d: usize,
    t: Seq<char>,
)
    ensures
        record_terms(contributions(index, excl, filter, terms, d)).contains(t) <==> doc_counts(
            index,
            excl,
            filter,
            d,
        ) && terms.contains(t) && has_posting(index.inverted_index@, t, d),
    decreases terms.len(),
{
    if terms.len() > 0 {
        let init = terms.drop_last();
        let last = terms.last();
        let ps = term_postings(index.inverted_index@, last);
        let prev = contributions(index, excl, filter, init, d);
        let tc = term_contribs(index, excl, filter, last, ps.len() as usize, ps, d);
        lemma_contribution_terms(index, excl, filter, init, d, t);
        lemma_term_contribs(index, excl, filter, last, ps.len() as usize, ps, d);
        assert(contributions(index, excl, filter, terms, d) == prev + tc);
        assert(record_terms(prev + tc) =~= record_terms(prev) + record_terms(tc));
        if record_terms(prev).contains(t) {
            let e = choose|e: int| 0 <= e < record_terms(prev).len() && record_terms(prev)[e] == t;
            assert(record_terms(prev + tc)[e] == t);
        }
        if record_terms(tc).contains(t) {
            let e = choose|e: int| 0 <= e < record_terms(tc).len() && record_terms(tc)[e] == t;
            assert(tc[e].0 == t);
            assert(terms[terms.len() - 1] == t);
        }
        if doc_counts(index, excl, filter, d) && terms.contains(t) && has_posting(
            index.inverted_index@,
            t,
            d,
        ) {
            let j = choose|j: int| 0 <= j < terms.len() && terms[j] == t;
            if j < terms.len() - 1 {
                assert(init[j] == t);
                let e = choose|e: int| 0 <= e < record_terms(prev).len() && record_terms(prev)[e] == t;
                assert(record_terms(prev + tc)[e] == t);
            } else {
                let k = choose|k: int| 0 <= k < ps.len() && #[trigger] ps[k].doc_id == d;
                assert(tc.len() > 0);
                assert(record_terms(tc)[0] == t);
                assert(record_terms(prev + tc)[prev.len() as int] == t);
            }
        }
        if init.contains(t) {
            let j = choose|j: int| 0 <= j < init.len() && init[j] == t;
            assert(terms[j] == t);
        }
    } else {
        assert(record_terms(contributions(index, excl, filter, terms, d)).len() == 0);
    }
}

/// The terms `terms` give records to `d` exactly when `d` counts and one of
/// them has a posting for `d`.
proof fn lemma_contributions_nonempty(
    index: SearchIndex,
    excl: Seq<Seq<char>>,
    filter: Option<Seq<char>>,
    terms: Seq<Seq<char>>,
    d: usize,
)
    ensures
        contributions(index, excl, filter, terms, d).len() > 0 <==> doc_counts(index, excl, filter, d)
            && exists|j: int| 0 <= j < terms.len() && has_posting(index.inverted_index@, #[trigger] terms[j], d),
    decreases terms.len(),
{
    if terms.len() > 0 {
        let init = terms.drop_last();
        let last = terms.last();
        let ps = term_postings(index.inverted_index@, last);
        lemma_contributions_nonempty(index, excl, filter, init, d);
        lemma_term_contribs(index, excl, filter, last, ps.len() as usize, ps, d);
        if exists|j: int| 0 <= j < init.len() && has_posting(index.inverted_index@, #[trigger] init[j], d) {
            let j = choose|j: int| 0 <= j < init.len() && has_posting(index.inverted_index@, #[trigger] init[j], d);
            assert(terms[j] == init[j]);
        }
        if exists|j: int| 0 <= j < terms.len() && has_posting(index.inverted_index@, #[trigger] terms[j], d) {
            let j = choose|j: int| 0 <= j < terms.len() && has_posting(index.inverted_index@, #[trigger] terms[j], d);
            if j < terms.len() - 1 {
                assert(init[j] == terms[j]);
            } else {
                let k = choose|k: int|
                    0 <= k < term_postings(index.inverted_index@, last).len()
                        && #[trigger] term_postings(index.inverted_index@, last)[k].doc_id == d;
                assert(ps[k].doc_id == d);
            }
        }
    }
}

/// A document is excluded exactly when one of the excluded terms has a
/// posting for it.
proof fn lemma_excluded(idx: Seq<IndexEntry>, excl: Seq<Seq<char>>, d: usize)
    ensures
        excluded_doc(idx, excl, d) <==> exists|j: int| 0 <= j < excl.len() && has_posting(idx, #[trigger] excl[j], d),
    decreases excl.len(),
{
    if excl.len() > 0 {
        let init = excl.drop_last();
        let last = excl.last();
        let ps = term_postings(idx, last);
        let ids = ps.map_values(|p: Posting| p.doc_id);
        lemma_excluded(idx, init, d);
        assert(excluded_ids(idx, excl) == excluded_ids(idx, init) + ids);
        if excluded_ids(idx, excl).contains(d) {
            let m = choose|m: int| 0 <= m < excluded_ids(idx, excl).len() && excluded_ids(idx, excl)[m] == d;
            if m < excluded_ids(idx, init).len() {
                assert(excluded_ids(idx, init)[m] == d);
                let j = choose|j: int| 0 <= j < init.len() && has_posting(idx, #[trigger] init[j], d);
                assert(excl[j] == init[j]);
            } else {
                let k = m - excluded_ids(idx, init).len();
                assert(ids[k] == d);
                assert(ps[k].doc_id == d);
                assert(has_posting(idx, excl[excl.len() - 1], d));
            }
        }
        if exists|j: int| 0 <= j < excl.len() && has_posting(idx, #[trigger] excl[j], d) {
            let j = choose|j: int| 0 <= j < excl.len() && has_posting(idx, #[trigger] excl[j], d);
            if j < excl.len() - 1 {
                assert(init[j] == excl[j]);
                assert(excluded_ids(idx, init).contains(d));
                let m = choose|m: int| 0 <= m < excluded_ids(idx, init).len() && excluded_ids(idx, init)[m] == d;
                assert(excluded_ids(idx, excl)[m] == d);
            } else {
                let k = choose|k: int| 0 <= k < ps.len() && #[trigger] ps[k].doc_id == d;
                assert(ids[k] == d);
                assert(excluded_ids(idx, excl)[excluded_ids(idx, init).len() + k] == d);
            }
        }
    }
}

/// In an index of documents with distinct ids, the posting of a term for a
/// document holds the positions at which the term stands among the
/// document's tokens, and its frequency is their number.
pub proof fn lemma_posting_records_occurrences<T: Tokenizer>(
    tok: &T,
    docs: Seq<Document>,
    idx: Seq<IndexEntry>,
    t: Seq<char>,
    i: int,
    k: int,
)
    requires
        indexes(tok, docs, idx),
        ids_distinct(docs),
        0 <= i < docs.len(),
        0 <= k < term_postings(idx, t).len(),
        term_postings(idx, t)[k].doc_id == docs[i].id,
    ensures
        term_postings(idx, t)[k].positions@ == term_positions(doc_tokens(tok, docs[i]), t),
        term_postings(idx, t)[k].term_freq == term_positions(doc_tokens(tok, docs[i]), t).len(),
{
    let f = |t: Seq<char>, d: usize| doc_term_positions(tok, docs, t, d);
    lemma_doc_term_positions_unique(tok, docs, t, i);
    lemma_first_entry(idx, t, 0);
    let j = first_entry(idx, t, 0)->0;
    assert(idx[j].postings@[k].positions@ == f(idx[j].term@, idx[j].postings@[k].doc_id));
    assert(postings_wf(idx[j].postings@));
}

/// With distinct ids, the document of id `docs[i].id` is `docs[i]`.
proof fn lemma_doc_by_id_unique(docs: Seq<Document>, i: int)
    requires
        ids_distinct(docs),
        0 <= i < docs.len(),
    ensures
        doc_by_id(docs, docs[i].id) == Some(docs[i]),
{
    lemma_first_doc(docs, docs[i].id, 0);
    let j = first_doc(docs, docs[i].id, 0)->0;
    if j < i {
        assert(docs[j].id != docs[i].id);
    } else if i < j {
        assert(docs[i].id != docs[i].id);
    }
}

/// Without a document of id `d`, the index has no document for `d`.
proof fn lemma_doc_by_id_absent(docs: Seq<Document>, d: usize)
    requires
        forall|i: int| 0 <= i < docs.len() ==> #[trigger] docs[i].id != d,
    ensures
        doc_by_id(docs, d) is None,
{
    lemma_first_doc(docs, d, 0);
}

/// The index excludes a document exactly when the document holds an
/// excluded term.
proof fn lemma_excluded_iff<T: Tokenizer>(
    tok: &T,
    docs: Seq<Document>,
    idx: Seq<IndexEntry>,
    q: ParsedQuery,
    i: int,
)
    requires
        indexes(tok, docs, idx),
        ids_distinct(docs),
        0 <= i < docs.len(),
    ensures
        excluded_doc(idx, views(q.excluded_terms@), docs[i].id) <==> has_excluded(tok, q, docs[i]),
{
    let d = docs[i].id;
    let excl = views(q.excluded_terms@);
    let toks = doc_tokens(tok, docs[i]);
    lemma_excluded(idx, excl, d);
    if excluded_doc(idx, excl, d) {
        let j = choose|j: int| 0 <= j < excl.len() && has_posting(idx, #[trigger] excl[j], d);
        lemma_posting_iff_occurs(tok, docs, idx, excl[j], i);
        let m = choose|m: int| 0 <= m < toks.len() && toks[m] == excl[j];
        assert(excl.contains(toks[m]));
    }
    if has_excluded(tok, q, docs[i]) {
        let m = choose|m: int| 0 <= m < toks.len() && excl.contains(#[trigger] toks[m]);
        let j = choose|j: int| 0 <= j < excl.len() && excl[j] == toks[m];
        lemma_posting_iff_occurs(tok, docs, idx, excl[j], i);
        assert(toks.contains(excl[j]));
    }
}

/// Some positive term has a posting for a document exactly when some token
/// of the document is a positive term.
proof fn lemma_some_positive_iff<T: Tokenizer>(
    tok: &T,
    docs: Seq<Document>,
    idx: Seq<IndexEntry>,
    q: ParsedQuery,
    i: int,
)
    requires
        indexes(tok, docs, idx),
        ids_distinct(docs),
        0 <= i < docs.len(),
    ensures
        (exists|j: int|
            0 <= j < views(q.positive_terms@).len() && has_posting(
                idx,
                #[trigger] views(q.positive_terms@)[j],
                docs[i].id,
            )) <==> hits(tok, q, docs[i]).len() > 0,
{
    let d = docs[i].id;
    let pos = views(q.positive_terms@);
    let toks = doc_tokens(tok, docs[i]);
    let pred = |t: Seq<char>| pos.contains(t);
    toks.filter_lemma(pred);
    assert(hits(tok, q, docs[i]) == toks.filter(pred));
    if exists|j: int| 0 <= j < pos.len() && has_posting(idx, #[trigger] pos[j], d) {
        let j = choose|j: int| 0 <= j < pos.len() && has_posting(idx, #[trigger] pos[j], d);
        lemma_posting_iff_occurs(tok, docs, idx, pos[j], i);
        let m = choose|m: int| 0 <= m < toks.len() && toks[m] == pos[j];
        assert(pred(toks[m]));
        assert(toks.filter(pred).contains(toks[m]));
    }
    if toks.filter(pred).len() > 0 {
        let h = toks.filter(pred)[0];
        assert(pred(h));
        toks.lemma_filter_contains_rev(pred, h);
        let j = choose|j: int| 0 <= j < pos.len() && pos[j] == h;
        lemma_posting_iff_occurs(tok, docs, idx, pos[j], i);
    }
}

/// Searching the index built from a set of documents with distinct ids
/// selects a document id exactly when scanning those documents directly
/// selects the document with that id: the two plans find the same documents
/// for every query and path filter.
pub proof fn lemma_index_search_agrees_with_scan<T: Tokenizer>(
    tok: &T,
    index: SearchIndex,
    q: ParsedQuery,
    fp: Option<Seq<char>>,
    d: usize,
)
    requires
        indexes(tok, index.documents@, index.inverted_index@),
        ids_distinct(index.documents@),
    ensures
        selected(index, q, fp, d) <==> exists|i: int|
            0 <= i < index.documents@.len() && #[trigger] index.documents@[i].id == d && direct_selected(
                tok,
                q,
                fp,
                index.documents@[i],
            ),
{
    let docs = index.documents@;
    let idx = index.inverted_index@;
    let excl = views(q.excluded_terms@);
    let pos = views(q.positive_terms@);
    let cs = contributions(index, excl, fp, pos, d);
    lemma_contributions_nonempty(index, excl, fp, pos, d);
    if exists|i: int| 0 <= i < docs.len() && #[trigger] docs[i].id == d {
        let i = choose|i: int| 0 <= i < docs.len() && #[trigger] docs[i].id == d;
        let toks = doc_tokens(tok, docs[i]);
        lemma_doc_by_id_unique(docs, i);
        lemma_excluded_iff(tok, docs, idx, q, i);
        lemma_some_positive_iff(tok, docs, idx, q, i);
        assert forall|k: int| 0 <= k < q.positive_terms@.len() implies (record_terms(cs).contains(
            #[trigger] q.positive_terms@[k]@,
        ) <==> doc_counts(index, excl, fp, d) && toks.contains(q.positive_terms@[k]@)) by {
            assert(pos[k] == q.positive_terms@[k]@);
            lemma_contribution_terms(index, excl, fp, pos, d, pos[k]);
            lemma_posting_iff_occurs(tok, docs, idx, pos[k], i);
        }
        if selected(index, q, fp, d) {
            assert(direct_selected(tok, q, fp, docs[i]));
        }
        if exists|i2: int| 0 <= i2 < docs.len() && #[trigger] docs[i2].id == d && direct_selected(tok, q, fp, docs[i2]) {
            let i2 = choose|i2: int| 0 <= i2 < docs.len() && #[trigger] docs[i2].id == d && direct_selected(tok, q, fp, docs[i2]);
            if i2 < i {
                assert(docs[i2].id != docs[i].id);
            } else if i < i2 {
                assert(docs[i].id != docs[i2].id);
            }
            assert(selected(index, q, fp, d));
        }
    } else {
        lemma_doc_by_id_absent(docs, d);
    }
}

/// For a document that the direct scan selects, the index search reports
/// the same matched terms: the terms of its records are the positive terms
/// that the document holds.
pub proof fn lemma_index_matches_agree_with_scan<T: Tokenizer>(
    tok: &T,
    index: SearchIndex,
    q: ParsedQuery,
    fp: Option<Seq<char>>,
    i: int,
)
    requires
        indexes(tok, index.documents@, index.inverted_index@),
        ids_distinct(index.documents@),
        0 <= i < index.documents@.len(),
        direct_selected(tok, q, fp, index.documents@[i]),
    ensures
        record_terms(
            contributions(
                index,
                views(q.excluded_terms@),
                fp,
                views(q.positive_terms@),
                index.documents@[i].id,
            ),
        ).to_set() == hits(tok, q, index.documents@[i]).to_set(),
{
    let docs = index.documents@;
    let idx = index.inverted_index@;
    let d = docs[i].id;
    let excl = views(q.excluded_terms@);
    let pos = views(q.positive_terms@);
    let toks = doc_tokens(tok, docs[i]);
    let pred = |t: Seq<char>| pos.contains(t);
    let cs = contributions(index, excl, fp, pos, d);
    lemma_doc_by_id_unique(docs, i);
    lemma_excluded_iff(tok, docs, idx, q, i);
    assert(doc_counts(index, excl, fp, d));
    toks.filter_lemma(pred);
    assert(hits(tok, q, docs[i]) == toks.filter(pred));
    assert forall|t: Seq<char>| record_terms(cs).to_set().contains(t) <==> hits(
        tok,
        q,
        docs[i],
    ).to_set().contains(t) by {
        lemma_contribution_terms(index, excl, fp, pos, d, t);
        lemma_posting_iff_occurs(tok, docs, idx, t, i);
        if toks.filter(pred).contains(t) {
            toks.lemma_filter_contains_rev(pred, t);
            let m = choose|m: int| 0 <= m < toks.filter(pred).len() && toks.filter(pred)[m] == t;
            assert(pred(toks.filter(pred)[m]));
        }
        if pos.contains(t) && toks.contains(t) {
            let m = choose|m: int| 0 <= m < toks.len() && toks[m] == t;
            assert(toks.filter(pred).contains(toks[m]));
        }
    }
    assert(record_terms(cs).to_set() =~= hits(tok, q, docs[i]).to_set());
}

/// For a document that both plans select, the candidate of the index search
/// and that of the direct scan have the same path and title, the same
/// matched terms in the same order, and the same title matches.
pub proof fn lemma_candidates_agree<T: Tokenizer>(
    tok: &T,
    index: SearchIndex,
    q: ParsedQuery,
    fp: Option<Seq<char>>,
    i: int,
    c: Candidate,
    dc: DirectCandidate,
)
    requires
        indexes(tok, index.documents@, index.inverted_index@),
        ids_distinct(index.documents@),
        0 <= i < index.documents@.len(),
        direct_selected(tok, q, fp, index.documents@[i]),
        c.doc_id == index.documents@[i].id,
        candidate_spec(index, q, tok, fp, c),
        direct_candidate_spec(tok, q, index.documents@[i], dc),
    ensures
        c.doc_id == dc.doc_id,
        c.path@ == dc.path@,
        c.title@ == dc.title@,
        views(c.matched_terms@) == views(dc.matched_terms@),
        views(c.title_matches@) == views(dc.title_matches@),
{
    lemma_doc_by_id_unique(index.documents@, i);
    lemma_index_matches_agree_with_scan(tok, index, q, fp, i);
    lemma_sorted_strict_unique(views(c.matched_terms@), views(dc.matched_terms@));
}

/// Document ids increase along the documents, as the scanner numbers them.
pub open spec fn ids_increasing(docs: Seq<Document>) -> bool {
    forall|a: int, b: int| #![trigger docs[a], docs[b]] 0 <= a < b < docs.len() ==> docs[a].id < docs[b].id
}

/// Filtering documents keeps increasing ids increasing, and keeps only
/// documents of the sequence filtered.
proof fn lemma_filter_ids_increasing(docs: Seq<Document>, pred: spec_fn(Document) -> bool)
    requires
        ids_increasing(docs),
    ensures
        ids_increasing(docs.filter(pred)),
        forall|k: int| 0 <= k < docs.filter(pred).len() ==> docs.contains(#[trigger] docs.filter(pred)[k]),
    decreases docs.len(),
{
    reveal(Seq::filter);
    if docs.len() > 0 {
        let init = docs.drop_last();
        assert forall|a: int, b: int| #![trigger init[a], init[b]] 0 <= a < b < init.len() implies init[a].id < init[b].id by {
            assert(init[a] == docs[a] && init[b] == docs[b]);
        }
        lemma_filter_ids_increasing(init, pred);
        let fi = init.filter(pred);
        let f = docs.filter(pred);
        assert forall|k: int| 0 <= k < fi.len() implies docs.contains(#[trigger] fi[k]) && fi[k].id < docs.last().id by {
            let m = choose|m: int| 0 <= m < init.len() && init[m] == fi[k];
            assert(docs[m] == fi[k]);
            assert(docs[m].id < docs[docs.len() - 1].id);
        }
        if pred(docs.last()) {
            assert(f == fi.push(docs.last()));
            assert forall|a: int, b: int| #![trigger f[a], f[b]] 0 <= a < b < f.len() implies f[a].id < f[b].id by {
                if b == f.len() - 1 {
                    assert(f[a] == fi[a]);
                } else {
                    assert(f[a] == fi[a] && f[b] == fi[b]);
                }
            }
            assert forall|k: int| 0 <= k < f.len() implies docs.contains(#[trigger] f[k]) by {
                if k == f.len() - 1 {
                    assert(docs[docs.len() - 1] == f[k]);
                } else {
                    assert(f[k] == fi[k]);
                }
            }
        } else {
            assert(f == fi);
        }
    }
}

/// Two strictly increasing sequences of ids with the same elements are
/// equal.
proof fn lemma_increasing_unique(a: Seq<usize>, b: Seq<usize>)
    requires
        forall|i: int, j: int| #![trigger a[i], a[j]] 0 <= i < j < a.len() ==> a[i] < a[j],
        forall|i: int, j: int| #![trigger b[i], b[j]] 0 <= i < j < b.len() ==> b[i] < b[j],
        forall|x: usize| a.contains(x) <==> b.contains(x),
    ensures
        a == b,
    decreases a.len() + b.len(),
{
    if a.len() == 0 || b.len() == 0 {
        if a.len() > 0 {
            assert(a.contains(a[0]));
        }
        if b.len() > 0 {
            assert(b.contains(b[0]));
        }
        assert(a =~= b);
    } else {
        assert(a.contains(a[0]) && b.contains(b[0]));
        let ia = choose|i: int| 0 <= i < a.len() && a[i] == b[0];
        let ib = choose|i: int| 0 <= i < b.len() && b[i] == a[0];
        if a[0] < b[0] {
            assert(ib > 0);
            assert(b[0] < b[ib]);
        } else if b[0] < a[0] {
            assert(ia > 0);
            assert(a[0] < a[ia]);
        }
        let a2 = a.drop_first();
        let b2 = b.drop_first();
        assert forall|x: usize| a2.contains(x) <==> b2.contains(x) by {
            if a2.contains(x) {
                let k = choose|k: int| 0 <= k < a2.len() && a2[k] == x;
                assert(a[k + 1] == x);
                assert(a[0] < a[k + 1]);
                assert(b.contains(x));
                let kb = choose|kb: int| 0 <= kb < b.len() && b[kb] == x;
                assert(kb != 0);
                assert(b2[kb - 1] == x);
            }
            if b2.contains(x) {
                let k = choose|k: int| 0 <= k < b2.len() && b2[k] == x;
                assert(b[k + 1] == x);
                assert(b[0] < b[k + 1]);
                assert(a.contains(x));
                let ka = choose|ka: int| 0 <= ka < a.len() && a[ka] == x;
                assert(ka != 0);
                assert(a2[ka - 1] == x);
            }
        }
        assert forall|i: int, j: int| #![trigger a2[i], a2[j]] 0 <= i < j < a2.len() implies a2[i] < a2[j] by {
            assert(a2[i] == a[i + 1] && a2[j] == a[j + 1]);
        }
        assert forall|i: int, j: int| #![trigger b2[i], b2[j]] 0 <= i < j < b2.len() implies b2[i] < b2[j] by {
            assert(b2[i] == b[i + 1] && b2[j] == b[j + 1]);
        }
        lemma_increasing_unique(a2, b2);
        assert forall|i: int| 0 <= i < a.len() implies a[i] == b[i] by {
            if i > 0 {
                assert(a[i] == a2[i - 1] && b[i] == b2[i - 1]);
            }
        }
        assert(a =~= b);
    }
}

/// When document ids increase along the documents (as the scanner numbers
/// them), the index search and the direct scan return candidates for the
/// same documents in the same order, each pair with the same path, title,
/// matched terms and title matches.
pub proof fn lemma_candidate_lists_agree<T: Tokenizer>(
    tok: &T,
    index: SearchIndex,
    q: ParsedQuery,
    fp: Option<Seq<char>>,
    r: Seq<Candidate>,
    rd: Seq<DirectCandidate>,
)
    requires
        indexes(tok, index.documents@, index.inverted_index@),
        ids_increasing(index.documents@),
        candidates_spec(index, q, tok, fp, r),
        rd.len() == direct_selection(tok, q, fp, index.documents@).len(),
        forall|k: int|
            0 <= k < rd.len() ==> direct_candidate_spec(
                tok,
                q,
                direct_selection(tok, q, fp, index.documents@)[k],
                #[trigger] rd[k],
            ),
    ensures
        r.len() == rd.len(),
        forall|k: int|
            0 <= k < r.len() ==> {
                &&& #[trigger] r[k].doc_id == rd[k].doc_id
                &&& r[k].path@ == rd[k].path@
                &&& r[k].title@ == rd[k].title@
                &&& views(r[k].matched_terms@) == views(rd[k].matched_terms@)
                &&& views(r[k].title_matches@) == views(rd[k].title_matches@)
            },
{
    let docs = index.documents@;
    let pred = |doc: Document| direct_selected(tok, q, fp, doc);
    let sel = direct_selection(tok, q, fp, docs);
    assert(sel == docs.filter(pred));
    assert(ids_distinct(docs)) by {
        assert forall|a: int, b: int| #![trigger docs[a], docs[b]] 0 <= a < b < docs.len() implies docs[a].id != docs[b].id by {
            assert(docs[a].id < docs[b].id);
        }
    }
    lemma_filter_ids_increasing(docs, pred);
    docs.filter_lemma(pred);
    let ia = r.map_values(|c: Candidate| c.doc_id);
    let ib = sel.map_values(|doc: Document| doc.id);
    assert forall|i: int, j: int| #![trigger ia[i], ia[j]] 0 <= i < j < ia.len() implies ia[i] < ia[j] by {
        assert(r[i].doc_id < r[j].doc_id);
    }
    assert forall|i: int, j: int| #![trigger ib[i], ib[j]] 0 <= i < j < ib.len() implies ib[i] < ib[j] by {
        assert(sel[i].id < sel[j].id);
    }
    assert forall|x: usize| ia.contains(x) <==> ib.contains(x) by {
        lemma_index_search_agrees_with_scan(tok, index, q, fp, x);
        if ia.contains(x) {
            let a = choose|a: int| 0 <= a < ia.len() && ia[a] == x;
            assert(r[a].doc_id == x);
            assert(selected(index, q, fp, x));
            let i = choose|i: int| 0 <= i < docs.len() && #[trigger] docs[i].id == x && direct_selected(tok, q, fp, docs[i]);
            assert(pred(docs[i]));
            assert(sel.contains(docs[i]));
            let k = choose|k: int| 0 <= k < sel.len() && sel[k] == docs[i];
            assert(ib[k] == x);
        }
        if ib.contains(x) {
            let k = choose|k: int| 0 <= k < ib.len() && ib[k] == x;
            assert(pred(sel[k]));
            assert(docs.contains(sel[k]));
            let i = choose|i: int| 0 <= i < docs.len() && docs[i] == sel[k];
            assert(docs[i].id == x);
            assert(selected(index, q, fp, x));
            let a = choose|a: int| 0 <= a < r.len() && #[trigger] r[a].doc_id == x;
            assert(ia[a] == x);
        }
    }
    lemma_increasing_unique(ia, ib);
    assert forall|k: int| 0 <= k < r.len() implies {
        &&& #[trigger] r[k].doc_id == rd[k].doc_id
        &&& r[k].path@ == rd[k].path@
        &&& r[k].title@ == rd[k].title@
        &&& views(r[k].matched_terms@) == views(rd[k].matched_terms@)
        &&& views(r[k].title_matches@) == views(rd[k].title_matches@)
    } by {
        assert(ia[k] == ib[k]);
        assert(pred(sel[k]));
        assert(docs.contains(sel[k]));
        let i = choose|i: int| 0 <= i < docs.len() && docs[i] == sel[k];
        assert(candidate_spec(index, q, tok, fp, r[k]));
        lemma_candidates_agree(tok, index, q, fp, i, r[k], rd[k]);
    }
}

/// What a candidate of the index search reports of its document, scores
/// aside.
pub open spec fn candidate_report(c: Candidate) -> (
    usize,
    Seq<char>,
    Seq<char>,
    Seq<Seq<char>>,
    Seq<Seq<char>>,
) {
    (c.doc_id, c.path@, c.title@, views(c.matched_terms@), views(c.title_matches@))
}

/// What a candidate of the direct scan reports of its document, scores
/// aside.
pub open spec fn direct_report(c: DirectCandidate) -> (
    usize,
    Seq<char>,
    Seq<char>,
    Seq<Seq<char>>,
    Seq<Seq<char>>,
) {
    (c.doc_id, c.path@, c.title@, views(c.matched_terms@), views(c.title_matches@))
}

/// Filtering documents with distinct ids keeps the ids distinct, and keeps
/// only documents of the sequence filtered.
proof fn lemma_filter_ids_distinct(docs: Seq<Document>, pred: spec_fn(Document) -> bool)
    requires
        ids_distinct(docs),
    ensures
        ids_distinct(docs.filter(pred)),
        forall|k: int| 0 <= k < docs.filter(pred).len() ==> docs.contains(#[trigger] docs.filter(pred)[k]),
    decreases docs.len(),
{
    reveal(Seq::filter);
    if docs.len() > 0 {
        let init = docs.drop_last();
        assert forall|a: int, b: int| #![trigger init[a], init[b]] 0 <= a < b < init.len() implies init[a].id != init[b].id by {
            assert(init[a] == docs[a] && init[b] == docs[b]);
        }
        lemma_filter_ids_distinct(init, pred);
        let fi = init.filter(pred);
        let f = docs.filter(pred);
        assert forall|k: int| 0 <= k < fi.len() implies docs.contains(#[trigger] fi[k]) && fi[k].id != docs.last().id by {
            let m = choose|m: int| 0 <= m < init.len() && init[m] == fi[k];
            assert(docs[m] == fi[k]);
            assert(docs[m].id != docs[docs.len() - 1].id);
        }
        if pred(docs.last()) {
            assert(f == fi.push(docs.last()));
            assert forall|a: int, b: int| #![trigger f[a], f[b]] 0 <= a < b < f.len() implies f[a].id != f[b].id by {
                if b == f.len() - 1 {
                    assert(f[a] == fi[a]);
                } else {
                    assert(f[a] == fi[a] && f[b] == fi[b]);
                }
            }
            assert forall|k: int| 0 <= k < f.len() implies docs.contains(#[trigger] f[k]) by {
                if k == f.len() - 1 {
                    assert(docs[docs.len() - 1] == f[k]);
                } else {
                    assert(f[k] == fi[k]);
                }
            }
        } else {
            assert(f == fi);
        }
    }
}

/// Sequences without repeats that hold the same elements are equal as
/// multisets.
proof fn lemma_no_dup_same_multiset<A>(a: Seq<A>, b: Seq<A>)
    requires
        a.no_duplicates(),
        b.no_duplicates(),
        forall|x: A| a.contains(x) <==> b.contains(x),
    ensures
        a.to_multiset() == b.to_multiset(),
{
    broadcast use vstd::seq_lib::group_to_multiset_ensures;

    a.lemma_multiset_has_no_duplicates();
    b.lemma_multiset_has_no_duplicates();
    assert forall|x: A| a.to_multiset().count(x) == b.to_multiset().count(x) by {
        if a.contains(x) {
            assert(a.to_multiset().count(x) > 0);
            assert(b.to_multiset().count(x) > 0);
        }
    }
    assert(a.to_multiset() =~= b.to_multiset());
}

/// For documents with distinct ids, in any order, the index search and the
/// direct scan report the same documents: as multisets, their candidates
/// agree in document id, path, title, matched terms and title matches.
pub proof fn lemma_candidate_multisets_agree<T: Tokenizer>(
    tok: &T,
    index: SearchIndex,
    q: ParsedQuery,
    fp: Option<Seq<char>>,
    r: Seq<Candidate>,
    rd: Seq<DirectCandidate>,
)
    requires
        indexes(tok, index.documents@, index.inverted_index@),
        ids_distinct(index.documents@),
        candidates_spec(index, q, tok, fp, r),
        rd.len() == direct_selection(tok, q, fp, index.documents@).len(),
        forall|k: int|
            0 <= k < rd.len() ==> direct_candidate_spec(
                tok,
                q,
                direct_selection(tok, q, fp, index.documents@)[k],
                #[trigger] rd[k],
            ),
    ensures
        r.map_values(|c: Candidate| candidate_report(c)).to_multiset() == rd.map_values(
            |c: DirectCandidate| direct_report(c),
        ).to_multiset(),
{
    let docs = index.documents@;
    let pred = |doc: Document| direct_selected(tok, q, fp, doc);
    let sel = direct_selection(tok, q, fp, docs);
    assert(sel == docs.filter(pred));
    lemma_filter_ids_distinct(docs, pred);
    docs.filter_lemma(pred);
    let a = r.map_values(|c: Candidate| candidate_report(c));
    let b = rd.map_values(|c: DirectCandidate| direct_report(c));
    assert(a.no_duplicates()) by {
        assert forall|i: int, j: int| 0 <= i < a.len() && 0 <= j < a.len() && i != j implies a[i] != a[j] by {
            if i < j {
                assert(r[i].doc_id < r[j].doc_id);
            } else {
                assert(r[j].doc_id < r[i].doc_id);
            }
        }
    }
    assert(b.no_duplicates()) by {
        assert forall|i: int, j: int| 0 <= i < b.len() && 0 <= j < b.len() && i != j implies b[i] != b[j] by {
            assert(rd[i].doc_id == sel[i].id && rd[j].doc_id == sel[j].id);
            if i < j {
                assert(sel[i].id != sel[j].id);
            } else {
                assert(sel[j].id != sel[i].id);
            }
        }
    }
    assert forall|x: (usize, Seq<char>, Seq<char>, Seq<Seq<char>>, Seq<Seq<char>>)| a.contains(x) <==> b.contains(x) by {
        if a.contains(x) {
            let ka = choose|ka: int| 0 <= ka < a.len() && a[ka] == x;
            let d = r[ka].doc_id;
            lemma_index_search_agrees_with_scan(tok, index, q, fp, d);
            assert(selected(index, q, fp, d));
            let i = choose|i: int| 0 <= i < docs.len() && #[trigger] docs[i].id == d && direct_selected(tok, q, fp, docs[i]);
            assert(pred(docs[i]));
            assert(sel.contains(docs[i]));
            let k = choose|k: int| 0 <= k < sel.len() && sel[k] == docs[i];
            assert(candidate_spec(index, q, tok, fp, r[ka]));
            lemma_candidates_agree(tok, index, q, fp, i, r[ka], rd[k]);
            assert(b[k] == x);
        }
        if b.contains(x) {
            let k = choose|k: int| 0 <= k < b.len() && b[k] == x;
            assert(pred(sel[k]));
            assert(docs.contains(sel[k]));
            let i = choose|i: int| 0 <= i < docs.len() && docs[i] == sel[k];
            let d = docs[i].id;
            lemma_index_search_agrees_with_scan(tok, index, q, fp, d);
            assert(selected(index, q, fp, d));
            let ka = choose|ka: int| 0 <= ka < r.len() && #[trigger] r[ka].doc_id == d;
            assert(candidate_spec(index, q, tok, fp, r[ka]));
            lemma_candidates_agree(tok, index, q, fp, i, r[ka], rd[k]);
            assert(a[ka] == x);
        }
    }
    lemma_no_dup_same_multiset(a, b);
}

} // verus!
