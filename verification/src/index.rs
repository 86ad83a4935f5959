//! The inverted index: for every term, the documents that hold it and where.
use crate::document::Document;
use crate::text::{
    char_views, chars_of, views, compare_chars, lemma_seq_lt_irreflexive, lemma_seq_lt_transitive,
    seq_lt, sorted_strict,
};
use crate::tokenizer::Tokenizer;
use vstd::prelude::*;

verus! {

/// Where one term occurs in one document.
#[derive(Debug, Clone, PartialEq, Eq)]
pub struct Posting {
    pub doc_id: usize,
    /// Number of occurrences; equal to `positions.len()`.
    pub term_freq: usize,
    /// Token positions of the occurrences.
    pub positions: Vec<usize>,
}

/// A term and its postings, ordered by document id.
#[derive(Debug, Clone, PartialEq, Eq)]
pub struct IndexEntry {
    pub term: String,
    pub postings: Vec<Posting>,
}

/// The entries of the index, ordered by term.
pub type InvertedIndex = Vec<IndexEntry>;

/// The whole search index as it is stored on disk.
#[derive(Debug, Clone, PartialEq, Eq)]
pub struct SearchIndex {
    pub documents: Vec<Document>,
    pub inverted_index: InvertedIndex,
    pub total_docs: usize,
    pub total_tokens: usize,
}

/// Positions in `toks` where the term `t` stands, in increasing order.
pub open spec fn term_positions(toks: Seq<Seq<char>>, t: Seq<char>) -> Seq<usize>
    decreases toks.len(),
{
    if toks.len() == 0 {
        seq![]
    } else {
        term_positions(toks.drop_last(), t) + if toks.last() == t {
            seq![(toks.len() - 1) as usize]
        } else {
            seq![]
        }
    }
}

/// The terms of a document's content.
pub open spec fn doc_tokens<T: Tokenizer>(tok: &T, doc: Document) -> Seq<Seq<char>> {
    tok.spec_tokenize(doc.content@)
}

/// The positions of term `t` in the documents with id `d`: those of each such
/// document in turn, in the order of `docs`.
pub open spec fn doc_term_positions<T: Tokenizer>(
    tok: &T,
    docs: Seq<Document>,
    t: Seq<char>,
    d: usize,
) -> Seq<usize>
    decreases docs.len(),
{
    if docs.len() == 0 {
        seq![]
    } else {
        doc_term_positions(tok, docs.drop_last(), t, d) + if docs.last().id == d {
            term_positions(doc_tokens(tok, docs.last()), t)
        } else {
            seq![]
        }
    }
}

/// Sum of the token counts of `docs`.
pub open spec fn sum_token_counts(docs: Seq<Document>) -> int
    decreases docs.len(),
{
    if docs.len() == 0 {
        0
    } else {
        sum_token_counts(docs.drop_last()) + docs.last().token_count
    }
}

/// The terms of the entries, in order.
pub open spec fn entry_terms(idx: Seq<IndexEntry>) -> Seq<Seq<char>> {
    idx.map_values(|e: IndexEntry| e.term@)
}

/// A posting list is non-empty, ordered by strictly increasing document id,
/// and each posting has occurrences and counts them in `term_freq`.
pub open spec fn postings_wf(ps: Seq<Posting>) -> bool {
    &&& ps.len() > 0
    &&& forall|a: int, b: int| #![trigger ps[a], ps[b]] 0 <= a < b < ps.len() ==> ps[a].doc_id < ps[b].doc_id
    &&& forall|k: int| #![trigger ps[k]] 0 <= k < ps.len() ==> ps[k].positions@.len() > 0 && ps[k].term_freq == ps[k].positions@.len()
}

/// Entries are ordered by strictly increasing term, and their posting lists
/// are well formed.
pub open spec fn index_wf(idx: Seq<IndexEntry>) -> bool {
    &&& sorted_strict(entry_terms(idx))
    &&& forall|i: int| 0 <= i < idx.len() ==> postings_wf(#[trigger] idx[i].postings@)
}

/// The index holds exactly the occurrences that `f` gives: each posting holds
/// `f` of its term and document, and each term and document for which `f` is
/// not empty has a posting.
pub open spec fn represents(idx: Seq<IndexEntry>, f: spec_fn(Seq<char>, usize) -> Seq<usize>) -> bool {
    &&& forall|i: int, k: int|
        0 <= i < idx.len() && 0 <= k < idx[i].postings@.len() ==> #[trigger] idx[i].postings@[k].positions@
            == f(idx[i].term@, idx[i].postings@[k].doc_id)
    &&& forall|t: Seq<char>, d: usize| #[trigger] f(t, d).len() > 0 ==> exists|i: int, k: int|
        0 <= i < idx.len() && 0 <= k < idx[i].postings@.len() && idx[i].term@ == t && #[trigger] idx[i].postings@[k].doc_id == d
}

/// The index of `docs`: for every term and document id, the positions of that
/// term in the documents with that id.
pub open spec fn indexes<T: Tokenizer>(tok: &T, docs: Seq<Document>, idx: Seq<IndexEntry>) -> bool {
    &&& index_wf(idx)
    &&& represents(idx, |t: Seq<char>, d: usize| doc_term_positions(tok, docs, t, d))
}

/// The postings of term `t`, empty when the index lacks it (the first entry
/// for `t` if, against well-formedness, there are several).
pub open spec fn term_postings(idx: Seq<IndexEntry>, t: Seq<char>) -> Seq<Posting> {
    match first_entry(idx, t, 0) {
        Some(i) => idx[i].postings@,
        None => seq![],
    }
}

/// First index at or after `from` of an entry for `t`.
pub open spec fn first_entry(idx: Seq<IndexEntry>, t: Seq<char>, from: int) -> Option<int>
    decreases idx.len() - from,
{
    if from < 0 || from >= idx.len() {
        None
    } else if idx[from].term@ == t {
        Some(from)
    } else {
        first_entry(idx, t, from + 1)
    }
}

/// First index at or after `from` of a document with id `id`.
pub open spec fn first_doc(docs: Seq<Document>, id: usize, from: int) -> Option<int>
    decreases docs.len() - from,
{
    if from < 0 || from >= docs.len() {
        None
    } else if docs[from].id == id {
        Some(from)
    } else {
        first_doc(docs, id, from + 1)
    }
}

/// The first document with id `id`.
pub open spec fn doc_by_id(docs: Seq<Document>, id: usize) -> Option<Document> {
    match first_doc(docs, id, 0) {
        Some(i) => Some(docs[i]),
        None => None,
    }
}

pub proof fn lemma_first_entry(idx: Seq<IndexEntry>, t: Seq<char>, from: int)
    requires
        0 <= from,
    ensures
        first_entry(idx, t, from) matches Some(i) ==> from <= i < idx.len() && idx[i].term@ == t,
        first_entry(idx, t, from) is None ==> forall|i: int|
            from <= i < idx.len() ==> idx[i].term@ != t,
    decreases idx.len() - from,
{
    if from < idx.len() && idx[from].term@ != t {
        lemma_first_entry(idx, t, from + 1);
    }
}

pub proof fn lemma_first_doc(docs: Seq<Document>, id: usize, from: int)
    requires
        0 <= from,
    ensures
        first_doc(docs, id, from) matches Some(i) ==> from <= i < docs.len() && docs[i].id == id
            && forall|k: int| from <= k < i ==> docs[k].id != id,
        first_doc(docs, id, from) is None ==> forall|i: int|
            from <= i < docs.len() ==> docs[i].id != id,
    decreases docs.len() - from,
{
    if from < docs.len() && docs[from].id != id {
        lemma_first_doc(docs, id, from + 1);
    }
}

/// In a well-formed index each term has at most one entry.
pub proof fn lemma_unique_term(idx: Seq<IndexEntry>, i: int, j: int)
    requires
        sorted_strict(entry_terms(idx)),
        0 <= i < idx.len(),
        0 <= j < idx.len(),
        idx[i].term@ == idx[j].term@,
    ensures
        i == j,
{
    let s = entry_terms(idx);
    if i < j {
        assert(seq_lt(s[i], s[j]));
        lemma_seq_lt_irreflexive(s[i]);
    } else if j < i {
        assert(seq_lt(s[j], s[i]));
        lemma_seq_lt_irreflexive(s[i]);
    }
}

/// Position of `t` among the strictly sorted `terms`, or where it would go.
fn find_term(terms: &Vec<Vec<char>>, t: &[char]) -> (r: (bool, usize))
    requires
        sorted_strict(char_views(terms@)),
    ensures
        r.1 <= terms@.len(),
        r.0 ==> r.1 < terms@.len() && terms@[r.1 as int]@ == t@,
        !r.0 ==> (forall|i: int| 0 <= i < r.1 ==> seq_lt(#[trigger] terms@[i]@, t@)) && (forall|
            i: int,
        | r.1 <= i < terms@.len() ==> seq_lt(t@, #[trigger] terms@[i]@)),
{
    let ghost s = char_views(terms@);
    let mut lo: usize = 0;
    let mut hi: usize = terms.len();
    while lo < hi
        invariant
            lo <= hi <= terms@.len(),
            s == char_views(terms@),
            sorted_strict(s),
            forall|i: int| 0 <= i < lo ==> seq_lt(#[trigger] terms@[i]@, t@),
            forall|i: int| hi <= i < terms@.len() ==> seq_lt(t@, #[trigger] terms@[i]@),
        decreases hi - lo,
    {
        let mid = lo + (hi - lo) / 2;
        let c = compare_chars(&terms[mid], t);
        if c == 0 {
            return (true, mid);
        } else if c < 0 {
            proof {
                assert forall|i: int| 0 <= i < mid + 1 implies seq_lt(#[trigger] terms@[i]@, t@) by {
                    if i < mid {
                        assert(s[i] == terms@[i]@ && s[mid as int] == terms@[mid as int]@);
                        assert(seq_lt(s[i], s[mid as int]));
                        lemma_seq_lt_transitive(terms@[i]@, terms@[mid as int]@, t@);
                    }
                }
            }
            lo = mid + 1;
        } else {
            proof {
                assert forall|i: int| mid <= i < terms@.len() implies seq_lt(
                    t@,
                    #[trigger] terms@[i]@,
                ) by {
                    if i > mid {
                        assert(s[i] == terms@[i]@ && s[mid as int] == terms@[mid as int]@);
                        assert(seq_lt(s[mid as int], s[i]));
                        lemma_seq_lt_transitive(t@, terms@[mid as int]@, terms@[i]@);
                    }
                }
            }
            hi = mid;
        }
    }
    (false, lo)
}

/// Position of the posting for document `d`, or where it would go.
fn find_posting(ps: &Vec<Posting>, d: usize) -> (r: (bool, usize))
    requires
        forall|a: int, b: int| #![trigger ps@[a], ps@[b]] 0 <= a < b < ps@.len() ==> ps@[a].doc_id < ps@[b].doc_id,
    ensures
        r.1 <= ps@.len(),
        r.0 ==> r.1 < ps@.len() && ps@[r.1 as int].doc_id == d,
        !r.0 ==> (forall|i: int| 0 <= i < r.1 ==> #[trigger] ps@[i].doc_id < d) && (forall|i: int|
            r.1 <= i < ps@.len() ==> d < #[trigger] ps@[i].doc_id),
{
    let mut lo: usize = 0;
    let mut hi: usize = ps.len();
    while lo < hi
        invariant
            lo <= hi <= ps@.len(),
            forall|a: int, b: int| #![trigger ps@[a], ps@[b]] 0 <= a < b < ps@.len() ==> ps@[a].doc_id < ps@[b].doc_id,
            forall|i: int| 0 <= i < lo ==> #[trigger] ps@[i].doc_id < d,
            forall|i: int| hi <= i < ps@.len() ==> d < #[trigger] ps@[i].doc_id,
        decreases hi - lo,
    {
        let mid = lo + (hi - lo) / 2;
        let m = ps[mid].doc_id;
        if m == d {
            return (true, mid);
        } else if m < d {
            proof {
                assert forall|i: int| 0 <= i < mid + 1 implies #[trigger] ps@[i].doc_id < d by {
                    if i < mid {
                        assert(ps@[i].doc_id < ps@[mid as int].doc_id);
                    }
                }
            }
            lo = mid + 1;
        } else {
            proof {
                assert forall|i: int| mid <= i < ps@.len() implies d < #[trigger] ps@[i].doc_id by {
                    if i > mid {
                        assert(ps@[mid as int].doc_id < ps@[i].doc_id);
                    }
                }
            }
            hi = mid;
        }
    }
    (false, lo)
}

/// `f` with one more occurrence: term `x` at position `j` of document `d0`.
pub open spec fn with_occurrence(
    f: spec_fn(Seq<char>, usize) -> Seq<usize>,
    x: Seq<char>,
    d0: usize,
    j: usize,
) -> spec_fn(Seq<char>, usize) -> Seq<usize> {
    |t: Seq<char>, d: usize|
        if t == x && d == d0 {
            f(t, d).push(j)
        } else {
            f(t, d)
        }
}

/// Records one occurrence of `term` at position `j` of document `d0`.
#[verifier::spinoff_prover]
#[verifier::rlimit(40)]
fn record_occurrence(
    entries: &mut Vec<IndexEntry>,
    terms: &mut Vec<Vec<char>>,
    term: &String,
    d0: usize,
    j: usize,
    Ghost(f): Ghost<spec_fn(Seq<char>, usize) -> Seq<usize>>,
)
    requires
        index_wf(old(entries)@),
        char_views(old(terms)@) == entry_terms(old(entries)@),
        represents(old(entries)@, f),
    ensures
        index_wf(final(entries)@),
        char_views(final(terms)@) == entry_terms(final(entries)@),
        represents(final(entries)@, with_occurrence(f, term@, d0, j)),
{
    let ghost old_e = entries@;
    let ghost g = with_occurrence(f, term@, d0, j);
    let tc = chars_of(term.as_str());
    let (found, ti) = find_term(terms, &tc);
    assert(char_views(terms@).len() == entry_terms(entries@).len());
    assert(char_views(terms@).len() == terms@.len());
    assert(entry_terms(entries@).len() == entries@.len());
    if !found {
        proof {
            // The term is new, so `f` has no occurrence of it.
            assert forall|i: int| 0 <= i < old_e.len() implies old_e[i].term@ != term@ by {
                assert(char_views(terms@)[i] == terms@[i]@);
                assert(terms@[i]@ == entry_terms(old_e)[i]);
                lemma_seq_lt_irreflexive(tc@);
                if i < ti {
                    assert(seq_lt(terms@[i]@, tc@));
                } else {
                    assert(seq_lt(tc@, terms@[i]@));
                }
            }
            if f(term@, d0).len() > 0 {
                let (i, k) = choose|i: int, k: int|
                    0 <= i < old_e.len() && 0 <= k < old_e[i].postings@.len() && old_e[i].term@
                        == term@ && #[trigger] old_e[i].postings@[k].doc_id == d0;
                assert(char_views(terms@)[i] == terms@[i]@);
                assert(terms@[i]@ == entry_terms(old_e)[i]);
                if i < ti {
                    assert(seq_lt(terms@[i]@, tc@));
                } else {
                    assert(seq_lt(tc@, terms@[i]@));
                }
                lemma_seq_lt_irreflexive(tc@);
            }
        }
        let mut positions: Vec<usize> = Vec::new();
        positions.push(j);
        let mut postings: Vec<Posting> = Vec::new();
        postings.push(Posting { doc_id: d0, term_freq: 1, positions });
        let entry = IndexEntry { term: term.clone(), postings };
        entries.insert(ti, entry);
        terms.insert(ti, tc);
        proof {
            let ne = entries@;
            assert(entry_terms(ne) =~= entry_terms(old_e).insert(ti as int, term@));
            assert(char_views(terms@) =~= entry_terms(ne));
            crate::text::lemma_sorted_insert(entry_terms(old_e), ti as int, term@);
            assert forall|i: int| 0 <= i < ne.len() implies postings_wf(#[trigger] ne[i].postings@) by {
                if i < ti {
                    assert(ne[i] == old_e[i]);
                } else if i > ti {
                    assert(ne[i] == old_e[i - 1]);
                }
            }
            assert forall|i: int, k: int|
                0 <= i < ne.len() && 0 <= k < ne[i].postings@.len() implies #[trigger] ne[i].postings@[k].positions@
                == g(ne[i].term@, ne[i].postings@[k].doc_id) by {
                if i < ti {
                    assert(ne[i] == old_e[i]);
                    assert(old_e[i].term@ != term@);
                } else if i > ti {
                    assert(ne[i] == old_e[i - 1]);
                    assert(old_e[i - 1].term@ != term@);
                } else {
                    assert(f(term@, d0) =~= seq![]);
                }
            }
            assert forall|t: Seq<char>, d: usize| #[trigger] g(t, d).len() > 0 implies exists|
                i: int,
                k: int,
            |
                0 <= i < ne.len() && 0 <= k < ne[i].postings@.len() && ne[i].term@ == t
                    && #[trigger] ne[i].postings@[k].doc_id == d by {
                if t == term@ && d == d0 {
                    assert(ne[ti as int].postings@[0].doc_id == d);
                } else {
                    assert(f(t, d).len() > 0);
                    let (i, k) = choose|i: int, k: int|
                        0 <= i < old_e.len() && 0 <= k < old_e[i].postings@.len() && old_e[i].term@
                            == t && #[trigger] old_e[i].postings@[k].doc_id == d;
                    if i < ti {
                        assert(ne[i] == old_e[i]);
                        assert(ne[i].postings@[k].doc_id == d);
                    } else {
                        assert(ne[i + 1] == old_e[i]);
                        assert(ne[i + 1].postings@[k].doc_id == d);
                    }
                }
            }
        }
    } else {
        proof {
            assert(char_views(terms@)[ti as int] == terms@[ti as int]@);
            assert(entry_terms(old_e)[ti as int] == terms@[ti as int]@);
        }
        let (pfound, pi) = find_posting(&entries[ti].postings, d0);
        let ghost old_ps = old_e[ti as int].postings@;
        if !pfound {
            proof {
                if f(term@, d0).len() > 0 {
                    let (i, k) = choose|i: int, k: int|
                        0 <= i < old_e.len() && 0 <= k < old_e[i].postings@.len() && old_e[i].term@
                            == term@ && #[trigger] old_e[i].postings@[k].doc_id == d0;
                    lemma_unique_term(old_e, i, ti as int);
                    if k < pi {
                        assert(old_ps[k].doc_id < d0);
                    } else {
                        assert(d0 < old_ps[k].doc_id);
                    }
                }
            }
            let mut positions: Vec<usize> = Vec::new();
            positions.push(j);
            entries[ti].postings.insert(pi, Posting { doc_id: d0, term_freq: 1, positions });
            proof {
                let ne = entries@;
                let nps = ne[ti as int].postings@;
                assert(nps == old_ps.insert(pi as int, Posting { doc_id: d0, term_freq: 1, positions }));
                assert(ne[ti as int].term@ == term@);
                assert forall|i: int| 0 <= i < ne.len() implies ne[i].term@ == old_e[i].term@ by {}
                assert(entry_terms(ne) =~= entry_terms(old_e));
                assert(char_views(terms@) =~= entry_terms(ne));
                assert(postings_wf(nps)) by {
                    assert forall|a: int, b: int| #![trigger nps[a], nps[b]] 0 <= a < b < nps.len() implies nps[a].doc_id
                        < nps[b].doc_id by {
                        if b < pi {
                        } else if b == pi {
                        } else if a < pi {
                        } else if a == pi {
                        } else {
                            assert(nps[a] == old_ps[a - 1] && nps[b] == old_ps[b - 1]);
                        }
                    }
                    assert forall|k: int| #![trigger nps[k]] 0 <= k < nps.len() implies nps[k].positions@.len()
                        > 0 && nps[k].term_freq == nps[k].positions@.len() by {
                        if k < pi {
                            assert(nps[k] == old_ps[k]);
                        } else if k > pi {
                            assert(nps[k] == old_ps[k - 1]);
                        }
                    }
                }
                assert forall|i: int| 0 <= i < ne.len() implies postings_wf(#[trigger] ne[i].postings@) by {
                    if i != ti {
                        assert(ne[i] == old_e[i]);
                    }
                }
                assert forall|i: int, k: int|
                    0 <= i < ne.len() && 0 <= k < ne[i].postings@.len() implies #[trigger] ne[i].postings@[k].positions@
                    == g(ne[i].term@, ne[i].postings@[k].doc_id) by {
                    if i != ti {
                        assert(ne[i] == old_e[i]);
                        if old_e[i].term@ == term@ {
                            lemma_unique_term(old_e, i, ti as int);
                        }
                    } else if k < pi {
                        assert(nps[k] == old_ps[k]);
                    } else if k > pi {
                        assert(nps[k] == old_ps[k - 1]);
                    } else {
                        assert(f(term@, d0) =~= seq![]);
                    }
                }
                assert forall|t: Seq<char>, d: usize| #[trigger] g(t, d).len() > 0 implies exists|
                    i: int,
                    k: int,
                |
                    0 <= i < ne.len() && 0 <= k < ne[i].postings@.len() && ne[i].term@ == t
                        && #[trigger] ne[i].postings@[k].doc_id == d by {
                    if t == term@ && d == d0 {
                        assert(ne[ti as int].postings@[pi as int].doc_id == d);
                    } else {
                        assert(f(t, d).len() > 0);
                        let (i, k) = choose|i: int, k: int|
                            0 <= i < old_e.len() && 0 <= k < old_e[i].postings@.len()
                                && old_e[i].term@ == t && #[trigger] old_e[i].postings@[k].doc_id
                                == d;
                        if i != ti {
                            assert(ne[i] == old_e[i]);
                            assert(ne[i].postings@[k].doc_id == d);
                        } else if k < pi {
                            assert(nps[k] == old_ps[k]);
                            assert(ne[i].postings@[k].doc_id == d);
                        } else {
                            assert(nps[k + 1] == old_ps[k]);
                            assert(ne[i].postings@[k + 1].doc_id == d);
                        }
                    }
                }
            }
        } else {
            entries[ti].postings[pi].positions.push(j);
            let n = entries[ti].postings[pi].positions.len();
            entries[ti].postings[pi].term_freq = n;
            proof {
                let ne = entries@;
                let nps = ne[ti as int].postings@;
                assert(ne[ti as int].term@ == term@);
                assert(nps[pi as int].doc_id == d0);
                assert(nps[pi as int].positions@ == old_ps[pi as int].positions@.push(j));
                assert(forall|k: int| 0 <= k < nps.len() && k != pi ==> nps[k] == old_ps[k]);
                assert forall|i: int| 0 <= i < ne.len() implies ne[i].term@ == old_e[i].term@ by {}
                assert(entry_terms(ne) =~= entry_terms(old_e));
                assert(char_views(terms@) =~= entry_terms(ne));
                assert(postings_wf(nps)) by {
                    assert forall|a: int, b: int| #![trigger nps[a], nps[b]] 0 <= a < b < nps.len() implies nps[a].doc_id
                        < nps[b].doc_id by {
                        assert(old_ps[a].doc_id < old_ps[b].doc_id);
                    }
                    assert forall|k: int| #![trigger nps[k]] 0 <= k < nps.len() implies nps[k].positions@.len()
                        > 0 && nps[k].term_freq == nps[k].positions@.len() by {
                        assert(old_ps[k].positions@.len() > 0);
                    }
                }
                assert forall|i: int| 0 <= i < ne.len() implies postings_wf(#[trigger] ne[i].postings@) by {
                    if i != ti {
                        assert(ne[i] == old_e[i]);
                    }
                }
                assert forall|i: int, k: int|
                    0 <= i < ne.len() && 0 <= k < ne[i].postings@.len() implies #[trigger] ne[i].postings@[k].positions@
                    == g(ne[i].term@, ne[i].postings@[k].doc_id) by {
                    if i != ti {
                        assert(ne[i] == old_e[i]);
                        if old_e[i].term@ == term@ {
                            lemma_unique_term(old_e, i, ti as int);
                        }
                    } else if k != pi {
                        assert(nps[k] == old_ps[k]);
                        assert(old_ps[k].doc_id != d0) by {
                            if k < pi {
                                assert(old_ps[k].doc_id < old_ps[pi as int].doc_id);
                            } else {
                                assert(old_ps[pi as int].doc_id < old_ps[k].doc_id);
                            }
                        }
                    } else {
                        assert(old_ps[pi as int].positions@ == f(term@, d0));
                    }
                }
                assert forall|t: Seq<char>, d: usize| #[trigger] g(t, d).len() > 0 implies exists|
                    i: int,
                    k: int,
                |
                    0 <= i < ne.len() && 0 <= k < ne[i].postings@.len() && ne[i].term@ == t
                        && #[trigger] ne[i].postings@[k].doc_id == d by {
                    if t == term@ && d == d0 {
                        assert(ne[ti as int].postings@[pi as int].doc_id == d);
                    } else {
                        assert(f(t, d).len() > 0);
                        let (i, k) = choose|i: int, k: int|
                            0 <= i < old_e.len() && 0 <= k < old_e[i].postings@.len()
                                && old_e[i].term@ == t && #[trigger] old_e[i].postings@[k].doc_id
                                == d;
                        if i != ti {
                            assert(ne[i] == old_e[i]);
                        } else {
                            assert(nps[k].doc_id == old_ps[k].doc_id);
                        }
                        assert(ne[i].postings@[k].doc_id == d);
                    }
                }
            }
        }
    }
}

/// Positions of `t` in `toks.take(j + 1)`: those in `toks.take(j)`, then `j`
/// when the term at `j` is `t`.
pub proof fn lemma_term_positions_step(toks: Seq<Seq<char>>, t: Seq<char>, j: int)
    requires
        0 <= j < toks.len(),
    ensures
        term_positions(toks.take(j + 1), t) == term_positions(toks.take(j), t) + if toks[j] == t {
            seq![j as usize]
        } else {
            seq![]
        },
{
    let s = toks.take(j + 1);
    assert(s.drop_last() =~= toks.take(j));
    assert(s.last() == toks[j]);
}

/// The sum of the first `i + 1` token counts.
pub proof fn lemma_sum_step(docs: Seq<Document>, i: int)
    requires
        0 <= i < docs.len(),
    ensures
        sum_token_counts(docs.take(i + 1)) == sum_token_counts(docs.take(i)) + docs[i].token_count,
{
    assert(docs.take(i + 1).drop_last() =~= docs.take(i));
}

/// Partial sums grow up to the whole sum.
pub proof fn lemma_sum_prefix_le(docs: Seq<Document>, i: int)
    requires
        0 <= i <= docs.len(),
    ensures
        0 <= sum_token_counts(docs.take(i)) <= sum_token_counts(docs),
    decreases docs.len() - i,
{
    if i < docs.len() {
        lemma_sum_step(docs, i);
        lemma_sum_prefix_le(docs, i + 1);
        lemma_sum_nonneg(docs.take(i));
    } else {
        assert(docs.take(i) =~= docs);
        lemma_sum_nonneg(docs);
    }
}

pub proof fn lemma_sum_nonneg(docs: Seq<Document>)
    ensures
        sum_token_counts(docs) >= 0,
    decreases docs.len(),
{
    if docs.len() > 0 {
        lemma_sum_nonneg(docs.drop_last());
    }
}

/// Builds the inverted index of `documents`: for every term, one posting per
/// document id that holds it, with the token positions of its occurrences;
/// postings are ordered by document id and entries by term. Documents that
/// share an id share one posting, their positions following document order.
pub fn build_index<T: Tokenizer>(documents: Vec<Document>, tokenizer: &T) -> (index: SearchIndex)
    requires
        sum_token_counts(documents@) <= usize::MAX,
    ensures
        index.documents@ == documents@,
        index.total_docs == documents@.len(),
        index.total_tokens == sum_token_counts(documents@),
        indexes(tokenizer, documents@, index.inverted_index@),
{
    let ghost docs = documents@;
    let mut entries: Vec<IndexEntry> = Vec::new();
    let mut terms: Vec<Vec<char>> = Vec::new();
    let mut di: usize = 0;
    proof {
        let f0 = |t: Seq<char>, d: usize| doc_term_positions(tokenizer, docs.take(0), t, d);
        assert forall|t: Seq<char>, d: usize| #[trigger] f0(t, d).len() == 0 by {
            assert(docs.take(0).len() == 0);
        }
        assert(entry_terms(entries@) =~= seq![]);
        assert(char_views(terms@) =~= seq![]);
    }
    while di < documents.len()
        invariant
            docs == documents@,
            di <= docs.len(),
            index_wf(entries@),
            char_views(terms@) == entry_terms(entries@),
            represents(
                entries@,
                |t: Seq<char>, d: usize| doc_term_positions(tokenizer, docs.take(di as int), t, d),
            ),
        decreases docs.len() - di,
    {
        let tokens = tokenizer.tokenize(documents[di].content.as_str());
        let ghost toks = views(tokens@);
        let d0 = documents[di].id;
        let ghost before = |t: Seq<char>, d: usize|
            doc_term_positions(tokenizer, docs.take(di as int), t, d);
        let mut j: usize = 0;
        proof {
            let f0 = |t: Seq<char>, d: usize|
                before(t, d) + if d == d0 {
                    term_positions(toks.take(0), t)
                } else {
                    seq![]
                };
            assert forall|t: Seq<char>, d: usize| #[trigger] f0(t, d) == before(t, d) by {
                assert(toks.take(0).len() == 0);
                assert(before(t, d) + seq![] =~= before(t, d));
            }
            assert(f0 =~= before);
        }
        while j < tokens.len()
            invariant
                docs == documents@,
                di < docs.len(),
                d0 == docs[di as int].id,
                toks == views(tokens@),
                j <= tokens@.len(),
                index_wf(entries@),
                char_views(terms@) == entry_terms(entries@),
                before == |t: Seq<char>, d: usize|
                    doc_term_positions(tokenizer, docs.take(di as int), t, d),
                represents(
                    entries@,
                    |t: Seq<char>, d: usize|
                        before(t, d) + if d == d0 {
                            term_positions(toks.take(j as int), t)
                        } else {
                            seq![]
                        },
                ),
            decreases tokens.len() - j,
        {
            let ghost fj = |t: Seq<char>, d: usize|
                before(t, d) + if d == d0 {
                    term_positions(toks.take(j as int), t)
                } else {
                    seq![]
                };
            record_occurrence(&mut entries, &mut terms, &tokens[j], d0, j, Ghost(fj));
            proof {
                let fn1 = |t: Seq<char>, d: usize|
                    before(t, d) + if d == d0 {
                        term_positions(toks.take(j + 1), t)
                    } else {
                        seq![]
                    };
                let g = with_occurrence(fj, tokens@[j as int]@, d0, j);
                assert forall|t: Seq<char>, d: usize| #[trigger] g(t, d) == fn1(t, d) by {
                    lemma_term_positions_step(toks, t, j as int);
                    assert(toks[j as int] == tokens@[j as int]@);
                    if d == d0 {
                        if t == toks[j as int] {
                            assert(g(t, d) =~= fn1(t, d));
                        } else {
                            assert(term_positions(toks.take(j as int), t) + seq![] =~= term_positions(
                                toks.take(j as int),
                                t,
                            ));
                        }
                    }
                }
                assert(g =~= fn1);
            }
            j += 1;
        }
        proof {
            let fj = |t: Seq<char>, d: usize|
                before(t, d) + if d == d0 {
                    term_positions(toks.take(j as int), t)
                } else {
                    seq![]
                };
            let next = |t: Seq<char>, d: usize|
                doc_term_positions(tokenizer, docs.take(di + 1), t, d);
            assert(toks.take(j as int) =~= toks);
            assert(docs.take(di + 1).drop_last() =~= docs.take(di as int));
            assert(docs.take(di + 1).last() == docs[di as int]);
            assert(toks == doc_tokens(tokenizer, docs[di as int]));
            assert forall|t: Seq<char>, d: usize| #[trigger] fj(t, d) == next(t, d) by {
                if d != d0 {
                    assert(before(t, d) + seq![] =~= before(t, d));
                }
            }
            assert(fj =~= next);
        }
        di += 1;
    }
    assert(docs.take(di as int) =~= docs);
    let mut total_tokens: usize = 0;
    let mut k: usize = 0;
    while k < documents.len()
        invariant
            docs == documents@,
            k <= docs.len(),
            total_tokens == sum_token_counts(docs.take(k as int)),
            sum_token_counts(docs) <= usize::MAX,
        decreases docs.len() - k,
    {
        proof {
            lemma_sum_step(docs, k as int);
            lemma_sum_prefix_le(docs, k + 1);
        }
        total_tokens = total_tokens + documents[k].token_count;
        k += 1;
    }
    assert(docs.take(k as int) =~= docs);
    let total_docs = documents.len();
    SearchIndex { documents, inverted_index: entries, total_docs, total_tokens }
}

impl SearchIndex {
    /// Number of distinct terms in the index.
    pub fn term_count(&self) -> (r: usize)
        ensures
            r == self.inverted_index@.len(),
    {
        self.inverted_index.len()
    }

    /// The first document with id `doc_id`.
    pub fn document_by_id(&self, doc_id: usize) -> (r: Option<&Document>)
        ensures
            r matches Some(d) ==> doc_by_id(self.documents@, doc_id) == Some(*d),
            r is None ==> doc_by_id(self.documents@, doc_id) is None,
    {
        let mut i: usize = 0;
        while i < self.documents.len()
            invariant
                i <= self.documents@.len(),
                first_doc(self.documents@, doc_id, 0) == first_doc(self.documents@, doc_id, i as int),
            decreases self.documents.len() - i,
        {
            if self.documents[i].id == doc_id {
                return Some(&self.documents[i]);
            }
            i += 1;
        }
        None
    }

    /// The postings of `term`, if the index holds it.
    pub fn postings(&self, term: &str) -> (r: Option<&Vec<Posting>>)
        ensures
            r matches Some(ps) ==> first_entry(self.inverted_index@, term@, 0) is Some && ps@
                == term_postings(self.inverted_index@, term@),
            r is None ==> first_entry(self.inverted_index@, term@, 0) is None,
    {
        let mut i: usize = 0;
        while i < self.inverted_index.len()
            invariant
                i <= self.inverted_index@.len(),
                first_entry(self.inverted_index@, term@, 0) == first_entry(
                    self.inverted_index@,
                    term@,
                    i as int,
                ),
            decreases self.inverted_index.len() - i,
        {
            if crate::text::compare_str(self.inverted_index[i].term.as_str(), term) == 0 {
                return Some(&self.inverted_index[i].postings);
            }
            i += 1;
        }
        None
    }

    /// The index holds an entry for `term`.
    pub fn contains_term(&self, term: &str) -> (r: bool)
        ensures
            r == (first_entry(self.inverted_index@, term@, 0) is Some),
    {
        self.postings(term).is_some()
    }
}

} // verus!
