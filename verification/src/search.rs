//! Search over the inverted index: which documents a query selects, and the
//! statistics from which a ranker scores each of them.
use crate::document::Document;
use crate::error::Result;
use crate::filter::{filter_matches, PathFilter};
use crate::index::{
    doc_by_id, first_entry, lemma_first_entry, term_postings, IndexEntry, Posting, SearchIndex,
};
use crate::query::{parse_query, positive_term_set, split_ws, ParsedQuery, QueryMode};
use crate::text::{compare_str, insert_sorted, sorted_strict, views};
use crate::tokenizer::Tokenizer;
use vstd::prelude::*;

verus! {

/// The statistics of one query term in one document, from which a ranker
/// computes that term's score.
#[derive(Debug, Clone, PartialEq, Eq)]
pub struct TermStats {
    pub term: String,
    pub term_freq: usize,
    pub document_frequency: usize,
    pub document_length: usize,
}

/// A document that a query selects, before scoring.
#[derive(Debug, Clone)]
pub struct Candidate {
    pub doc_id: usize,
    pub path: String,
    pub title: String,
    /// One entry per scored posting, in the order in which the scores add up.
    pub contributions: Vec<TermStats>,
    /// The query terms found in the document, sorted and without repeats.
    pub matched_terms: Vec<String>,
    /// The matched terms that also occur in the title, in the same order.
    pub title_matches: Vec<String>,
    /// For each matched term, the index of its last contribution: the one
    /// that explains its score.
    pub explained: Vec<usize>,
}

/// The value of a statistics record.
pub open spec fn stats_view(s: TermStats) -> (Seq<char>, usize, usize, usize) {
    (s.term@, s.term_freq, s.document_frequency, s.document_length)
}

pub open spec fn stats_views(v: Seq<TermStats>) -> Seq<(Seq<char>, usize, usize, usize)> {
    v.map_values(|s: TermStats| stats_view(s))
}

/// The document ids of the postings of the terms `excl`, term by term.
pub open spec fn excluded_ids(idx: Seq<IndexEntry>, excl: Seq<Seq<char>>) -> Seq<usize>
    decreases excl.len(),
{
    if excl.len() == 0 {
        seq![]
    } else {
        excluded_ids(idx, excl.drop_last()) + term_postings(idx, excl.last()).map_values(
            |p: Posting| p.doc_id,
        )
    }
}

/// Some excluded term has a posting for document `d`.
pub open spec fn excluded_doc(idx: Seq<IndexEntry>, excl: Seq<Seq<char>>, d: usize) -> bool {
    excluded_ids(idx, excl).contains(d)
}

/// Postings of document `d` count for the query: the document is not
/// excluded, the index holds a document with that id, and its path passes
/// the filter.
pub open spec fn doc_counts(
    index: SearchIndex,
    excl: Seq<Seq<char>>,
    filter: Option<Seq<char>>,
    d: usize,
) -> bool {
    &&& !excluded_doc(index.inverted_index@, excl, d)
    &&& doc_by_id(index.documents@, d) is Some
    &&& filter_matches(filter, doc_by_id(index.documents@, d)->0.path@)
}

/// The statistics record of posting `p` of term `t`, whose posting list has
/// `df` postings.
pub open spec fn posting_stats(index: SearchIndex, t: Seq<char>, df: usize, p: Posting) -> (
    Seq<char>,
    usize,
    usize,
    usize,
) {
    (t, p.term_freq, df, doc_by_id(index.documents@, p.doc_id)->0.token_count)
}

/// The records that the postings `ps` of term `t` give to document `d`.
pub open spec fn term_contribs(
    index: SearchIndex,
    excl: Seq<Seq<char>>,
    filter: Option<Seq<char>>,
    t: Seq<char>,
    df: usize,
    ps: Seq<Posting>,
    d: usize,
) -> Seq<(Seq<char>, usize, usize, usize)>
    decreases ps.len(),
{
    if ps.len() == 0 {
        seq![]
    } else {
        term_contribs(index, excl, filter, t, df, ps.drop_last(), d) + if ps.last().doc_id == d
            && doc_counts(index, excl, filter, d) {
            seq![posting_stats(index, t, df, ps.last())]
        } else {
            seq![]
        }
    }
}

/// The records that the query terms `terms` give to document `d`, term by
/// term and, within a term, posting by posting.
pub open spec fn contributions(
    index: SearchIndex,
    excl: Seq<Seq<char>>,
    filter: Option<Seq<char>>,
    terms: Seq<Seq<char>>,
    d: usize,
) -> Seq<(Seq<char>, usize, usize, usize)>
    decreases terms.len(),
{
    if terms.len() == 0 {
        seq![]
    } else {
        let t = terms.last();
        let ps = term_postings(index.inverted_index@, t);
        contributions(index, excl, filter, terms.drop_last(), d) + term_contribs(
            index,
            excl,
            filter,
            t,
            ps.len() as usize,
            ps,
            d,
        )
    }
}

/// The terms of a sequence of records.
pub open spec fn record_terms(cs: Seq<(Seq<char>, usize, usize, usize)>) -> Seq<Seq<char>> {
    cs.map_values(|c: (Seq<char>, usize, usize, usize)| c.0)
}

/// The query selects document `d`: it has a contribution, and in `AND` mode
/// every positive term is among its matched terms.
pub open spec fn selected(index: SearchIndex, q: ParsedQuery, filter: Option<Seq<char>>, d: usize) -> bool {
    let cs = contributions(index, views(q.excluded_terms@), filter, views(q.positive_terms@), d);
    &&& cs.len() > 0
    &&& q.mode == QueryMode::All ==> forall|i: int|
        0 <= i < q.positive_terms@.len() ==> record_terms(cs).contains(#[trigger] q.positive_terms@[i]@)
}

/// `e` is the last position in `cs` of a record for term `t`.
pub open spec fn last_record_of(cs: Seq<(Seq<char>, usize, usize, usize)>, t: Seq<char>, e: int) -> bool {
    &&& 0 <= e < cs.len()
    &&& cs[e].0 == t
    &&& forall|e2: int| e < e2 < cs.len() ==> cs[e2].0 != t
}

/// What a candidate holds for document `c.doc_id`.
pub open spec fn candidate_spec<T: Tokenizer>(
    index: SearchIndex,
    q: ParsedQuery,
    tok: &T,
    filter: Option<Seq<char>>,
    c: Candidate,
) -> bool {
    let cs = contributions(index, views(q.excluded_terms@), filter, views(q.positive_terms@), c.doc_id);
    let doc = doc_by_id(index.documents@, c.doc_id)->0;
    &&& doc_by_id(index.documents@, c.doc_id) is Some
    &&& c.path@ == doc.path@
    &&& c.title@ == doc.title@
    &&& stats_views(c.contributions@) == cs
    &&& sorted_strict(views(c.matched_terms@))
    &&& views(c.matched_terms@).to_set() == record_terms(cs).to_set()
    &&& views(c.title_matches@) == views(c.matched_terms@).filter(
        |t: Seq<char>| tok.spec_tokenize(doc.title@).contains(t),
    )
    &&& c.explained@.len() == c.matched_terms@.len()
    &&& forall|m: int|
        0 <= m < c.explained@.len() ==> last_record_of(cs, c.matched_terms@[m]@, #[trigger] c.explained@[m] as int)
}

/// The candidates of a parsed query: one per selected document, by
/// increasing document id.
pub open spec fn candidates_spec<T: Tokenizer>(
    index: SearchIndex,
    q: ParsedQuery,
    tok: &T,
    filter: Option<Seq<char>>,
    r: Seq<Candidate>,
) -> bool {
    &&& forall|a: int, b: int| #![trigger r[a], r[b]] 0 <= a < b < r.len() ==> r[a].doc_id < r[b].doc_id
    &&& forall|a: int| #![trigger r[a]] 0 <= a < r.len() ==> selected(index, q, filter, r[a].doc_id)
        && candidate_spec(index, q, tok, filter, r[a])
    &&& forall|d: usize| #[trigger] selected(index, q, filter, d) ==> exists|a: int|
        0 <= a < r.len() && #[trigger] r[a].doc_id == d
}

/// `views(v)` holds `t`.
pub fn contains_string(v: &[String], t: &str) -> (r: bool)
    ensures
        r == views(v@).contains(t@),
{
    let mut i: usize = 0;
    while i < v.len()
        invariant
            i <= v@.len(),
            forall|k: int| 0 <= k < i ==> v@[k]@ != t@,
        decreases v.len() - i,
    {
        if compare_str(v[i].as_str(), t) == 0 {
            assert(views(v@)[i as int] == t@);
            return true;
        }
        i += 1;
    }
    proof {
        if views(v@).contains(t@) {
            let k = choose|k: int| 0 <= k < views(v@).len() && views(v@)[k] == t@;
            assert(v@[k]@ == t@);
        }
    }
    false
}

/// Every positive term is among the matched terms.
pub fn has_all_required_terms(matched_terms: &[String], positive_terms: &[String]) -> (r: bool)
    ensures
        r == forall|i: int|
            0 <= i < positive_terms@.len() ==> views(matched_terms@).contains(
                #[trigger] positive_terms@[i]@,
            ),
{
    let mut i: usize = 0;
    while i < positive_terms.len()
        invariant
            i <= positive_terms@.len(),
            forall|k: int|
                0 <= k < i ==> views(matched_terms@).contains(#[trigger] positive_terms@[k]@),
        decreases positive_terms.len() - i,
    {
        if !contains_string(matched_terms, positive_terms[i].as_str()) {
            return false;
        }
        i += 1;
    }
    true
}

/// The ids of the documents that some excluded term occurs in.
fn excluded_doc_ids(index: &SearchIndex, excluded_terms: &[String]) -> (r: Vec<usize>)
    ensures
        r@ == excluded_ids(index.inverted_index@, views(excluded_terms@)),
{
    let ghost idx = index.inverted_index@;
    let ghost excl = views(excluded_terms@);
    let mut ids: Vec<usize> = Vec::new();
    let mut i: usize = 0;
    while i < excluded_terms.len()
        invariant
            i <= excluded_terms@.len(),
            idx == index.inverted_index@,
            excl == views(excluded_terms@),
            ids@ == excluded_ids(idx, excl.take(i as int)),
        decreases excluded_terms.len() - i,
    {
        let ghost t = excl[i as int];
        let ghost before = ids@;
        assert(t == excluded_terms@[i as int]@);
        assert(excl.take(i + 1).drop_last() =~= excl.take(i as int));
        assert(excl.take(i + 1).last() == t);
        match index.postings(excluded_terms[i].as_str()) {
            Some(ps) => {
                let mut k: usize = 0;
                while k < ps.len()
                    invariant
                        k <= ps@.len(),
                        ids@ == before + ps@.take(k as int).map_values(|p: Posting| p.doc_id),
                    decreases ps.len() - k,
                {
                    ids.push(ps[k].doc_id);
                    assert(ps@.take(k + 1).map_values(|p: Posting| p.doc_id) =~= ps@.take(
                        k as int,
                    ).map_values(|p: Posting| p.doc_id).push(ps@[k as int].doc_id));
                    assert(ids@ =~= before + ps@.take(k + 1).map_values(|p: Posting| p.doc_id));
                    k += 1;
                }
                assert(ps@.take(k as int) =~= ps@);
            },
            None => {
                assert(term_postings(idx, t).map_values(|p: Posting| p.doc_id) =~= seq![]);
                assert(ids@ =~= before + seq![]);
            },
        }
        i += 1;
    }
    assert(excl.take(i as int) =~= excl);
    ids
}

/// Some excluded term occurs in document `doc_id`.
pub fn document_has_excluded_terms(index: &SearchIndex, doc_id: usize, excluded_terms: &[String]) -> (r: bool)
    ensures
        r == excluded_doc(index.inverted_index@, views(excluded_terms@), doc_id),
{
    let ids = excluded_doc_ids(index, excluded_terms);
    let mut i: usize = 0;
    while i < ids.len()
        invariant
            i <= ids@.len(),
            ids@ == excluded_ids(index.inverted_index@, views(excluded_terms@)),
            forall|k: int| 0 <= k < i ==> ids@[k] != doc_id,
        decreases ids.len() - i,
    {
        if ids[i] == doc_id {
            assert(ids@[i as int] == doc_id);
            assert(ids@.contains(doc_id));
            return true;
        }
        i += 1;
    }
    false
}

/// The matched terms of `matched_terms` that also occur in `title`, in order.
pub fn title_matches<T: Tokenizer>(title: &str, matched_terms: &[String], tokenizer: &T) -> (r: Vec<
    String,
>)
    ensures
        views(r@) == views(matched_terms@).filter(
            |t: Seq<char>| tokenizer.spec_tokenize(title@).contains(t),
        ),
{
    let title_terms = tokenizer.tokenize(title);
    let ghost pred = |t: Seq<char>| tokenizer.spec_tokenize(title@).contains(t);
    let mut r: Vec<String> = Vec::new();
    let mut i: usize = 0;
    proof {
        reveal(Seq::filter);
        assert(views(matched_terms@).take(0).filter(pred) =~= seq![]);
    }
    while i < matched_terms.len()
        invariant
            i <= matched_terms@.len(),
            views(title_terms@) == tokenizer.spec_tokenize(title@),
            pred == (|t: Seq<char>| tokenizer.spec_tokenize(title@).contains(t)),
            views(r@) == views(matched_terms@).take(i as int).filter(pred),
        decreases matched_terms.len() - i,
    {
        let ghost s = views(matched_terms@).take(i + 1);
        proof {
            reveal(Seq::filter);
        }
        assert(s.drop_last() =~= views(matched_terms@).take(i as int));
        assert(s.last() == matched_terms@[i as int]@);
        if contains_string(&title_terms, matched_terms[i].as_str()) {
            r.push(matched_terms[i].clone());
            assert(s.filter(pred) == s.drop_last().filter(pred).push(s.last()));
            assert(views(r@) =~= views(matched_terms@).take(i as int).filter(pred).push(
                matched_terms@[i as int]@,
            ));
        } else {
            assert(s.filter(pred) == s.drop_last().filter(pred));
        }
        i += 1;
    }
    assert(views(matched_terms@).take(i as int) =~= views(matched_terms@));
    r
}

/// The positive terms of a query, sorted and without repeats.
pub fn normalized_query_terms<T: Tokenizer>(query: &str, tokenizer: &T) -> (r: Result<Vec<String>>)
    ensures
        r is Err <==> positive_term_set(tokenizer, split_ws(query@)).is_empty(),
        r matches Err(e) ==> e == crate::error::AppError::EmptyQuery,
        r matches Ok(v) ==> sorted_strict(views(v@)) && views(v@).to_set() == positive_term_set(
            tokenizer,
            split_ws(query@),
        ),
{
    let parsed = parse_query(query, tokenizer)?;
    Ok(parsed.positive_terms)
}

/// The contributions gathered so far for one document.
struct Acc {
    doc_id: usize,
    contributions: Vec<TermStats>,
}

/// The accumulators hold, by strictly increasing document id, exactly the
/// documents for which `f` is not empty, each with `f` of its id.
spec fn acc_represents(accs: Seq<Acc>, f: spec_fn(usize) -> Seq<(Seq<char>, usize, usize, usize)>) -> bool {
    &&& forall|a: int, b: int| #![trigger accs[a], accs[b]] 0 <= a < b < accs.len() ==> accs[a].doc_id < accs[b].doc_id
    &&& forall|a: int| #![trigger accs[a]] 0 <= a < accs.len() ==> stats_views(accs[a].contributions@) == f(accs[a].doc_id)
        && f(accs[a].doc_id).len() > 0
    &&& forall|d: usize| #[trigger] f(d).len() > 0 ==> exists|a: int| 0 <= a < accs.len() && #[trigger] accs[a].doc_id == d
}

/// Position of the accumulator for document `d`, or where it would go.
fn find_acc(accs: &Vec<Acc>, d: usize) -> (r: (bool, usize))
    requires
        forall|a: int, b: int| #![trigger accs@[a], accs@[b]] 0 <= a < b < accs@.len() ==> accs@[a].doc_id < accs@[b].doc_id,
    ensures
        r.1 <= accs@.len(),
        r.0 ==> r.1 < accs@.len() && accs@[r.1 as int].doc_id == d,
        !r.0 ==> (forall|i: int| 0 <= i < r.1 ==> #[trigger] accs@[i].doc_id < d) && (forall|i: int|
            r.1 <= i < accs@.len() ==> d < #[trigger] accs@[i].doc_id),
{
    let mut lo: usize = 0;
    let mut hi: usize = accs.len();
    while lo < hi
        invariant
            lo <= hi <= accs@.len(),
            forall|a: int, b: int| #![trigger accs@[a], accs@[b]] 0 <= a < b < accs@.len() ==> accs@[a].doc_id < accs@[b].doc_id,
            forall|i: int| 0 <= i < lo ==> #[trigger] accs@[i].doc_id < d,
            forall|i: int| hi <= i < accs@.len() ==> d < #[trigger] accs@[i].doc_id,
        decreases hi - lo,
    {
        let mid = lo + (hi - lo) / 2;
        let m = accs[mid].doc_id;
        if m == d {
            return (true, mid);
        } else if m < d {
            proof {
                assert forall|i: int| 0 <= i < mid + 1 implies #[trigger] accs@[i].doc_id < d by {
                    if i < mid {
                        assert(accs@[i].doc_id < accs@[mid as int].doc_id);
                    }
                }
            }
            lo = mid + 1;
        } else {
            proof {
                assert forall|i: int| mid <= i < accs@.len() implies d < #[trigger] accs@[i].doc_id by {
                    if i > mid {
                        assert(accs@[mid as int].doc_id < accs@[i].doc_id);
                    }
                }
            }
            hi = mid;
        }
    }
    (false, lo)
}

/// `f` with one more record `x` for document `d0`.
spec fn with_record(
    f: spec_fn(usize) -> Seq<(Seq<char>, usize, usize, usize)>,
    d0: usize,
    x: (Seq<char>, usize, usize, usize),
) -> spec_fn(usize) -> Seq<(Seq<char>, usize, usize, usize)> {
    |d: usize|
        if d == d0 {
            f(d).push(x)
        } else {
            f(d)
        }
}

/// Adds the record `stat` to the accumulator of document `d0`.
fn add_contribution(
    accs: &mut Vec<Acc>,
    d0: usize,
    stat: TermStats,
    Ghost(f): Ghost<spec_fn(usize) -> Seq<(Seq<char>, usize, usize, usize)>>,
)
    requires
        acc_represents(old(accs)@, f),
    ensures
        acc_represents(final(accs)@, with_record(f, d0, stats_view(stat))),
{
    let ghost old_a = accs@;
    let ghost g = with_record(f, d0, stats_view(stat));
    let (found, ai) = find_acc(accs, d0);
    if found {
        accs[ai].contributions.push(stat);
        proof {
            let na = accs@;
            assert(forall|a: int| 0 <= a < na.len() && a != ai ==> na[a] == old_a[a]);
            assert(stats_views(na[ai as int].contributions@) =~= stats_views(
                old_a[ai as int].contributions@,
            ).push(stats_view(stat)));
            assert forall|a: int| #![trigger na[a]] 0 <= a < na.len() implies stats_views(na[a].contributions@) == g(
                na[a].doc_id,
            ) && g(na[a].doc_id).len() > 0 by {
                if a != ai {
                    assert(old_a[a].doc_id != d0) by {
                        if a < ai {
                            assert(old_a[a].doc_id < old_a[ai as int].doc_id);
                        } else {
                            assert(old_a[ai as int].doc_id < old_a[a].doc_id);
                        }
                    }
                }
            }
            assert forall|d: usize| #[trigger] g(d).len() > 0 implies exists|a: int|
                0 <= a < na.len() && #[trigger] na[a].doc_id == d by {
                if d == d0 {
                    assert(na[ai as int].doc_id == d);
                } else {
                    assert(f(d).len() > 0);
                    let a = choose|a: int| 0 <= a < old_a.len() && #[trigger] old_a[a].doc_id == d;
                    assert(na[a].doc_id == d);
                }
            }
        }
    } else {
        proof {
            if f(d0).len() > 0 {
                let a = choose|a: int| 0 <= a < old_a.len() && #[trigger] old_a[a].doc_id == d0;
                if a < ai {
                    assert(old_a[a].doc_id < d0);
                } else {
                    assert(d0 < old_a[a].doc_id);
                }
            }
            assert(f(d0) =~= seq![]);
        }
        let mut contributions: Vec<TermStats> = Vec::new();
        contributions.push(stat);
        accs.insert(ai, Acc { doc_id: d0, contributions });
        proof {
            let na = accs@;
            assert(na == old_a.insert(ai as int, Acc { doc_id: d0, contributions }));
            assert(stats_views(na[ai as int].contributions@) =~= seq![stats_view(stat)]);
            assert forall|a: int, b: int| #![trigger na[a], na[b]] 0 <= a < b < na.len() implies na[a].doc_id
                < na[b].doc_id by {
                if b < ai {
                } else if b == ai {
                } else if a < ai {
                } else if a == ai {
                } else {
                    assert(na[a] == old_a[a - 1] && na[b] == old_a[b - 1]);
                }
            }
            assert forall|a: int| #![trigger na[a]] 0 <= a < na.len() implies stats_views(na[a].contributions@) == g(
                na[a].doc_id,
            ) && g(na[a].doc_id).len() > 0 by {
                if a < ai {
                    assert(na[a] == old_a[a]);
                } else if a > ai {
                    assert(na[a] == old_a[a - 1]);
                } else {
                    assert(g(d0) =~= seq![stats_view(stat)]);
                }
            }
            assert forall|d: usize| #[trigger] g(d).len() > 0 implies exists|a: int|
                0 <= a < na.len() && #[trigger] na[a].doc_id == d by {
                if d == d0 {
                    assert(na[ai as int].doc_id == d);
                } else {
                    assert(f(d).len() > 0);
                    let a = choose|a: int| 0 <= a < old_a.len() && #[trigger] old_a[a].doc_id == d;
                    if a < ai {
                        assert(na[a].doc_id == d);
                    } else {
                        assert(na[a + 1].doc_id == d);
                    }
                }
            }
        }
    }
}

/// The document with id `d` when its postings count for the query.
fn counting_doc<'a>(
    index: &'a SearchIndex,
    excl_ids: &Vec<usize>,
    excluded_terms: Ghost<Seq<Seq<char>>>,
    filter: &PathFilter,
    d: usize,
) -> (r: Option<&'a Document>)
    requires
        excl_ids@ == excluded_ids(index.inverted_index@, excluded_terms@),
    ensures
        r is Some <==> doc_counts(*index, excluded_terms@, filter.pattern_of(), d),
        r matches Some(doc) ==> doc_by_id(index.documents@, d) == Some(*doc),
{
    let mut i: usize = 0;
    while i < excl_ids.len()
        invariant
            i <= excl_ids@.len(),
            excl_ids@ == excluded_ids(index.inverted_index@, excluded_terms@),
            forall|k: int| 0 <= k < i ==> excl_ids@[k] != d,
        decreases excl_ids.len() - i,
    {
        if excl_ids[i] == d {
            assert(excl_ids@[i as int] == d);
            assert(excl_ids@.contains(d));
            return None;
        }
        i += 1;
    }
    match index.document_by_id(d) {
        Some(doc) => {
            if filter.matches(doc.path.as_str()) {
                Some(doc)
            } else {
                None
            }
        },
        None => None,
    }
}

/// The records of `ps.take(m + 1)`: those of `ps.take(m)`, then the one of
/// `ps[m]` when it counts for `d`.
proof fn lemma_term_contribs_step(
    index: SearchIndex,
    excl: Seq<Seq<char>>,
    filter: Option<Seq<char>>,
    t: Seq<char>,
    df: usize,
    ps: Seq<Posting>,
    m: int,
    d: usize,
)
    requires
        0 <= m < ps.len(),
    ensures
        term_contribs(index, excl, filter, t, df, ps.take(m + 1), d) == term_contribs(
            index,
            excl,
            filter,
            t,
            df,
            ps.take(m),
            d,
        ) + if ps[m].doc_id == d && doc_counts(index, excl, filter, d) {
            seq![posting_stats(index, t, df, ps[m])]
        } else {
            seq![]
        },
{
    assert(ps.take(m + 1).drop_last() =~= ps.take(m));
    assert(ps.take(m + 1).last() == ps[m]);
}

/// A document with records counts for the query.
proof fn lemma_contributions_count(
    index: SearchIndex,
    excl: Seq<Seq<char>>,
    filter: Option<Seq<char>>,
    terms: Seq<Seq<char>>,
    d: usize,
)
    ensures
        contributions(index, excl, filter, terms, d).len() > 0 ==> doc_counts(index, excl, filter, d),
    decreases terms.len(),
{
    if terms.len() > 0 {
        lemma_contributions_count(index, excl, filter, terms.drop_last(), d);
        let t = terms.last();
        let ps = term_postings(index.inverted_index@, t);
        lemma_term_contribs_count(index, excl, filter, t, ps.len() as usize, ps, d);
    }
}

proof fn lemma_term_contribs_count(
    index: SearchIndex,
    excl: Seq<Seq<char>>,
    filter: Option<Seq<char>>,
    t: Seq<char>,
    df: usize,
    ps: Seq<Posting>,
    d: usize,
)
    ensures
        term_contribs(index, excl, filter, t, df, ps, d).len() > 0 ==> doc_counts(index, excl, filter, d),
    decreases ps.len(),
{
    if ps.len() > 0 {
        lemma_term_contribs_count(index, excl, filter, t, df, ps.drop_last(), d);
    }
}

/// Gathers, for every document, the records of the query terms.
fn accumulate(index: &SearchIndex, q: &ParsedQuery, filter: &PathFilter, excl_ids: &Vec<usize>) -> (r: Vec<Acc>)
    requires
        excl_ids@ == excluded_ids(index.inverted_index@, views(q.excluded_terms@)),
    ensures
        acc_represents(
            r@,
            |d: usize|
                contributions(
                    *index,
                    views(q.excluded_terms@),
                    filter.pattern_of(),
                    views(q.positive_terms@),
                    d,
                ),
        ),
{
    let ghost excl = views(q.excluded_terms@);
    let ghost fp = filter.pattern_of();
    let ghost terms = views(q.positive_terms@);
    let ghost idx = index.inverted_index@;
    let mut accs: Vec<Acc> = Vec::new();
    let mut k: usize = 0;
    proof {
        let f0 = |d: usize| contributions(*index, excl, fp, terms.take(0), d);
        assert forall|d: usize| #[trigger] f0(d).len() == 0 by {
            assert(terms.take(0).len() == 0);
        }
    }
    while k < q.positive_terms.len()
        invariant
            k <= terms.len(),
            terms == views(q.positive_terms@),
            excl == views(q.excluded_terms@),
            fp == filter.pattern_of(),
            idx == index.inverted_index@,
            excl_ids@ == excluded_ids(idx, excl),
            acc_represents(accs@, |d: usize| contributions(*index, excl, fp, terms.take(k as int), d)),
        decreases terms.len() - k,
    {
        let ghost t = terms[k as int];
        let ghost ps_all = term_postings(idx, t);
        let ghost fk = |d: usize| contributions(*index, excl, fp, terms.take(k as int), d);
        let ghost fk1 = |d: usize| contributions(*index, excl, fp, terms.take(k + 1), d);
        assert(t == q.positive_terms@[k as int]@);
        assert(terms.take(k + 1).drop_last() =~= terms.take(k as int));
        assert(terms.take(k + 1).last() == t);
        match index.postings(q.positive_terms[k].as_str()) {
            Some(ps) => {
                let df = ps.len();
                let ghost gm = |m: int| |d: usize| fk(d) + term_contribs(*index, excl, fp, t, df, ps@.take(m), d);
                let mut m: usize = 0;
                proof {
                    assert forall|d: usize| #[trigger] gm(0)(d) == fk(d) by {
                        assert(ps@.take(0).len() == 0);
                        assert(fk(d) + seq![] =~= fk(d));
                    }
                    assert(gm(0) =~= fk);
                }
                while m < ps.len()
                    invariant
                        k < terms.len(),
                        m <= ps@.len(),
                        df == ps@.len(),
                        ps@ == ps_all,
                        t == terms[k as int],
                        terms == views(q.positive_terms@),
                        excl == views(q.excluded_terms@),
                        fp == filter.pattern_of(),
                        idx == index.inverted_index@,
                        excl_ids@ == excluded_ids(idx, excl),
                        gm == (|m: int| |d: usize| fk(d) + term_contribs(*index, excl, fp, t, df, ps@.take(m), d)),
                        acc_represents(accs@, gm(m as int)),
                    decreases ps.len() - m,
                {
                    let p = &ps[m];
                    let d0 = p.doc_id;
                    proof {
                        lemma_term_contribs_step(*index, excl, fp, t, df, ps@, m as int, d0);
                    }
                    match counting_doc(index, excl_ids, Ghost(excl), filter, d0) {
                        Some(doc) => {
                            let stat = TermStats {
                                term: q.positive_terms[k].clone(),
                                term_freq: p.term_freq,
                                document_frequency: df,
                                document_length: doc.token_count,
                            };
                            add_contribution(&mut accs, d0, stat, Ghost(gm(m as int)));
                            proof {
                                let g = with_record(gm(m as int), d0, stats_view(stat));
                                assert forall|d: usize| #[trigger] g(d) == gm(m + 1)(d) by {
                                    lemma_term_contribs_step(*index, excl, fp, t, df, ps@, m as int, d);
                                    if d == d0 {
                                        assert(g(d) =~= gm(m + 1)(d));
                                    } else {
                                        assert(gm(m + 1)(d) =~= gm(m as int)(d));
                                    }
                                }
                                assert(g =~= gm(m + 1));
                            }
                        },
                        None => {
                            proof {
                                assert forall|d: usize| #[trigger] gm(m as int)(d) == gm(m + 1)(d) by {
                                    lemma_term_contribs_step(*index, excl, fp, t, df, ps@, m as int, d);
                                    assert(gm(m + 1)(d) =~= gm(m as int)(d));
                                }
                                assert(gm(m as int) =~= gm(m + 1));
                            }
                        },
                    }
                    m += 1;
                }
                proof {
                    assert(ps@.take(m as int) =~= ps@);
                    assert forall|d: usize| #[trigger] gm(m as int)(d) == fk1(d) by {}
                    assert(gm(m as int) =~= fk1);
                }
            },
            None => {
                proof {
                    assert(ps_all.len() == 0);
                    assert forall|d: usize| #[trigger] fk(d) == fk1(d) by {
                        assert(term_contribs(*index, excl, fp, t, 0, ps_all, d) =~= seq![]);
                        assert(fk(d) + seq![] =~= fk(d));
                    }
                    assert(fk =~= fk1);
                }
            },
        }
        k += 1;
    }
    proof {
        assert(terms.take(k as int) =~= terms);
    }
    accs
}

/// A copy of a list of statistics records.
fn clone_stats(v: &Vec<TermStats>) -> (r: Vec<TermStats>)
    ensures
        stats_views(r@) == stats_views(v@),
{
    let mut r: Vec<TermStats> = Vec::new();
    let mut i: usize = 0;
    while i < v.len()
        invariant
            i <= v@.len(),
            stats_views(r@) == stats_views(v@.take(i as int)),
        decreases v.len() - i,
    {
        let s = &v[i];
        r.push(
            TermStats {
                term: s.term.clone(),
                term_freq: s.term_freq,
                document_frequency: s.document_frequency,
                document_length: s.document_length,
            },
        );
        assert(stats_views(v@.take(i + 1)) =~= stats_views(v@.take(i as int)).push(stats_view(v@[i as int])));
        assert(stats_views(r@) =~= stats_views(v@.take(i + 1)));
        i += 1;
    }
    assert(v@.take(i as int) =~= v@);
    r
}

/// The position of the last record for term `t`.
fn last_record_index(cs: &Vec<TermStats>, t: &str) -> (e: usize)
    requires
        record_terms(stats_views(cs@)).contains(t@),
    ensures
        last_record_of(stats_views(cs@), t@, e as int),
{
    let ghost sv = stats_views(cs@);
    let mut i: usize = cs.len();
    while i > 0
        invariant
            i <= cs@.len(),
            sv == stats_views(cs@),
            record_terms(sv).contains(t@),
            forall|e2: int| i <= e2 < sv.len() ==> sv[e2].0 != t@,
        decreases i,
    {
        if compare_str(cs[i - 1].term.as_str(), t) == 0 {
            assert(sv[i - 1].0 == t@);
            return i - 1;
        }
        i -= 1;
    }
    proof {
        let k = choose|k: int| 0 <= k < record_terms(sv).len() && record_terms(sv)[k] == t@;
        assert(sv[k].0 == t@);
    }
    0
}

/// The set of terms of the records `cs`, as a sorted vector.
fn record_term_set(cs: &Vec<TermStats>) -> (r: Vec<String>)
    ensures
        sorted_strict(views(r@)),
        views(r@).to_set() == record_terms(stats_views(cs@)).to_set(),
{
    let ghost sv = stats_views(cs@);
    let mut r: Vec<String> = Vec::new();
    let mut e: usize = 0;
    proof {
        assert(views(r@) =~= seq![]);
        assert(record_terms(sv).take(0).to_set() =~= Set::empty());
        assert(views(r@).to_set() =~= Set::empty());
    }
    while e < cs.len()
        invariant
            e <= cs@.len(),
            sv == stats_views(cs@),
            sorted_strict(views(r@)),
            views(r@).to_set() == record_terms(sv).take(e as int).to_set(),
        decreases cs.len() - e,
    {
        insert_sorted(&mut r, cs[e].term.clone());
        proof {
            let rt = record_terms(sv);
            assert(rt.take(e + 1) =~= rt.take(e as int).push(rt[e as int]));
            rt.take(e as int).lemma_push_to_set_commute(rt[e as int]);
        }
        e += 1;
    }
    assert(record_terms(sv).take(e as int) =~= record_terms(sv));
    r
}

/// A candidate that the query selects and that holds what it should.
#[verifier::opaque]
spec fn good_candidate<T: Tokenizer>(
    index: SearchIndex,
    q: ParsedQuery,
    tok: &T,
    fp: Option<Seq<char>>,
    c: Candidate,
) -> bool {
    selected(index, q, fp, c.doc_id) && candidate_spec(index, q, tok, fp, c)
}

/// The query selects document `d`.
#[verifier::opaque]
spec fn sel_doc(index: SearchIndex, q: ParsedQuery, fp: Option<Seq<char>>, d: usize) -> bool {
    selected(index, q, fp, d)
}

/// The candidate for the document of accumulator `acc`, when the query
/// selects it.
fn make_candidate<T: Tokenizer>(
    index: &SearchIndex,
    q: &ParsedQuery,
    tokenizer: &T,
    filter: &PathFilter,
    acc: &Acc,
) -> (r: Option<Candidate>)
    requires
        stats_views(acc.contributions@) == contributions(
            *index,
            views(q.excluded_terms@),
            filter.pattern_of(),
            views(q.positive_terms@),
            acc.doc_id,
        ),
        acc.contributions@.len() > 0,
    ensures
        r is Some <==> sel_doc(*index, *q, filter.pattern_of(), acc.doc_id),
        r matches Some(c) ==> c.doc_id == acc.doc_id && good_candidate(
            *index,
            *q,
            tokenizer,
            filter.pattern_of(),
            c,
        ),
{
    reveal(sel_doc);
    reveal(good_candidate);
    let ghost excl = views(q.excluded_terms@);
    let ghost fp = filter.pattern_of();
    let ghost terms = views(q.positive_terms@);
    let d = acc.doc_id;
    let ghost cs = contributions(*index, excl, fp, terms, d);
    proof {
        lemma_contributions_count(*index, excl, fp, terms, d);
    }
    let matched = record_term_set(&acc.contributions);
    proof {
        assert forall|x: Seq<char>| views(matched@).contains(x) <==> record_terms(cs).contains(x) by {
            assert(views(matched@).to_set().contains(x) == views(matched@).contains(x));
            assert(record_terms(cs).to_set().contains(x) == record_terms(cs).contains(x));
        }
    }
    let keep = if q.requires_all_terms() {
        has_all_required_terms(&matched, &q.positive_terms)
    } else {
        true
    };
    if !keep {
        return None;
    }
    match index.document_by_id(d) {
        Some(doc) => {
            let tm = title_matches(doc.title.as_str(), &matched, tokenizer);
            let mut explained: Vec<usize> = Vec::new();
            let mut m: usize = 0;
            while m < matched.len()
                invariant
                    m <= matched@.len(),
                    stats_views(acc.contributions@) == cs,
                    forall|x: Seq<char>| views(matched@).contains(x) <==> record_terms(cs).contains(x),
                    explained@.len() == m,
                    forall|m2: int| 0 <= m2 < m ==> last_record_of(cs, matched@[m2]@, #[trigger] explained@[m2] as int),
                decreases matched.len() - m,
            {
                assert(views(matched@)[m as int] == matched@[m as int]@);
                let e = last_record_index(&acc.contributions, matched[m].as_str());
                explained.push(e);
                m += 1;
            }
            Some(Candidate {
                doc_id: d,
                path: doc.path.clone(),
                title: doc.title.clone(),
                contributions: clone_stats(&acc.contributions),
                matched_terms: matched,
                title_matches: tm,
                explained,
            })
        },
        None => {
            proof {
                assert(false);
            }
            None
        },
    }
}

/// The documents that a parsed query selects in the index, by increasing
/// document id, each with the statistics of its matched terms. A document is
/// selected when a positive term has a posting for it, no excluded term has
/// one, the index holds a document with its id whose path passes `filter`,
/// and, in `AND` mode, every positive term has a posting for it.
pub fn collect_candidates<T: Tokenizer>(
    index: &SearchIndex,
    q: &ParsedQuery,
    tokenizer: &T,
    filter: &PathFilter,
) -> (r: Vec<Candidate>)
    ensures
        candidates_spec(*index, *q, tokenizer, filter.pattern_of(), r@),
{
    let ghost excl = views(q.excluded_terms@);
    let ghost fp = filter.pattern_of();
    let ghost terms = views(q.positive_terms@);
    let ghost f = |d: usize| contributions(*index, excl, fp, terms, d);
    let excl_ids = excluded_doc_ids(index, &q.excluded_terms);
    let accs = accumulate(index, q, filter, &excl_ids);
    let mut out: Vec<Candidate> = Vec::new();
    let mut a: usize = 0;
    while a < accs.len()
        invariant
            a <= accs@.len(),
            excl == views(q.excluded_terms@),
            fp == filter.pattern_of(),
            terms == views(q.positive_terms@),
            f == (|d: usize| contributions(*index, excl, fp, terms, d)),
            acc_represents(accs@, f),
            forall|b1: int, b2: int| #![trigger out@[b1], out@[b2]] 0 <= b1 < b2 < out@.len() ==> out@[b1].doc_id < out@[b2].doc_id,
            forall|b: int| #![trigger out@[b]] 0 <= b < out@.len() ==> exists|a2: int| 0 <= a2 < a && out@[b].doc_id == #[trigger] accs@[a2].doc_id,
            forall|b: int| #![trigger out@[b]] 0 <= b < out@.len() ==> good_candidate(*index, *q, tokenizer, fp, out@[b]),
            forall|a2: int| #![trigger accs@[a2]] 0 <= a2 < a && sel_doc(*index, *q, fp, accs@[a2].doc_id) ==> exists|b: int|
                0 <= b < out@.len() && #[trigger] out@[b].doc_id == accs@[a2].doc_id,
        decreases accs.len() - a,
    {
        let ghost d = accs@[a as int].doc_id;
        assert(stats_views(accs@[a as int].contributions@) == f(d) && f(d).len() > 0);
        let ghost out0 = out@;
        match make_candidate(index, q, tokenizer, filter, &accs[a]) {
            Some(c) => {
                proof {
                    assert forall|b: int| 0 <= b < out@.len() implies out@[b].doc_id < d by {
                        let a2 = choose|a2: int| 0 <= a2 < a && out@[b].doc_id == #[trigger] accs@[a2].doc_id;
                        assert(accs@[a2].doc_id < accs@[a as int].doc_id);
                    }
                }
                out.push(c);
                proof {
                    assert(out@[out@.len() - 1] == c);
                }
            },
            None => {},
        }
        proof {
            assert forall|a2: int| #![trigger accs@[a2]] 0 <= a2 < a + 1 && sel_doc(*index, *q, fp, accs@[a2].doc_id) implies exists|b: int|
                0 <= b < out@.len() && #[trigger] out@[b].doc_id == accs@[a2].doc_id by {
                if a2 == a {
                    assert(out@[out@.len() - 1].doc_id == d);
                } else {
                    let b = choose|b: int| 0 <= b < out0.len() && #[trigger] out0[b].doc_id == accs@[a2].doc_id;
                    assert(out@[b] == out0[b]);
                }
            }
            assert forall|b: int| #![trigger out@[b]] 0 <= b < out@.len() implies exists|a2: int| 0 <= a2 < a + 1 && out@[b].doc_id == #[trigger] accs@[a2].doc_id by {
                if b == out0.len() {
                    assert(out@[b].doc_id == accs@[a as int].doc_id);
                } else {
                    assert(out@[b] == out0[b]);
                    let a2 = choose|a2: int| 0 <= a2 < a && out0[b].doc_id == #[trigger] accs@[a2].doc_id;
                    assert(out@[b].doc_id == accs@[a2].doc_id);
                }
            }
            assert forall|b: int| #![trigger out@[b]] 0 <= b < out@.len() implies good_candidate(*index, *q, tokenizer, fp, out@[b]) by {
                if b < out0.len() {
                    assert(out@[b] == out0[b]);
                }
            }
        }
        a += 1;
    }
    proof {
        assert forall|d: usize| #[trigger] selected(*index, *q, fp, d) implies exists|b: int|
            0 <= b < out@.len() && #[trigger] out@[b].doc_id == d by {
            assert(f(d).len() > 0);
            let a2 = choose|a2: int| 0 <= a2 < accs@.len() && #[trigger] accs@[a2].doc_id == d;
            reveal(sel_doc);
            assert(sel_doc(*index, *q, fp, accs@[a2].doc_id));
        }
        reveal(good_candidate);
        assert forall|b: int| #![trigger out@[b]] 0 <= b < out@.len() implies selected(*index, *q, fp, out@[b].doc_id)
            && candidate_spec(*index, *q, tokenizer, fp, out@[b]) by {
            assert(good_candidate(*index, *q, tokenizer, fp, out@[b]));
        }
    }
    out
}

} // verus!
