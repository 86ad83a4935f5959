//! Parsing of search queries: terms, `AND`/`OR` mode and `-excluded` terms.
use crate::error::{AppError, Result};
use crate::text::{
    ascii_lower_seq, char_views, chars_eq_ignore_ascii_case, chars_of, char_is_whitespace, eq_ignore_ascii_case,
    insert_sorted, is_white, lead_count, lemma_lead_count_bound, lemma_lead_count_exact,
    sorted_strict, string_of, string_of_range, views,
};
use crate::tokenizer::Tokenizer;
use vstd::prelude::*;

verus! {

/// How the positive terms of a query combine.
#[derive(Debug, Clone, Copy, PartialEq, Eq)]
pub enum QueryMode {
    /// A document matches when it holds any positive term (`OR`).
    Any,
    /// A document matches only when it holds every positive term (`AND`).
    All,
}

/// The display label of a query mode.
pub open spec fn mode_label(mode: QueryMode) -> Seq<char> {
    match mode {
        QueryMode::Any => seq!['O', 'R'],
        QueryMode::All => seq!['A', 'N', 'D'],
    }
}

impl QueryMode {
    pub fn label(self) -> (r: &'static str)
        ensures
            r@ == mode_label(self),
    {
        match self {
            QueryMode::Any => {
                proof {
                    reveal_strlit("OR");
                }
                "OR"
            },
            QueryMode::All => {
                proof {
                    reveal_strlit("AND");
                }
                "AND"
            },
        }
    }
}

/// A query after parsing.
#[derive(Debug, Clone)]
pub struct ParsedQuery {
    pub original: String,
    pub mode: QueryMode,
    /// The terms to search for, sorted and without repeats.
    pub positive_terms: Vec<String>,
    /// The terms whose documents are left out, sorted and without repeats.
    pub excluded_terms: Vec<String>,
}

impl ParsedQuery {
    pub fn requires_all_terms(&self) -> (r: bool)
        ensures
            r == (self.mode == QueryMode::All),
    {
        match self.mode {
            QueryMode::All => true,
            QueryMode::Any => false,
        }
    }
}

/// Number of leading characters of `q` that are not white space.
pub open spec fn word_len(q: Seq<char>) -> nat {
    lead_count(q, |c: char| !is_white(c))
}

/// `str::split_whitespace`: the maximal runs of characters that are not
/// white space, in order.
pub open spec fn split_ws(q: Seq<char>) -> Seq<Seq<char>>
    decreases q.len(),
{
    if q.len() == 0 {
        seq![]
    } else if is_white(q[0]) {
        split_ws(q.drop_first())
    } else {
        proof {
            lemma_lead_count_bound(q, |c: char| !is_white(c));
        }
        seq![q.take(word_len(q) as int)] + split_ws(q.skip(word_len(q) as int))
    }
}

/// The word is the keyword `AND` in any ASCII case.
pub open spec fn is_and_word(w: Seq<char>) -> bool {
    eq_ignore_ascii_case(w, seq!['A', 'N', 'D'])
}

/// The word is the keyword `OR` in any ASCII case.
pub open spec fn is_or_word(w: Seq<char>) -> bool {
    eq_ignore_ascii_case(w, seq!['O', 'R'])
}

/// The word marks its terms as excluded: it starts with `-`.
pub open spec fn is_excluding_word(w: Seq<char>) -> bool {
    !is_and_word(w) && !is_or_word(w) && w.len() > 0 && w[0] == '-'
}

/// The word contributes positive terms.
pub open spec fn is_positive_word(w: Seq<char>) -> bool {
    !is_and_word(w) && !is_or_word(w) && !(w.len() > 0 && w[0] == '-')
}

/// The terms of the positive words among `ws`.
pub open spec fn positive_term_set<T: Tokenizer>(tok: &T, ws: Seq<Seq<char>>) -> Set<Seq<char>>
    decreases ws.len(),
{
    if ws.len() == 0 {
        Set::empty()
    } else {
        let rest = positive_term_set(tok, ws.drop_last());
        if is_positive_word(ws.last()) {
            rest.union(tok.spec_tokenize(ws.last()).to_set())
        } else {
            rest
        }
    }
}

/// The terms of the excluding words among `ws`, each taken without its `-`.
pub open spec fn excluded_term_set<T: Tokenizer>(tok: &T, ws: Seq<Seq<char>>) -> Set<Seq<char>>
    decreases ws.len(),
{
    if ws.len() == 0 {
        Set::empty()
    } else {
        let rest = excluded_term_set(tok, ws.drop_last());
        if is_excluding_word(ws.last()) {
            rest.union(tok.spec_tokenize(ws.last().drop_first()).to_set())
        } else {
            rest
        }
    }
}

/// The mode of a query with words `ws`: `AND` when some word is `AND` and
/// none is `OR`, else `OR`.
pub open spec fn query_mode(ws: Seq<Seq<char>>) -> QueryMode {
    if (exists|i: int| 0 <= i < ws.len() && is_and_word(#[trigger] ws[i])) && !(exists|i: int|
        0 <= i < ws.len() && is_or_word(#[trigger] ws[i])) {
        QueryMode::All
    } else {
        QueryMode::Any
    }
}

/// What `parse_query` gives for `query`.
pub open spec fn parsed_query_spec<T: Tokenizer>(tok: &T, query: Seq<char>, p: ParsedQuery) -> bool {
    let ws = split_ws(query);
    &&& p.original@ == query
    &&& p.mode == query_mode(ws)
    &&& sorted_strict(views(p.positive_terms@))
    &&& views(p.positive_terms@).to_set() == positive_term_set(tok, ws)
    &&& sorted_strict(views(p.excluded_terms@))
    &&& views(p.excluded_terms@).to_set() == excluded_term_set(tok, ws)
}

/// Splits `cs` into its words (`str::split_whitespace`).
pub fn split_whitespace(cs: &[char]) -> (words: Vec<Vec<char>>)
    ensures
        char_views(words@) == split_ws(cs@),
{
    let mut words: Vec<Vec<char>> = Vec::new();
    let mut i: usize = 0;
    assert(cs@.skip(0) =~= cs@);
    while i < cs.len()
        invariant
            i <= cs@.len(),
            char_views(words@) + split_ws(cs@.skip(i as int)) == split_ws(cs@),
        decreases cs.len() - i,
    {
        let ghost rest = cs@.skip(i as int);
        if char_is_whitespace(cs[i]) {
            assert(rest.drop_first() =~= cs@.skip(i + 1));
            i += 1;
        } else {
            let mut j = i + 1;
            while j < cs.len() && !char_is_whitespace(cs[j])
                invariant
                    i < j <= cs@.len(),
                    forall|m: int| i <= m < j ==> !is_white(#[trigger] cs@[m]),
                decreases cs.len() - j,
            {
                j += 1;
            }
            let mut w: Vec<char> = Vec::new();
            let mut m = i;
            while m < j
                invariant
                    i <= m <= j <= cs@.len(),
                    w@ == cs@.subrange(i as int, m as int),
                decreases j - m,
            {
                w.push(cs[m]);
                assert(cs@.subrange(i as int, m + 1) == cs@.subrange(i as int, m as int).push(
                    cs@[m as int],
                ));
                m += 1;
            }
            proof {
                let p = |c: char| !is_white(c);
                assert forall|k: int| 0 <= k < j - i implies p(#[trigger] rest[k]) by {
                    assert(rest[k] == cs@[i + k]);
                }
                if j < cs@.len() {
                    assert(rest[j - i] == cs@[j as int]);
                }
                lemma_lead_count_exact(rest, p, (j - i) as nat);
                assert(rest.take((j - i) as int) =~= w@);
                assert(rest.skip((j - i) as int) =~= cs@.skip(j as int));
            }
            let ghost before = char_views(words@);
            words.push(w);
            assert(char_views(words@) =~= before.push(cs@.subrange(i as int, j as int)));
            assert(char_views(words@) + split_ws(cs@.skip(j as int)) =~= before + split_ws(rest));
            i = j;
        }
    }
    assert(split_ws(cs@.skip(i as int)) =~= seq![]);
    assert(char_views(words@) + seq![] =~= char_views(words@));
    words
}

/// Adds the terms of `text` to the ordered term set `target`.
pub fn add_tokens<T: Tokenizer>(target: &mut Vec<String>, text: &str, tokenizer: &T)
    requires
        sorted_strict(views(old(target)@)),
    ensures
        sorted_strict(views(final(target)@)),
        views(final(target)@).to_set() == views(old(target)@).to_set().union(
            tokenizer.spec_tokenize(text@).to_set(),
        ),
{
    let tokens = tokenizer.tokenize(text);
    let ghost toks = views(tokens@);
    let ghost start = views(target@).to_set();
    let mut k: usize = 0;
    while k < tokens.len()
        invariant
            k <= tokens@.len(),
            toks == views(tokens@),
            toks == tokenizer.spec_tokenize(text@),
            sorted_strict(views(target@)),
            views(target@).to_set() == start.union(toks.take(k as int).to_set()),
        decreases tokens.len() - k,
    {
        insert_sorted(target, tokens[k].clone());
        proof {
            assert(toks.take(k + 1) =~= toks.take(k as int).push(toks[k as int]));
            toks.take(k as int).lemma_push_to_set_commute(toks[k as int]);
            assert(views(target@).to_set() =~= start.union(toks.take(k + 1).to_set()));
        }
        k += 1;
    }
    assert(toks.take(k as int) =~= toks);
}

/// Parses a query: words are separated by white space; `AND` and `OR` (in any
/// ASCII case) choose the mode; a word starting with `-` gives excluded
/// terms; all other words give positive terms. Fails with `EmptyQuery` when
/// no positive term remains.
pub fn parse_query<T: Tokenizer>(query: &str, tokenizer: &T) -> (r: Result<ParsedQuery>)
    ensures
        r is Err <==> positive_term_set(tokenizer, split_ws(query@)).is_empty(),
        r matches Err(e) ==> e == AppError::EmptyQuery,
        r matches Ok(p) ==> parsed_query_spec(tokenizer, query@, p),
{
    let cs = chars_of(query);
    let words = split_whitespace(&cs);
    let ghost ws = char_views(words@);
    let and_kw: [char; 3] = ['A', 'N', 'D'];
    let or_kw: [char; 2] = ['O', 'R'];
    assert(and_kw@ == seq!['A', 'N', 'D']);
    assert(or_kw@ == seq!['O', 'R']);
    let mut positives: Vec<String> = Vec::new();
    let mut excluded: Vec<String> = Vec::new();
    let mut saw_and = false;
    let mut saw_or = false;
    let mut k: usize = 0;
    while k < words.len()
        invariant
            k <= words@.len(),
            ws == char_views(words@),
            and_kw@ == seq!['A', 'N', 'D'],
            or_kw@ == seq!['O', 'R'],
            sorted_strict(views(positives@)),
            sorted_strict(views(excluded@)),
            views(positives@).to_set() == positive_term_set(tokenizer, ws.take(k as int)),
            views(excluded@).to_set() == excluded_term_set(tokenizer, ws.take(k as int)),
            saw_and == exists|i: int| 0 <= i < k && is_and_word(#[trigger] ws[i]),
            saw_or == exists|i: int| 0 <= i < k && is_or_word(#[trigger] ws[i]),
        decreases words.len() - k,
    {
        let w = &words[k];
        let ghost wv = ws[k as int];
        assert(wv == w@);
        assert(ws.take(k + 1).drop_last() =~= ws.take(k as int));
        assert(ws.take(k + 1).last() == wv);
        if chars_eq_ignore_ascii_case(w, &and_kw) {
            assert(ascii_lower_seq(wv).len() == 3);
            assert(!is_or_word(wv));
            saw_and = true;
        } else if chars_eq_ignore_ascii_case(w, &or_kw) {
            saw_or = true;
        } else if w.len() > 0 && w[0] == '-' {
            let part = string_of_range(w, 1, w.len());
            assert(part@ =~= wv.drop_first());
            add_tokens(&mut excluded, part.as_str(), tokenizer);
        } else {
            let part = string_of(w);
            add_tokens(&mut positives, part.as_str(), tokenizer);
        }
        proof {
            assert(views(positives@).to_set() =~= positive_term_set(tokenizer, ws.take(k + 1)));
            assert(views(excluded@).to_set() =~= excluded_term_set(tokenizer, ws.take(k + 1)));
            assert(saw_and == exists|i: int| 0 <= i < k + 1 && is_and_word(#[trigger] ws[i]));
            assert(saw_or == exists|i: int| 0 <= i < k + 1 && is_or_word(#[trigger] ws[i]));
        }
        k += 1;
    }
    assert(ws.take(k as int) =~= ws);
    if positives.len() == 0 {
        assert(views(positives@).to_set() =~= Set::empty());
        return Err(AppError::EmptyQuery);
    }
    proof {
        assert(views(positives@).to_set().contains(views(positives@)[0]));
    }
    let mode = if saw_and && !saw_or {
        QueryMode::All
    } else {
        QueryMode::Any
    };
    Ok(ParsedQuery { original: crate::text::to_owned_string(query), mode, positive_terms: positives, excluded_terms: excluded })
}

/// A term is excluded exactly when some word of `ws` that starts with `-`
/// (and is not `AND` or `OR`) has it among the terms of its text after the
/// `-`.
proof fn lemma_excluded_term_set_members<T: Tokenizer>(tok: &T, ws: Seq<Seq<char>>, t: Seq<char>)
    ensures
        excluded_term_set(tok, ws).contains(t) <==> exists|i: int|
            0 <= i < ws.len() && ws[i].len() > 0 && ws[i][0] == '-' && !is_and_word(ws[i])
                && !is_or_word(ws[i]) && #[trigger] tok.spec_tokenize(ws[i].drop_first()).contains(t),
    decreases ws.len(),
{
    if ws.len() > 0 {
        let init = ws.drop_last();
        lemma_excluded_term_set_members(tok, init, t);
        if exists|i: int|
            0 <= i < init.len() && init[i].len() > 0 && init[i][0] == '-' && !is_and_word(init[i])
                && !is_or_word(init[i]) && #[trigger] tok.spec_tokenize(init[i].drop_first()).contains(t) {
            let i = choose|i: int|
                0 <= i < init.len() && init[i].len() > 0 && init[i][0] == '-' && !is_and_word(init[i])
                    && !is_or_word(init[i]) && #[trigger] tok.spec_tokenize(init[i].drop_first()).contains(t);
            assert(ws[i] == init[i]);
        }
        if exists|i: int|
            0 <= i < ws.len() && ws[i].len() > 0 && ws[i][0] == '-' && !is_and_word(ws[i])
                && !is_or_word(ws[i]) && #[trigger] tok.spec_tokenize(ws[i].drop_first()).contains(t) {
            let i = choose|i: int|
                0 <= i < ws.len() && ws[i].len() > 0 && ws[i][0] == '-' && !is_and_word(ws[i])
                    && !is_or_word(ws[i]) && #[trigger] tok.spec_tokenize(ws[i].drop_first()).contains(t);
            if i < ws.len() - 1 {
                assert(init[i] == ws[i]);
            }
        }
    }
}

/// A term is positive exactly when some word of `ws` that is neither `AND`,
/// `OR` nor starts with `-` has it among its terms.
proof fn lemma_positive_term_set_members<T: Tokenizer>(tok: &T, ws: Seq<Seq<char>>, t: Seq<char>)
    ensures
        positive_term_set(tok, ws).contains(t) <==> exists|i: int|
            0 <= i < ws.len() && !(ws[i].len() > 0 && ws[i][0] == '-') && !is_and_word(ws[i])
                && !is_or_word(ws[i]) && #[trigger] tok.spec_tokenize(ws[i]).contains(t),
    decreases ws.len(),
{
    if ws.len() > 0 {
        let init = ws.drop_last();
        lemma_positive_term_set_members(tok, init, t);
        if exists|i: int|
            0 <= i < init.len() && !(init[i].len() > 0 && init[i][0] == '-') && !is_and_word(init[i])
                && !is_or_word(init[i]) && #[trigger] tok.spec_tokenize(init[i]).contains(t) {
            let i = choose|i: int|
                0 <= i < init.len() && !(init[i].len() > 0 && init[i][0] == '-') && !is_and_word(
                    init[i],
                ) && !is_or_word(init[i]) && #[trigger] tok.spec_tokenize(init[i]).contains(t);
            assert(ws[i] == init[i]);
        }
        if exists|i: int|
            0 <= i < ws.len() && !(ws[i].len() > 0 && ws[i][0] == '-') && !is_and_word(ws[i])
                && !is_or_word(ws[i]) && #[trigger] tok.spec_tokenize(ws[i]).contains(t) {
            let i = choose|i: int|
                0 <= i < ws.len() && !(ws[i].len() > 0 && ws[i][0] == '-') && !is_and_word(ws[i])
                    && !is_or_word(ws[i]) && #[trigger] tok.spec_tokenize(ws[i]).contains(t);
            if i < ws.len() - 1 {
                assert(init[i] == ws[i]);
            }
        }
    }
}

/// What a parsed query holds, word by word: a term is excluded exactly when
/// some word of the query that starts with `-` (and is not `AND` or `OR`)
/// yields it from its text after the `-`, and a term is positive exactly
/// when some other word that is not `AND` or `OR` yields it. So every
/// excluding word contributes all its terms, and adding a word to a query
/// never removes a term.
pub proof fn lemma_parsed_query_terms<T: Tokenizer>(tok: &T, query: Seq<char>, p: ParsedQuery, t: Seq<char>)
    requires
        parsed_query_spec(tok, query, p),
    ensures
        views(p.excluded_terms@).contains(t) <==> exists|i: int|
            0 <= i < split_ws(query).len() && split_ws(query)[i].len() > 0 && split_ws(query)[i][0]
                == '-' && !is_and_word(split_ws(query)[i]) && !is_or_word(split_ws(query)[i])
                && #[trigger] tok.spec_tokenize(split_ws(query)[i].drop_first()).contains(t),
        views(p.positive_terms@).contains(t) <==> exists|i: int|
            0 <= i < split_ws(query).len() && !(split_ws(query)[i].len() > 0 && split_ws(query)[i][0]
                == '-') && !is_and_word(split_ws(query)[i]) && !is_or_word(split_ws(query)[i])
                && #[trigger] tok.spec_tokenize(split_ws(query)[i]).contains(t),
{
    let ws = split_ws(query);
    lemma_excluded_term_set_members(tok, ws, t);
    lemma_positive_term_set_members(tok, ws, t);
    assert(views(p.excluded_terms@).to_set().contains(t) <==> views(p.excluded_terms@).contains(t));
    assert(views(p.positive_terms@).to_set().contains(t) <==> views(p.positive_terms@).contains(t));
}

} // verus!
