//! Result snippets: a window of the document around the first hit, with the
//! query terms marked in bold.
//!
//! Positions are found in the lowercased text and, as UTF-8 byte offsets,
//! applied to the text itself. Where lowercasing changes the byte length of
//! characters such an offset may fall inside a character; slicing the text
//! there would panic, and these functions report it as `None`.
use crate::text::{
    ascii_lower_seq, chars_of, char_views, compare_chars, find_from, find_from_exec,
    lemma_find_from, lemma_seq_lt_irreflexive, lemma_seq_lt_total, lemma_seq_lt_transitive,
    push_char, push_chars, seq_lt, spec_to_lowercase, str_to_lowercase, string_of,
    string_of_range, views,
};
use crate::tokenizer::{char_class, char_class_exec, run_end, run_len, lemma_run_len_bounds};
use vstd::prelude::*;

verus! {

/// Number of bytes of the UTF-8 encoding of `c`.
pub open spec fn char_width(c: char) -> nat {
    if (c as u32) < 0x80 {
        1
    } else if (c as u32) < 0x800 {
        2
    } else if (c as u32) < 0x10000 {
        3
    } else {
        4
    }
}

/// Number of bytes of the UTF-8 encoding of `s`.
pub open spec fn byte_len(s: Seq<char>) -> nat
    decreases s.len(),
{
    if s.len() == 0 {
        0
    } else {
        byte_len(s.drop_last()) + char_width(s.last())
    }
}

/// The character position of `s` at byte offset `b`, when `b` falls on a
/// character boundary of `s` (the end counts as one).
pub open spec fn byte_index(s: Seq<char>, b: int) -> Option<int> {
    if exists|q: int| 0 <= q <= s.len() && byte_len(s.take(q)) == b {
        Some(choose|q: int| 0 <= q <= s.len() && byte_len(s.take(q)) == b)
    } else {
        None
    }
}

/// The byte offset in the lowercased `text` where the lowercased `term`
/// first occurs (`find_case_insensitive`).
pub open spec fn find_byte(text: Seq<char>, term: Seq<char>) -> Option<int> {
    let l = spec_to_lowercase(text);
    match find_from(l, spec_to_lowercase(term), 0) {
        Some(p) => Some(byte_len(l.take(p)) as int),
        None => None,
    }
}

/// The least `find_byte` of the terms that occur.
pub open spec fn min_hit(text: Seq<char>, terms: Seq<Seq<char>>) -> Option<int>
    decreases terms.len(),
{
    if terms.len() == 0 {
        None
    } else {
        let h = find_byte(text, terms.last());
        match min_hit(text, terms.drop_last()) {
            None => h,
            Some(a) => match h {
                None => Some(a),
                Some(b) => Some(if b < a { b } else { a }),
            },
        }
    }
}

/// The snippet window of `content` around byte offset `pos`: the whole text
/// when it has at most `max` characters; otherwise `max` characters starting
/// `max / 3` characters before the hit, with `...` where text is cut off.
/// `None` where the offset is no character boundary of `content` or the end
/// of the window overflows.
pub open spec fn window_spec(content: Seq<char>, pos: int, max: int) -> Option<Seq<char>> {
    if content.len() <= max {
        Some(content)
    } else {
        let b = if pos < byte_len(content) {
            pos
        } else {
            byte_len(content) as int
        };
        match byte_index(content, b) {
            None => None,
            Some(h) => {
                let start = if h >= max / 3 {
                    h - max / 3
                } else {
                    0
                };
                if start + max > usize::MAX {
                    None
                } else {
                    let end = if start + max < content.len() {
                        start + max
                    } else {
                        content.len() as int
                    };
                    Some(
                        (if start > 0 {
                            seq!['.', '.', '.']
                        } else {
                            seq![]
                        }) + content.subrange(start, end) + (if end < content.len() {
                            seq!['.', '.', '.']
                        } else {
                            seq![]
                        }),
                    )
                }
            },
        }
    }
}

/// Marks, from character position `p` of the lowercased text `l` on, every
/// occurrence of the lowercased term `t` in `text` with `**` around it; the
/// occurrences are found in `l` and cut out of `text` at the same byte
/// offsets. `None` where an offset is no character boundary of `text`, or
/// where `t` is empty and the search would not end.
pub open spec fn highlight_from(text: Seq<char>, l: Seq<char>, t: Seq<char>, p: int) -> Option<
    Seq<char>,
>
    decreases l.len() + 1 - p,
{
    if t.len() == 0 || p < 0 || p > l.len() {
        None
    } else {
        proof {
            lemma_find_from(l, t, p);
        }
        let q0 = byte_index(text, byte_len(l.take(p)) as int);
        match find_from(l, t, p) {
            None => match q0 {
                Some(a) => Some(text.skip(a)),
                None => None,
            },
            Some(s) => {
                let e = s + t.len();
                let q1 = byte_index(text, byte_len(l.take(s)) as int);
                let q2 = byte_index(text, byte_len(l.take(e)) as int);
                match (q0, q1, q2, highlight_from(text, l, t, e)) {
                    (Some(a), Some(b), Some(c), Some(rest)) => Some(
                        text.subrange(a, b) + seq!['*', '*'] + text.subrange(b, c) + seq!['*', '*']
                            + rest,
                    ),
                    _ => None,
                }
            },
        }
    }
}

/// `text` with every occurrence of `term` marked in bold, case ignored
/// (`highlight_one_term`).
pub open spec fn highlight_one(text: Seq<char>, term: Seq<char>) -> Option<Seq<char>> {
    highlight_from(text, spec_to_lowercase(text), spec_to_lowercase(term), 0)
}

/// `text` with the non-empty `terms` marked one after the other
/// (`highlight_terms`).
pub open spec fn highlight_all(text: Seq<char>, terms: Seq<Seq<char>>) -> Option<Seq<char>>
    decreases terms.len(),
{
    if terms.len() == 0 {
        Some(text)
    } else if terms[0].len() == 0 {
        highlight_all(text, terms.drop_first())
    } else {
        match highlight_one(text, terms[0]) {
            Some(t2) => highlight_all(t2, terms.drop_first()),
            None => None,
        }
    }
}

/// The runs of `t`, as the tokenizer cuts it.
pub open spec fn runs(t: Seq<char>) -> Seq<Seq<char>>
    decreases t.len(),
{
    if t.len() == 0 {
        seq![]
    } else {
        proof {
            lemma_run_len_bounds(t);
        }
        seq![t.take(run_len(t) as int)] + runs(t.skip(run_len(t) as int))
    }
}

/// The term that a run of the query shows: an ASCII word in lowercase when it
/// is a matched term; a run of CJK ideographs as it is, when it is a single
/// matched ideograph or one of its character pairs is matched.
pub open spec fn display_run(run: Seq<char>, matched: Set<Seq<char>>) -> Option<Seq<char>> {
    if run.len() == 0 {
        None
    } else if char_class(run[0]) == 0 {
        if matched.contains(ascii_lower_seq(run)) {
            Some(ascii_lower_seq(run))
        } else {
            None
        }
    } else if char_class(run[0]) == 1 {
        if (run.len() == 1 && matched.contains(run)) || (exists|i: int|
            0 <= i < run.len() - 1 && matched.contains(#[trigger] run.subrange(i, i + 2))) {
            Some(run)
        } else {
            None
        }
    } else {
        None
    }
}

/// The terms the query's runs show.
pub open spec fn shown_terms(rs: Seq<Seq<char>>, matched: Set<Seq<char>>) -> Set<Seq<char>>
    decreases rs.len(),
{
    if rs.len() == 0 {
        Set::empty()
    } else {
        let rest = shown_terms(rs.drop_last(), matched);
        match display_run(rs.last(), matched) {
            Some(x) => rest.insert(x),
            None => rest,
        }
    }
}

/// The set of terms to show for a query: those its runs show, or every
/// matched term when they show none.
pub open spec fn display_set(query: Seq<char>, matched: Seq<Seq<char>>) -> Set<Seq<char>> {
    let shown = shown_terms(runs(query), matched.to_set());
    if shown.is_empty() {
        matched.to_set()
    } else {
        shown
    }
}

/// Display order: longer terms first; terms of equal length in string order.
pub open spec fn display_lt(a: Seq<char>, b: Seq<char>) -> bool {
    a.len() > b.len() || (a.len() == b.len() && seq_lt(a, b))
}

/// Strictly increasing in display order.
pub open spec fn display_sorted(s: Seq<Seq<char>>) -> bool {
    forall|i: int, j: int| #![trigger s[i], s[j]] 0 <= i < j < s.len() ==> display_lt(s[i], s[j])
}

/// What `make_snippet` gives: the window around the first hit of a shown
/// term, with the shown terms marked; `None` where slicing at a byte offset
/// would panic or the search for a term would not end.
pub open spec fn snippet_spec(
    content: Seq<char>,
    terms: Seq<Seq<char>>,
    max: int,
) -> Option<Seq<char>> {
    let pos = match min_hit(content, terms) {
        Some(h) => h,
        None => 0,
    };
    match window_spec(content, pos, max) {
        Some(w) => highlight_all(w, terms),
        None => None,
    }
}

pub proof fn lemma_display_lt_total(a: Seq<char>, b: Seq<char>)
    ensures
        a == b || display_lt(a, b) || display_lt(b, a),
        !(display_lt(a, b) && display_lt(b, a)),
        !display_lt(a, a),
{
    lemma_seq_lt_total(a, b);
    lemma_seq_lt_irreflexive(a);
}

pub proof fn lemma_display_lt_transitive(a: Seq<char>, b: Seq<char>, c: Seq<char>)
    requires
        display_lt(a, b),
        display_lt(b, c),
    ensures
        display_lt(a, c),
{
    if a.len() == b.len() && b.len() == c.len() {
        lemma_seq_lt_transitive(a, b, c);
    }
}

/// Three-way comparison in display order.
fn compare_display(a: &[char], b: &[char]) -> (r: i8)
    ensures
        r < 0 <==> display_lt(a@, b@),
        r == 0 <==> a@ == b@,
        r > 0 <==> display_lt(b@, a@),
{
    proof {
        lemma_display_lt_total(a@, b@);
    }
    if a.len() > b.len() {
        -1
    } else if a.len() < b.len() {
        1
    } else {
        compare_chars(a, b)
    }
}

/// Adds `t` to a vector kept in strict display order, unless it is there.
fn insert_display(set: &mut Vec<Vec<char>>, t: Vec<char>)
    requires
        display_sorted(char_views(old(set)@)),
    ensures
        display_sorted(char_views(final(set)@)),
        char_views(final(set)@).to_set() == char_views(old(set)@).to_set().insert(t@),
{
    let ghost s0 = char_views(set@);
    let mut p: usize = 0;
    while p < set.len()
        invariant
            set@ == old(set)@,
            s0 == char_views(set@),
            display_sorted(s0),
            p <= set@.len(),
            forall|i: int| 0 <= i < p ==> display_lt(#[trigger] s0[i], t@),
        ensures
            set@ == old(set)@,
            p <= set@.len(),
            forall|i: int| 0 <= i < p ==> display_lt(#[trigger] s0[i], t@),
            p < set@.len() ==> display_lt(t@, s0[p as int]),
        decreases set.len() - p,
    {
        let c = compare_display(&set[p], &t);
        assert(s0[p as int] == set@[p as int]@);
        if c == 0 {
            proof {
                assert(s0.to_set().insert(t@) =~= s0.to_set());
            }
            return;
        }
        if c > 0 {
            break;
        }
        p += 1;
    }
    proof {
        let r = s0.insert(p as int, t@);
        assert forall|i: int, j: int| #![trigger r[i], r[j]] 0 <= i < j < r.len() implies display_lt(
            r[i],
            r[j],
        ) by {
            if i < p && j < p {
                assert(r[i] == s0[i] && r[j] == s0[j]);
            } else if i < p && j == p {
            } else if i < p && j > p {
                assert(r[i] == s0[i] && r[j] == s0[j - 1]);
                assert(display_lt(s0[i], s0[j - 1]));
            } else if i == p {
                assert(r[j] == s0[j - 1]);
                if j - 1 > p {
                    assert(display_lt(s0[p as int], s0[j - 1]));
                    lemma_display_lt_transitive(t@, s0[p as int], s0[j - 1]);
                }
            } else {
                assert(r[i] == s0[i - 1] && r[j] == s0[j - 1]);
                assert(display_lt(s0[i - 1], s0[j - 1]));
            }
        }
    }
    set.insert(p, t);
    proof {
        let r = s0.insert(p as int, t@);
        assert(char_views(set@) =~= r);
        assert(r.to_set() =~= s0.to_set().insert(t@)) by {
            assert forall|x: Seq<char>| r.to_set().contains(x) <==> s0.to_set().insert(
                t@,
            ).contains(x) by {
                if r.to_set().contains(x) {
                    let k = choose|k: int| 0 <= k < r.len() && r[k] == x;
                    if k < p {
                        assert(s0[k] == x);
                    } else if k > p {
                        assert(s0[k - 1] == x);
                    }
                }
                if s0.to_set().contains(x) {
                    let k = choose|k: int| 0 <= k < s0.len() && s0[k] == x;
                    if k < p {
                        assert(r[k] == x);
                    } else {
                        assert(r[k + 1] == x);
                    }
                }
                if x == t@ {
                    assert(r[p as int] == x);
                }
            }
        }
    }
}

/// `v` holds `t`.
fn contains_chars(v: &[String], t: &[char]) -> (r: bool)
    ensures
        r == views(v@).contains(t@),
{
    let mut i: usize = 0;
    while i < v.len()
        invariant
            i <= v@.len(),
            forall|k: int| 0 <= k < i ==> v@[k]@ != t@,
        decreases v.len() - i,
    {
        if compare_chars(&chars_of(v[i].as_str()), t) == 0 {
            assert(views(v@)[i as int] == t@);
            return true;
        }
        i += 1;
    }
    proof {
        if views(v@).contains(t@) {
            let k = choose|k: int| 0 <= k < views(v@).len() && views(v@)[k] == t@;
            assert(v@[k]@ == t@);
        }
    }
    false
}

/// The term that the run `cs[i..j]` of the query shows, if any.
fn display_run_exec(cs: &[char], i: usize, j: usize, matched: &[String]) -> (r: Option<Vec<char>>)
    requires
        i < j <= cs@.len(),
    ensures
        r matches Some(x) ==> display_run(cs@.subrange(i as int, j as int), views(matched@).to_set())
            == Some(x@),
        r is None ==> display_run(cs@.subrange(i as int, j as int), views(matched@).to_set()) is None,
{
    let ghost run = cs@.subrange(i as int, j as int);
    let ghost ms = views(matched@).to_set();
    assert(run[0] == cs@[i as int]);
    let k = char_class_exec(cs[i]);
    let seg = chars_of(string_of_range(cs, i, j).as_str());
    assert(seg@ == run);
    if k == 0 {
        let lower = crate::text::ascii_lower_vec(&seg);
        if contains_chars(matched, &lower) {
            Some(lower)
        } else {
            None
        }
    } else if k == 1 {
        if seg.len() == 1 {
            if contains_chars(matched, &seg) {
                Some(seg)
            } else {
                proof {
                    assert forall|m: int| !(0 <= m < run.len() - 1 && ms.contains(#[trigger] run.subrange(m, m + 2))) by {}
                }
                None
            }
        } else {
            let mut m: usize = 0;
            while m + 1 < seg.len()
                invariant
                    seg@ == run,
                    run == cs@.subrange(i as int, j as int),
                    char_class(run[0]) == 1,
                    run.len() >= 2,
                    m + 1 <= run.len(),
                    ms == views(matched@).to_set(),
                    forall|m2: int| 0 <= m2 < m ==> !ms.contains(#[trigger] run.subrange(m2, m2 + 2)),
                decreases seg.len() - m,
            {
                let pair = chars_of(string_of_range(&seg, m, m + 2).as_str());
                if contains_chars(matched, &pair) {
                    assert(ms.contains(run.subrange(m as int, m + 2)));
                    return Some(seg);
                }
                m += 1;
            }
            None
        }
    } else {
        None
    }
}

/// The terms to show for `query`, in display order: longest first, equal
/// lengths in string order (`display_terms`).
pub fn display_terms(query: &str, matched_terms: &[String]) -> (r: Vec<String>)
    ensures
        display_sorted(views(r@)),
        views(r@).to_set() == display_set(query@, views(matched_terms@)),
{
    let cs = chars_of(query);
    let ghost ms = views(matched_terms@).to_set();
    let mut shown: Vec<Vec<char>> = Vec::new();
    let mut i: usize = 0;
    proof {
        assert(cs@.skip(0) =~= cs@);
        assert(char_views(shown@).to_set() =~= Set::empty());
    }
    // The runs of cs[..i] are done; those of cs[i..] follow.
    let ghost all_runs = runs(cs@);
    let ghost done: Seq<Seq<char>> = seq![];
    while i < cs.len()
        invariant
            i <= cs@.len(),
            ms == views(matched_terms@).to_set(),
            all_runs == runs(cs@),
            done + runs(cs@.skip(i as int)) == all_runs,
            display_sorted(char_views(shown@)),
            char_views(shown@).to_set() == shown_terms(done, ms),
        decreases cs.len() - i,
    {
        let j = run_end(&cs, i);
        let ghost rest = cs@.skip(i as int);
        proof {
            assert(rest.take((j - i) as int) =~= cs@.subrange(i as int, j as int));
            assert(rest.skip((j - i) as int) =~= cs@.skip(j as int));
        }
        let ghost run = cs@.subrange(i as int, j as int);
        let ghost done2 = done.push(run);
        match display_run_exec(&cs, i, j, matched_terms) {
            Some(x) => {
                insert_display(&mut shown, x);
            },
            None => {},
        }
        proof {
            assert(done2.drop_last() =~= done);
            assert(done2.last() == run);
            assert(done2 + runs(cs@.skip(j as int)) =~= done + runs(rest));
            done = done2;
        }
        i = j;
    }
    if shown.len() == 0 {
        proof {
            assert(char_views(shown@).to_set() =~= Set::empty());
            assert(shown_terms(all_runs, ms).is_empty());
            assert(done =~= all_runs);
        }
        let mut k: usize = 0;
        while k < matched_terms.len()
            invariant
                k <= matched_terms@.len(),
                display_sorted(char_views(shown@)),
                char_views(shown@).to_set() == views(matched_terms@).take(k as int).to_set(),
            decreases matched_terms.len() - k,
        {
            insert_display(&mut shown, chars_of(matched_terms[k].as_str()));
            proof {
                let v = views(matched_terms@);
                assert(v.take(k + 1) =~= v.take(k as int).push(v[k as int]));
                v.take(k as int).lemma_push_to_set_commute(v[k as int]);
            }
            k += 1;
        }
        assert(views(matched_terms@).take(k as int) =~= views(matched_terms@));
    } else {
        proof {
            assert(done + runs(cs@.skip(i as int)) == all_runs);
            assert(cs@.skip(i as int).len() == 0);
            assert(done + seq![] =~= done);
            assert(char_views(shown@).to_set().contains(char_views(shown@)[0]));
        }
    }
    let mut out: Vec<String> = Vec::new();
    let mut m: usize = 0;
    while m < shown.len()
        invariant
            m <= shown@.len(),
            views(out@) == char_views(shown@).take(m as int),
        decreases shown.len() - m,
    {
        let ghost before = views(out@);
        let sm = string_of(&shown[m]);
        assert(sm@ == char_views(shown@)[m as int]);
        out.push(sm);
        assert(views(out@) =~= before.push(sm@));
        assert(char_views(shown@).take(m + 1) =~= char_views(shown@).take(m as int).push(
            char_views(shown@)[m as int],
        ));
        assert(views(out@) =~= char_views(shown@).take(m + 1));
        m += 1;
    }
    assert(char_views(shown@).take(m as int) =~= char_views(shown@));
    out
}

/// The display-ordered sequence of the terms to show for a query.
pub open spec fn display_seq(query: Seq<char>, matched: Seq<Seq<char>>) -> Seq<Seq<char>> {
    choose|s: Seq<Seq<char>>| display_sorted(s) && s.to_set() == display_set(query, matched)
}

/// Two sequences in strict display order with the same elements are equal.
pub proof fn lemma_display_sorted_unique(a: Seq<Seq<char>>, b: Seq<Seq<char>>)
    requires
        display_sorted(a),
        display_sorted(b),
        a.to_set() == b.to_set(),
    ensures
        a == b,
    decreases a.len() + b.len(),
{
    if a.len() == 0 || b.len() == 0 {
        if a.len() > 0 {
            assert(a.to_set().contains(a[0]));
        }
        if b.len() > 0 {
            assert(b.to_set().contains(b[0]));
        }
        assert(a =~= b);
    } else {
        // The first elements are the least of the common set.
        assert(a.to_set().contains(a[0]));
        assert(b.to_set().contains(b[0]));
        let ia = choose|i: int| 0 <= i < a.len() && a[i] == b[0];
        let ib = choose|i: int| 0 <= i < b.len() && b[i] == a[0];
        lemma_display_lt_total(a[0], b[0]);
        if a[0] != b[0] {
            if display_lt(a[0], b[0]) {
                assert(ib > 0);
                assert(display_lt(b[0], b[ib]));
            } else {
                assert(ia > 0);
                assert(display_lt(a[0], a[ia]));
            }
        }
        let a2 = a.drop_first();
        let b2 = b.drop_first();
        assert forall|x: Seq<char>| a2.to_set().contains(x) <==> b2.to_set().contains(x) by {
            if a2.to_set().contains(x) {
                let k = choose|k: int| 0 <= k < a2.len() && a2[k] == x;
                assert(a[k + 1] == x);
                assert(display_lt(a[0], a[k + 1]));
                lemma_display_lt_total(x, x);
                assert(b.to_set().contains(x));
                let kb = choose|kb: int| 0 <= kb < b.len() && b[kb] == x;
                assert(kb != 0);
                assert(b2[kb - 1] == x);
            }
            if b2.to_set().contains(x) {
                let k = choose|k: int| 0 <= k < b2.len() && b2[k] == x;
                assert(b[k + 1] == x);
                assert(display_lt(b[0], b[k + 1]));
                lemma_display_lt_total(x, x);
                assert(a.to_set().contains(x));
                let ka = choose|ka: int| 0 <= ka < a.len() && a[ka] == x;
                assert(ka != 0);
                assert(a2[ka - 1] == x);
            }
        }
        assert(a2.to_set() =~= b2.to_set());
        assert forall|i: int, j: int| #![trigger a2[i], a2[j]] 0 <= i < j < a2.len() implies display_lt(a2[i], a2[j]) by {
            assert(a2[i] == a[i + 1] && a2[j] == a[j + 1]);
        }
        assert forall|i: int, j: int| #![trigger b2[i], b2[j]] 0 <= i < j < b2.len() implies display_lt(b2[i], b2[j]) by {
            assert(b2[i] == b[i + 1] && b2[j] == b[j + 1]);
        }
        lemma_display_sorted_unique(a2, b2);
        assert(a =~= b) by {
            assert forall|i: int| 0 <= i < a.len() implies a[i] == b[i] by {
                if i > 0 {
                    assert(a[i] == a2[i - 1] && b[i] == b2[i - 1]);
                }
            }
        }
    }
}

/// The shown terms of a query in display order.
pub fn display_terms_ordered(query: &str, matched_terms: &[String]) -> (r: Vec<String>)
    ensures
        views(r@) == display_seq(query@, views(matched_terms@)),
{
    let r = display_terms(query, matched_terms);
    proof {
        let d = display_seq(query@, views(matched_terms@));
        assert(display_sorted(d) && d.to_set() == display_set(query@, views(matched_terms@)));
        lemma_display_sorted_unique(views(r@), d);
    }
    r
}

pub proof fn lemma_byte_len_step(s: Seq<char>, i: int)
    requires
        0 <= i < s.len(),
    ensures
        byte_len(s.take(i + 1)) == byte_len(s.take(i)) + char_width(s[i]),
{
    assert(s.take(i + 1).drop_last() =~= s.take(i));
    assert(s.take(i + 1).last() == s[i]);
}

pub proof fn lemma_byte_len_bound(s: Seq<char>)
    ensures
        s.len() <= byte_len(s) <= 4 * s.len(),
    decreases s.len(),
{
    if s.len() > 0 {
        lemma_byte_len_bound(s.drop_last());
    }
}

/// Byte offsets grow strictly with character positions.
pub proof fn lemma_byte_len_strict(s: Seq<char>, i: int, j: int)
    requires
        0 <= i < j <= s.len(),
    ensures
        byte_len(s.take(i)) < byte_len(s.take(j)),
    decreases j - i,
{
    lemma_byte_len_step(s, j - 1);
    if i < j - 1 {
        lemma_byte_len_strict(s, i, j - 1);
    }
}

/// The character position at the byte offset of character position `h` is
/// `h`.
pub proof fn lemma_byte_index_of_position(s: Seq<char>, h: int)
    requires
        0 <= h <= s.len(),
    ensures
        byte_index(s, byte_len(s.take(h)) as int) == Some(h),
{
    let b = byte_len(s.take(h)) as int;
    assert(0 <= h <= s.len() && byte_len(s.take(h)) == b);
    let q = choose|q: int| 0 <= q <= s.len() && byte_len(s.take(q)) == b;
    if q < h {
        lemma_byte_len_strict(s, q, h);
    } else if h < q {
        lemma_byte_len_strict(s, h, q);
    }
}

/// The snippet window counts characters, whatever their byte widths: for a
/// hit at character position `h` (given, as the search finds it, by its
/// byte offset) of a content longer than `max`, the window starts `max / 3`
/// characters before the hit (at the start when the hit is nearer to it),
/// holds `max` characters or up to the end, and marks a cut on either side
/// with `...`. So every stretch of the content from the hit on that ends
/// within the window appears in it, `h - start` characters after the
/// leading marker.
pub proof fn lemma_window_counts_characters(content: Seq<char>, h: int, max: int, k: int)
    requires
        0 <= max < content.len(),
        0 <= h <= content.len(),
        0 <= k,
        (if h >= max / 3 { h - max / 3 } else { 0 }) + max <= usize::MAX,
    ensures
        ({
            let start = if h >= max / 3 { h - max / 3 } else { 0 };
            let end = if start + max < content.len() { start + max } else { content.len() as int };
            let lead: Seq<char> = if start > 0 { seq!['.', '.', '.'] } else { seq![] };
            let tail: Seq<char> = if end < content.len() { seq!['.', '.', '.'] } else { seq![] };
            &&& window_spec(content, byte_len(content.take(h)) as int, max) == Some(
                lead + content.subrange(start, end) + tail,
            )
            &&& h + k <= end ==> window_spec(content, byte_len(content.take(h)) as int, max)->0.subrange(
                lead.len() + h - start,
                lead.len() + h - start + k,
            ) == content.subrange(h, h + k)
        }),
{
    let start = if h >= max / 3 { h - max / 3 } else { 0 };
    let end = if start + max < content.len() { start + max } else { content.len() as int };
    let lead: Seq<char> = if start > 0 { seq!['.', '.', '.'] } else { seq![] };
    let tail: Seq<char> = if end < content.len() { seq!['.', '.', '.'] } else { seq![] };
    let b = byte_len(content.take(h)) as int;
    assert(content.take(content.len() as int) =~= content);
    if h < content.len() {
        lemma_byte_len_strict(content, h, content.len() as int);
    }
    lemma_byte_index_of_position(content, h);
    let w = lead + content.subrange(start, end) + tail;
    assert(window_spec(content, b, max) == Some(w));
    if h + k <= end {
        assert(w.subrange(lead.len() + h - start, lead.len() + h - start + k) =~= content.subrange(
            h,
            h + k,
        ));
    }
}

/// Byte offset of every character position of `s`, and of its end.
fn byte_offsets(s: &[char]) -> (r: Vec<u128>)
    ensures
        r@.len() == s@.len() + 1,
        forall|i: int| 0 <= i <= s@.len() ==> #[trigger] r@[i] == byte_len(s@.take(i)),
{
    let mut r: Vec<u128> = Vec::new();
    r.push(0);
    assert(s@.take(0).len() == 0);
    let mut i: usize = 0;
    while i < s.len()
        invariant
            i <= s@.len(),
            r@.len() == i + 1,
            forall|k: int| 0 <= k <= i ==> #[trigger] r@[k] == byte_len(s@.take(k)),
        decreases s.len() - i,
    {
        let c = s[i];
        let w: u128 = if (c as u32) < 0x80 {
            1
        } else if (c as u32) < 0x800 {
            2
        } else if (c as u32) < 0x10000 {
            3
        } else {
            4
        };
        proof {
            lemma_byte_len_step(s@, i as int);
            lemma_byte_len_bound(s@.take(i as int));
        }
        let last = r[i];
        r.push(last + w);
        i += 1;
    }
    r
}

/// The position in `offs` (the byte offsets of `s`) that holds `b`
/// (`byte_index`).
fn byte_index_exec(offs: &Vec<u128>, Ghost(s): Ghost<Seq<char>>, b: u128) -> (r: Option<usize>)
    requires
        offs@.len() == s.len() + 1,
        forall|i: int| 0 <= i <= s.len() ==> #[trigger] offs@[i] == byte_len(s.take(i)),
    ensures
        r matches Some(q) ==> byte_index(s, b as int) == Some(q as int),
        r is None ==> byte_index(s, b as int) is None,
{
    let mut lo: usize = 0;
    let mut hi: usize = offs.len();
    while lo < hi
        invariant
            lo <= hi <= offs@.len(),
            offs@.len() == s.len() + 1,
            forall|i: int| 0 <= i <= s.len() ==> #[trigger] offs@[i] == byte_len(s.take(i)),
            forall|i: int| 0 <= i < lo ==> #[trigger] offs@[i] < b,
            forall|i: int| hi <= i < offs@.len() ==> b < #[trigger] offs@[i],
        decreases hi - lo,
    {
        let mid = lo + (hi - lo) / 2;
        let m = offs[mid];
        if m == b {
            proof {
                let q = choose|q: int| 0 <= q <= s.len() && byte_len(s.take(q)) == b;
                if q < mid {
                    lemma_byte_len_strict(s, q, mid as int);
                } else if q > mid {
                    lemma_byte_len_strict(s, mid as int, q);
                }
            }
            return Some(mid);
        } else if m < b {
            proof {
                assert forall|i: int| 0 <= i < mid + 1 implies #[trigger] offs@[i] < b by {
                    if i < mid {
                        lemma_byte_len_strict(s, i, mid as int);
                    }
                }
            }
            lo = mid + 1;
        } else {
            proof {
                assert forall|i: int| mid <= i < offs@.len() implies b < #[trigger] offs@[i] by {
                    if i > mid {
                        lemma_byte_len_strict(s, mid as int, i);
                    }
                }
            }
            hi = mid;
        }
    }
    proof {
        assert forall|q: int| !(0 <= q <= s.len() && byte_len(s.take(q)) == b) by {
            if 0 <= q <= s.len() {
                assert(offs@[q] == byte_len(s.take(q)));
            }
        }
    }
    None
}

/// The lowercase form of `v`, as characters.
fn lower_chars(v: &[char]) -> (r: Vec<char>)
    ensures
        r@ == spec_to_lowercase(v@),
{
    let s = string_of(v);
    let l = str_to_lowercase(s.as_str());
    chars_of(l.as_str())
}

/// Byte offset of the first occurrence of `term` in the lowercased `text`,
/// case ignored (`find_case_insensitive`).
fn find_case_insensitive(text: &[char], term: &str) -> (r: Option<u128>)
    ensures
        r matches Some(b) ==> find_byte(text@, term@) == Some(b as int),
        r is None ==> find_byte(text@, term@) is None,
{
    let l = lower_chars(text);
    let t = chars_of(str_to_lowercase(term).as_str());
    match find_from_exec(&l, &t, 0) {
        Some(p) => {
            proof {
                lemma_find_from(l@, t@, 0);
            }
            let offs = byte_offsets(&l);
            Some(offs[p])
        },
        None => None,
    }
}

/// Byte offset of the first hit of any of `terms` (`make_snippet`'s hit
/// position).
fn first_hit(content: &[char], terms: &[String]) -> (r: Option<u128>)
    ensures
        r matches Some(b) ==> min_hit(content@, views(terms@)) == Some(b as int),
        r is None ==> min_hit(content@, views(terms@)) is None,
{
    let mut best: Option<u128> = None;
    let mut i: usize = 0;
    while i < terms.len()
        invariant
            i <= terms@.len(),
            best matches Some(b) ==> min_hit(content@, views(terms@).take(i as int)) == Some(b as int),
            best is None ==> min_hit(content@, views(terms@).take(i as int)) is None,
        decreases terms.len() - i,
    {
        let ghost v = views(terms@).take(i + 1);
        assert(v.drop_last() =~= views(terms@).take(i as int));
        assert(v.last() == terms@[i as int]@);
        let h = find_case_insensitive(content, terms[i].as_str());
        best = match (best, h) {
            (None, x) => x,
            (Some(a), None) => Some(a),
            (Some(a), Some(b)) => Some(if b < a { b } else { a }),
        };
        i += 1;
    }
    assert(views(terms@).take(i as int) =~= views(terms@));
    best
}

/// The window of `content` around byte offset `pos` (`window_around`).
fn window_around(content: &[char], pos: u128, max_chars: usize) -> (r: Option<Vec<char>>)
    ensures
        r matches Some(w) ==> window_spec(content@, pos as int, max_chars as int) == Some(w@),
        r is None ==> window_spec(content@, pos as int, max_chars as int) is None,
{
    if content.len() <= max_chars {
        return Some(chars_of(string_of(content).as_str()));
    }
    let offs = byte_offsets(content);
    let total = offs[content.len()];
    assert(content@.take(content@.len() as int) =~= content@);
    let b = if pos < total {
        pos
    } else {
        total
    };
    let h = match byte_index_exec(&offs, Ghost(content@), b) {
        Some(h) => h,
        None => {
            return None;
        },
    };
    proof {
        let q = byte_index(content@, b as int)->0;
        assert(0 <= q <= content@.len());
    }
    let third = max_chars / 3;
    let start = if h >= third {
        h - third
    } else {
        0
    };
    if start > usize::MAX - max_chars {
        return None;
    }
    let end = if start + max_chars < content.len() {
        start + max_chars
    } else {
        content.len()
    };
    let mut out: Vec<char> = Vec::new();
    if start > 0 {
        out.push('.');
        out.push('.');
        out.push('.');
    }
    let mut i = start;
    let ghost head = out@;
    while i < end
        invariant
            start <= i <= end <= content@.len(),
            out@ == head + content@.subrange(start as int, i as int),
        decreases end - i,
    {
        out.push(content[i]);
        assert(content@.subrange(start as int, i + 1) == content@.subrange(start as int, i as int).push(
            content@[i as int],
        ));
        i += 1;
    }
    if end < content.len() {
        out.push('.');
        out.push('.');
        out.push('.');
    }
    assert(out@ =~= (if start > 0 {
        seq!['.', '.', '.']
    } else {
        seq![]
    }) + content@.subrange(start as int, end as int) + (if end < content@.len() {
        seq!['.', '.', '.']
    } else {
        seq![]
    }));
    Some(out)
}

/// `out` put in front of a result.
pub open spec fn prepend(out: Seq<char>, o: Option<Seq<char>>) -> Option<Seq<char>> {
    match o {
        Some(r) => Some(out + r),
        None => None,
    }
}

/// Appends `v[from..to]` to a character vector.
fn extend_from(out: &mut Vec<char>, v: &[char], from: usize, to: usize)
    requires
        from <= to <= v@.len(),
    ensures
        final(out)@ == old(out)@ + v@.subrange(from as int, to as int),
{
    let mut i = from;
    while i < to
        invariant
            from <= i <= to <= v@.len(),
            out@ == old(out)@ + v@.subrange(from as int, i as int),
        decreases to - i,
    {
        out.push(v[i]);
        assert(v@.subrange(from as int, i + 1) == v@.subrange(from as int, i as int).push(v@[i as int]));
        i += 1;
    }
}

/// `text` with every occurrence of `term` marked in bold, case ignored
/// (`highlight_one_term`).
fn highlight_one_term(text: &[char], term: &str) -> (r: Option<Vec<char>>)
    ensures
        r matches Some(x) ==> highlight_one(text@, term@) == Some(x@),
        r is None ==> highlight_one(text@, term@) is None,
{
    let l = lower_chars(text);
    let t = chars_of(str_to_lowercase(term).as_str());
    if t.len() == 0 {
        return None;
    }
    let off_text = byte_offsets(text);
    let off_l = byte_offsets(&l);
    let mut out: Vec<char> = Vec::new();
    let mut p: usize = 0;
    assert(out@ + seq![] =~= out@);
    assert forall|r: Seq<char>| seq![] + r == r by {
        assert(seq![] + r =~= r);
    }
    while p <= l.len()
        invariant
            p <= l@.len(),
            t@.len() > 0,
            l@ == spec_to_lowercase(text@),
            t@ == spec_to_lowercase(term@),
            off_text@.len() == text@.len() + 1,
            forall|i: int| 0 <= i <= text@.len() ==> #[trigger] off_text@[i] == byte_len(text@.take(i)),
            off_l@.len() == l@.len() + 1,
            forall|i: int| 0 <= i <= l@.len() ==> #[trigger] off_l@[i] == byte_len(l@.take(i)),
            highlight_from(text@, l@, t@, 0) == prepend(out@, highlight_from(text@, l@, t@, p as int)),
        decreases l@.len() + 1 - p,
    {
        proof {
            lemma_find_from(l@, t@, p as int);
        }
        let q0 = match byte_index_exec(&off_text, Ghost(text@), off_l[p]) {
            Some(q) => q,
            None => {
                return None;
            },
        };
        match find_from_exec(&l, &t, p) {
            None => {
                let ghost before = out@;
                extend_from(&mut out, text, q0, text.len());
                assert(text@.subrange(q0 as int, text@.len() as int) =~= text@.skip(q0 as int));
                assert(out@ =~= before + text@.skip(q0 as int));
                return Some(out);
            },
            Some(s) => {
                let e = s + t.len();
                let q1 = match byte_index_exec(&off_text, Ghost(text@), off_l[s]) {
                    Some(q) => q,
                    None => {
                        return None;
                    },
                };
                let q2 = match byte_index_exec(&off_text, Ghost(text@), off_l[e]) {
                    Some(q) => q,
                    None => {
                        return None;
                    },
                };
                proof {
                    // Offsets grow with positions, so the cuts are in order.
                    if s > p {
                        lemma_byte_len_strict(l@, p as int, s as int);
                    }
                    lemma_byte_len_strict(l@, s as int, e as int);
                    if q1 < q0 {
                        lemma_byte_len_strict(text@, q1 as int, q0 as int);
                    }
                    if q2 < q1 {
                        lemma_byte_len_strict(text@, q2 as int, q1 as int);
                    }
                }
                let ghost before = out@;
                extend_from(&mut out, text, q0, q1);
                out.push('*');
                out.push('*');
                extend_from(&mut out, text, q1, q2);
                out.push('*');
                out.push('*');
                proof {
                    let piece = text@.subrange(q0 as int, q1 as int) + seq!['*', '*'] + text@.subrange(
                        q1 as int,
                        q2 as int,
                    ) + seq!['*', '*'];
                    assert(out@ =~= before + piece);
                    match highlight_from(text@, l@, t@, e as int) {
                        Some(rest) => {
                            assert(before + (piece + rest) =~= out@ + rest);
                        },
                        None => {},
                    }
                }
                p = e;
            },
        }
    }
    None
}

/// `text` with each of the non-empty `terms` marked in turn
/// (`highlight_terms`).
fn highlight_terms(text: &[char], terms: &[String]) -> (r: Option<Vec<char>>)
    ensures
        r matches Some(x) ==> highlight_all(text@, views(terms@)) == Some(x@),
        r is None ==> highlight_all(text@, views(terms@)) is None,
{
    let mut cur = chars_of(string_of(text).as_str());
    let mut i: usize = 0;
    assert(views(terms@).skip(0) =~= views(terms@));
    while i < terms.len()
        invariant
            i <= terms@.len(),
            highlight_all(text@, views(terms@)) == highlight_all(cur@, views(terms@).skip(i as int)),
        decreases terms.len() - i,
    {
        let ghost rest = views(terms@).skip(i as int);
        assert(rest[0] == terms@[i as int]@);
        assert(rest.drop_first() =~= views(terms@).skip(i + 1));
        if chars_of(terms[i].as_str()).len() > 0 {
            match highlight_one_term(&cur, terms[i].as_str()) {
                Some(next) => {
                    cur = next;
                },
                None => {
                    return None;
                },
            }
        }
        i += 1;
    }
    assert(views(terms@).skip(i as int).len() == 0);
    Some(cur)
}

/// The snippet of `content` when one is defined (no slicing inside a
/// character, no search that does not end); the byte-level behaviour is
/// stated in `snippet_spec`.
fn snippet_chars(content: &str, query: &str, matched_terms: &[String], max_chars: usize) -> (r: Option<Vec<char>>)
    ensures
        r matches Some(x) ==> snippet_spec(content@, display_seq(query@, views(matched_terms@)), max_chars as int) == Some(x@),
        r is None ==> snippet_spec(content@, display_seq(query@, views(matched_terms@)), max_chars as int) is None,
{
    let terms = display_terms_ordered(query, matched_terms);
    let cs = chars_of(content);
    let pos = match first_hit(&cs, &terms) {
        Some(h) => h,
        None => 0,
    };
    match window_around(&cs, pos, max_chars) {
        Some(w) => highlight_terms(&w, &terms),
        None => None,
    }
}

/// The snippet of a result: up to `max_chars` characters of `content` around
/// the first occurrence of a shown query term, each shown term marked with
/// `**`. Defined where the byte offsets found in the lowercased text fall on
/// character boundaries of the text.
pub fn make_snippet(content: &str, query: &str, matched_terms: &[String], max_chars: usize) -> (r: String)
    requires
        snippet_spec(content@, display_seq(query@, views(matched_terms@)), max_chars as int) is Some,
    ensures
        Some(r@) == snippet_spec(content@, display_seq(query@, views(matched_terms@)), max_chars as int),
{
    match snippet_chars(content, query, matched_terms, max_chars) {
        Some(x) => string_of(&x),
        None => {
            proof {
                assert(false);
            }
            String::new()
        },
    }
}

/// The snippet of a result, or `None` where `make_snippet` is not defined
/// (there slicing at a byte offset would panic, or the search for an empty
/// lowercase term would not end).
pub fn try_make_snippet(content: &str, query: &str, matched_terms: &[String], max_chars: usize) -> (r: Option<String>)
    ensures
        r matches Some(s) ==> snippet_spec(content@, display_seq(query@, views(matched_terms@)), max_chars as int) == Some(s@),
        r is None ==> snippet_spec(content@, display_seq(query@, views(matched_terms@)), max_chars as int) is None,
{
    match snippet_chars(content, query, matched_terms, max_chars) {
        Some(_) => Some(make_snippet(content, query, matched_terms, max_chars)),
        None => None,
    }
}

} // verus!
