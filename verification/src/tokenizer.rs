//! Splitting text into search terms.
use crate::text::{
    ascii_lower, ascii_lower_exec, ascii_lower_seq, chars_of, is_ascii_alnum, is_ascii_alnum_exec, is_cjk,
    is_cjk_exec, push_char, string_of_range, views,
};
use vstd::prelude::*;

verus! {

/// Turns a text into the sequence of terms that the index and the queries use.
pub trait Tokenizer {
    /// The terms of `text`, in order of appearance.
    spec fn spec_tokenize(&self, text: Seq<char>) -> Seq<Seq<char>>;

    fn tokenize(&self, text: &str) -> (tokens: Vec<String>)
        ensures
            views(tokens@) == self.spec_tokenize(text@),
    ;
}

/// Splits ASCII words and pairs up runs of CJK ideographs.
#[derive(Debug, Default, Clone, Copy)]
pub struct SimpleTokenizer;

/// The class of a character: `0` for an ASCII letter or digit, `1` for a CJK
/// ideograph, `2` for anything else.
pub open spec fn char_class(c: char) -> u8 {
    if is_ascii_alnum(c) {
        0
    } else if is_cjk(c) {
        1
    } else {
        2
    }
}

/// Length of the run that starts `t`: the maximal prefix of ASCII letters and
/// digits, or of CJK ideographs; a single character of any other class.
pub open spec fn run_len(t: Seq<char>) -> nat
    decreases t.len(),
{
    if t.len() <= 1 {
        t.len()
    } else if char_class(t[0]) != 2 && char_class(t[1]) == char_class(t[0]) {
        1 + run_len(t.drop_first())
    } else {
        1
    }
}

/// The overlapping character pairs of `seg`.
pub open spec fn bigrams(seg: Seq<char>) -> Seq<Seq<char>> {
    Seq::new((seg.len() - 1) as nat, |i: int| seg.subrange(i, i + 2))
}

/// The terms of one run: an ASCII word gives itself in lowercase; a run of
/// CJK ideographs gives its overlapping pairs, or itself when it is one
/// character long; other characters give nothing.
pub open spec fn run_tokens(seg: Seq<char>) -> Seq<Seq<char>> {
    if seg.len() == 0 {
        seq![]
    } else if char_class(seg[0]) == 0 {
        seq![ascii_lower_seq(seg)]
    } else if char_class(seg[0]) == 1 {
        if seg.len() == 1 {
            seq![seg]
        } else {
            bigrams(seg)
        }
    } else {
        seq![]
    }
}

/// The terms of `t`: the terms of each of its runs, in order.
pub open spec fn simple_tokens(t: Seq<char>) -> Seq<Seq<char>>
    decreases t.len(),
{
    if t.len() == 0 {
        seq![]
    } else {
        proof {
            lemma_run_len_bounds(t);
        }
        run_tokens(t.take(run_len(t) as int)) + simple_tokens(t.skip(run_len(t) as int))
    }
}

pub proof fn lemma_run_len_bounds(t: Seq<char>)
    ensures
        t.len() > 0 ==> 1 <= run_len(t),
        run_len(t) <= t.len(),
    decreases t.len(),
{
    if t.len() > 1 {
        lemma_run_len_bounds(t.drop_first());
    }
}

/// `run_len` is the length of the maximal run at the start of `t`.
pub proof fn lemma_run_len_exact(t: Seq<char>, n: nat)
    requires
        1 <= n <= t.len(),
        char_class(t[0]) == 2 ==> n == 1,
        char_class(t[0]) != 2 ==> (forall|m: int|
            0 < m < n ==> #[trigger] char_class(t[m]) == char_class(t[0])),
        char_class(t[0]) != 2 && n < t.len() ==> char_class(t[n as int]) != char_class(t[0]),
    ensures
        run_len(t) == n,
    decreases t.len(),
{
    if t.len() > 1 && char_class(t[0]) != 2 && n > 1 {
        let u = t.drop_first();
        assert(char_class(t[1]) == char_class(t[0]));
        assert forall|m: int| 0 < m < n - 1 implies #[trigger] char_class(u[m]) == char_class(
            u[0],
        ) by {
            assert(u[m] == t[m + 1]);
            assert(char_class(t[m + 1]) == char_class(t[0]));
        }
        if n - 1 < u.len() {
            assert(u[n - 1] == t[n as int]);
        }
        lemma_run_len_exact(u, (n - 1) as nat);
    }
}

/// The run at the start of `t`: all its characters share the class of the
/// first; a character of class `2` is a run of its own; the run is maximal.
pub proof fn lemma_run_len_props(t: Seq<char>)
    requires
        t.len() > 0,
    ensures
        1 <= run_len(t) <= t.len(),
        char_class(t[0]) == 2 ==> run_len(t) == 1,
        forall|m: int| 0 <= m < run_len(t) ==> #[trigger] char_class(t[m]) == char_class(t[0]),
        char_class(t[0]) != 2 && run_len(t) < t.len() ==> char_class(t[run_len(t) as int])
            != char_class(t[0]),
    decreases t.len(),
{
    lemma_run_len_bounds(t);
    if t.len() > 1 && char_class(t[0]) != 2 && char_class(t[1]) == char_class(t[0]) {
        let u = t.drop_first();
        lemma_run_len_props(u);
        assert forall|m: int| 0 <= m < run_len(t) implies #[trigger] char_class(t[m]) == char_class(
            t[0],
        ) by {
            if m > 0 {
                assert(t[m] == u[m - 1]);
            }
        }
        if run_len(t) < t.len() {
            assert(t[run_len(t) as int] == u[run_len(u) as int]);
        }
    }
}

/// A character that is neither an ASCII letter or digit nor a CJK ideograph
/// separates terms: the terms of `a`, such a character `c` and `b` are the
/// terms of `a` followed by those of `b`.
pub proof fn lemma_separator_splits_tokens(a: Seq<char>, c: char, b: Seq<char>)
    requires
        char_class(c) == 2,
    ensures
        simple_tokens(a + seq![c] + b) == simple_tokens(a) + simple_tokens(b),
    decreases a.len(),
{
    let t = a + seq![c] + b;
    if a.len() == 0 {
        assert(t[0] == c);
        lemma_run_len_props(t);
        assert(t.take(1) =~= seq![c]);
        assert(t.skip(1) =~= b);
        assert(run_tokens(seq![c]) =~= Seq::<Seq<char>>::empty());
        assert(simple_tokens(a) =~= Seq::<Seq<char>>::empty());
        assert(simple_tokens(t) =~= simple_tokens(a) + simple_tokens(b));
    } else {
        lemma_run_len_props(a);
        let n = run_len(a);
        assert(t[0] == a[0]);
        assert forall|m: int| 0 < m < n implies #[trigger] char_class(t[m]) == char_class(t[0]) by {
            assert(t[m] == a[m]);
            assert(char_class(a[m]) == char_class(a[0]));
        }
        if n < a.len() {
            assert(t[n as int] == a[n as int]);
        } else {
            assert(t[n as int] == c);
        }
        lemma_run_len_exact(t, n);
        let rest = a.skip(n as int);
        assert(t.take(n as int) =~= a.take(n as int));
        assert(t.skip(n as int) =~= rest + seq![c] + b);
        lemma_separator_splits_tokens(rest, c, b);
        assert(simple_tokens(t) =~= simple_tokens(a) + simple_tokens(b));
    }
}

/// A text made only of CJK ideographs, at least two of them, gives exactly
/// its adjacent pairs: one term per pair, the `i`-th term being the
/// characters at `i` and `i + 1`. A single ideograph gives itself.
pub proof fn lemma_cjk_text_gives_pairs(t: Seq<char>)
    requires
        t.len() >= 1,
        forall|i: int| 0 <= i < t.len() ==> is_cjk(#[trigger] t[i]),
    ensures
        t.len() == 1 ==> simple_tokens(t) == seq![t],
        t.len() >= 2 ==> simple_tokens(t).len() == t.len() - 1,
        forall|i: int| 0 <= i < t.len() - 1 ==> #[trigger] simple_tokens(t)[i] == t.subrange(i, i + 2),
{
    assert forall|i: int| 0 <= i < t.len() implies #[trigger] char_class(t[i]) == 1 by {
        assert(is_cjk(t[i]));
        assert(!is_ascii_alnum(t[i])) by {
            if is_ascii_alnum(t[i]) {
                assert(t[i] <= 'z');
            }
        }
    }
    lemma_run_len_exact(t, t.len());
    assert(t.take(t.len() as int) =~= t);
    assert(t.skip(t.len() as int) =~= Seq::<char>::empty());
    assert(simple_tokens(t.skip(t.len() as int)) =~= Seq::<Seq<char>>::empty());
    assert(simple_tokens(t) =~= run_tokens(t));
}

/// ASCII lowercasing keeps the class of every character.
proof fn lemma_ascii_lower_class(c: char)
    ensures
        char_class(ascii_lower(c)) == char_class(c),
        ascii_lower(ascii_lower(c)) == ascii_lower(c),
        char_class(c) != 0 ==> ascii_lower(c) == c,
{
    if 'A' <= c && c <= 'Z' {
        assert('a' <= ascii_lower(c) && ascii_lower(c) <= 'z');
    }
}

/// ASCII case does not matter to the tokenizer: a text and its ASCII
/// lowercase form have the same terms.
pub proof fn lemma_ascii_case_insensitive(t: Seq<char>)
    ensures
        simple_tokens(ascii_lower_seq(t)) == simple_tokens(t),
    decreases t.len(),
{
    let l = ascii_lower_seq(t);
    if t.len() > 0 {
        lemma_run_len_props(t);
        let n = run_len(t);
        assert forall|m: int| 0 <= m < t.len() implies #[trigger] char_class(l[m]) == char_class(t[m]) by {
            lemma_ascii_lower_class(t[m]);
        }
        assert forall|m: int| 0 < m < n implies #[trigger] char_class(l[m]) == char_class(l[0]) by {
            assert(char_class(l[m]) == char_class(t[m]));
            assert(char_class(t[m]) == char_class(t[0]));
        }
        if n < t.len() {
            assert(char_class(l[n as int]) == char_class(t[n as int]));
        }
        assert(char_class(l[0]) == char_class(t[0]));
        lemma_run_len_exact(l, n);
        let seg = t.take(n as int);
        assert(l.take(n as int) =~= ascii_lower_seq(seg));
        assert(l.skip(n as int) =~= ascii_lower_seq(t.skip(n as int)));
        lemma_ascii_case_insensitive(t.skip(n as int));
        let ls = ascii_lower_seq(seg);
        if char_class(seg[0]) == 0 {
            assert(ascii_lower_seq(ls) =~= ls) by {
                assert forall|m: int| 0 <= m < ls.len() implies ascii_lower_seq(ls)[m] == ls[m] by {
                    lemma_ascii_lower_class(seg[m]);
                }
            }
            assert(ls[0] == ascii_lower(seg[0]));
            lemma_ascii_lower_class(seg[0]);
        } else {
            assert(ls =~= seg) by {
                assert forall|m: int| 0 <= m < ls.len() implies ls[m] == seg[m] by {
                    assert(seg[m] == t[m]);
                    lemma_ascii_lower_class(seg[m]);
                }
            }
        }
        assert(run_tokens(ls) == run_tokens(seg));
        assert(simple_tokens(l) =~= simple_tokens(t));
    }
}

/// Texts that are equal up to ASCII case have the same terms.
pub proof fn lemma_tokens_ignore_ascii_case(a: Seq<char>, b: Seq<char>)
    requires
        ascii_lower_seq(a) == ascii_lower_seq(b),
    ensures
        simple_tokens(a) == simple_tokens(b),
{
    lemma_ascii_case_insensitive(a);
    lemma_ascii_case_insensitive(b);
}

pub fn char_class_exec(c: char) -> (r: u8)
    ensures
        r == char_class(c),
{
    if is_ascii_alnum_exec(c) {
        0
    } else if is_cjk_exec(c) {
        1
    } else {
        2
    }
}

/// End of the run that starts at `i`.
pub fn run_end(cs: &[char], i: usize) -> (j: usize)
    requires
        i < cs@.len(),
    ensures
        i < j <= cs@.len(),
        j - i == run_len(cs@.skip(i as int)),
{
    let k = char_class_exec(cs[i]);
    let mut j = i + 1;
    if k != 2 {
        while j < cs.len() && char_class_exec(cs[j]) == k
            invariant
                i < j <= cs@.len(),
                k == char_class(cs@[i as int]),
                forall|m: int| i < m < j ==> #[trigger] char_class(cs@[m]) == k,
            decreases cs.len() - j,
        {
            j += 1;
        }
    }
    proof {
        let t = cs@.skip(i as int);
        assert forall|m: int| 0 < m < j - i implies #[trigger] char_class(t[m]) == char_class(
            t[0],
        ) by {
            assert(t[m] == cs@[i + m]);
        }
        if j < cs@.len() {
            assert(t[j - i] == cs@[j as int]);
        }
        lemma_run_len_exact(t, (j - i) as nat);
    }
    j
}

/// The single term of an ASCII word run: the run in lowercase.
pub fn word_token(cs: &[char], i: usize, j: usize) -> (r: String)
    requires
        i <= j <= cs@.len(),
    ensures
        r@ == ascii_lower_seq(cs@.subrange(i as int, j as int)),
{
    let mut s = String::new();
    let mut m = i;
    while m < j
        invariant
            i <= m <= j <= cs@.len(),
            s@ == ascii_lower_seq(cs@.subrange(i as int, m as int)),
        decreases j - m,
    {
        push_char(&mut s, ascii_lower_exec(cs[m]));
        assert(ascii_lower_seq(cs@.subrange(i as int, m + 1)) =~= ascii_lower_seq(
            cs@.subrange(i as int, m as int),
        ).push(ascii_lower(cs@[m as int])));
        m += 1;
    }
    s
}

/// Appends the terms of the run `cs[i..j]` to `out`.
pub fn push_run_tokens(cs: &[char], i: usize, j: usize, out: &mut Vec<String>)
    requires
        i < j <= cs@.len(),
    ensures
        views(final(out)@) == views(old(out)@) + run_tokens(cs@.subrange(i as int, j as int)),
{
    let ghost seg = cs@.subrange(i as int, j as int);
    let k = char_class_exec(cs[i]);
    assert(seg[0] == cs@[i as int]);
    if k == 0 {
        let w = word_token(cs, i, j);
        out.push(w);
        assert(views(out@) =~= views(old(out)@) + run_tokens(seg));
    } else if k == 1 {
        if j - i == 1 {
            out.push(string_of_range(cs, i, j));
            assert(views(out@) =~= views(old(out)@) + run_tokens(seg));
        } else {
            let mut m = i;
            while m + 1 < j
                invariant
                    i <= m < j <= cs@.len(),
                    j - i >= 2,
                    seg == cs@.subrange(i as int, j as int),
                    views(out@) == views(old(out)@) + bigrams(seg).take(m - i),
                decreases j - m,
            {
                let ghost prev = views(out@);
                out.push(string_of_range(cs, m, m + 2));
                assert(bigrams(seg)[m - i] =~= cs@.subrange(m as int, m + 2));
                assert(views(out@) =~= prev.push(cs@.subrange(m as int, m + 2)));
                assert(bigrams(seg).take(m + 1 - i) =~= bigrams(seg).take(m - i).push(
                    bigrams(seg)[m - i],
                ));
                assert(views(out@) =~= views(old(out)@) + bigrams(seg).take(m + 1 - i));
                m += 1;
            }
            assert(bigrams(seg).take(m - i) =~= bigrams(seg));
        }
    } else {
        assert(run_tokens(seg) =~= seq![]);
        assert(views(out@) =~= views(old(out)@) + run_tokens(seg));
    }
}

impl Tokenizer for SimpleTokenizer {
    open spec fn spec_tokenize(&self, text: Seq<char>) -> Seq<Seq<char>> {
        simple_tokens(text)
    }

    /// ASCII letters and digits form lowercase words; each run of CJK
    /// ideographs gives its overlapping character pairs (a lone ideograph
    /// stays as it is); every other character separates terms.
    fn tokenize(&self, text: &str) -> (tokens: Vec<String>) {
        let cs = chars_of(text);
        let mut out: Vec<String> = Vec::new();
        let mut i: usize = 0;
        assert(cs@.skip(0) =~= cs@);
        while i < cs.len()
            invariant
                i <= cs@.len(),
                views(out@) + simple_tokens(cs@.skip(i as int)) == simple_tokens(cs@),
            decreases cs.len() - i,
        {
            let j = run_end(&cs, i);
            let ghost rest = cs@.skip(i as int);
            let ghost before = views(out@);
            push_run_tokens(&cs, i, j, &mut out);
            proof {
                assert(rest.take((j - i) as int) =~= cs@.subrange(i as int, j as int));
                assert(rest.skip((j - i) as int) =~= cs@.skip(j as int));
                assert(simple_tokens(rest) == run_tokens(cs@.subrange(i as int, j as int))
                    + simple_tokens(cs@.skip(j as int)));
                assert(views(out@) + simple_tokens(cs@.skip(j as int)) =~= before
                    + simple_tokens(rest));
            }
            i = j;
        }
        assert(simple_tokens(cs@.skip(i as int)) =~= seq![]);
        assert(views(out@) + seq![] =~= views(out@));
        out
    }
}

} // verus!
