//! Restricting results to documents whose relative path matches a pattern.
use crate::text::{
    ascii_lower_seq, ascii_lower_vec, chars_eq, chars_of, contains_exec, contains_seq,
    lead_count, lemma_lead_count_exact, lemma_trail_count_exact, replace_char, starts_with,
    starts_with_at, string_of, trail_count, trim_by, trim_end_by, trim_start_by, trim_ws,
    trim_ws_exec,
};
use vstd::prelude::*;

verus! {

/// `normalize_path_filter`: trimmed of white space, then of `/` and of `\`
/// at both ends, backslashes turned into `/`, ASCII letters lowercased.
pub open spec fn normalize_filter(v: Seq<char>) -> Seq<char> {
    ascii_lower_seq(
        replace_char(
            trim_by(trim_by(trim_ws(v), |c: char| c == '/'), |c: char| c == '\\'),
            '\\',
            '/',
        ),
    )
}

/// The pattern that `PathFilter::new` keeps for `pattern`: its normalized
/// form, or none when that is empty.
pub open spec fn filter_pattern(pattern: Option<Seq<char>>) -> Option<Seq<char>> {
    match pattern {
        Some(p) => if normalize_filter(p).len() == 0 {
            None
        } else {
            Some(normalize_filter(p))
        },
        None => None,
    }
}

/// Whether a path passes a filter with the given pattern. With no pattern
/// every path passes. A pattern holding `/` is a path prefix: the normalized
/// path equals it or starts with it followed by `/`. Any other pattern must
/// occur somewhere in the normalized path (which covers a whole path segment
/// equal to it).
pub open spec fn filter_matches(pattern: Option<Seq<char>>, path: Seq<char>) -> bool {
    match pattern {
        None => true,
        Some(pat) => {
            let p = normalize_filter(path);
            if pat.contains('/') {
                p == pat || starts_with(p, pat.push('/'))
            } else {
                contains_seq(p, pat)
            }
        },
    }
}

/// A filter on relative document paths.
#[derive(Debug, Clone, PartialEq, Eq)]
pub struct PathFilter {
    pattern: Option<String>,
}

/// `s` without leading and trailing `ch`.
pub fn trim_char_exec(s: &[char], ch: char) -> (r: Vec<char>)
    ensures
        r@ == trim_by(s@, |c: char| c == ch),
{
    let ghost p = |c: char| c == ch;
    let mut a: usize = 0;
    while a < s.len() && s[a] == ch
        invariant
            a <= s@.len(),
            forall|k: int| 0 <= k < a ==> s@[k] == ch,
        decreases s.len() - a,
    {
        a += 1;
    }
    proof {
        lemma_lead_count_exact(s@, p, a as nat);
    }
    let mut b: usize = s.len();
    while b > a && s[b - 1] == ch
        invariant
            a <= b <= s@.len(),
            forall|k: int| b <= k < s@.len() ==> s@[k] == ch,
        decreases b,
    {
        b -= 1;
    }
    let ghost t = s@.skip(a as int);
    proof {
        assert forall|k: int| b - a <= k < t.len() implies p(#[trigger] t[k]) by {
            assert(t[k] == s@[a + k]);
        }
        if b > a {
            assert(t[b - a - 1] == s@[b - 1]);
        }
        lemma_trail_count_exact(t, p, (t.len() - (b - a)) as nat);
        assert(trim_by(s@, p) =~= s@.subrange(a as int, b as int));
    }
    let mut r: Vec<char> = Vec::new();
    let mut i = a;
    while i < b
        invariant
            a <= i <= b <= s@.len(),
            r@ == s@.subrange(a as int, i as int),
        decreases b - i,
    {
        r.push(s[i]);
        assert(s@.subrange(a as int, i + 1) == s@.subrange(a as int, i as int).push(s@[i as int]));
        i += 1;
    }
    r
}

/// `s` with every `from` replaced by `to`.
pub fn replace_char_exec(s: &[char], from: char, to: char) -> (r: Vec<char>)
    ensures
        r@ == replace_char(s@, from, to),
{
    let mut r: Vec<char> = Vec::new();
    let mut i: usize = 0;
    while i < s.len()
        invariant
            i <= s@.len(),
            r@ == replace_char(s@.take(i as int), from, to),
        decreases s.len() - i,
    {
        let c = s[i];
        r.push(if c == from { to } else { c });
        assert(replace_char(s@.take(i + 1), from, to) =~= replace_char(s@.take(i as int), from, to).push(
            if c == from { to } else { c },
        ));
        i += 1;
    }
    assert(s@.take(s@.len() as int) =~= s@);
    r
}

/// The normalized form of a path or pattern (`normalize_path_filter`).
pub fn normalize_path_filter(value: &[char]) -> (r: Vec<char>)
    ensures
        r@ == normalize_filter(value@),
{
    let a = trim_ws_exec(value);
    let b = trim_char_exec(&a, '/');
    let c = trim_char_exec(&b, '\\');
    let d = replace_char_exec(&c, '\\', '/');
    ascii_lower_vec(&d)
}

/// `v` holds the character `ch`.
fn has_char(v: &[char], ch: char) -> (r: bool)
    ensures
        r == v@.contains(ch),
{
    let mut i: usize = 0;
    while i < v.len()
        invariant
            i <= v@.len(),
            forall|k: int| 0 <= k < i ==> v@[k] != ch,
        decreases v.len() - i,
    {
        if v[i] == ch {
            assert(v@[i as int] == ch);
            return true;
        }
        i += 1;
    }
    false
}

impl PathFilter {
    /// The pattern the filter keeps.
    pub closed spec fn pattern_of(&self) -> Option<Seq<char>> {
        match self.pattern {
            Some(p) => Some(p@),
            None => None,
        }
    }

    /// A filter on `pattern`, normalized; an empty pattern filters nothing.
    pub fn new(pattern: Option<String>) -> (r: Self)
        ensures
            r.pattern_of() == filter_pattern(
                match pattern {
                    Some(p) => Some(p@),
                    None => None,
                },
            ),
    {
        match pattern {
            Some(value) => {
                let cs = chars_of(value.as_str());
                let normalized = normalize_path_filter(&cs);
                if normalized.len() == 0 {
                    PathFilter { pattern: None }
                } else {
                    PathFilter { pattern: Some(string_of(&normalized)) }
                }
            },
            None => PathFilter { pattern: None },
        }
    }

    /// Whether the relative path `path` passes the filter.
    pub fn matches(&self, path: &str) -> (r: bool)
        ensures
            r == filter_matches(self.pattern_of(), path@),
    {
        match &self.pattern {
            None => true,
            Some(pattern) => {
                let pat = chars_of(pattern.as_str());
                let p = normalize_path_filter(&chars_of(path));
                if has_char(&pat, '/') {
                    if chars_eq(&p, &pat) {
                        true
                    } else {
                        let mut prefix = pat.clone();
                        prefix.push('/');
                        assert(prefix@ == pat@.push('/'));
                        let r = starts_with_at(&p, 0, &prefix);
                        assert(p@.skip(0) =~= p@);
                        r
                    }
                } else {
                    contains_exec(&p, &pat)
                }
            },
        }
    }

    /// The pattern, or `none` when the filter has none.
    pub fn label(&self) -> (r: String)
        ensures
            r@ == match self.pattern_of() {
                Some(p) => p,
                None => seq!['n', 'o', 'n', 'e'],
            },
    {
        match &self.pattern {
            Some(p) => p.clone(),
            None => {
                let none = ['n', 'o', 'n', 'e'];
                let r = string_of(&none);
                assert(none@ == seq!['n', 'o', 'n', 'e']);
                r
            },
        }
    }
}

impl Default for PathFilter {
    fn default() -> (r: Self)
        ensures
            r.pattern_of() is None,
    {
        PathFilter { pattern: None }
    }
}

} // verus!
