//! Turning Markdown notes into plain searchable text.
use crate::text::{
    chars_eq_ignore_ascii_case, chars_of, char_is_whitespace, find_from, find_from_exec,
    is_white, lead_count, lemma_find_from, lemma_lead_count_bound, lemma_lead_count_exact,
    lemma_trail_count_exact, occurs_at, push_char, push_chars, starts_with, starts_with_at, string_of,
    to_owned_string, trail_count, trim_end_ws, trim_start_ws, eq_ignore_ascii_case,
};
use vstd::prelude::*;

verus! {

/// The extension of the last component of a path, as `Path::extension`
/// computes it on the build target: the part of the file name after its last
/// `.`, none when the name has no `.` other than a leading one, or when the
/// path has no file name.
pub uninterp spec fn spec_path_extension(path: Seq<char>) -> Option<Seq<char>>;

/// `Path::extension` of `path`, as a string.
#[verifier::external_body]
pub(crate) fn path_extension(path: &str) -> (r: Option<String>)
    ensures
        r matches Some(e) ==> spec_path_extension(path@) == Some(e@),
        r is None ==> spec_path_extension(path@) is None,
{
    std::path::Path::new(path).extension().map(|e| e.to_string_lossy().into_owned())
}

/// `s` with one trailing carriage return removed.
pub open spec fn strip_cr(s: Seq<char>) -> Seq<char> {
    if s.len() > 0 && s.last() == '\r' {
        s.drop_last()
    } else {
        s
    }
}

/// `str::lines`: the pieces of `s` between newlines; a piece ended by a
/// newline loses one `\r` before it; a final newline starts no empty line.
pub open spec fn lines(s: Seq<char>) -> Seq<Seq<char>>
    decreases s.len(),
{
    if s.len() == 0 {
        seq![]
    } else {
        let n = lead_count(s, |c: char| c != '\n');
        proof {
            lemma_lead_count_bound(s, |c: char| c != '\n');
        }
        if n == s.len() {
            seq![s]
        } else {
            seq![strip_cr(s.take(n as int))] + lines(s.skip(n as int + 1))
        }
    }
}

/// The line opens or closes a code fence: it starts with three backticks or
/// three tildes.
pub open spec fn is_fence(t: Seq<char>) -> bool {
    starts_with(t, seq!['`', '`', '`']) || starts_with(t, seq!['~', '~', '~'])
}

/// A heading line `#`..`######` followed by a space gives its text without
/// the marker and the spaces after it.
pub open spec fn heading_text(line: Seq<char>) -> Option<Seq<char>> {
    let n = lead_count(line, |c: char| c == '#');
    if n == 0 || n > 6 || n >= line.len() || line[n as int] != ' ' {
        None
    } else {
        Some(trim_start_ws(line.skip(n as int + 1)))
    }
}

/// A line without its block syntax: heading marker, quote marker `> `, or
/// list marker `- `, `* `, `+ `.
pub open spec fn strip_block(line: Seq<char>) -> Seq<char> {
    match heading_text(line) {
        Some(h) => h,
        None => if starts_with(line, seq!['>', ' ']) || starts_with(line, seq!['-', ' '])
            || starts_with(line, seq!['*', ' ']) || starts_with(line, seq!['+', ' ']) {
            line.skip(2)
        } else {
            line
        },
    }
}

/// The line without inline markup: every `*`, `_` and backtick removed
/// (removing `**` and `__` first, then the single characters, as the
/// cleaner does, leaves exactly this).
pub open spec fn strip_inline(line: Seq<char>) -> Seq<char> {
    line.filter(|c: char| c != '*' && c != '_' && c != '`')
}

/// A link or image whose label starts at `label_start`: the label's end, and
/// the position after the closing `)` of its target.
pub open spec fn parse_link(line: Seq<char>, label_start: int) -> Option<(int, int)> {
    match find_from(line, seq![']'], label_start) {
        Some(le) => if le + 1 < line.len() && line[le + 1] == '(' {
            match find_from(line, seq![')'], le + 2) {
                Some(ue) => Some((le, ue + 1)),
                None => None,
            }
        } else {
            None
        },
        None => None,
    }
}

/// A link (`[label](target)`) or image (`![label](target)`) at position `i`:
/// where its label starts and ends, and where it ends.
pub open spec fn link_at(line: Seq<char>, i: int) -> Option<(int, int, int)> {
    match (parse_link(line, i + 2), parse_link(line, i + 1)) {
        (Some((le, next)), _) if starts_with(line.skip(i), seq!['!', '[']) => Some((i + 2, le, next)),
        (_, Some((le, next))) if starts_with(line.skip(i), seq!['[']) => Some((i + 1, le, next)),
        _ => None,
    }
}

pub proof fn lemma_link_at(line: Seq<char>, i: int)
    requires
        0 <= i < line.len(),
    ensures
        link_at(line, i) matches Some((ls, le, next)) ==> i < ls <= le < next <= line.len(),
{
    lemma_find_from(line, seq![']'], i + 2);
    lemma_find_from(line, seq![']'], i + 1);
    if let Some(le) = find_from(line, seq![']'], i + 2) {
        lemma_find_from(line, seq![')'], le + 2);
    }
    if let Some(le) = find_from(line, seq![']'], i + 1) {
        lemma_find_from(line, seq![')'], le + 2);
    }
}

/// The text from position `i` on with every link and image replaced by its
/// label.
pub open spec fn links_from(line: Seq<char>, i: int) -> Seq<char>
    decreases line.len() - i,
{
    if i < 0 || i >= line.len() {
        seq![]
    } else {
        proof {
            lemma_link_at(line, i);
        }
        match link_at(line, i) {
            Some((ls, le, next)) => line.subrange(ls, le) + links_from(line, next),
            None => seq![line[i]] + links_from(line, i + 1),
        }
    }
}

/// The search for a one-character needle stops at its first occurrence.
proof fn lemma_find_char(hay: Seq<char>, c: char, from: int, p: int)
    requires
        0 <= from <= p < hay.len(),
        hay[p] == c,
        forall|k: int| from <= k < p ==> #[trigger] hay[k] != c,
    ensures
        find_from(hay, seq![c], from) == Some(p),
    decreases p - from,
{
    if from == p {
        assert(hay.subrange(p, p + 1) =~= seq![c]);
    } else {
        assert(!occurs_at(hay, seq![c], from)) by {
            if occurs_at(hay, seq![c], from) {
                assert(hay.subrange(from, from + 1)[0] == hay[from]);
            }
        }
        lemma_find_char(hay, c, from + 1, p);
    }
}

/// Searching `x + y` from inside `y` finds what searching `y` finds,
/// shifted by the length of `x`.
proof fn lemma_find_from_shift(x: Seq<char>, y: Seq<char>, needle: Seq<char>, j: int)
    requires
        0 <= j,
    ensures
        find_from(x + y, needle, x.len() + j) == match find_from(y, needle, j) {
            Some(p) => Some(x.len() + p),
            None => None,
        },
    decreases y.len() + 1 - j,
{
    let h = x + y;
    if j <= y.len() {
        if j + needle.len() <= y.len() {
            assert(h.subrange(x.len() + j, x.len() + j + needle.len()) =~= y.subrange(j, j + needle.len()));
        }
        assert(occurs_at(h, needle, x.len() + j) == occurs_at(y, needle, j));
        if !occurs_at(y, needle, j) {
            lemma_find_from_shift(x, y, needle, j + 1);
        }
    }
}

/// Whether a link starts at a position of `x + y` inside `y` depends on `y`
/// alone.
proof fn lemma_link_at_shift(x: Seq<char>, y: Seq<char>, i: int)
    requires
        0 <= i < y.len(),
    ensures
        link_at(x + y, x.len() + i) == match link_at(y, i) {
            Some((ls, le, next)) => Some((x.len() + ls, x.len() + le, x.len() + next)),
            None => None,
        },
{
    let h = x + y;
    let n = x.len() as int;
    assert(h.skip(n + i) =~= y.skip(i));
    lemma_find_from_shift(x, y, seq![']'], i + 2);
    lemma_find_from_shift(x, y, seq![']'], i + 1);
    lemma_find_from(y, seq![']'], i + 1);
    lemma_find_from(y, seq![']'], i + 2);
    if let Some(le) = find_from(y, seq![']'], i + 2) {
        lemma_find_from_shift(x, y, seq![')'], le + 2);
        if le + 1 < y.len() {
            assert(h[n + le + 1] == y[le + 1]);
        }
    }
    if let Some(le) = find_from(y, seq![']'], i + 1) {
        lemma_find_from_shift(x, y, seq![')'], le + 2);
        if le + 1 < y.len() {
            assert(h[n + le + 1] == y[le + 1]);
        }
    }
}

/// Link removal from a position of `x + y` inside `y` is link removal in
/// `y`.
proof fn lemma_links_from_shift(x: Seq<char>, y: Seq<char>, i: int)
    requires
        0 <= i,
    ensures
        links_from(x + y, x.len() + i) == links_from(y, i),
    decreases y.len() - i,
{
    let h = x + y;
    let n = x.len() as int;
    if i < y.len() {
        lemma_link_at_shift(x, y, i);
        lemma_link_at(y, i);
        match link_at(y, i) {
            Some((ls, le, next)) => {
                assert(h.subrange(n + ls, n + le) =~= y.subrange(ls, le));
                lemma_links_from_shift(x, y, next);
            },
            None => {
                assert(h[n + i] == y[i]);
                lemma_links_from_shift(x, y, i + 1);
            },
        }
    }
}

/// Text that holds no `[` and does not end in `!` starts no link: it is kept
/// as it is, and what follows is cleaned on its own.
proof fn lemma_links_plain_prefix(a: Seq<char>, c: Seq<char>, i: int)
    requires
        0 <= i <= a.len(),
        forall|k: int| 0 <= k < a.len() ==> #[trigger] a[k] != '[',
        !(a.len() > 0 && a.last() == '!'),
    ensures
        links_from(a + c, i) == a.skip(i) + links_from(c, 0),
    decreases a.len() - i,
{
    let h = a + c;
    if i == a.len() {
        lemma_links_from_shift(a, c, 0);
        assert(a.skip(i) =~= Seq::<char>::empty());
        assert(a.skip(i) + links_from(c, 0) =~= links_from(c, 0));
    } else {
        assert(h[i] == a[i]);
        assert(!starts_with(h.skip(i), seq!['['])) by {
            if starts_with(h.skip(i), seq!['[']) {
                assert(h.skip(i).take(1)[0] == h[i]);
            }
        }
        assert(!starts_with(h.skip(i), seq!['!', '['])) by {
            if starts_with(h.skip(i), seq!['!', '[']) {
                assert(h.skip(i).take(2)[0] == h[i]);
                assert(h.skip(i).take(2)[1] == h[i + 1]);
                if i + 1 < a.len() {
                    assert(h[i + 1] == a[i + 1]);
                } else {
                    assert(a[i] == a.last());
                }
            }
        }
        assert(link_at(h, i) is None);
        lemma_links_plain_prefix(a, c, i + 1);
        assert(a.skip(i) =~= seq![a[i]] + a.skip(i + 1));
    }
}

/// A line that starts with a link `[l](u)` (no `]` in `l`, no `)` in `u`)
/// gives its label, then the rest cleaned on its own.
proof fn lemma_leading_link(l: Seq<char>, u: Seq<char>, b: Seq<char>)
    requires
        forall|k: int| 0 <= k < l.len() ==> #[trigger] l[k] != ']',
        forall|k: int| 0 <= k < u.len() ==> #[trigger] u[k] != ')',
    ensures
        links_from(seq!['['] + l + seq![']', '('] + u + seq![')'] + b, 0) == l + links_from(b, 0),
{
    let m = l.len() as int;
    let v = u.len() as int;
    let x = seq!['['] + l + seq![']', '('] + u + seq![')'];
    let y = x + b;
    assert(x.len() == m + v + 4);
    assert forall|k: int| 0 <= k < x.len() implies #[trigger] y[k] == x[k] by {}
    assert(y[0] == '[');
    assert(y.skip(0) =~= y);
    assert(starts_with(y, seq!['['])) by {
        assert(y.take(1) =~= seq!['[']);
    }
    assert(!starts_with(y, seq!['!', '['])) by {
        if starts_with(y, seq!['!', '[']) {
            assert(y.take(2)[0] == y[0]);
        }
    }
    assert forall|k: int| 1 <= k < 1 + m implies #[trigger] y[k] != ']' by {
        assert(x[k] == l[k - 1]);
    }
    assert(x[1 + m] == ']');
    lemma_find_char(y, ']', 1, 1 + m);
    assert(x[m + 2] == '(');
    assert forall|k: int| m + 3 <= k < m + 3 + v implies #[trigger] y[k] != ')' by {
        assert(x[k] == u[k - m - 3]);
    }
    assert(x[m + 3 + v] == ')');
    lemma_find_char(y, ')', m + 3, m + 3 + v);
    assert(parse_link(y, 1) == Some((1 + m, m + v + 4)));
    assert(link_at(y, 0) == Some((1int, 1 + m, m + v + 4)));
    assert(y.subrange(1, 1 + m) =~= l);
    lemma_links_from_shift(x, b, 0);
}

/// A line that starts with an image `![l](u)` (no `]` in `l`, no `)` in
/// `u`) gives its label, then the rest cleaned on its own.
proof fn lemma_leading_image(l: Seq<char>, u: Seq<char>, b: Seq<char>)
    requires
        forall|k: int| 0 <= k < l.len() ==> #[trigger] l[k] != ']',
        forall|k: int| 0 <= k < u.len() ==> #[trigger] u[k] != ')',
    ensures
        links_from(seq!['!', '['] + l + seq![']', '('] + u + seq![')'] + b, 0) == l + links_from(b, 0),
{
    let m = l.len() as int;
    let v = u.len() as int;
    let x = seq!['!', '['] + l + seq![']', '('] + u + seq![')'];
    let y = x + b;
    assert(x.len() == m + v + 5);
    assert forall|k: int| 0 <= k < x.len() implies #[trigger] y[k] == x[k] by {}
    assert(y.skip(0) =~= y);
    assert(starts_with(y, seq!['!', '['])) by {
        assert(y.take(2) =~= seq!['!', '[']);
    }
    assert forall|k: int| 2 <= k < 2 + m implies #[trigger] y[k] != ']' by {
        assert(x[k] == l[k - 2]);
    }
    assert(x[2 + m] == ']');
    lemma_find_char(y, ']', 2, 2 + m);
    assert(x[m + 3] == '(');
    assert forall|k: int| m + 4 <= k < m + 4 + v implies #[trigger] y[k] != ')' by {
        assert(x[k] == u[k - m - 4]);
    }
    assert(x[m + 4 + v] == ')');
    lemma_find_char(y, ')', m + 4, m + 4 + v);
    assert(parse_link(y, 2) == Some((2 + m, m + v + 5)));
    assert(link_at(y, 0) == Some((2int, 2 + m, m + v + 5)));
    assert(y.subrange(2, 2 + m) =~= l);
    lemma_links_from_shift(x, b, 0);
}

/// Every image keeps only its label (its alternative text), as a link does:
/// in a line made of text `a` that starts no link, an image `![l](u)` whose
/// label holds no `]` and whose target holds no `)`, and any rest `b`, the
/// image gives `l` and the rest is cleaned in turn.
pub proof fn lemma_images_keep_labels(a: Seq<char>, l: Seq<char>, u: Seq<char>, b: Seq<char>)
    requires
        forall|k: int| 0 <= k < a.len() ==> #[trigger] a[k] != '[',
        !(a.len() > 0 && a.last() == '!'),
        forall|k: int| 0 <= k < l.len() ==> #[trigger] l[k] != ']',
        forall|k: int| 0 <= k < u.len() ==> #[trigger] u[k] != ')',
    ensures
        links_from(a + seq!['!', '['] + l + seq![']', '('] + u + seq![')'] + b, 0) == a + l
            + links_from(b, 0),
{
    let y = seq!['!', '['] + l + seq![']', '('] + u + seq![')'] + b;
    assert(a + seq!['!', '['] + l + seq![']', '('] + u + seq![')'] + b =~= a + y);
    lemma_leading_image(l, u, b);
    lemma_links_plain_prefix(a, y, 0);
    assert(a.skip(0) =~= a);
    assert(a + (l + links_from(b, 0)) =~= a + l + links_from(b, 0));
}

/// Every link keeps only its label: in a line made of text `a` that starts
/// no link (no `[`, no trailing `!`), a link `[l](u)` whose label holds no
/// `]` and whose target holds no `)`, and any rest `b`, the link gives its
/// label `l` and the rest is cleaned in turn, so its links lose their
/// targets too. No character of the target `u` is kept.
pub proof fn lemma_links_keep_labels(a: Seq<char>, l: Seq<char>, u: Seq<char>, b: Seq<char>)
    requires
        forall|k: int| 0 <= k < a.len() ==> #[trigger] a[k] != '[',
        !(a.len() > 0 && a.last() == '!'),
        forall|k: int| 0 <= k < l.len() ==> #[trigger] l[k] != ']',
        forall|k: int| 0 <= k < u.len() ==> #[trigger] u[k] != ')',
    ensures
        links_from(a + seq!['['] + l + seq![']', '('] + u + seq![')'] + b, 0) == a + l + links_from(b, 0),
{
    let y = seq!['['] + l + seq![']', '('] + u + seq![')'] + b;
    assert(a + seq!['['] + l + seq![']', '('] + u + seq![')'] + b =~= a + y);
    lemma_leading_link(l, u, b);
    lemma_links_plain_prefix(a, y, 0);
    assert(a.skip(0) =~= a);
    assert(a + (l + links_from(b, 0)) =~= a + l + links_from(b, 0));
}

/// The cleaned form of one line that is not a fence marker: outside a fence
/// its block syntax goes; then links keep only their labels, inline markup
/// goes, and trailing white space goes.
pub open spec fn clean_line(line: Seq<char>, in_fence: bool) -> Seq<char> {
    let base = if in_fence {
        line
    } else {
        strip_block(trim_start_ws(line))
    };
    trim_end_ws(strip_inline(links_from(base, 0)))
}

/// The cleaned text of `ls`, with `in_fence` telling whether the first line
/// lies inside a code fence: fence markers vanish and flip the state; every
/// other line gives its cleaned form and a newline.
pub open spec fn clean_lines(ls: Seq<Seq<char>>, in_fence: bool) -> Seq<char>
    decreases ls.len(),
{
    if ls.len() == 0 {
        seq![]
    } else if is_fence(trim_start_ws(ls[0])) {
        clean_lines(ls.drop_first(), !in_fence)
    } else {
        clean_line(ls[0], in_fence).push('\n') + clean_lines(ls.drop_first(), in_fence)
    }
}

/// The cleaned text of a Markdown document.
pub open spec fn clean_markdown_spec(content: Seq<char>) -> Seq<char> {
    clean_lines(lines(content), false)
}

/// The path names a Markdown file: its extension is `md` in any ASCII case.
pub open spec fn is_markdown_path(path: Seq<char>) -> bool {
    spec_path_extension(path) matches Some(e) && eq_ignore_ascii_case(e, seq!['m', 'd'])
}

/// The searchable text of a file: Markdown is cleaned, other text is kept.
pub open spec fn clean_content_spec(path: Seq<char>, content: Seq<char>) -> Seq<char> {
    if is_markdown_path(path) {
        clean_markdown_spec(content)
    } else {
        content
    }
}

/// The lines of `s` (`str::lines`).
pub fn split_lines(s: &[char]) -> (r: Vec<Vec<char>>)
    ensures
        crate::text::char_views(r@) == lines(s@),
{
    let mut out: Vec<Vec<char>> = Vec::new();
    let mut i: usize = 0;
    assert(s@.skip(0) =~= s@);
    while i < s.len()
        invariant
            i <= s@.len(),
            crate::text::char_views(out@) + lines(s@.skip(i as int)) == lines(s@),
        decreases s.len() - i,
    {
        let ghost rest = s@.skip(i as int);
        let mut j = i;
        while j < s.len() && s[j] != '\n'
            invariant
                i <= j <= s@.len(),
                forall|m: int| i <= m < j ==> s@[m] != '\n',
            decreases s.len() - j,
        {
            j += 1;
        }
        proof {
            let p = |c: char| c != '\n';
            assert forall|k: int| 0 <= k < j - i implies p(#[trigger] rest[k]) by {
                assert(rest[k] == s@[i + k]);
            }
            if j < s@.len() {
                assert(rest[j - i] == s@[j as int]);
            }
            lemma_lead_count_exact(rest, p, (j - i) as nat);
        }
        let mut end = j;
        if j < s.len() && end > i && s[end - 1] == '\r' {
            end = end - 1;
        }
        let mut line: Vec<char> = Vec::new();
        let mut m = i;
        while m < end
            invariant
                i <= m <= end <= s@.len(),
                line@ == s@.subrange(i as int, m as int),
            decreases end - m,
        {
            line.push(s[m]);
            assert(s@.subrange(i as int, m + 1) == s@.subrange(i as int, m as int).push(s@[m as int]));
            m += 1;
        }
        let ghost before = crate::text::char_views(out@);
        out.push(line);
        proof {
            assert(crate::text::char_views(out@) =~= before.push(line@));
            if j == s@.len() {
                assert(rest.take((j - i) as int) =~= rest);
                assert(line@ =~= rest);
                assert(lines(rest) == seq![rest]);
                assert(s@.skip(j as int) =~= seq![]);
                assert(lines(s@.skip(j as int)) =~= seq![]);
            } else {
                assert(strip_cr(rest.take((j - i) as int)) =~= line@);
                assert(rest.skip(j - i + 1) =~= s@.skip(j + 1));
            }
            assert(crate::text::char_views(out@) + lines(s@.skip(
                if j == s@.len() { j as int } else { j + 1 },
            )) =~= before + lines(rest));
        }
        i = if j == s.len() { j } else { j + 1 };
    }
    proof {
        assert(s@.skip(i as int) =~= seq![]);
        assert(crate::text::char_views(out@) + seq![] =~= crate::text::char_views(out@));
    }
    out
}

/// `v[from..]` without its leading white space, as a position.
fn skip_ws(v: &[char], from: usize) -> (r: usize)
    requires
        from <= v@.len(),
    ensures
        from <= r <= v@.len(),
        v@.subrange(r as int, v@.len() as int) == trim_start_ws(v@.skip(from as int)),
{
    let ghost p = |c: char| is_white(c);
    let mut a = from;
    while a < v.len() && char_is_whitespace(v[a])
        invariant
            from <= a <= v@.len(),
            forall|k: int| from <= k < a ==> is_white(v@[k]),
        decreases v.len() - a,
    {
        a += 1;
    }
    proof {
        let t = v@.skip(from as int);
        assert forall|k: int| 0 <= k < a - from implies p(#[trigger] t[k]) by {
            assert(t[k] == v@[from + k]);
        }
        if a < v@.len() {
            assert(t[a - from] == v@[a as int]);
        }
        lemma_lead_count_exact(t, p, (a - from) as nat);
        assert(t.skip(a - from) =~= v@.subrange(a as int, v@.len() as int));
    }
    a
}

/// The line without its heading marker, if it is a heading
/// (`strip_heading_marker`).
fn strip_heading_marker(line: &[char]) -> (r: Option<Vec<char>>)
    ensures
        r matches Some(h) ==> heading_text(line@) == Some(h@),
        r is None ==> heading_text(line@) is None,
{
    let ghost p = |c: char| c == '#';
    let mut n: usize = 0;
    while n < line.len() && line[n] == '#'
        invariant
            n <= line@.len(),
            forall|k: int| 0 <= k < n ==> line@[k] == '#',
        decreases line.len() - n,
    {
        n += 1;
    }
    proof {
        lemma_lead_count_exact(line@, p, n as nat);
    }
    if n == 0 || n > 6 || n >= line.len() || line[n] != ' ' {
        return None;
    }
    let a = skip_ws(line, n + 1);
    let mut h: Vec<char> = Vec::new();
    let mut i = a;
    while i < line.len()
        invariant
            a <= i <= line@.len(),
            h@ == line@.subrange(a as int, i as int),
        decreases line.len() - i,
    {
        h.push(line[i]);
        assert(line@.subrange(a as int, i + 1) == line@.subrange(a as int, i as int).push(line@[i as int]));
        i += 1;
    }
    Some(h)
}

/// `v[from..]` as a vector.
fn tail_vec(v: &[char], from: usize) -> (r: Vec<char>)
    requires
        from <= v@.len(),
    ensures
        r@ == v@.skip(from as int),
{
    let mut r: Vec<char> = Vec::new();
    let mut i = from;
    while i < v.len()
        invariant
            from <= i <= v@.len(),
            r@ == v@.subrange(from as int, i as int),
        decreases v.len() - i,
    {
        r.push(v[i]);
        assert(v@.subrange(from as int, i + 1) == v@.subrange(from as int, i as int).push(v@[i as int]));
        i += 1;
    }
    assert(v@.subrange(from as int, v@.len() as int) =~= v@.skip(from as int));
    r
}

/// The line without its block syntax (`strip_block_markers`).
fn strip_block_markers(line: &[char]) -> (r: Vec<char>)
    ensures
        r@ == strip_block(line@),
{
    if let Some(h) = strip_heading_marker(line) {
        return h;
    }
    let quote = ['>', ' '];
    let dash = ['-', ' '];
    let star = ['*', ' '];
    let plus = ['+', ' '];
    assert(quote@ == seq!['>', ' ']);
    assert(dash@ == seq!['-', ' ']);
    assert(star@ == seq!['*', ' ']);
    assert(plus@ == seq!['+', ' ']);
    assert(line@.skip(0) =~= line@);
    if starts_with_at(line, 0, &quote) || starts_with_at(line, 0, &dash) || starts_with_at(
        line,
        0,
        &star,
    ) || starts_with_at(line, 0, &plus) {
        tail_vec(line, 2)
    } else {
        tail_vec(line, 0)
    }
}

/// The line without `*`, `_` and backticks (`strip_inline_markers`).
fn strip_inline_markers(line: &[char]) -> (r: Vec<char>)
    ensures
        r@ == strip_inline(line@),
{
    let ghost pred = |c: char| c != '*' && c != '_' && c != '`';
    let mut r: Vec<char> = Vec::new();
    let mut i: usize = 0;
    proof {
        reveal(Seq::filter);
        assert(line@.take(0).filter(pred) =~= seq![]);
    }
    while i < line.len()
        invariant
            i <= line@.len(),
            pred == (|c: char| c != '*' && c != '_' && c != '`'),
            r@ == line@.take(i as int).filter(pred),
        decreases line.len() - i,
    {
        let ghost s = line@.take(i + 1);
        proof {
            reveal(Seq::filter);
            assert(s.drop_last() =~= line@.take(i as int));
            assert(s.last() == line@[i as int]);
        }
        let c = line[i];
        if c != '*' && c != '_' && c != '`' {
            r.push(c);
        }
        i += 1;
    }
    assert(line@.take(i as int) =~= line@);
    r
}

/// The link or image label that starts at `label_start`
/// (`parse_link_like`).
fn parse_link_like(line: &[char], label_start: usize) -> (r: Option<(usize, usize)>)
    ensures
        r matches Some((le, next)) ==> parse_link(line@, label_start as int) == Some((le as int, next as int)),
        r is None ==> parse_link(line@, label_start as int) is None,
{
    let close = [']'];
    let open = ['('];
    let end = [')'];
    assert(close@ == seq![']']);
    assert(end@ == seq![')']);
    match find_from_exec(line, &close, label_start) {
        Some(le) => {
            proof {
                lemma_find_from(line@, seq![']'], label_start as int);
                assert(occurs_at(line@, seq![']'], le as int));
            }
            let n = line.len();
            assert(le < n);
            if le + 1 < line.len() && line[le + 1] == '(' {
                match find_from_exec(line, &end, le + 2) {
                    Some(ue) => {
                        proof {
                            lemma_find_from(line@, seq![')'], le + 2);
                        }
                        Some((le, ue + 1))
                    },
                    None => None,
                }
            } else {
                None
            }
        },
        None => None,
    }
}

/// The line with every link and image replaced by its label
/// (`replace_markdown_links`).
fn replace_markdown_links(line: &[char]) -> (r: Vec<char>)
    ensures
        r@ == links_from(line@, 0),
{
    let mut out: Vec<char> = Vec::new();
    let mut i: usize = 0;
    let bang = ['!', '['];
    let bracket = ['['];
    assert(bang@ == seq!['!', '[']);
    assert(bracket@ == seq!['[']);
    while i < line.len()
        invariant
            i <= line@.len(),
            bang@ == seq!['!', '['],
            bracket@ == seq!['['],
            out@ + links_from(line@, i as int) == links_from(line@, 0),
        decreases line.len() - i,
    {
        proof {
            lemma_link_at(line@, i as int);
        }
        let mut found: Option<(usize, usize, usize)> = None;
        if starts_with_at(line, i, &bang) {
            if let Some((le, next)) = parse_link_like(line, i + 2) {
                found = Some((i + 2, le, next));
            }
        }
        if found.is_none() && starts_with_at(line, i, &bracket) {
            if let Some((le, next)) = parse_link_like(line, i + 1) {
                found = Some((i + 1, le, next));
            }
        }
        match found {
            Some((ls, le, next)) => {
                assert(link_at(line@, i as int) == Some((ls as int, le as int, next as int)));
                let ghost before = out@;
                push_chars_vec(&mut out, line, ls, le);
                assert(out@ + links_from(line@, next as int) =~= before + links_from(line@, i as int));
                i = next;
            },
            None => {
                assert(link_at(line@, i as int) is None);
                let ghost before = out@;
                out.push(line[i]);
                assert(out@ + links_from(line@, i + 1) =~= before + links_from(line@, i as int));
                i += 1;
            },
        }
    }
    assert(out@ + seq![] =~= out@);
    out
}

/// Appends `v[from..to]` to `out`.
fn push_chars_vec(out: &mut Vec<char>, v: &[char], from: usize, to: usize)
    requires
        from <= to <= v@.len(),
    ensures
        final(out)@ == old(out)@ + v@.subrange(from as int, to as int),
{
    let mut i = from;
    while i < to
        invariant
            from <= i <= to <= v@.len(),
            out@ == old(out)@ + v@.subrange(from as int, i as int),
        decreases to - i,
    {
        out.push(v[i]);
        assert(v@.subrange(from as int, i + 1) == v@.subrange(from as int, i as int).push(v@[i as int]));
        i += 1;
    }
}

/// `s` without its trailing white space, as a length.
fn trimmed_end_len(s: &[char]) -> (r: usize)
    ensures
        r <= s@.len(),
        s@.take(r as int) == trim_end_ws(s@),
{
    let ghost p = |c: char| is_white(c);
    let mut b: usize = s.len();
    while b > 0 && char_is_whitespace(s[b - 1])
        invariant
            b <= s@.len(),
            forall|k: int| b <= k < s@.len() ==> is_white(s@[k]),
        decreases b,
    {
        b -= 1;
    }
    proof {
        if b > 0 {
            assert(s@[s@.len() - (s@.len() - b) - 1] == s@[b - 1]);
        }
        lemma_trail_count_exact(s@, p, (s@.len() - b) as nat);
    }
    b
}

/// The cleaned form of one line that is not a fence marker.
fn clean_one_line(line: &[char], in_fence: bool) -> (r: Vec<char>)
    ensures
        r@ == clean_line(line@, in_fence),
{
    let base = if in_fence {
        tail_vec(line, 0)
    } else {
        let a = skip_ws(line, 0);
        let trimmed = tail_vec(line, a);
        assert(line@.subrange(a as int, line@.len() as int) =~= line@.skip(a as int));
        assert(line@.skip(0) =~= line@);
        strip_block_markers(&trimmed)
    };
    assert(line@.skip(0) =~= line@);
    let without_links = replace_markdown_links(&base);
    let without_inline = strip_inline_markers(&without_links);
    let n = trimmed_end_len(&without_inline);
    let mut r: Vec<char> = Vec::new();
    push_chars_vec(&mut r, &without_inline, 0, n);
    assert(r@ =~= without_inline@.take(n as int));
    r
}

/// Removes Markdown syntax from `content`: fence markers, heading, quote and
/// list markers, link and image targets, inline emphasis and code markers,
/// and trailing white space; each remaining line ends with a newline.
pub fn clean_markdown(content: &str) -> (r: String)
    ensures
        r@ == clean_markdown_spec(content@),
{
    let cs = chars_of(content);
    let ls = split_lines(&cs);
    let ghost lv = crate::text::char_views(ls@);
    let mut cleaned = String::new();
    let mut in_fence = false;
    let fence1 = ['`', '`', '`'];
    let fence2 = ['~', '~', '~'];
    assert(fence1@ == seq!['`', '`', '`']);
    assert(fence2@ == seq!['~', '~', '~']);
    let mut i: usize = 0;
    assert(lv.skip(0) =~= lv);
    while i < ls.len()
        invariant
            i <= ls@.len(),
            lv == crate::text::char_views(ls@),
            fence1@ == seq!['`', '`', '`'],
            fence2@ == seq!['~', '~', '~'],
            cleaned@ + clean_lines(lv.skip(i as int), in_fence) == clean_lines(lv, false),
        decreases ls.len() - i,
    {
        let line = &ls[i];
        let ghost rest = lv.skip(i as int);
        assert(rest[0] == line@);
        assert(rest.drop_first() =~= lv.skip(i + 1));
        let a = skip_ws(line, 0);
        assert(line@.skip(0) =~= line@);
        let ghost t = trim_start_ws(line@);
        assert(t =~= line@.subrange(a as int, line@.len() as int));
        let is_f = starts_with_at(line, a, &fence1) || starts_with_at(line, a, &fence2);
        assert(line@.skip(a as int) =~= t);
        if is_f {
            in_fence = !in_fence;
        } else {
            let c = clean_one_line(line, in_fence);
            let ghost before = cleaned@;
            push_chars(&mut cleaned, &c, 0, c.len());
            push_char(&mut cleaned, '\n');
            assert(c@.subrange(0, c@.len() as int) =~= c@);
            assert(cleaned@ + clean_lines(lv.skip(i + 1), in_fence) =~= before + clean_lines(rest, in_fence));
        }
        i += 1;
    }
    assert(cleaned@ + seq![] =~= cleaned@);
    cleaned
}

/// The path names a Markdown file (`is_markdown`).
pub fn is_markdown(path: &str) -> (r: bool)
    ensures
        r == is_markdown_path(path@),
{
    match path_extension(path) {
        Some(e) => {
            let md = ['m', 'd'];
            assert(md@ == seq!['m', 'd']);
            chars_eq_ignore_ascii_case(&chars_of(e.as_str()), &md)
        },
        None => false,
    }
}

/// The searchable text of a file: Markdown files are cleaned, others kept as
/// they are.
pub fn clean_document_content(path: &str, content: &str) -> (r: String)
    ensures
        r@ == clean_content_spec(path@, content@),
{
    if is_markdown(path) {
        clean_markdown(content)
    } else {
        to_owned_string(content)
    }
}

} // verus!
