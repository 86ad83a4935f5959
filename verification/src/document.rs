//! Documents of the knowledge base and what is read from their files.
use crate::markdown::{
    clean_content_spec, clean_document_content, is_markdown, is_markdown_path, lines,
    path_extension, spec_path_extension, split_lines,
};
use crate::text::{
    ascii_lower_seq, char_views, chars_eq, chars_eq_ignore_ascii_case, chars_of, compare_str,
    eq_ignore_ascii_case, lemma_seq_lt_irreflexive, lemma_seq_lt_total, lemma_seq_lt_transitive,
    seq_lt, starts_with, starts_with_at, string_of, string_of_range, trim_start_ws, trim_ws,
    trim_ws_exec, views,
};
use crate::tokenizer::Tokenizer;
use vstd::prelude::*;

verus! {

/// One note of the knowledge base, ready to be indexed.
#[derive(Debug, Clone, PartialEq, Eq)]
pub struct Document {
    pub id: usize,
    /// Path relative to the knowledge base root, with `/` separators.
    pub path: String,
    pub title: String,
    /// The searchable text (Markdown syntax removed).
    pub content: String,
    /// Number of terms in `content`.
    pub token_count: usize,
}

/// The file name of a path without its extension, as `Path::file_stem`
/// computes it on the build target.
pub uninterp spec fn spec_path_file_stem(path: Seq<char>) -> Option<Seq<char>>;

/// `path` relative to `root`, as `Path::strip_prefix` computes it on the
/// build target (component by component), rendered as a string; none when
/// `root` is not a prefix of `path`.
pub uninterp spec fn spec_path_strip_prefix(path: Seq<char>, root: Seq<char>) -> Option<
    Seq<char>,
>;

/// `Path::file_stem` of `path`, as a string.
#[verifier::external_body]
pub(crate) fn path_file_stem(path: &str) -> (r: Option<String>)
    ensures
        r matches Some(e) ==> spec_path_file_stem(path@) == Some(e@),
        r is None ==> spec_path_file_stem(path@) is None,
{
    std::path::Path::new(path).file_stem().map(|e| e.to_string_lossy().into_owned())
}

/// `Path::strip_prefix` of `path` by `root`, as a string.
#[verifier::external_body]
pub(crate) fn path_strip_prefix(path: &str, root: &str) -> (r: Option<String>)
    ensures
        r matches Some(e) ==> spec_path_strip_prefix(path@, root@) == Some(e@),
        r is None ==> spec_path_strip_prefix(path@, root@) is None,
{
    std::path::Path::new(path).strip_prefix(root).ok().map(|p| p.to_string_lossy().into_owned())
}

/// The file is a note: its extension is `md` or `txt` in any ASCII case.
pub open spec fn is_supported_path(path: Seq<char>) -> bool {
    spec_path_extension(path) matches Some(e) && (eq_ignore_ascii_case(e, seq!['m', 'd'])
        || eq_ignore_ascii_case(e, seq!['t', 'x', 't']))
}

/// The text of a level-one Markdown heading line: after leading white space,
/// `# ` and then a non-empty text, trimmed.
pub open spec fn markdown_heading_spec(line: Seq<char>) -> Option<Seq<char>> {
    let t = trim_start_ws(line);
    if starts_with(t, seq!['#', ' ']) && trim_ws(t.skip(2)).len() > 0 {
        Some(trim_ws(t.skip(2)))
    } else {
        None
    }
}

/// The first heading among `ls`.
pub open spec fn first_heading(ls: Seq<Seq<char>>) -> Option<Seq<char>>
    decreases ls.len(),
{
    if ls.len() == 0 {
        None
    } else {
        match markdown_heading_spec(ls[0]) {
            Some(h) => Some(h),
            None => first_heading(ls.drop_first()),
        }
    }
}

/// The title of a note: for a Markdown file its first level-one heading; for
/// other files, or Markdown without one, the file name without extension,
/// or `Untitled` when the path has none.
pub open spec fn title_spec(path: Seq<char>, content: Seq<char>) -> Seq<char> {
    if is_markdown_path(path) && first_heading(lines(content)) is Some {
        first_heading(lines(content))->0
    } else {
        match spec_path_file_stem(path) {
            Some(s) => s,
            None => seq!['U', 'n', 't', 'i', 't', 'l', 'e', 'd'],
        }
    }
}

/// The heading of the first heading line: where line `k` is a heading and
/// no line before it is, the first heading is that of line `k`; where no
/// line is one, there is none.
proof fn lemma_first_heading_at(ls: Seq<Seq<char>>, k: int)
    requires
        0 <= k <= ls.len(),
        forall|j: int| 0 <= j < k ==> #[trigger] markdown_heading_spec(ls[j]) is None,
    ensures
        k < ls.len() && markdown_heading_spec(ls[k]) is Some ==> first_heading(ls)
            == markdown_heading_spec(ls[k]),
        k == ls.len() ==> first_heading(ls) is None,
    decreases k,
{
    if k > 0 {
        let rest = ls.drop_first();
        assert(markdown_heading_spec(ls[0]) is None);
        assert forall|j: int| 0 <= j < k - 1 implies #[trigger] markdown_heading_spec(rest[j]) is None by {
            assert(rest[j] == ls[j + 1]);
        }
        lemma_first_heading_at(rest, k - 1);
        if k < ls.len() {
            assert(rest[k - 1] == ls[k]);
        }
    }
}

/// The title of a Markdown note is the text of its first level-one heading
/// line, whatever the lines after it hold: where line `k` of the content is
/// such a heading and no earlier line is, the title is that heading's text.
/// A Markdown note with no heading line, and any other note, is titled by
/// its file stem, or `Untitled` without one.
pub proof fn lemma_title_is_first_heading(path: Seq<char>, content: Seq<char>, k: int)
    requires
        0 <= k <= lines(content).len(),
        forall|j: int| 0 <= j < k ==> #[trigger] markdown_heading_spec(lines(content)[j]) is None,
    ensures
        is_markdown_path(path) && k < lines(content).len() && markdown_heading_spec(lines(content)[k])
            is Some ==> title_spec(path, content) == markdown_heading_spec(lines(content)[k])->0,
        (!is_markdown_path(path) || k == lines(content).len()) ==> title_spec(path, content) == match spec_path_file_stem(path) {
            Some(s) => s,
            None => seq!['U', 'n', 't', 'i', 't', 'l', 'e', 'd'],
        },
{
    lemma_first_heading_at(lines(content), k);
}

/// The path of a file relative to the root, with `/` separators; the path
/// itself when it does not lie under the root.
pub open spec fn relative_path_spec(root: Seq<char>, path: Seq<char>) -> Seq<char> {
    crate::text::replace_char(
        match spec_path_strip_prefix(path, root) {
            Some(r) => r,
            None => path,
        },
        '\\',
        '/',
    )
}

/// The file is a note the scanner reads (`is_supported_file`).
pub fn is_supported_file(path: &str) -> (r: bool)
    ensures
        r == is_supported_path(path@),
{
    match path_extension(path) {
        Some(e) => {
            let md = ['m', 'd'];
            let txt = ['t', 'x', 't'];
            assert(md@ == seq!['m', 'd']);
            assert(txt@ == seq!['t', 'x', 't']);
            let ec = chars_of(e.as_str());
            chars_eq_ignore_ascii_case(&ec, &md) || chars_eq_ignore_ascii_case(&ec, &txt)
        },
        None => false,
    }
}

/// The heading text of a line, if it is a level-one heading.
fn markdown_heading(line: &[char]) -> (r: Option<Vec<char>>)
    ensures
        r matches Some(h) ==> markdown_heading_spec(line@) == Some(h@),
        r is None ==> markdown_heading_spec(line@) is None,
{
    let t = trim_start_vec(line);
    let marker = ['#', ' '];
    assert(marker@ == seq!['#', ' ']);
    assert(t@.skip(0) =~= t@);
    if !starts_with_at(&t, 0, &marker) {
        return None;
    }
    let rest = crate::text::chars_of(string_of_range(&t, 2, t.len()).as_str());
    assert(rest@ =~= t@.skip(2));
    let title = trim_ws_exec(&rest);
    if title.len() == 0 {
        None
    } else {
        Some(title)
    }
}

/// `v` without its leading white space.
fn trim_start_vec(v: &[char]) -> (r: Vec<char>)
    ensures
        r@ == trim_start_ws(v@),
{
    let mut a: usize = 0;
    while a < v.len() && crate::text::char_is_whitespace(v[a])
        invariant
            a <= v@.len(),
            forall|k: int| 0 <= k < a ==> crate::text::is_white(v@[k]),
        decreases v.len() - a,
    {
        a += 1;
    }
    proof {
        crate::text::lemma_lead_count_exact(v@, |c: char| crate::text::is_white(c), a as nat);
    }
    let r = chars_of(string_of_range(v, a, v.len()).as_str());
    assert(r@ =~= v@.skip(a as int));
    r
}

/// The title of a note (`extract_title`).
pub fn extract_title(path: &str, content: &str) -> (r: String)
    ensures
        r@ == title_spec(path@, content@),
{
    if is_markdown(path) {
        let ls = split_lines(&chars_of(content));
        let ghost lv = char_views(ls@);
        let mut i: usize = 0;
        assert(lv.skip(0) =~= lv);
        while i < ls.len()
            invariant
                i <= ls@.len(),
                lv == char_views(ls@),
                lv == lines(content@),
                is_markdown_path(path@),
                first_heading(lv) == first_heading(lv.skip(i as int)),
            decreases ls.len() - i,
        {
            assert(lv.skip(i as int)[0] == ls@[i as int]@);
            assert(lv.skip(i as int).drop_first() =~= lv.skip(i + 1));
            if let Some(h) = markdown_heading(&ls[i]) {
                return string_of(&h);
            }
            i += 1;
        }
        assert(lv.skip(i as int).len() == 0);
    }
    match path_file_stem(path) {
        Some(stem) => stem,
        None => {
            let untitled = ['U', 'n', 't', 'i', 't', 'l', 'e', 'd'];
            assert(untitled@ == seq!['U', 'n', 't', 'i', 't', 'l', 'e', 'd']);
            string_of(&untitled)
        },
    }
}

/// The path of a file relative to the root (`relative_path`).
pub fn relative_path(root: &str, path: &str) -> (r: String)
    ensures
        r@ == relative_path_spec(root@, path@),
{
    let stripped = match path_strip_prefix(path, root) {
        Some(p) => p,
        None => crate::text::to_owned_string(path),
    };
    let cs = chars_of(stripped.as_str());
    let replaced = crate::filter::replace_char_exec(&cs, '\\', '/');
    string_of(&replaced)
}

/// The directory names that the scanner skips.
pub open spec fn is_ignored_dir_name(name: Seq<char>) -> bool {
    name == seq!['t', 'a', 'r', 'g', 'e', 't'] || name == seq!['.', 'g', 'i', 't'] || name
        == seq!['.', 'r', 'n', 's'] || name == seq![
        'n',
        'o',
        'd',
        'e',
        '_',
        'm',
        'o',
        'd',
        'u',
        'l',
        'e',
        's',
    ]
}

/// Whether the scanner enters or reads a directory entry: files always;
/// directories unless named `target`, `.git`, `.rns` or `node_modules`
/// (a name that is not valid UTF-8, given as `None`, is entered).
pub fn should_keep_entry(is_dir: bool, name: Option<&str>) -> (r: bool)
    ensures
        r == (!is_dir || match name {
            Some(n) => !is_ignored_dir_name(n@),
            None => true,
        }),
{
    if !is_dir {
        return true;
    }
    match name {
        Some(n) => {
            let cs = chars_of(n);
            let a = ['t', 'a', 'r', 'g', 'e', 't'];
            let b = ['.', 'g', 'i', 't'];
            let c = ['.', 'r', 'n', 's'];
            let d = ['n', 'o', 'd', 'e', '_', 'm', 'o', 'd', 'u', 'l', 'e', 's'];
            assert(a@ == seq!['t', 'a', 'r', 'g', 'e', 't']);
            assert(b@ == seq!['.', 'g', 'i', 't']);
            assert(c@ == seq!['.', 'r', 'n', 's']);
            assert(d@ == seq!['n', 'o', 'd', 'e', '_', 'm', 'o', 'd', 'u', 'l', 'e', 's']);
            !(chars_eq(&cs, &a) || chars_eq(&cs, &b) || chars_eq(&cs, &c) || chars_eq(&cs, &d))
        },
        None => true,
    }
}

/// The document that a file becomes: its path relative to the root, its
/// title, its cleaned content and the number of terms in that content.
pub open spec fn document_spec<T: Tokenizer>(
    tok: &T,
    id: usize,
    root: Seq<char>,
    path: Seq<char>,
    raw: Seq<char>,
    doc: Document,
) -> bool {
    &&& doc.id == id
    &&& doc.path@ == relative_path_spec(root, path)
    &&& doc.title@ == title_spec(path, raw)
    &&& doc.content@ == clean_content_spec(path, raw)
    &&& doc.token_count == tok.spec_tokenize(clean_content_spec(path, raw)).len()
}

/// Makes the document of the file `path` (under `root`) with text `raw`.
pub fn make_document<T: Tokenizer>(
    id: usize,
    root: &str,
    path: &str,
    raw_content: &str,
    tokenizer: &T,
) -> (doc: Document)
    ensures
        document_spec(tokenizer, id, root@, path@, raw_content@, doc),
{
    let title = extract_title(path, raw_content);
    let content = clean_document_content(path, raw_content);
    let token_count = tokenizer.tokenize(content.as_str()).len();
    Document { id, path: relative_path(root, path), title, content, token_count }
}

/// The keys are in non-decreasing order.
pub open spec fn keys_sorted(keys: Seq<Seq<char>>) -> bool {
    forall|i: int, j: int| #![trigger keys[i], keys[j]] 0 <= i < j < keys.len() ==> !seq_lt(keys[j], keys[i])
}

/// The path relative to `root` is `k`.
pub open spec fn key_is(root: Seq<char>, k: Seq<char>) -> spec_fn(String) -> bool {
    |p: String| relative_path_spec(root, p@) == k
}

/// The files whose path relative to `root` is `k`, in their order.
pub open spec fn with_key(root: Seq<char>, files: Seq<String>, k: Seq<char>) -> Seq<String> {
    files.filter(key_is(root, k))
}

/// Inserting `x` at `pos` adds it to the filtered sequence: at its end when
/// it passes and nothing after `pos` does, and not at all when it fails.
proof fn lemma_filter_insert<A>(s: Seq<A>, pos: int, x: A, pred: spec_fn(A) -> bool)
    requires
        0 <= pos <= s.len(),
    ensures
        pred(x) && (forall|m: int| pos <= m < s.len() ==> !pred(#[trigger] s[m])) ==> s.insert(
            pos,
            x,
        ).filter(pred) == s.filter(pred).push(x),
        !pred(x) ==> s.insert(pos, x).filter(pred) == s.filter(pred),
{
    let a = s.take(pos);
    let b = s.skip(pos);
    assert(s.insert(pos, x) =~= a + seq![x] + b);
    assert(s =~= a + b);
    Seq::filter_distributes_over_add(a + seq![x], b, pred);
    Seq::filter_distributes_over_add(a, seq![x], pred);
    Seq::filter_distributes_over_add(a, b, pred);
    reveal(Seq::filter);
    assert(seq![x].drop_last() =~= Seq::<A>::empty());
    assert(Seq::<A>::empty().filter(pred) =~= Seq::<A>::empty());
    assert(seq![x].filter(pred) =~= if pred(x) {
        seq![x]
    } else {
        seq![]
    });
    if pred(x) && (forall|m: int| pos <= m < s.len() ==> !pred(#[trigger] s[m])) {
        assert(b.all(|y: A| !pred(y))) by {
            assert forall|m: int| 0 <= m < b.len() implies (|y: A| !pred(y))(#[trigger] b[m]) by {
                assert(b[m] == s[pos + m]);
            }
        }
        b.lemma_all_neg_filter_empty(pred);
        assert(b.filter(pred) =~= Seq::<A>::empty());
        assert(s.filter(pred) == a.filter(pred));
        assert(s.insert(pos, x).filter(pred) =~= a.filter(pred).push(x));
    }
}

/// Orders file paths by their path relative to `root`; files with the same
/// relative path keep their order (a stable sort, as `sort_by_key` does).
pub fn sort_by_relative_path(root: &str, files: Vec<String>) -> (r: Vec<String>)
    ensures
        r@.to_multiset() == files@.to_multiset(),
        keys_sorted(r@.map_values(|p: String| relative_path_spec(root@, p@))),
        forall|k: Seq<char>| #[trigger] with_key(root@, r@, k) == with_key(root@, files@, k),
{
    let ghost key = |p: String| relative_path_spec(root@, p@);
    let mut out: Vec<String> = Vec::new();
    let mut out_keys: Vec<String> = Vec::new();
    let mut i: usize = 0;
    proof {
        assert(out@ =~= files@.take(0));
    }
    while i < files.len()
        invariant
            i <= files@.len(),
            key == (|p: String| relative_path_spec(root@, p@)),
            out@.len() == out_keys@.len(),
            forall|k: int| 0 <= k < out@.len() ==> #[trigger] out_keys@[k]@ == key(out@[k]),
            keys_sorted(views(out_keys@)),
            out@.to_multiset() == files@.take(i as int).to_multiset(),
            forall|kk: Seq<char>| #[trigger] with_key(root@, out@, kk) == with_key(root@, files@.take(i as int), kk),
        decreases files.len() - i,
    {
        let p = files[i].clone();
        let k = relative_path(root, p.as_str());
        let ghost kv = views(out_keys@);
        // Insert after every key that is not greater, keeping equal keys in
        // their original order.
        let mut pos = out.len();
        while pos > 0 && compare_str(out_keys[pos - 1].as_str(), k.as_str()) > 0
            invariant
                pos <= out_keys@.len(),
                kv == views(out_keys@),
                forall|m: int| pos <= m < kv.len() ==> seq_lt(k@, #[trigger] kv[m]),
            decreases pos,
        {
            pos -= 1;
        }
        proof {
            if pos > 0 {
                lemma_seq_lt_total(kv[pos - 1], k@);
            }
            assert forall|m: int| 0 <= m < pos implies !seq_lt(k@, #[trigger] kv[m]) by {
                if m < pos - 1 {
                    if seq_lt(k@, kv[m]) {
                        assert(!seq_lt(kv[pos - 1], kv[m]));
                        lemma_seq_lt_total(kv[m], kv[pos - 1]);
                        if kv[m] == kv[pos - 1] {
                        } else {
                            lemma_seq_lt_transitive(k@, kv[m], kv[pos - 1]);
                        }
                    }
                }
            }
        }
        let ghost old_out = out@;
        let ghost old_keys = out_keys@;
        out.insert(pos, p);
        out_keys.insert(pos, k);
        proof {
            let nk = views(out_keys@);
            assert(nk =~= kv.insert(pos as int, k@));
            assert forall|a: int, b: int| #![trigger nk[a], nk[b]] 0 <= a < b < nk.len() implies !seq_lt(nk[b], nk[a]) by {
                if b < pos {
                    assert(nk[a] == kv[a] && nk[b] == kv[b]);
                } else if b == pos {
                    assert(nk[a] == kv[a]);
                    lemma_seq_lt_total(kv[a], k@);
                } else if a < pos {
                    assert(nk[a] == kv[a] && nk[b] == kv[b - 1]);
                } else if a == pos {
                    assert(nk[b] == kv[b - 1]);
                    lemma_seq_lt_total(k@, kv[b - 1]);
                } else {
                    assert(nk[a] == kv[a - 1] && nk[b] == kv[b - 1]);
                }
            }
            assert forall|m: int| 0 <= m < out@.len() implies #[trigger] out_keys@[m]@ == key(out@[m]) by {
                if m < pos {
                    assert(out@[m] == old_out[m] && out_keys@[m] == old_keys[m]);
                } else if m > pos {
                    assert(out@[m] == old_out[m - 1] && out_keys@[m] == old_keys[m - 1]);
                }
            }
            assert(files@.take(i + 1) =~= files@.take(i as int).push(files@[i as int]));
            assert forall|kk: Seq<char>| #[trigger] with_key(root@, out@, kk) == with_key(root@, files@.take(i + 1), kk) by {
                let pred = key_is(root@, kk);
                assert(out@ == old_out.insert(pos as int, p));
                assert(with_key(root@, old_out, kk) == with_key(root@, files@.take(i as int), kk));
                assert(p == files@[i as int]);
                lemma_filter_insert(old_out, pos as int, p, pred);
                assert(files@.take(i as int).push(files@[i as int]).filter(pred) == if pred(files@[i as int]) {
                    files@.take(i as int).filter(pred).push(files@[i as int])
                } else {
                    files@.take(i as int).filter(pred)
                }) by {
                    reveal(Seq::filter);
                    assert(files@.take(i as int).push(files@[i as int]).drop_last() =~= files@.take(i as int));
                }
                if pred(p) {
                    assert forall|m: int| pos <= m < old_out.len() implies !pred(#[trigger] old_out[m]) by {
                        assert(seq_lt(k@, kv[m]));
                        assert(old_keys[m]@ == key(old_out[m]));
                        lemma_seq_lt_irreflexive(k@);
                    }
                }
            }
            vstd::seq_lib::to_multiset_insert(old_out, pos as int, p);
            vstd::seq_lib::to_multiset_build(files@.take(i as int), files@[i as int]);
        }
        i += 1;
    }
    proof {
        assert(files@.take(i as int) =~= files@);
        let rk = out@.map_values(key);
        assert forall|a: int| 0 <= a < rk.len() implies rk[a] == views(out_keys@)[a] by {}
        assert(rk =~= views(out_keys@));
    }
    out
}

} // verus!
