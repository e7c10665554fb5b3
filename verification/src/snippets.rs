//! Code snippets: one markdown file per snippet in a plain folder (so it can
//! be git-synced or edited by hand).
//!
//! ~~~markdown
//! ---
//! title: "Debounce hook"
//! language: "typescript"
//! tags: ["react", "hooks"]
//! description: "Delays a value until it stops changing."
//! created: "2026-09-24T12:00:00Z"
//! updated: "2026-09-24T12:00:00Z"
//! ---
//!
//! ```typescript
//! export function useDebounce…
//! ```
//!
//! Notes in markdown.
//! ~~~

use vstd::prelude::*;
use crate::project::{chars_less, chars_lt, lemma_chars_lt_irreflexive, lemma_chars_lt_total, lemma_chars_lt_trans};
use crate::sorted::sorted_strict;
use crate::paths::{
    components, components_vec, extension, extension_vec, is_name, is_name_vec, join_components,
    join_path, join_path_vec, path_exists, path_is_dir, stem, stem_vec, strip_components,
    strip_components_vec,
};
use crate::text::{
    has_char, is_ws, split_spec, strip_cr, trim_end, lemma_lines_line, lemma_lines_split,
    lemma_join_cons, lemma_join_split, lemma_trim_start_suffix, lemma_trim_end_prefix,
    ascii_lower, copy_range, is_ascii_alnum, join, lemma_join_push, lines, lines_vec, push_all,
    seqs, strs, to_chars, from_chars, trim, trim_end_char, trim_end_char_vec,
    trim_start_char, trim_start_char_vec, trim_vec, trim_start, trim_start_vec, starts_with,
    starts_with_str, find_char_from, push_str, eq_chars, ends_with, decimal, push_decimal,
    lemma_trim_start_char_suffix, lemma_trim_end_char_prefix,
};

verus! {

// ---------------------------------------------------------------------------
// Slugs

/// What `char::to_lowercase` yields for `c`.
pub uninterp spec fn char_lowercase(c: char) -> Seq<char>;

/// What `char::is_alphanumeric` says of `c`.
pub uninterp spec fn char_is_alphanumeric(c: char) -> bool;

/// Calls `char::to_lowercase` on `c` and collects the chars it yields.
/// Trusted: the result is the lowercase mapping of `c`, which for ASCII
/// chars is `to_ascii_lowercase`.
#[verifier::external_body]
fn lowercase_of(c: char) -> (r: Vec<char>)
    ensures
        r@ == char_lowercase(c),
        (c as u32) < 128 ==> r@ == seq![ascii_lower(c)],
{
    c.to_lowercase().collect()
}

/// Calls `char::is_alphanumeric` on `c`. Trusted: for ASCII chars it is
/// `is_ascii_alphanumeric`.
#[verifier::external_body]
fn alphanumeric(c: char) -> (b: bool)
    ensures
        b == char_is_alphanumeric(c),
        (c as u32) < 128 ==> b == is_ascii_alnum(c),
{
    c.is_alphanumeric()
}

/// The lowercase mapping of `c`: `to_ascii_lowercase` for an ASCII char,
/// `char::to_lowercase` otherwise.
pub open spec fn lower_char(c: char) -> Seq<char> {
    if (c as u32) < 128 {
        seq![ascii_lower(c)]
    } else {
        char_lowercase(c)
    }
}

/// Whether `c` is alphanumeric: an ASCII letter or digit for an ASCII char,
/// `char::is_alphanumeric` otherwise.
pub open spec fn alnum_char(c: char) -> bool {
    if (c as u32) < 128 {
        is_ascii_alnum(c)
    } else {
        char_is_alphanumeric(c)
    }
}

/// The chars of `s`, each replaced by its lowercase mapping.
pub open spec fn lowered(s: Seq<char>) -> Seq<char>
    decreases s.len(),
{
    if s.len() == 0 {
        seq![]
    } else {
        lowered(s.drop_last()) + lower_char(s.last())
    }
}

/// Alphanumerics kept; each run of anything else becomes one `-`.
pub open spec fn dashed(s: Seq<char>) -> Seq<char>
    decreases s.len(),
{
    if s.len() == 0 {
        seq![]
    } else {
        let r = dashed(s.drop_last());
        if alnum_char(s.last()) {
            r.push(s.last())
        } else if r.len() > 0 && r.last() == '-' {
            r
        } else {
            r.push('-')
        }
    }
}

/// Lowercase, dash-separated file stem from a title: at most 60 chars, no
/// dash at either end, and `snippet` when nothing is left.
pub open spec fn slug_spec(title: Seq<char>) -> Seq<char> {
    let raw = dashed(lowered(title));
    let t = trim_end_char(trim_start_char(raw, '-'), '-');
    let cut = if t.len() > 60 {
        t.take(60)
    } else {
        t
    };
    let s = trim_end_char(cut, '-');
    if s.len() == 0 {
        "snippet"@
    } else {
        s
    }
}

/// Only alphanumerics and dashes, never two dashes in a row.
pub open spec fn slug_chars(s: Seq<char>) -> bool {
    &&& forall|j: int| 0 <= j < s.len() ==> #[trigger] s[j] == '-' || alnum_char(s[j])
    &&& forall|j: int| 0 <= j < s.len() - 1 ==> !(#[trigger] s[j] == '-' && s[j + 1] == '-')
}

proof fn lemma_dashed_chars(s: Seq<char>)
    ensures
        slug_chars(dashed(s)),
    decreases s.len(),
{
    if s.len() > 0 {
        lemma_dashed_chars(s.drop_last());
        let r = dashed(s.drop_last());
        let d = dashed(s);
        assert forall|j: int| 0 <= j < d.len() implies #[trigger] d[j] == '-' || alnum_char(d[j]) by {
            if j < r.len() {
                assert(d[j] == r[j]);
            }
        }
        assert forall|j: int| 0 <= j < d.len() - 1 implies !(#[trigger] d[j] == '-' && d[j + 1] == '-') by {
            if j + 1 < r.len() {
                assert(d[j] == r[j] && d[j + 1] == r[j + 1]);
            } else if d.len() > r.len() {
                assert(d[j] == r[j]);
            }
        }
    }
}

proof fn lemma_slug_chars_sub(s: Seq<char>, a: int, b: int)
    requires
        slug_chars(s),
        0 <= a <= b <= s.len(),
    ensures
        slug_chars(s.subrange(a, b)),
{
    let t = s.subrange(a, b);
    assert forall|j: int| 0 <= j < t.len() implies #[trigger] t[j] == '-' || alnum_char(t[j]) by {
        assert(t[j] == s[a + j]);
    }
    assert forall|j: int| 0 <= j < t.len() - 1 implies !(#[trigger] t[j] == '-' && t[j + 1] == '-') by {
        assert(t[j] == s[a + j] && t[j + 1] == s[a + j + 1]);
    }
}

/// A slug is never empty, at most 60 characters long, has no `-` at either
/// end, and is made of alphanumerics and single dashes (`snippet` too, the
/// slug when nothing else is left).
pub proof fn lemma_slug_shape(title: Seq<char>)
    ensures
        1 <= slug_spec(title).len() <= 60,
        slug_spec(title)[0] != '-',
        slug_spec(title).last() != '-',
        slug_chars(slug_spec(title)),
{
    let raw = dashed(lowered(title));
    let a = trim_start_char(raw, '-');
    let t = trim_end_char(a, '-');
    lemma_trim_start_char_suffix(raw, '-');
    lemma_trim_end_char_prefix(a, '-');
    let cut = if t.len() > 60 {
        t.take(60)
    } else {
        t
    };
    let r = trim_end_char(cut, '-');
    lemma_trim_end_char_prefix(cut, '-');
    reveal_strlit("snippet");
    lemma_dashed_chars(lowered(title));
    let off = raw.len() - a.len();
    assert(r == raw.subrange(off, off + r.len())) by {
        assert forall|j: int| 0 <= j < r.len() implies r[j] == raw[off + j] by {
            assert(r[j] == cut[j]);
            assert(cut[j] == t[j]);
            assert(t[j] == a[j]);
        }
    }
    lemma_slug_chars_sub(raw, off, off + r.len());
    if r.len() > 0 {
        assert(r[0] == cut[0]);
        assert(cut[0] == t[0]);
        assert(t[0] == a[0]);
    } else {
        let sn = "snippet"@;
        assert forall|j: int| 0 <= j < sn.len() implies #[trigger] sn[j] == '-' || alnum_char(sn[j]) by {
            assert(('a' <= sn[j] && sn[j] <= 'z'));
        }
    }
}

/// Lowercase, dash-separated file stem from a title.
pub fn slugify(title: &str) -> (r: String)
    ensures
        r@ == slug_spec(title@),
{
    let t = to_chars(title);
    let mut low: Vec<char> = Vec::new();
    let mut i: usize = 0;
    while i < t.len()
        invariant
            i <= t@.len(),
            low@ == lowered(t@.take(i as int)),
        decreases t@.len() - i,
    {
        assert(t@.take(i + 1).drop_last() == t@.take(i as int));
        let l = lowercase_of(t[i]);
        push_all(&mut low, &l);
        i = i + 1;
    }
    assert(t@.take(t@.len() as int) == t@);
    let mut raw: Vec<char> = Vec::new();
    let mut k: usize = 0;
    while k < low.len()
        invariant
            k <= low@.len(),
            raw@ == dashed(low@.take(k as int)),
        decreases low@.len() - k,
    {
        assert(low@.take(k + 1).drop_last() == low@.take(k as int));
        let c = low[k];
        if alphanumeric(c) {
            raw.push(c);
        } else if !(raw.len() > 0 && raw[raw.len() - 1] == '-') {
            raw.push('-');
        }
        k = k + 1;
    }
    assert(low@.take(low@.len() as int) == low@);
    let a = trim_start_char_vec(&raw, '-');
    let b = trim_end_char_vec(&a, '-');
    let cut = if b.len() > 60 {
        copy_range(&b, 0, 60)
    } else {
        b
    };
    let s = trim_end_char_vec(&cut, '-');
    if s.len() == 0 {
        String::from_str("snippet")
    } else {
        from_chars(&s)
    }
}

// ---------------------------------------------------------------------------
// Snippets and their files

/// A saved code snippet.
#[derive(Debug, Clone, PartialEq)]
pub struct Snippet {
    /// File stem, e.g. `debounce-hook` for `debounce-hook.md`.
    pub id: String,
    pub title: String,
    pub language: String,
    pub tags: Vec<String>,
    pub description: String,
    /// The first fenced code block.
    pub code: String,
    /// Everything else in the body.
    pub notes: String,
    /// RFC 3339, UTC.
    pub created: String,
    pub updated: String,
}

/// What callers provide when creating or editing a snippet.
#[derive(Debug, Clone, Default)]
pub struct SnippetInput {
    pub title: String,
    pub language: String,
    pub tags: Vec<String>,
    pub description: String,
    pub code: String,
    pub notes: String,
}

/// The fields a snippet file's YAML frontmatter may set.
#[derive(Debug, Clone, Default)]
pub struct Frontmatter {
    pub title: String,
    pub language: String,
    pub tags: Vec<String>,
    pub description: String,
    pub created: String,
    pub updated: String,
}

/// `text.replace("\r\n", "\n")`.
pub open spec fn unix_newlines(s: Seq<char>) -> Seq<char>
    decreases s.len(),
{
    if s.len() == 0 {
        seq![]
    } else if s.len() >= 2 && s[0] == '\r' && s[1] == '\n' {
        seq!['\n'] + unix_newlines(s.skip(2))
    } else {
        seq![s[0]] + unix_newlines(s.drop_first())
    }
}

/// Replaces every `\r\n` with `\n`.
pub fn normalize_newlines(text: &str) -> (r: String)
    ensures
        r@ == unix_newlines(text@),
{
    let s = to_chars(text);
    let n = s.len();
    let mut out: Vec<char> = Vec::new();
    let mut i: usize = 0;
    assert(s@.skip(0) == s@);
    while i < n
        invariant
            n == s@.len(),
            i <= n,
            out@ + unix_newlines(s@.skip(i as int)) == unix_newlines(s@),
        decreases n - i,
    {
        let ghost t = s@.skip(i as int);
        if n - i >= 2 && s[i] == '\r' && s[i + 1] == '\n' {
            assert(t.skip(2) == s@.skip(i + 2));
            out.push('\n');
            i = i + 2;
        } else {
            assert(t.drop_first() == s@.skip(i + 1));
            out.push(s[i]);
            i = i + 1;
        }
    }
    assert(s@.skip(n as int) == Seq::<char>::empty());
    from_chars(&out)
}

/// Index of the first occurrence of `p` in `s`, or `s.len()`.
pub open spec fn find_seq(s: Seq<char>, p: Seq<char>) -> int
    decreases s.len(),
{
    if starts_with(s, p) || s.len() == 0 {
        0
    } else {
        1 + find_seq(s.drop_first(), p)
    }
}

/// `(frontmatter, body)`: the YAML between a leading `---` line and the
/// next `\n---`, and what follows (one newline dropped); no frontmatter
/// when the text doesn't open with `---` or it is never closed.
pub open spec fn split_frontmatter_spec(text: Seq<char>) -> (Option<Seq<char>>, Seq<char>) {
    if !starts_with(text, seq!['-', '-', '-', '\n']) {
        (None, text)
    } else {
        let rest = text.skip(4);
        let end = find_seq(rest, seq!['\n', '-', '-', '-']);
        if end + 4 <= rest.len() {
            let after = rest.skip(end + 4);
            (
                Some(rest.take(end)),
                if after.len() > 0 && after[0] == '\n' {
                    after.drop_first()
                } else {
                    after
                },
            )
        } else {
            (None, text)
        }
    }
}

proof fn lemma_find_seq_at(s: Seq<char>, p: Seq<char>, k: int)
    requires
        0 <= k <= s.len(),
        forall|j: int| 0 <= j < k ==> !starts_with(#[trigger] s.skip(j), p),
        k < s.len() ==> starts_with(s.skip(k), p),
        k == s.len() ==> (starts_with(s.skip(k), p) || p.len() > 0),
    ensures
        find_seq(s, p) == k,
    decreases s.len(),
{
    if k > 0 {
        assert(s.skip(0) == s);
        assert forall|j: int| 0 <= j < k - 1 implies !starts_with(#[trigger] s.drop_first().skip(j), p) by {
            assert(s.drop_first().skip(j) == s.skip(j + 1));
        }
        assert(s.drop_first().skip(k - 1) == s.skip(k));
        lemma_find_seq_at(s.drop_first(), p, k - 1);
    } else {
        assert(s.skip(0) == s);
        if s.len() > 0 {
            assert(starts_with(s, p));
        }
    }
}

/// Splits a snippet file into its frontmatter (when it has one) and body.
pub fn split_frontmatter(text: &str) -> (r: (Option<String>, String))
    ensures
        (
            match r.0 {
                Some(f) => Some(f@),
                None => None,
            },
            r.1@,
        ) == split_frontmatter_spec(text@),
{
    let s = to_chars(text);
    let n = s.len();
    if !(n >= 4 && s[0] == '-' && s[1] == '-' && s[2] == '-' && s[3] == '\n') {
        proof {
            if starts_with(s@, seq!['-', '-', '-', '\n']) {
                assert(s@.take(4)[0] == s@[0] && s@.take(4)[1] == s@[1]);
                assert(s@.take(4)[2] == s@[2] && s@.take(4)[3] == s@[3]);
            }
        }
        return (None, String::from_str(text));
    }
    assert(s@.take(4) == seq!['-', '-', '-', '\n']);
    let rest = copy_range(&s, 4, n);
    assert(rest@ == s@.skip(4));
    let m = rest.len();
    let mut e: usize = 0;
    let ghost pat = seq!['\n', '-', '-', '-'];
    while e < m && !(m - e >= 4 && rest[e] == '\n' && rest[e + 1] == '-' && rest[e + 2] == '-'
        && rest[e + 3] == '-')
        invariant
            m == rest@.len(),
            e <= m,
            pat == seq!['\n', '-', '-', '-'],
            forall|j: int| 0 <= j < e ==> !starts_with(#[trigger] rest@.skip(j), pat),
        decreases m - e,
    {
        proof {
            let t = rest@.skip(e as int);
            if starts_with(t, pat) {
                assert(t.take(4)[0] == rest@[e as int]);
                assert(t.take(4)[1] == rest@[e + 1]);
                assert(t.take(4)[2] == rest@[e + 2]);
                assert(t.take(4)[3] == rest@[e + 3]);
            }
        }
        e = e + 1;
    }
    proof {
        if e < m {
            assert(rest@.skip(e as int).take(4) == pat);
        }
        lemma_find_seq_at(rest@, pat, e as int);
    }
    if e < m {
        let front = copy_range(&rest, 0, e);
        let after = copy_range(&rest, e + 4, m);
        assert(after@ == rest@.skip(e + 4));
        let body = if after.len() > 0 && after[0] == '\n' {
            copy_range(&after, 1, after.len())
        } else {
            after
        };
        (Some(from_chars(&front)), from_chars(&body))
    } else {
        (None, String::from_str(text))
    }
}

/// A code fence opening: the fence char, its run length (3 or more), and
/// the info string.
pub open spec fn fence_open(l: Seq<char>) -> Option<(char, int, Seq<char>)> {
    let t = trim_start(l);
    if t.len() > 0 && (t[0] == '`' || t[0] == '~') {
        let n = t.len() - trim_start_char(t, t[0]).len();
        if n >= 3 {
            Some((t[0], n, trim(t.skip(n))))
        } else {
            None
        }
    } else {
        None
    }
}

/// Whether `l` closes a fence of `n` `ch`s: only `ch`s, at least `n`.
pub open spec fn fence_closes(l: Seq<char>, ch: char, n: int) -> bool {
    let t = trim(l);
    t.len() >= n && forall|j: int| 0 <= j < t.len() ==> t[j] == ch
}

/// Index of the first line that opens a fence, or `ls.len()`.
pub open spec fn first_open(ls: Seq<Seq<char>>) -> int
    decreases ls.len(),
{
    if ls.len() == 0 || fence_open(ls[0]) is Some {
        0
    } else {
        1 + first_open(ls.drop_first())
    }
}

/// Index of the first line at or after `from` that closes the fence, or `ls.len()`.
pub open spec fn first_close(ls: Seq<Seq<char>>, from: int, ch: char, n: int) -> int
    decreases ls.len() - from,
{
    if from >= ls.len() || fence_closes(ls[from], ch, n) {
        if from >= ls.len() {
            ls.len() as int
        } else {
            from
        }
    } else {
        first_close(ls, from + 1, ch, n)
    }
}

/// `(info-string language, code, notes)`: the first fenced code block of a
/// body, and the rest of it as notes.
pub open spec fn split_code_spec(body: Seq<char>) -> (Seq<char>, Seq<char>, Seq<char>) {
    let ls = lines(body);
    let start = first_open(ls);
    if start >= ls.len() {
        (seq![], seq![], trim(body))
    } else {
        let (ch, n, lang) = fence_open(ls[start])->Some_0;
        let end = first_close(ls, start + 1, ch, n);
        let code = join(ls.subrange(start + 1, end), seq!['\n']);
        let after = if end + 1 <= ls.len() {
            ls.skip(end + 1)
        } else {
            seq![]
        };
        (lang, code, trim(join(ls.take(start) + after, seq!['\n'])))
    }
}

pub proof fn lemma_first_open_at(ls: Seq<Seq<char>>, k: int)
    requires
        0 <= k <= ls.len(),
        forall|j: int| 0 <= j < k ==> fence_open(#[trigger] ls[j]) is None,
        k < ls.len() ==> fence_open(ls[k]) is Some,
    ensures
        first_open(ls) == k,
    decreases ls.len(),
{
    if k > 0 {
        assert forall|j: int| 0 <= j < k - 1 implies fence_open(#[trigger] ls.drop_first()[j]) is None by {
            assert(ls.drop_first()[j] == ls[j + 1]);
        }
        lemma_first_open_at(ls.drop_first(), k - 1);
    }
}

pub proof fn lemma_first_close_at(ls: Seq<Seq<char>>, from: int, ch: char, n: int, k: int)
    requires
        0 <= from <= k <= ls.len(),
        forall|j: int| from <= j < k ==> !fence_closes(#[trigger] ls[j], ch, n),
        k < ls.len() ==> fence_closes(ls[k], ch, n),
    ensures
        first_close(ls, from, ch, n) == k,
    decreases k - from,
{
    if from < k {
        lemma_first_close_at(ls, from + 1, ch, n, k);
    }
}

/// Whether the line opens a fence: `Some((char, run, info string))`.
fn fence_open_vec(l: &[char]) -> (r: Option<(char, usize, Vec<char>)>)
    ensures
        match r {
            Some((c, n, lang)) => fence_open(l@) == Some((c, n as int, lang@)),
            None => fence_open(l@) is None,
        },
{
    let t = trim_start_vec(l);
    if t.len() == 0 || !(t[0] == '`' || t[0] == '~') {
        return None;
    }
    let ch = t[0];
    let rest = trim_start_char_vec(&t, ch);
    proof {
        crate::text::lemma_trim_start_char_suffix(t@, ch);
    }
    let n = t.len() - rest.len();
    if n < 3 {
        return None;
    }
    let after = copy_range(&t, n, t.len());
    Some((ch, n, trim_vec(&after)))
}

fn fence_closes_vec(l: &[char], ch: char, n: usize) -> (r: bool)
    ensures
        r == fence_closes(l@, ch, n as int),
{
    let t = trim_vec(l);
    if t.len() < n {
        return false;
    }
    let mut j: usize = 0;
    while j < t.len()
        invariant
            j <= t@.len(),
            t@ == trim(l@),
            t@.len() >= n,
            forall|k: int| 0 <= k < j ==> t@[k] == ch,
        decreases t@.len() - j,
    {
        if t[j] != ch {
            assert(t@[j as int] != ch);
            return false;
        }
        j = j + 1;
    }
    true
}

/// `parts[a..b]` joined with `\n`.
fn join_lines(parts: &Vec<Vec<char>>, a: usize, b: usize) -> (r: Vec<char>)
    requires
        a <= b <= parts@.len(),
    ensures
        r@ == join(seqs(parts@).subrange(a as int, b as int), seq!['\n']),
{
    let mut r: Vec<char> = Vec::new();
    let mut i: usize = a;
    while i < b
        invariant
            a <= i <= b <= parts@.len(),
            r@ == join(seqs(parts@).subrange(a as int, i as int), seq!['\n']),
        decreases b - i,
    {
        let ghost before = seqs(parts@).subrange(a as int, i as int);
        assert(seqs(parts@).subrange(a as int, i + 1) == before.push(parts@[i as int]@));
        proof {
            lemma_join_push(before, seq!['\n'], parts@[i as int]@);
        }
        if i > a {
            r.push('\n');
        }
        push_all(&mut r, &parts[i]);
        i = i + 1;
    }
    r
}

/// Splits out the first fenced code block: `(info-string language, code, notes)`.
pub fn split_code(body: &str) -> (r: (String, String, String))
    ensures
        (r.0@, r.1@, r.2@) == split_code_spec(body@),
{
    let chars = to_chars(body);
    let ls = lines_vec(&chars);
    let ghost lv = seqs(ls@);
    let mut start: usize = 0;
    while start < ls.len() && fence_open_vec(&ls[start]).is_none()
        invariant
            start <= ls@.len(),
            lv == seqs(ls@),
            forall|j: int| 0 <= j < start ==> fence_open(#[trigger] lv[j]) is None,
        decreases ls@.len() - start,
    {
        start = start + 1;
    }
    let open = if start < ls.len() {
        fence_open_vec(&ls[start])
    } else {
        None
    };
    proof {
        lemma_first_open_at(lv, start as int);
    }
    match open {
        None => {
            let t = trim_vec(&chars);
            (String::new(), String::new(), from_chars(&t))
        },
        Some((ch, n, lang)) => {
            let mut end: usize = start + 1;
            while end < ls.len() && !fence_closes_vec(&ls[end], ch, n)
                invariant
                    start + 1 <= end <= ls@.len(),
                    lv == seqs(ls@),
                    forall|j: int| start + 1 <= j < end ==> !fence_closes(#[trigger] lv[j], ch, n as int),
                decreases ls@.len() - end,
            {
                end = end + 1;
            }
            proof {
                lemma_first_close_at(lv, start + 1, ch, n as int, end as int);
            }
            let code = join_lines(&ls, start + 1, end);
            let mut kept: Vec<Vec<char>> = Vec::new();
            let mut i: usize = 0;
            while i < start
                invariant
                    i <= start < ls@.len(),
                    lv == seqs(ls@),
                    seqs(kept@) == lv.take(i as int),
                decreases start - i,
            {
                let c = ls[i].clone();
                assert(c@ == lv[i as int]);
                let ghost before = seqs(kept@);
                kept.push(c);
                assert(seqs(kept@) == before.push(c@));
                assert(lv.take(i + 1) == lv.take(i as int).push(lv[i as int]));
                i = i + 1;
            }
            let ghost head = seqs(kept@);
            if end < ls.len() {
                let mut j: usize = end + 1;
                assert(lv.subrange(end + 1, j as int) == Seq::<Seq<char>>::empty());
                while j < ls.len()
                    invariant
                        end < ls@.len(),
                        end + 1 <= j <= ls@.len(),
                        lv == seqs(ls@),
                        seqs(kept@) == head + lv.subrange(end + 1, j as int),
                    decreases ls@.len() - j,
                {
                    let c = ls[j].clone();
                    assert(c@ == lv[j as int]);
                    let ghost before = seqs(kept@);
                    kept.push(c);
                    assert(seqs(kept@) == before.push(c@));
                    assert(lv.subrange(end + 1, j + 1) == lv.subrange(end + 1, j as int).push(
                        lv[j as int],
                    ));
                    j = j + 1;
                }
                assert(lv.subrange(end + 1, lv.len() as int) == lv.skip(end + 1));
            } else {
                assert(seqs(kept@) == head + Seq::<Seq<char>>::empty());
            }
            let all = join_lines(&kept, 0, kept.len());
            assert(seqs(kept@).subrange(0, kept@.len() as int) == seqs(kept@));
            let notes = trim_vec(&all);
            (from_chars(&lang), from_chars(&code), from_chars(&notes))
        },
    }
}

// ---------------------------------------------------------------------------
// Rendering

/// What `serde_json::to_string` makes of a string: a JSON string literal.
pub uninterp spec fn json_quoted(s: Seq<char>) -> Seq<char>;

/// What `serde_json::to_string` makes of a list of strings: a JSON array.
pub uninterp spec fn json_list(items: Seq<Seq<char>>) -> Seq<char>;

/// Calls `serde_json::to_string` on a `&str`. Trusted: the result is the
/// JSON literal for `s`, a function of `s` alone (serializing a string
/// cannot fail), and holds no raw newline (JSON escapes control characters).
#[verifier::external_body]
pub(crate) fn json_string(s: &str) -> (r: String)
    ensures
        r@ == json_quoted(s@),
        !has_char(r@, '\n'),
{
    match serde_json::to_string(s) {
        Ok(q) => q,
        Err(_) => String::new(),
    }
}

/// Calls `serde_json::to_string` on a list of strings. Trusted: the result
/// is the compact JSON array for the strings, a function of them alone, and
/// holds no raw newline.
#[verifier::external_body]
fn json_string_list(items: &Vec<String>) -> (r: String)
    ensures
        r@ == json_list(strs(items@)),
        !has_char(r@, '\n'),
{
    match serde_json::to_string(items) {
        Ok(q) => q,
        Err(_) => String::new(),
    }
}

/// (Longest run of backticks, current run) after the chars of `s`.
pub open spec fn tick_runs(s: Seq<char>) -> (int, int)
    decreases s.len(),
{
    if s.len() == 0 {
        (0, 0)
    } else {
        let (best, cur) = tick_runs(s.drop_last());
        if s.last() == '`' {
            (if cur + 1 > best {
                cur + 1
            } else {
                best
            }, cur + 1)
        } else {
            (best, 0)
        }
    }
}

/// The fence for a snippet's code: one backtick more than its longest run
/// of backticks, and at least three.
pub open spec fn fence_for(code: Seq<char>) -> Seq<char> {
    let longest = tick_runs(code).0;
    let n = if longest > 2 {
        longest
    } else {
        2
    } + 1;
    Seq::new(n as nat, |i: int| '`')
}

/// A snippet file: JSON-quoted frontmatter, the code in a fence longer than
/// any backtick run in it, then the notes.
pub open spec fn render_spec(s: Snippet) -> Seq<char> {
    let fence = fence_for(s.code@);
    let head = "---\ntitle: "@ + json_quoted(s.title@) + "\nlanguage: "@ + json_quoted(s.language@)
        + "\ntags: "@ + json_list(strs(s.tags@)) + "\ndescription: "@ + json_quoted(
        s.description@,
    ) + "\ncreated: "@ + json_quoted(s.created@) + "\nupdated: "@ + json_quoted(s.updated@)
        + "\n---\n\n"@ + fence + s.language@ + "\n"@ + trim_end_char(s.code@, '\n') + "\n"@
        + fence + "\n"@;
    let notes = trim(s.notes@);
    if notes.len() > 0 {
        head + "\n"@ + notes + "\n"@
    } else {
        head
    }
}

fn longest_tick_run(code: &[char]) -> (r: usize)
    ensures
        r as int == tick_runs(code@).0,
        r <= code@.len(),
{
    let mut best: usize = 0;
    let mut cur: usize = 0;
    let mut i: usize = 0;
    while i < code.len()
        invariant
            i <= code@.len(),
            (best as int, cur as int) == tick_runs(code@.take(i as int)),
            cur <= best <= i,
        decreases code@.len() - i,
    {
        assert(code@.take(i + 1).drop_last() == code@.take(i as int));
        if code[i] == '`' {
            cur = cur + 1;
            if cur > best {
                best = cur;
            }
        } else {
            cur = 0;
        }
        i = i + 1;
    }
    assert(code@.take(code@.len() as int) == code@);
    best
}

// ---------------------------------------------------------------------------
// Reading a rendered file back

/// Every char of `s` in `[a, b)` is a backtick.
pub open spec fn all_ticks(s: Seq<char>, a: int, b: int) -> bool {
    forall|j: int| a <= j < b ==> s[j] == '`'
}

/// Every run of backticks in `s` is shorter than `n`.
pub open spec fn short_ticks(s: Seq<char>, n: int) -> bool {
    forall|a: int, b: int| 0 <= a <= b <= s.len() && #[trigger] all_ticks(s, a, b) ==> b - a < n
}

/// The longest run `tick_runs` counts bounds every run, and the current one
/// bounds every run that reaches the end.
proof fn lemma_tick_runs(s: Seq<char>)
    ensures
        0 <= tick_runs(s).1 <= tick_runs(s).0,
        short_ticks(s, tick_runs(s).0 + 1),
        forall|a: int|
            0 <= a <= s.len() && #[trigger] all_ticks(s, a, s.len() as int) ==> s.len() - a
                <= tick_runs(s).1,
    decreases s.len(),
{
    if s.len() > 0 {
        let p = s.drop_last();
        lemma_tick_runs(p);
        assert forall|a: int, b: int|
            0 <= a <= b <= s.len() && #[trigger] all_ticks(s, a, b) implies b - a < tick_runs(s).0
            + 1 by {
            if b <= p.len() {
                assert(all_ticks(p, a, b)) by {
                    assert forall|j: int| a <= j < b implies p[j] == '`' by {
                        assert(p[j] == s[j]);
                    }
                }
            } else if a < b {
                assert(s[s.len() - 1] == '`');
                assert(all_ticks(p, a, p.len() as int)) by {
                    assert forall|j: int| a <= j < p.len() implies p[j] == '`' by {
                        assert(p[j] == s[j]);
                    }
                }
            }
        }
        assert forall|a: int|
            0 <= a <= s.len() && #[trigger] all_ticks(s, a, s.len() as int) implies s.len() - a
            <= tick_runs(s).1 by {
            if a < s.len() {
                assert(s[s.len() - 1] == '`');
                assert(all_ticks(p, a, p.len() as int)) by {
                    assert forall|j: int| a <= j < p.len() implies p[j] == '`' by {
                        assert(p[j] == s[j]);
                    }
                }
            }
        }
    }
}

/// A part of `s` has no longer runs than `s`.
proof fn lemma_short_ticks_sub(s: Seq<char>, n: int, lo: int, hi: int)
    requires
        short_ticks(s, n),
        0 <= lo <= hi <= s.len(),
    ensures
        short_ticks(s.subrange(lo, hi), n),
{
    let t = s.subrange(lo, hi);
    assert forall|a: int, b: int| 0 <= a <= b <= t.len() && #[trigger] all_ticks(t, a, b) implies b - a
        < n by {
        assert(all_ticks(s, lo + a, lo + b)) by {
            assert forall|j: int| lo + a <= j < lo + b implies s[j] == '`' by {
                assert(t[j - lo] == s[j]);
            }
        }
    }
}

/// A line whose backtick runs are shorter than `n` cannot close a fence of
/// `n` backticks.
proof fn lemma_short_line_no_close(l: Seq<char>, n: int)
    requires
        short_ticks(l, n),
    ensures
        !fence_closes(l, '`', n),
{
    let u = trim_start(l);
    let t = trim(l);
    lemma_trim_start_suffix(l);
    lemma_trim_end_prefix(u);
    let d = l.len() - u.len();
    if fence_closes(l, '`', n) {
        assert(all_ticks(l, d, d + t.len())) by {
            assert forall|j: int| d <= j < d + t.len() implies l[j] == '`' by {
                assert(t[j - d] == '`');
                assert(t[j - d] == u[j - d]);
                assert(u[j - d] == l[j]);
            }
        }
    }
}

/// No line of text whose backtick runs are shorter than `n` closes a fence
/// of `n` backticks.
proof fn lemma_split_no_close(c: Seq<char>, n: int)
    requires
        short_ticks(c, n),
    ensures
        forall|k: int|
            0 <= k < split_spec(c, '\n').len() ==> !fence_closes(
                #[trigger] split_spec(c, '\n')[k],
                '`',
                n,
            ),
    decreases c.len(),
{
    crate::text::lemma_find_char(c, '\n');
    let i = crate::text::find_char(c, '\n');
    if i >= c.len() {
        lemma_short_line_no_close(c, n);
        assert(split_spec(c, '\n') == seq![c]);
    } else {
        let a = c.take(i);
        let b = c.skip(i + 1);
        lemma_short_ticks_sub(c, n, 0, i);
        assert(c.subrange(0, i) == a);
        lemma_short_ticks_sub(c, n, i + 1, c.len() as int);
        assert(c.subrange(i + 1, c.len() as int) == b);
        lemma_short_line_no_close(a, n);
        lemma_split_no_close(b, n);
        let parts = split_spec(c, '\n');
        assert(parts == seq![a] + split_spec(b, '\n'));
        assert forall|k: int| 0 <= k < parts.len() implies !fence_closes(#[trigger] parts[k], '`', n) by {
            if k > 0 {
                assert(parts[k] == split_spec(b, '\n')[k - 1]);
            }
        }
    }
}

/// Stripping backticks off a fence and an info string that does not start
/// with one leaves the info string.
proof fn lemma_strip_fence(f: Seq<char>, l: Seq<char>)
    requires
        forall|j: int| 0 <= j < f.len() ==> f[j] == '`',
        !(l.len() > 0 && l[0] == '`'),
    ensures
        trim_start_char(f + l, '`') == l,
    decreases f.len(),
{
    if f.len() > 0 {
        assert((f + l).drop_first() == f.drop_first() + l);
        lemma_strip_fence(f.drop_first(), l);
    } else {
        assert(f + l == l);
    }
}

/// Trimming twice is trimming once.
proof fn lemma_trim_twice(x: Seq<char>)
    ensures
        trim(trim(x)) == trim(x),
{
    let u = trim_start(x);
    lemma_trim_start_suffix(x);
    lemma_trim_end_prefix(u);
    let t = trim_end(u);
    if t.len() > 0 {
        assert(t[0] == u[0]);
    }
    assert(trim_start(t) == t);
    assert(trim_end(t) == t);
}

/// Blank lines in front of trimmed text trim away.
proof fn lemma_trim_after_newlines(n: Seq<char>)
    ensures
        trim(seq!['\n', '\n'] + trim(n)) == trim(n),
{
    let x = seq!['\n', '\n'] + trim(n);
    assert(is_ws('\n'));
    assert(x.drop_first() == seq!['\n'] + trim(n));
    assert(x.drop_first().drop_first() == trim(n));
    assert(x[0] == '\n' && is_ws(x[0]));
    assert(trim_start(x) == trim_start(x.drop_first()));
    assert(x.drop_first()[0] == '\n');
    assert(trim_start(x.drop_first()) == trim_start(x.drop_first().drop_first()));
    assert(trim_start(x) == trim_start(trim(n)));
    lemma_trim_twice(n);
}

/// Every newline in `h` is followed, within `h`, by something else than `-`:
/// no line of `h` after its first starts with `-`.
pub open spec fn no_dash_line(h: Seq<char>) -> bool {
    forall|j: int| 0 <= j < h.len() && #[trigger] h[j] == '\n' ==> j + 1 < h.len() && h[j + 1] != '-'
}

proof fn lemma_no_dash_line_concat(x: Seq<char>, y: Seq<char>)
    requires
        no_dash_line(x),
        no_dash_line(y),
    ensures
        no_dash_line(x + y),
{
    let z = x + y;
    assert forall|j: int| 0 <= j < z.len() && #[trigger] z[j] == '\n' implies j + 1 < z.len() && z[j
        + 1] != '-' by {
        if j < x.len() {
            assert(x[j] == '\n');
            assert(z[j + 1] == x[j + 1]);
        } else {
            assert(y[j - x.len()] == '\n');
            assert(z[j + 1] == y[j + 1 - x.len()]);
        }
    }
}

proof fn lemma_no_dash_line_plain(x: Seq<char>)
    requires
        !has_char(x, '\n'),
    ensures
        no_dash_line(x),
{
}

/// `- - - \n` then `h` then `\n - - -`, a newline and `b`: the frontmatter is
/// `h` and the body `b`, when no line of `h` starts with `-`.
proof fn lemma_frontmatter_at(h: Seq<char>, b: Seq<char>)
    requires
        no_dash_line(h),
    ensures
        split_frontmatter_spec(seq!['-', '-', '-', '\n'] + h + seq!['\n', '-', '-', '-', '\n'] + b)
            == (Some(h), b),
{
    let marker = seq!['\n', '-', '-', '-'];
    let text = seq!['-', '-', '-', '\n'] + h + seq!['\n', '-', '-', '-', '\n'] + b;
    assert(starts_with(text, seq!['-', '-', '-', '\n'])) by {
        assert(text.take(4) == seq!['-', '-', '-', '\n']);
    }
    let rest = text.skip(4);
    assert(rest == h + marker + seq!['\n'] + b);
    assert forall|j: int| 0 <= j < h.len() implies !starts_with(#[trigger] rest.skip(j), marker) by {
        if starts_with(rest.skip(j), marker) {
            assert(rest.skip(j).take(4)[0] == marker[0]);
            assert(rest.skip(j).take(4)[1] == marker[1]);
            assert(rest[j] == h[j]);
            assert(h[j] == '\n');
            if j + 1 < h.len() {
                assert(rest[j + 1] == h[j + 1]);
            }
        }
    }
    assert(starts_with(rest.skip(h.len() as int), marker)) by {
        assert(rest.skip(h.len() as int).take(4) == marker);
    }
    lemma_find_seq_at(rest, marker, h.len() as int);
    assert(rest.take(h.len() as int) == h);
    assert(rest.skip(h.len() as int + 4) == seq!['\n'] + b);
    assert((seq!['\n'] + b).drop_first() == b);
}


/// The notes after a code block, as `render_spec` writes them.
pub open spec fn notes_tail(nt: Seq<char>) -> Seq<char> {
    if nt.len() > 0 {
        seq!['\n'] + nt + seq!['\n']
    } else {
        seq![]
    }
}

/// The lines of `notes_tail(nt)`.
pub open spec fn tail_lines(nt: Seq<char>) -> Seq<Seq<char>> {
    if nt.len() > 0 {
        seq![Seq::<char>::empty()] + split_spec(nt, '\n')
    } else {
        Seq::<Seq<char>>::empty()
    }
}

/// A body as `render_spec` writes it: a blank line, the fenced code, the
/// notes.
pub open spec fn code_block(f: Seq<char>, l: Seq<char>, c: Seq<char>, nt: Seq<char>) -> Seq<char> {
    seq!['\n'] + f + l + seq!['\n'] + c + seq!['\n'] + f + seq!['\n'] + notes_tail(nt)
}

proof fn lemma_code_block_lines(f: Seq<char>, l: Seq<char>, c: Seq<char>, nt: Seq<char>)
    requires
        f.len() >= 3,
        forall|j: int| 0 <= j < f.len() ==> f[j] == '`',
        !has_char(l, '\n'),
        !has_char(l, '\r'),
        !has_char(c, '\r'),
        !has_char(nt, '\r'),
    ensures
        lines(code_block(f, l, c, nt)) == seq![Seq::<char>::empty(), f + l] + split_spec(c, '\n')
            + seq![f] + tail_lines(nt),
{
    let fl = f + l;
    assert(!has_char(Seq::<char>::empty(), '\n'));
    assert(!has_char(f, '\n')) by {
        assert forall|j: int| 0 <= j < f.len() implies f[j] != '\n' by {}
    }
    assert(!has_char(fl, '\n')) by {
        assert forall|j: int| 0 <= j < fl.len() implies fl[j] != '\n' by {
            if j >= f.len() {
                assert(fl[j] == l[j - f.len()]);
            }
        }
    }
    let r3 = f + seq!['\n'] + notes_tail(nt);
    let r2 = c + seq!['\n'] + r3;
    let r1 = fl + seq!['\n'] + r2;
    assert(code_block(f, l, c, nt) == Seq::<char>::empty() + seq!['\n'] + r1);
    lemma_lines_line(Seq::<char>::empty(), r1);
    lemma_lines_line(fl, r2);
    lemma_lines_split(c, r3);
    lemma_lines_line(f, notes_tail(nt));
    assert(strip_cr(Seq::<char>::empty()) == Seq::<char>::empty());
    assert(strip_cr(fl) == fl) by {
        if l.len() > 0 {
            assert(fl.last() == l.last());
            assert(l[l.len() - 1] != '\r');
        } else {
            assert(fl.last() == f.last());
        }
    }
    assert(strip_cr(f) == f);
    if nt.len() > 0 {
        assert(notes_tail(nt) == Seq::<char>::empty() + seq!['\n'] + (nt + seq!['\n']
            + Seq::<char>::empty()));
        lemma_lines_line(Seq::<char>::empty(), nt + seq!['\n'] + Seq::<char>::empty());
        lemma_lines_split(nt, Seq::<char>::empty());
        assert(nt + seq!['\n'] == nt + seq!['\n'] + Seq::<char>::empty());
    }
    assert(lines(notes_tail(nt)) == tail_lines(nt));
}

proof fn lemma_tail_notes(nt: Seq<char>)
    requires
        trim(nt) == nt,
    ensures
        trim(join(seq![Seq::<char>::empty()] + tail_lines(nt), seq!['\n'])) == nt,
{
    let nl = seq!['\n'];
    if nt.len() > 0 {
        lemma_join_split(nt, '\n');
        lemma_join_cons(Seq::<char>::empty(), split_spec(nt, '\n'), nl);
        lemma_join_cons(Seq::<char>::empty(), seq![Seq::<char>::empty()] + split_spec(nt, '\n'), nl);
        assert(seq![Seq::<char>::empty()] + tail_lines(nt) == seq![Seq::<char>::empty()] + (seq![
            Seq::<char>::empty(),
        ] + split_spec(nt, '\n')));
        assert(join(seq![Seq::<char>::empty()] + tail_lines(nt), nl) == seq!['\n', '\n'] + nt);
        lemma_trim_after_newlines(nt);
    } else {
        assert(seq![Seq::<char>::empty()] + tail_lines(nt) == seq![Seq::<char>::empty()]);
        assert(join(seq![Seq::<char>::empty()], nl) == Seq::<char>::empty());
        assert(trim(Seq::<char>::empty()) == Seq::<char>::empty());
    }
}

proof fn lemma_fence_opens(f: Seq<char>, l: Seq<char>)
    requires
        f.len() >= 3,
        forall|j: int| 0 <= j < f.len() ==> f[j] == '`',
        !(l.len() > 0 && l[0] == '`'),
    ensures
        fence_open(f + l) == Some(('`', f.len() as int, trim(l))),
        fence_closes(f, '`', f.len() as int),
{
    let fl = f + l;
    assert(trim_start(fl) == fl) by {
        assert(fl[0] == '`');
    }
    lemma_strip_fence(f, l);
    assert(fl.skip(f.len() as int) == l);
    assert(trim_start(f) == f);
    assert(trim_end(f) == f) by {
        assert(f.last() == '`');
    }
}

/// A body as `render_spec` writes it splits back into the info string, the
/// code and the notes.
#[verifier::spinoff_prover]
proof fn lemma_code_block_splits(f: Seq<char>, l: Seq<char>, c: Seq<char>, nt: Seq<char>)
    requires
        f.len() >= 3,
        forall|j: int| 0 <= j < f.len() ==> f[j] == '`',
        !has_char(l, '\n'),
        !has_char(l, '\r'),
        !(l.len() > 0 && l[0] == '`'),
        !has_char(c, '\r'),
        short_ticks(c, f.len() as int),
        !has_char(nt, '\r'),
        trim(nt) == nt,
    ensures
        split_code_spec(code_block(f, l, c, nt)) == (trim(l), c, nt),
{
    let parts = split_spec(c, '\n');
    let m = parts.len() as int;
    lemma_code_block_lines(f, l, c, nt);
    let ls = lines(code_block(f, l, c, nt));
    assert(fence_open(ls[0]) is None);
    assert(ls[1] == f + l);
    lemma_fence_opens(f, l);
    lemma_first_open_at(ls, 1);
    lemma_split_no_close(c, f.len() as int);
    assert forall|j: int| 2 <= j < 2 + m implies !fence_closes(#[trigger] ls[j], '`', f.len() as int) by {
        assert(ls[j] == parts[j - 2]);
    }
    assert(ls[2 + m] == f);
    lemma_first_close_at(ls, 2, '`', f.len() as int, 2 + m);
    assert(ls.subrange(2, 2 + m) == parts);
    lemma_join_split(c, '\n');
    assert(ls.take(1) == seq![Seq::<char>::empty()]);
    assert(ls.skip(3 + m) == tail_lines(nt));
    lemma_tail_notes(nt);
}

/// What a rendered snippet needs for its body to read back as written: an
/// info string on one line that does not start with a backtick, and no `\r`
/// in it, the code or the notes.
pub open spec fn reads_back(s: Snippet) -> bool {
    &&& !has_char(s.language@, '\n')
    &&& !has_char(s.language@, '\r')
    &&& !(s.language@.len() > 0 && s.language@[0] == '`')
    &&& !has_char(s.code@, '\r')
    &&& !has_char(s.notes@, '\r')
}

/// The frontmatter lines `render_spec` writes.
pub open spec fn front_text(s: Snippet) -> Seq<char> {
    "---\ntitle: "@.skip(4) + json_quoted(s.title@) + "\nlanguage: "@ + json_quoted(s.language@)
        + "\ntags: "@ + json_list(strs(s.tags@)) + "\ndescription: "@ + json_quoted(s.description@)
        + "\ncreated: "@ + json_quoted(s.created@) + "\nupdated: "@ + json_quoted(s.updated@)
}

/// The body `render_spec` writes.
pub open spec fn body_text(s: Snippet) -> Seq<char> {
    code_block(
        fence_for(s.code@),
        s.language@,
        trim_end_char(s.code@, '\n'),
        trim(s.notes@),
    )
}

proof fn lemma_render_shape(s: Snippet)
    ensures
        render_spec(s) == seq!['-', '-', '-', '\n'] + front_text(s) + seq!['\n', '-', '-', '-', '\n']
            + body_text(s),
{
    reveal_strlit("---\ntitle: ");
    reveal_strlit("\n---\n\n");
    reveal_strlit("\n");
    assert("---\ntitle: "@ == seq!['-', '-', '-', '\n'] + "---\ntitle: "@.skip(4));
    assert("\n---\n\n"@ == seq!['\n', '-', '-', '-', '\n'] + seq!['\n']);
    assert("\n"@ == seq!['\n']);
}

proof fn lemma_front_no_dash(s: Snippet)
    requires
        !has_char(json_quoted(s.title@), '\n'),
        !has_char(json_quoted(s.language@), '\n'),
        !has_char(json_list(strs(s.tags@)), '\n'),
        !has_char(json_quoted(s.description@), '\n'),
        !has_char(json_quoted(s.created@), '\n'),
        !has_char(json_quoted(s.updated@), '\n'),
    ensures
        no_dash_line(front_text(s)),
{
    reveal_strlit("---\ntitle: ");
    reveal_strlit("\nlanguage: ");
    reveal_strlit("\ntags: ");
    reveal_strlit("\ndescription: ");
    reveal_strlit("\ncreated: ");
    reveal_strlit("\nupdated: ");
    let q1 = json_quoted(s.title@);
    let q2 = json_quoted(s.language@);
    let q3 = json_list(strs(s.tags@));
    let q4 = json_quoted(s.description@);
    let q5 = json_quoted(s.created@);
    let q6 = json_quoted(s.updated@);
    let title = "---\ntitle: "@.skip(4);
    assert(!has_char(title, '\n'));
    lemma_no_dash_line_plain(title);
    lemma_no_dash_line_plain(q1);
    lemma_no_dash_line_plain(q2);
    lemma_no_dash_line_plain(q3);
    lemma_no_dash_line_plain(q4);
    lemma_no_dash_line_plain(q5);
    lemma_no_dash_line_plain(q6);
    assert(no_dash_line("\nlanguage: "@));
    assert(no_dash_line("\ntags: "@));
    assert(no_dash_line("\ndescription: "@));
    assert(no_dash_line("\ncreated: "@));
    assert(no_dash_line("\nupdated: "@));
    let h1 = title + q1;
    lemma_no_dash_line_concat(title, q1);
    let h2 = h1 + "\nlanguage: "@;
    lemma_no_dash_line_concat(h1, "\nlanguage: "@);
    let h3 = h2 + q2;
    lemma_no_dash_line_concat(h2, q2);
    let h4 = h3 + "\ntags: "@;
    lemma_no_dash_line_concat(h3, "\ntags: "@);
    let h5 = h4 + q3;
    lemma_no_dash_line_concat(h4, q3);
    let h6 = h5 + "\ndescription: "@;
    lemma_no_dash_line_concat(h5, "\ndescription: "@);
    let h7 = h6 + q4;
    lemma_no_dash_line_concat(h6, q4);
    let h8 = h7 + "\ncreated: "@;
    lemma_no_dash_line_concat(h7, "\ncreated: "@);
    let h9 = h8 + q5;
    lemma_no_dash_line_concat(h8, q5);
    let h10 = h9 + "\nupdated: "@;
    lemma_no_dash_line_concat(h9, "\nupdated: "@);
    lemma_no_dash_line_concat(h10, q6);
}

proof fn lemma_render_reads_back(s: Snippet)
    requires
        reads_back(s),
        !has_char(json_quoted(s.title@), '\n'),
        !has_char(json_quoted(s.language@), '\n'),
        !has_char(json_list(strs(s.tags@)), '\n'),
        !has_char(json_quoted(s.description@), '\n'),
        !has_char(json_quoted(s.created@), '\n'),
        !has_char(json_quoted(s.updated@), '\n'),
    ensures
        split_frontmatter_spec(render_spec(s)).0 is Some,
        split_code_spec(split_frontmatter_spec(render_spec(s)).1) == (
            trim(s.language@),
            trim_end_char(s.code@, '\n'),
            trim(s.notes@),
        ),
{
    lemma_front_no_dash(s);
    lemma_render_shape(s);
    lemma_frontmatter_at(front_text(s), body_text(s));
    let f = fence_for(s.code@);
    let c = trim_end_char(s.code@, '\n');
    let nt = trim(s.notes@);
    lemma_tick_runs(s.code@);
    assert(short_ticks(s.code@, f.len() as int)) by {
        assert forall|a: int, bb: int|
            0 <= a <= bb <= s.code@.len() && #[trigger] all_ticks(s.code@, a, bb) implies bb - a
            < f.len() by {}
    }
    lemma_trim_end_char_prefix(s.code@, '\n');
    assert(s.code@.subrange(0, c.len() as int) == c);
    lemma_short_ticks_sub(s.code@, f.len() as int, 0, c.len() as int);
    assert(!has_char(c, '\r')) by {
        if has_char(c, '\r') {
            let j = choose|j: int| 0 <= j < c.len() && c[j] == '\r';
            assert(s.code@[j] == '\r');
        }
    }
    let u = trim_start(s.notes@);
    lemma_trim_start_suffix(s.notes@);
    lemma_trim_end_prefix(u);
    assert(!has_char(nt, '\r')) by {
        if has_char(nt, '\r') {
            let j = choose|j: int| 0 <= j < nt.len() && nt[j] == '\r';
            assert(nt[j] == u[j]);
            assert(u[j] == s.notes@[s.notes@.len() - u.len() + j]);
        }
    }
    lemma_trim_twice(s.notes@);
    lemma_code_block_splits(f, s.language@, c, nt);
}

/// The text of a snippet file. Its body reads back as written: split off
/// the frontmatter and the first code block, it gives the info string, the
/// code (without trailing newlines) and the notes (trimmed).
pub fn render(s: &Snippet) -> (r: String)
    ensures
        r@ == render_spec(*s),
        reads_back(*s) ==> split_frontmatter_spec(r@).0 is Some,
        reads_back(*s) ==> split_code_spec(split_frontmatter_spec(r@).1) == (
            trim(s.language@),
            trim_end_char(s.code@, '\n'),
            trim(s.notes@),
        ),
{
    let code = to_chars(s.code.as_str());
    let longest = longest_tick_run(&code);
    let n = if longest > 2 { longest } else { 2 };
    let mut fence: Vec<char> = Vec::new();
    fence.push('`');
    let mut k: usize = 0;
    while k < n
        invariant
            k <= n,
            fence@ == Seq::new((k + 1) as nat, |i: int| '`'),
        decreases n - k,
    {
        fence.push('`');
        k = k + 1;
    }
    assert(fence@ == fence_for(s.code@));
    let mut out: Vec<char> = Vec::new();
    push_str(&mut out, "---\ntitle: ");
    push_str(&mut out, json_string(s.title.as_str()).as_str());
    push_str(&mut out, "\nlanguage: ");
    push_str(&mut out, json_string(s.language.as_str()).as_str());
    push_str(&mut out, "\ntags: ");
    push_str(&mut out, json_string_list(&s.tags).as_str());
    push_str(&mut out, "\ndescription: ");
    push_str(&mut out, json_string(s.description.as_str()).as_str());
    push_str(&mut out, "\ncreated: ");
    push_str(&mut out, json_string(s.created.as_str()).as_str());
    push_str(&mut out, "\nupdated: ");
    push_str(&mut out, json_string(s.updated.as_str()).as_str());
    push_str(&mut out, "\n---\n\n");
    push_all(&mut out, &fence);
    push_str(&mut out, s.language.as_str());
    push_str(&mut out, "\n");
    let trimmed = trim_end_char_vec(&code, '\n');
    push_all(&mut out, &trimmed);
    push_str(&mut out, "\n");
    push_all(&mut out, &fence);
    push_str(&mut out, "\n");
    let notes = trim_vec(&to_chars(s.notes.as_str()));
    if notes.len() > 0 {
        push_str(&mut out, "\n");
        push_all(&mut out, &notes);
        push_str(&mut out, "\n");
    }
    proof {
        if reads_back(*s) {
            lemma_render_reads_back(*s);
        }
    }
    from_chars(&out)
}

// ---------------------------------------------------------------------------
// Reading and editing

/// A snippet read from a file: the frontmatter's fields, the id as title
/// when it has none, the fence's language when it names none, and the
/// body's first code block and notes.
pub fn snippet_from_parts(id: &str, fm: Frontmatter, body: &str) -> (r: Snippet)
    ensures
        r.id@ == id@,
        r.title@ == if fm.title@.len() == 0 {
            id@
        } else {
            fm.title@
        },
        r.language@ == if fm.language@.len() == 0 {
            split_code_spec(body@).0
        } else {
            fm.language@
        },
        r.tags == fm.tags,
        r.description == fm.description,
        r.code@ == split_code_spec(body@).1,
        r.notes@ == split_code_spec(body@).2,
        r.created == fm.created,
        r.updated == fm.updated,
{
    let (fence_lang, code, notes) = split_code(body);
    let title = if fm.title.as_str().is_empty() {
        String::from_str(id)
    } else {
        fm.title
    };
    let language = if fm.language.as_str().is_empty() {
        fence_lang
    } else {
        fm.language
    };
    Snippet {
        id: String::from_str(id),
        title,
        language,
        tags: fm.tags,
        description: fm.description,
        code,
        notes,
        created: fm.created,
        updated: fm.updated,
    }
}

/// Why a snippet operation was refused.
#[derive(Debug, Clone, Copy, PartialEq, Eq)]
pub enum SnippetError {
    /// The title is blank.
    MissingTitle,
    /// The code is blank.
    MissingCode,
    /// No snippet has the id.
    NotFound,
    /// Every file name tried for a new snippet was taken.
    NoFreeId,
}

/// A snippet needs a non-blank title and non-blank code.
pub open spec fn validate_spec(input: SnippetInput) -> Result<(), SnippetError> {
    if trim(input.title@).len() == 0 {
        Err(SnippetError::MissingTitle)
    } else if trim(input.code@).len() == 0 {
        Err(SnippetError::MissingCode)
    } else {
        Ok(())
    }
}

pub fn validate(input: &SnippetInput) -> (r: Result<(), SnippetError>)
    ensures
        r == validate_spec(*input),
{
    if trim_vec(&to_chars(input.title.as_str())).len() == 0 {
        return Err(SnippetError::MissingTitle);
    }
    if trim_vec(&to_chars(input.code.as_str())).len() == 0 {
        return Err(SnippetError::MissingCode);
    }
    Ok(())
}

/// What `str::to_lowercase` makes of `s`.
pub uninterp spec fn str_lowercase(s: Seq<char>) -> Seq<char>;

/// Calls `str::to_lowercase` on `s`. Trusted: the result is the lowercase
/// form of `s`, a function of `s` alone.
#[verifier::external_body]
pub(crate) fn lowercase_str(s: &str) -> (r: String)
    ensures
        r@ == str_lowercase(s@),
{
    s.to_lowercase()
}

/// Tags trimmed and lowercased, blank ones dropped.
pub open spec fn clean_tags(tags: Seq<Seq<char>>) -> Seq<Seq<char>>
    decreases tags.len(),
{
    if tags.len() == 0 {
        seq![]
    } else {
        let rest = clean_tags(tags.drop_last());
        let t = str_lowercase(trim(tags.last()));
        if t.len() > 0 {
            rest.push(t)
        } else {
            rest
        }
    }
}

/// A snippet from an input: title and description trimmed, language and
/// tags trimmed and lowercased (blank tags dropped), code and notes as given.
/// The fields a snippet takes from an input: title and description
/// trimmed, language and tags trimmed and lowercased (blank tags dropped),
/// code and notes as given, and the two times.
pub open spec fn snippet_fields(s: Snippet, i: SnippetInput, created: String, updated: String) -> bool {
    &&& s.title@ == trim(i.title@)
    &&& s.language@ == str_lowercase(trim(i.language@))
    &&& strs(s.tags@) == clean_tags(strs(i.tags@))
    &&& s.description@ == trim(i.description@)
    &&& s.code == i.code
    &&& s.notes == i.notes
    &&& s.created == created
    &&& s.updated == updated
}

pub fn from_input(id: String, i: SnippetInput, created: String, updated: String) -> (r: Snippet)
    ensures
        r.id == id,
        snippet_fields(r, i, created, updated),
{
    let lang = from_chars(&trim_vec(&to_chars(i.language.as_str())));
    let mut tags: Vec<String> = Vec::new();
    let mut k: usize = 0;
    while k < i.tags.len()
        invariant
            k <= i.tags@.len(),
            strs(tags@) == clean_tags(strs(i.tags@).take(k as int)),
        decreases i.tags@.len() - k,
    {
        assert(strs(i.tags@).take(k + 1).drop_last() == strs(i.tags@).take(k as int));
        assert(strs(i.tags@).take(k + 1).last() == i.tags@[k as int]@);
        let t = from_chars(&trim_vec(&to_chars(i.tags[k].as_str())));
        let low = lowercase_str(t.as_str());
        if !low.as_str().is_empty() {
            let ghost before = strs(tags@);
            tags.push(low);
            assert(strs(tags@) == before.push(str_lowercase(trim(i.tags@[k as int]@))));
        }
        k = k + 1;
    }
    assert(strs(i.tags@).take(i.tags@.len() as int) == strs(i.tags@));
    Snippet {
        id,
        title: from_chars(&trim_vec(&to_chars(i.title.as_str()))),
        language: lowercase_str(lang.as_str()),
        tags,
        description: from_chars(&trim_vec(&to_chars(i.description.as_str()))),
        code: i.code,
        notes: i.notes,
        created,
        updated,
    }
}

/// The `created` time an edit keeps: the snippet's own, or `now` when it
/// has none.
pub fn kept_created(existing: String, now: String) -> (r: String)
    ensures
        r == if existing@.len() == 0 {
            now
        } else {
            existing
        },
{
    if existing.as_str().is_empty() {
        now
    } else {
        existing
    }
}

// ---------------------------------------------------------------------------
// The store

pub open spec fn snippet_ids(v: Seq<Snippet>) -> Seq<Seq<char>> {
    v.map_values(|s: Snippet| s.id@)
}

/// Where a snippet with id `k` is in `v`.
pub open spec fn index_of_id(v: Seq<Snippet>, k: Seq<char>) -> int {
    choose|i: int| 0 <= i < v.len() && v[i].id@ == k
}

/// Snippets by id: each id to the snippet that has it.
pub open spec fn snippet_map(v: Seq<Snippet>) -> Map<Seq<char>, Snippet> {
    Map::new(|k: Seq<char>| snippet_ids(v).contains(k), |k: Seq<char>| v[index_of_id(v, k)])
}

/// Snippets by id after reading them in order: a later one replaces an
/// earlier one with the same id.
pub open spec fn map_of(v: Seq<Snippet>) -> Map<Seq<char>, Snippet>
    decreases v.len(),
{
    if v.len() == 0 {
        Map::empty()
    } else {
        map_of(v.drop_last()).insert(v.last().id@, v.last())
    }
}

/// Two snippets with the same fields.
pub open spec fn same_snippet(a: Snippet, b: Snippet) -> bool {
    &&& a.id == b.id
    &&& a.title == b.title
    &&& a.language == b.language
    &&& strs(a.tags@) == strs(b.tags@)
    &&& a.description == b.description
    &&& a.code == b.code
    &&& a.notes == b.notes
    &&& a.created == b.created
    &&& a.updated == b.updated
}

/// In a strictly sorted sequence of snippets, the one at `i` is the one its
/// id maps to.
proof fn lemma_map_at(v: Seq<Snippet>, i: int)
    requires
        sorted_strict(snippet_ids(v)),
        0 <= i < v.len(),
    ensures
        snippet_map(v).contains_key(v[i].id@),
        snippet_map(v)[v[i].id@] == v[i],
{
    assert(snippet_ids(v)[i] == v[i].id@);
    let k = v[i].id@;
    assert(0 <= i < v.len() && v[i].id@ == k);
    assert(snippet_ids(v).contains(k));
    let j = index_of_id(v, k);
    assert(snippet_map(v)[k] == v[j]);
    assert(snippet_ids(v)[j] == v[j].id@);
    if j != i {
        if j < i {
            assert(chars_lt(snippet_ids(v)[j], snippet_ids(v)[i]));
        } else {
            assert(chars_lt(snippet_ids(v)[i], snippet_ids(v)[j]));
        }
        lemma_chars_lt_irreflexive(k);
    }
}

/// A read gives back the last write: once a snippet is put in a store (as
/// `insert` does), its id maps to it, and every other id keeps what it had.
pub proof fn lemma_read_after_write(before: SnippetStore, after: SnippetStore, s: Snippet, k: Seq<char>)
    requires
        after.view() == before.view().insert(s.id@, s),
    ensures
        after.view().contains_key(s.id@),
        after.view()[s.id@] == s,
        k != s.id@ ==> (after.view().contains_key(k) == before.view().contains_key(k)),
        k != s.id@ && before.view().contains_key(k) ==> after.view()[k] == before.view()[k],
{
}

/// Reading a folder keeps exactly the ids read, each with the last snippet
/// read for it.
pub proof fn lemma_reload_keeps_last(v: Seq<Snippet>, k: Seq<char>)
    ensures
        map_of(v).contains_key(k) <==> exists|i: int| 0 <= i < v.len() && (#[trigger] v[i]).id@ == k,
        map_of(v).contains_key(k) ==> exists|i: int|
            0 <= i < v.len() && (#[trigger] v[i]).id@ == k && map_of(v)[k] == v[i] && forall|j: int|
                i < j < v.len() ==> (#[trigger] v[j]).id@ != k,
    decreases v.len(),
{
    if v.len() > 0 {
        let rest = v.drop_last();
        lemma_reload_keeps_last(rest, k);
        if v.last().id@ == k {
            assert(v[v.len() - 1].id@ == k);
        } else {
            if exists|i: int| 0 <= i < v.len() && (#[trigger] v[i]).id@ == k {
                let i = choose|i: int| 0 <= i < v.len() && (#[trigger] v[i]).id@ == k;
                assert(rest[i] == v[i]);
            }
            if map_of(rest).contains_key(k) {
                let i = choose|i: int|
                    0 <= i < rest.len() && (#[trigger] rest[i]).id@ == k && map_of(rest)[k] == rest[i]
                        && forall|j: int| i < j < rest.len() ==> (#[trigger] rest[j]).id@ != k;
                assert(v[i] == rest[i]);
                assert forall|j: int| i < j < v.len() implies (#[trigger] v[j]).id@ != k by {
                    if j < rest.len() {
                        assert(v[j] == rest[j]);
                    }
                }
            }
        }
    }
}

/// The snippets folder, mirrored in memory: the snippets in id order, each
/// id once.
pub struct SnippetStore {
    dir: String,
    snippets: Vec<Snippet>,
}

impl SnippetStore {
    #[verifier::type_invariant]
    spec fn ordered(self) -> bool {
        sorted_strict(snippet_ids(self.snippets@))
    }

    /// The folder's path.
    pub closed spec fn dir_view(self) -> Seq<char> {
        self.dir@
    }

    /// The snippets in id order.
    pub closed spec fn entries(self) -> Seq<Snippet> {
        self.snippets@
    }

    /// The snippets by id.
    pub open spec fn view(self) -> Map<Seq<char>, Snippet> {
        snippet_map(self.entries())
    }

    /// An empty mirror of the folder `dir`.
    pub fn new(dir: String) -> (r: Self)
        ensures
            r.dir_view() == dir@,
            r.entries().len() == 0,
            r.view() == Map::<Seq<char>, Snippet>::empty(),
    {
        let r = SnippetStore { dir, snippets: Vec::new() };
        assert(r.view() =~= Map::<Seq<char>, Snippet>::empty());
        r
    }

    pub fn dir(&self) -> (r: &str)
        ensures
            r@ == self.dir_view(),
    {
        self.dir.as_str()
    }

    /// Every snippet, in id order.
    pub fn all(&self) -> (r: &Vec<Snippet>)
        ensures
            r@ == self.entries(),
            sorted_strict(snippet_ids(r@)),
            snippet_map(r@) == self.view(),
    {
        proof {
            use_type_invariant(self);
        }
        &self.snippets
    }

    /// A copy of the snippet with id `id`.
    pub fn get(&self, id: &str) -> (r: Option<Snippet>)
        ensures
            match r {
                Some(s) => self.view().contains_key(id@) && same_snippet(s, self.view()[id@]),
                None => !self.view().contains_key(id@),
            },
    {
        proof {
            use_type_invariant(self);
        }
        let i = self.position(id);
        if i < self.snippets.len() && eq_chars(
            to_chars(self.snippets[i].id.as_str()).as_slice(),
            to_chars(id).as_slice(),
        ) {
            proof {
                lemma_map_at(self.snippets@, i as int);
            }
            Some(copy_snippet(&self.snippets[i]))
        } else {
            proof {
                if self.view().contains_key(id@) {
                    let j = choose|j: int|
                        0 <= j < self.snippets@.len() && snippet_ids(self.snippets@)[j] == id@;
                    assert(snippet_ids(self.snippets@)[j] == self.snippets@[j].id@);
                    if j < i {
                        assert(chars_lt(self.snippets@[j].id@, id@));
                        lemma_chars_lt_irreflexive(id@);
                    } else if j > i {
                        assert(chars_lt(snippet_ids(self.snippets@)[i as int], snippet_ids(self.snippets@)[j]));
                        lemma_chars_lt_total(self.snippets@[i as int].id@, id@);
                        lemma_chars_lt_trans(id@, self.snippets@[i as int].id@, id@);
                        lemma_chars_lt_irreflexive(id@);
                    }
                }
            }
            None
        }
    }

    /// Where `id` goes among the snippets: after exactly those whose ids
    /// come before it.
    fn position(&self, id: &str) -> (r: usize)
        requires
            sorted_strict(snippet_ids(self.snippets@)),
        ensures
            r <= self.snippets@.len(),
            forall|j: int| 0 <= j < r ==> chars_lt(#[trigger] self.snippets@[j].id@, id@),
            forall|j: int|
                r <= j < self.snippets@.len() ==> !chars_lt(#[trigger] self.snippets@[j].id@, id@),
    {
        snippet_position(&self.snippets, id)
    }

    /// Adds `s`, replacing the snippet with its id if there is one.
    pub fn insert(&mut self, s: Snippet)
        ensures
            final(self).view() == old(self).view().insert(s.id@, s),
            final(self).dir_view() == old(self).dir_view(),
    {
        proof {
            use_type_invariant(&*self);
        }
        let mut v: Vec<Snippet> = Vec::new();
        std::mem::swap(&mut v, &mut self.snippets);
        upsert(&mut v, s);
        self.snippets = v;
    }

    /// Replaces the mirror with the snippets read from the folder (a later
    /// one replaces an earlier one with the same id).
    pub fn replace_all(&mut self, found: Vec<Snippet>)
        ensures
            final(self).view() == map_of(found@),
            final(self).dir_view() == old(self).dir_view(),
    {
        let mut v: Vec<Snippet> = Vec::new();
        std::mem::swap(&mut v, &mut self.snippets);
        v = Vec::new();
        assert(snippet_map(v@) =~= Map::<Seq<char>, Snippet>::empty());
        let mut rest = found;
        let ghost all = rest@;
        assert(all.len() == rest.len());
        let mut k: usize = 0;
        while rest.len() > 0
            invariant
                k + rest@.len() == all.len(),
                all.len() <= usize::MAX,
                rest@ == all.skip(k as int),
                sorted_strict(snippet_ids(v@)),
                snippet_map(v@) == map_of(all.take(k as int)),
            decreases rest@.len(),
        {
            let s = rest.remove(0);
            assert(s == all[k as int]);
            assert(all.skip(k + 1) =~= all.skip(k as int).drop_first());
            assert(all.take(k + 1).drop_last() == all.take(k as int));
            upsert(&mut v, s);
            k = k + 1;
        }
        assert(all.take(all.len() as int) == all);
        self.snippets = v;
    }
}

fn snippet_position(v: &Vec<Snippet>, id: &str) -> (r: usize)
    requires
        sorted_strict(snippet_ids(v@)),
    ensures
        r <= v@.len(),
        forall|j: int| 0 <= j < r ==> chars_lt(#[trigger] v@[j].id@, id@),
        forall|j: int| r <= j < v@.len() ==> !chars_lt(#[trigger] v@[j].id@, id@),
{
    let xs = to_chars(id);
    let mut i: usize = 0;
    while i < v.len() && chars_less(to_chars(v[i].id.as_str()).as_slice(), xs.as_slice())
        invariant
            i <= v@.len(),
            xs@ == id@,
            forall|j: int| 0 <= j < i ==> chars_lt(#[trigger] v@[j].id@, id@),
        decreases v@.len() - i,
    {
        i = i + 1;
    }
    proof {
        if i < v@.len() {
            assert forall|j: int| i <= j < v@.len() implies !chars_lt(#[trigger] v@[j].id@, id@) by {
                if j > i {
                    assert(chars_lt(snippet_ids(v@)[i as int], snippet_ids(v@)[j]));
                    if chars_lt(v@[j].id@, id@) {
                        lemma_chars_lt_trans(v@[i as int].id@, v@[j].id@, id@);
                    }
                }
            }
        }
    }
    i
}

/// Adds `s` to the sorted `v`, replacing the snippet with its id if there is one.
fn upsert(v: &mut Vec<Snippet>, s: Snippet)
    requires
        sorted_strict(snippet_ids(old(v)@)),
    ensures
        sorted_strict(snippet_ids(final(v)@)),
        snippet_map(final(v)@) == snippet_map(old(v)@).insert(s.id@, s),
{
    let ghost old_v = v@;
    let ghost key = s.id@;
    let i = snippet_position(v, s.id.as_str());
    if i < v.len() && eq_chars(
        to_chars(v[i].id.as_str()).as_slice(),
        to_chars(s.id.as_str()).as_slice(),
    ) {
        v.set(i, s);
        let ghost new_v = v@;
        assert(snippet_ids(new_v) =~= snippet_ids(old_v));
        proof {
            lemma_map_at(new_v, i as int);
            assert forall|k: Seq<char>| #[trigger] snippet_map(new_v).contains_key(k) implies snippet_map(new_v)[k] == snippet_map(old_v).insert(key, new_v[i as int])[k] by {
                let m = choose|m: int| 0 <= m < snippet_ids(new_v).len() && snippet_ids(new_v)[m] == k;
                assert(snippet_ids(new_v)[m] == new_v[m].id@);
                lemma_map_at(new_v, m);
                if m != i as int {
                    lemma_map_at(old_v, m);
                }
            }
            assert(snippet_map(new_v) =~= snippet_map(old_v).insert(key, new_v[i as int]));
        }
        return;
    }
    proof {
        if i < old_v.len() {
            lemma_chars_lt_total(old_v[i as int].id@, key);
        }
    }
    let ghost sv = s;
    v.insert(i, s);
    let ghost new_v = v@;
    assert(snippet_ids(new_v) == snippet_ids(old_v).insert(i as int, key));
    proof {
        let old_s = snippet_ids(old_v);
        let new_s = snippet_ids(new_v);
        assert forall|a: int, b: int| 0 <= a < b < new_s.len() implies chars_lt(
            #[trigger] new_s[a],
            #[trigger] new_s[b],
        ) by {
            assert(new_s[a] == new_v[a].id@);
            assert(new_s[b] == new_v[b].id@);
            if b < i {
                assert(chars_lt(old_s[a], old_s[b]));
            } else if b == i {
                assert(chars_lt(old_v[a].id@, key));
            } else if a < i {
                assert(chars_lt(old_v[a].id@, key));
                assert(new_s[b] == old_s[b - 1]);
                assert(old_s[b - 1] == old_v[b - 1].id@);
                assert(!chars_lt(old_v[b - 1].id@, key));
                assert(old_s[i as int] == old_v[i as int].id@);
                if b - 1 > i {
                    assert(chars_lt(old_s[i as int], old_s[b - 1]));
                    lemma_chars_lt_trans(key, old_s[i as int], old_s[b - 1]);
                }
                lemma_chars_lt_trans(old_s[a], key, old_s[b - 1]);
            } else if a == i {
                assert(new_s[b] == old_s[b - 1]);
                assert(old_s[i as int] == old_v[i as int].id@);
                if b - 1 > i {
                    assert(chars_lt(old_s[i as int], old_s[b - 1]));
                    lemma_chars_lt_trans(key, old_s[i as int], old_s[b - 1]);
                }
            } else {
                assert(chars_lt(old_s[a - 1], old_s[b - 1]));
            }
        }
        assert(sorted_strict(new_s));
        lemma_map_at(new_v, i as int);
        assert forall|k: Seq<char>| snippet_map(new_v).contains_key(k) <==> snippet_map(old_v).insert(key, sv).contains_key(k) by {
            if new_s.contains(k) {
                let m = choose|m: int| 0 <= m < new_s.len() && new_s[m] == k;
                if m < i {
                    assert(old_s[m] == k);
                } else if m > i {
                    assert(old_s[m - 1] == k);
                }
            }
            if old_s.contains(k) {
                let m = choose|m: int| 0 <= m < old_s.len() && old_s[m] == k;
                if m < i {
                    assert(new_s[m] == k);
                } else {
                    assert(new_s[m + 1] == k);
                }
            }
            if k == key {
                assert(new_s[i as int] == k);
            }
        }
        assert forall|k: Seq<char>| #[trigger] snippet_map(new_v).contains_key(k) implies snippet_map(new_v)[k] == snippet_map(old_v).insert(key, sv)[k] by {
            let m = choose|m: int| 0 <= m < new_s.len() && new_s[m] == k;
            assert(new_s[m] == new_v[m].id@);
            lemma_map_at(new_v, m);
            if m < i {
                assert(new_v[m] == old_v[m]);
                lemma_map_at(old_v, m);
            } else if m > i {
                assert(new_v[m] == old_v[m - 1]);
                lemma_map_at(old_v, m - 1);
            }
        }
        assert(snippet_map(new_v) =~= snippet_map(old_v).insert(key, sv));
    }
}

fn copy_string(s: &String) -> (r: String)
    ensures
        r == *s,
{
    s.clone()
}

/// A snippet with the same fields as `s`.
fn copy_snippet(s: &Snippet) -> (r: Snippet)
    ensures
        same_snippet(r, *s),
{
    let mut tags: Vec<String> = Vec::new();
    let mut i: usize = 0;
    while i < s.tags.len()
        invariant
            i <= s.tags@.len(),
            strs(tags@) == strs(s.tags@).take(i as int),
        decreases s.tags@.len() - i,
    {
        let t = copy_string(&s.tags[i]);
        let ghost before = strs(tags@);
        tags.push(t);
        assert(strs(tags@) == before.push(t@));
        assert(strs(s.tags@).take(i + 1) == strs(s.tags@).take(i as int).push(s.tags@[i as int]@));
        i = i + 1;
    }
    assert(strs(s.tags@).take(s.tags@.len() as int) == strs(s.tags@));
    Snippet {
        id: copy_string(&s.id),
        title: copy_string(&s.title),
        language: copy_string(&s.language),
        tags,
        description: copy_string(&s.description),
        code: copy_string(&s.code),
        notes: copy_string(&s.notes),
        created: copy_string(&s.created),
        updated: copy_string(&s.updated),
    }
}

// ---------------------------------------------------------------------------
// Files of the store

/// An id from the components of a file's path below the folder: the file
/// name without its extension, the components joined by `/`.
pub open spec fn id_from_components(rel: Seq<Seq<char>>) -> Seq<char> {
    if rel.len() > 0 && is_name(rel.last()) {
        join(rel.drop_last().push(stem(rel.last())), seq!['/'])
    } else {
        join(rel, seq!['/'])
    }
}

/// Some component is hidden (starts with `.`).
pub open spec fn hidden(rel: Seq<Seq<char>>) -> bool {
    exists|i: int| 0 <= i < rel.len() && (#[trigger] rel[i]).len() > 0 && rel[i][0] == '.'
}

/// The extension of the last component, when that is a name.
pub open spec fn rel_extension(rel: Seq<Seq<char>>) -> Option<Seq<char>> {
    if rel.len() > 0 && is_name(rel.last()) {
        extension(rel.last())
    } else {
        None
    }
}

/// Whether a change at `path` concerns the folder `dir`: below it, not
/// hidden, and a `.md` file, a directory, or something that is gone.
pub open spec fn snippet_change(dir: Seq<char>, path: Seq<char>, is_dir: bool, exists: bool) -> bool {
    match strip_components(components(path), components(dir)) {
        None => false,
        Some(rel) => !hidden(rel) && (rel_extension(rel) == Some(seq!['m', 'd']) || is_dir
            || !exists),
    }
}

/// The `n`th id tried for a new snippet: the slug, then `<slug>-2`, `<slug>-3`, …
pub open spec fn candidate_id(base: Seq<char>, n: nat) -> Seq<char> {
    if n == 1 {
        base
    } else {
        base + seq!['-'] + decimal(n)
    }
}

/// The id a new snippet from `base` gets, given which candidates are
/// taken (`taken[i]` for `candidate_id(base, i + 1)`): the first one not
/// taken, or none when all that were looked at are.
pub open spec fn first_free_spec(base: Seq<char>, taken: Seq<bool>) -> Option<Seq<char>> {
    first_free_from(base, taken, 0)
}

pub open spec fn first_free_from(base: Seq<char>, taken: Seq<bool>, k: int) -> Option<Seq<char>>
    decreases taken.len() - k,
{
    if k < 0 || k >= taken.len() {
        None
    } else if !taken[k] {
        Some(candidate_id(base, (k + 1) as nat))
    } else {
        first_free_from(base, taken, k + 1)
    }
}

pub open spec fn opt_string(o: Option<String>) -> Option<Seq<char>> {
    match o {
        Some(s) => Some(s@),
        None => None,
    }
}

/// `first_free_from` is the first untaken candidate at or after `k`.
proof fn lemma_first_free_all_taken(base: Seq<char>, taken: Seq<bool>, k: int)
    requires
        0 <= k <= taken.len(),
    ensures
        first_free_from(base, taken, k) is None <==> forall|i: int| k <= i < taken.len() ==> taken[i],
        first_free_from(base, taken, k) is Some ==> exists|j: int|
            k <= j < taken.len() && !taken[j] && first_free_from(base, taken, k) == Some(
                candidate_id(base, (j + 1) as nat),
            ) && forall|i: int| k <= i < j ==> taken[i],
    decreases taken.len() - k,
{
    if k < taken.len() {
        lemma_first_free_all_taken(base, taken, k + 1);
        if taken[k] {
            if first_free_from(base, taken, k) is Some {
                let j = choose|j: int|
                    k + 1 <= j < taken.len() && !taken[j] && first_free_from(base, taken, k + 1)
                        == Some(candidate_id(base, (j + 1) as nat)) && forall|i: int|
                        k + 1 <= i < j ==> taken[i];
                assert forall|i: int| k <= i < j implies taken[i] by {}
            }
        } else {
            assert(forall|i: int| k <= i < k ==> taken[i]);
        }
    }
}

/// The `n`-th candidate id for a new snippet from `base`: `base`, then
/// `base-2`, `base-3`, …
pub fn candidate(base: &str, n: u64) -> (r: String)
    requires
        n >= 1,
    ensures
        r@ == candidate_id(base@, n as nat),
{
    let mut c = to_chars(base);
    if n > 1 {
        c.push('-');
        push_decimal(&mut c, n);
    }
    from_chars(&c)
}

/// The id a new snippet from `base` gets, given which candidates are taken
/// (see `first_free_spec`): the first `candidate_id(base, n)` with
/// `taken[n - 1]` false, every earlier one being taken.
pub fn first_free(base: &str, taken: &Vec<bool>) -> (r: Option<String>)
    ensures
        opt_string(r) == first_free_spec(base@, taken@),
        match r {
            Some(id) => exists|k: int|
                0 <= k < taken@.len() && !taken@[k] && id@ == candidate_id(base@, (k + 1) as nat)
                    && forall|i: int| 0 <= i < k ==> taken@[i],
            None => forall|i: int| 0 <= i < taken@.len() ==> taken@[i],
        },
{
    proof {
        lemma_first_free_all_taken(base@, taken@, 0);
    }
    let mut i: usize = 0;
    while i < taken.len()
        invariant
            i <= taken@.len(),
            forall|j: int| 0 <= j < i ==> taken@[j],
            first_free_from(base@, taken@, 0) == first_free_from(base@, taken@, i as int),
        decreases taken@.len() - i,
    {
        if !taken[i] {
            let id = candidate(base, (i + 1) as u64);
            return Some(id);
        }
        i = i + 1;
    }
    None
}

/// What `time` formats as the current UTC time in RFC 3339, to the second.
/// Nothing is promised: the value is the clock's.
#[verifier::external_body]
fn now_rfc3339() -> (r: String) {
    time::OffsetDateTime::now_utc()
        .replace_nanosecond(0)
        .unwrap_or_else(|_| time::OffsetDateTime::now_utc())
        .format(&time::format_description::well_known::Rfc3339)
        .unwrap_or_default()
}

impl SnippetStore {
    /// The file of the snippet `id`: `<dir>/<id>.md`.
    pub fn path(&self, id: &str) -> (r: String)
        ensures
            r@ == join_path(self.dir_view(), id@ + ".md"@),
    {
        let mut name = to_chars(id);
        push_str(&mut name, ".md");
        from_chars(&join_path_vec(to_chars(self.dir.as_str()).as_slice(), name.as_slice()))
    }

    /// The id of the snippet in `path` (`<dir>/rust/retry.md` → `rust/retry`),
    /// when `path` is below the folder.
    pub fn id_for(&self, path: &str) -> (r: Option<String>)
        ensures
            match r {
                Some(id) => match strip_components(components(path@), components(self.dir_view())) {
                    Some(rel) => id@ == id_from_components(rel),
                    None => false,
                },
                None => strip_components(components(path@), components(self.dir_view())) is None,
            },
    {
        let pc = components_vec(to_chars(path).as_slice());
        let dc = components_vec(to_chars(self.dir.as_str()).as_slice());
        match strip_components_vec(&pc, &dc) {
            None => None,
            Some(rel) => {
                let n = rel.len();
                if n > 0 && is_name_vec(&rel[n - 1]) {
                    let mut parts: Vec<Vec<char>> = Vec::new();
                    let mut i: usize = 0;
                    while i < n - 1
                        invariant
                            n == rel@.len(),
                            0 < n,
                            i <= n - 1,
                            seqs(parts@) == seqs(rel@).take(i as int),
                        decreases n - 1 - i,
                    {
                        let c = rel[i].clone();
                        let ghost before = seqs(parts@);
                        parts.push(c);
                        assert(seqs(parts@) == before.push(c@));
                        assert(seqs(rel@).take(i + 1) == seqs(rel@).take(i as int).push(rel@[i as int]@));
                        i = i + 1;
                    }
                    let st = stem_vec(rel[n - 1].as_slice());
                    let ghost before = seqs(parts@);
                    parts.push(st);
                    assert(seqs(parts@) == before.push(st@));
                    assert(seqs(rel@).drop_last() == seqs(rel@).take(n - 1));
                    assert(seqs(rel@).last() == rel@[n - 1]@);
                    Some(from_chars(&join_components(&parts)))
                } else {
                    if n > 0 {
                        assert(seqs(rel@).last() == rel@[n - 1]@);
                    }
                    Some(from_chars(&join_components(&rel)))
                }
            },
        }
    }

    /// Whether a change at `path`, which is a directory (`is_dir`) or is
    /// there at all (`exists`), should make the store re-read its folder.
    pub fn is_snippet_change(&self, path: &str, is_dir: bool, exists: bool) -> (r: bool)
        ensures
            r == snippet_change(self.dir_view(), path@, is_dir, exists),
    {
        let pc = components_vec(to_chars(path).as_slice());
        let dc = components_vec(to_chars(self.dir.as_str()).as_slice());
        match strip_components_vec(&pc, &dc) {
            None => false,
            Some(rel) => {
                let mut i: usize = 0;
                while i < rel.len()
                    invariant
                        i <= rel@.len(),
                        strip_components(components(path@), components(self.dir_view())) == Some(
                            seqs(rel@),
                        ),
                        forall|j: int| 0 <= j < i ==> !(seqs(rel@)[j].len() > 0 && seqs(rel@)[j][0] == '.'),
                    decreases rel@.len() - i,
                {
                    assert(seqs(rel@)[i as int] == rel@[i as int]@);
                    if rel[i].len() > 0 && rel[i][0] == '.' {
                        assert(seqs(rel@)[i as int].len() > 0 && seqs(rel@)[i as int][0] == '.');
                        assert(hidden(seqs(rel@)));
                        return false;
                    }
                    i = i + 1;
                }
                assert(!hidden(seqs(rel@))) by {
                    assert forall|j: int| 0 <= j < seqs(rel@).len() implies !((#[trigger] seqs(rel@)[j]).len() > 0 && seqs(rel@)[j][0] == '.') by {}
                }
                let n = rel.len();
                let md = if n > 0 && is_name_vec(&rel[n - 1]) {
                    assert(seqs(rel@).last() == rel@[n - 1]@);
                    match extension_vec(rel[n - 1].as_slice()) {
                        Some(e) => e.len() == 2 && e[0] == 'm' && e[1] == 'd',
                        None => false,
                    }
                } else {
                    if n > 0 {
                        assert(seqs(rel@).last() == rel@[n - 1]@);
                    }
                    false
                };
                proof {
                    match rel_extension(seqs(rel@)) {
                        Some(e) => {
                            if e == seq!['m', 'd'] {
                                assert(e[0] == 'm' && e[1] == 'd');
                            }
                            if e.len() == 2 && e[0] == 'm' && e[1] == 'd' {
                                assert(e =~= seq!['m', 'd']);
                            }
                        },
                        None => {},
                    }
                }
                md || is_dir || !exists
            },
        }
    }

    /// Whether a changed file should trigger a reload (a `.md` file outside
    /// hidden folders, a folder, or something removed). Asks the disk what
    /// is at `path` only when the name does not decide.
    pub fn is_snippet_file(&self, path: &str) -> (r: bool)
        ensures
            r ==> exists|d: bool, e: bool| snippet_change(self.dir_view(), path@, d, e),
            snippet_change(self.dir_view(), path@, false, true) ==> r,
    {
        if self.is_snippet_change(path, false, true) {
            return true;
        }
        let d = path_is_dir(path);
        let e = path_exists(path);
        self.is_snippet_change(path, d, e)
    }

    /// Whether a snippet has the id.
    pub fn contains(&self, id: &str) -> (r: bool)
        ensures
            r == self.view().contains_key(id@),
    {
        self.get(id).is_some()
    }

    /// The first free id for a new snippet from `base`: `base`, then
    /// `base-2`, `base-3`, … until no file is there. Which files are there
    /// is the disk's to say: the ids are tried in order, and the first one
    /// found free comes back; `None` only once every number up to
    /// `u64::MAX - 1` was found taken.
    pub fn free_id(&self, base: &str) -> (r: Option<String>)
        ensures
            exists|taken: Seq<bool>|
                opt_string(r) == first_free_spec(base@, taken) && (r is None ==> taken.len()
                    == u64::MAX - 1),
            match r {
                Some(id) => exists|n: nat| n >= 1 && id@ == candidate_id(base@, n),
                None => true,
            },
    {
        let mut taken: Vec<bool> = Vec::new();
        let mut n: u64 = 1;
        while n < u64::MAX
            invariant_except_break
                1 <= n,
                taken@.len() == n - 1,
                forall|i: int| 0 <= i < taken@.len() ==> taken@[i],
            ensures
                (taken@.len() == u64::MAX - 1 && forall|i: int|
                    0 <= i < taken@.len() ==> taken@[i]) || (taken@.len() > 0 && !taken@.last()
                    && forall|i: int| 0 <= i < taken@.len() - 1 ==> taken@[i]),
            decreases u64::MAX - n,
        {
            let id = candidate(base, n);
            let there = path_exists(self.path(id.as_str()).as_str());
            taken.push(there);
            if !there {
                break;
            }
            n = n + 1;
        }
        let r = first_free(base, &taken);
        proof {
            lemma_first_free_all_taken(base@, taken@, 0);
            if r is None && taken@.len() > 0 && !taken@.last() {
                assert(!taken@[taken@.len() - 1]);
            }
            assert(opt_string(r) == first_free_spec(base@, taken@));
            if r is Some {
                let k = choose|k: int|
                    0 <= k < taken@.len() && !taken@[k] && opt_string(r) == Some(
                        candidate_id(base@, (k + 1) as nat),
                    );
                assert(r->Some_0@ == candidate_id(base@, (k + 1) as nat));
            } else {
                assert forall|i: int| 0 <= i < taken@.len() implies taken@[i] by {}
            }
        }
        r
    }

    /// A new snippet from `input`, made at `now`: checked, named after its
    /// title's slug with the first free suffix.
    pub fn new_snippet(&self, input: SnippetInput, now: String) -> (r: Result<Snippet, SnippetError>)
        ensures
            match validate_spec(input) {
                Err(e) => r == Err::<Snippet, SnippetError>(e),
                Ok(_) => match r {
                    Ok(s) => (exists|taken: Seq<bool>|
                        first_free_spec(slug_spec(input.title@), taken) == Some(s.id@))
                        && (exists|n: nat| n >= 1 && s.id@ == candidate_id(slug_spec(input.title@), n))
                        && snippet_fields(s, input, now, now),
                    Err(e) => e == SnippetError::NoFreeId && exists|taken: Seq<bool>|
                        first_free_spec(slug_spec(input.title@), taken) is None && taken.len()
                            == u64::MAX - 1,
                },
            },
    {
        match validate(&input) {
            Err(e) => return Err(e),
            Ok(()) => {},
        }
        let base = slugify(input.title.as_str());
        match self.free_id(base.as_str()) {
            None => Err(SnippetError::NoFreeId),
            Some(id) => {
                let created = copy_string(&now);
                Ok(from_input(id, input, created, now))
            },
        }
    }

    /// Creates a snippet now (see `new_snippet`): the input checked and
    /// cleaned, the first free id from its title's slug, and the clock's
    /// time as both `created` and `updated`.
    pub fn create(&self, input: SnippetInput) -> (r: Result<Snippet, SnippetError>)
        ensures
            match validate_spec(input) {
                Err(e) => r == Err::<Snippet, SnippetError>(e),
                Ok(_) => match r {
                    Ok(s) => (exists|taken: Seq<bool>|
                        first_free_spec(slug_spec(input.title@), taken) == Some(s.id@))
                        && (exists|n: nat| n >= 1 && s.id@ == candidate_id(slug_spec(input.title@), n))
                        && snippet_fields(s, input, s.created, s.created),
                    Err(e) => e == SnippetError::NoFreeId && exists|taken: Seq<bool>|
                        first_free_spec(slug_spec(input.title@), taken) is None && taken.len()
                            == u64::MAX - 1,
                },
            },
    {
        let now = now_rfc3339();
        self.new_snippet(input, now)
    }

    /// The snippet `id` edited with `input` at `now`: checked, keeping its
    /// id and its `created` time (or `now` when it has none).
    pub fn edited(&self, id: &str, input: SnippetInput, now: String) -> (r: Result<Snippet, SnippetError>)
        ensures
            match validate_spec(input) {
                Err(e) => r == Err::<Snippet, SnippetError>(e),
                Ok(_) => if !self.view().contains_key(id@) {
                    r == Err::<Snippet, SnippetError>(SnippetError::NotFound)
                } else {
                    match r {
                        Ok(s) => s.id@ == id@ && snippet_fields(
                            s,
                            input,
                            if self.view()[id@].created@.len() == 0 {
                                now
                            } else {
                                self.view()[id@].created
                            },
                            now,
                        ),
                        Err(_) => false,
                    }
                },
            },
    {
        match validate(&input) {
            Err(e) => return Err(e),
            Ok(()) => {},
        }
        match self.get(id) {
            None => Err(SnippetError::NotFound),
            Some(existing) => {
                let created = kept_created(existing.created, copy_string(&now));
                Ok(from_input(from_chars(&to_chars(id)), input, created, now))
            },
        }
    }

    /// Edits a snippet now (see `edited`): the input checked and cleaned,
    /// the id and `created` time kept (the clock's time when it had none),
    /// and the clock's time as `updated`.
    pub fn update(&self, id: &str, input: SnippetInput) -> (r: Result<Snippet, SnippetError>)
        ensures
            match validate_spec(input) {
                Err(e) => r == Err::<Snippet, SnippetError>(e),
                Ok(_) => if !self.view().contains_key(id@) {
                    r == Err::<Snippet, SnippetError>(SnippetError::NotFound)
                } else {
                    match r {
                        Ok(s) => s.id@ == id@ && snippet_fields(
                            s,
                            input,
                            if self.view()[id@].created@.len() == 0 {
                                s.updated
                            } else {
                                self.view()[id@].created
                            },
                            s.updated,
                        ),
                        Err(_) => false,
                    }
                },
            },
    {
        let now = now_rfc3339();
        self.edited(id, input, now)
    }
}

} // verus!
