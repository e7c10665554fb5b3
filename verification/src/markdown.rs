//! Markdown docsets' pages: the headings that make them searchable by name,
//! and the page title.

use vstd::prelude::*;
use crate::normalize::{fence_line, is_fence, parse_heading, parse_heading_line};
use crate::store::Entry;
use crate::text::{
    copy_range, find_char, find_char_from, from_chars, lemma_find_char, lines, lines_vec,
    push_all, push_str, seqs, starts_with, starts_with_str, strs, to_chars, trim, trim_start,
    trim_start_vec, trim_vec,
};

verus! {

// ---------------------------------------------------------------------------
// Inline markup

/// Characters of inline markup that a heading's text drops.
pub open spec fn is_inline_mark(c: char) -> bool {
    c == '`' || c == '*' || c == '_'
}

/// A link `[text](target)` at the start of `s`: the index of its `]` and of
/// its `)`. The text runs to the first `]`, which must be followed by `(`;
/// the target runs to the first `)` after that.
pub open spec fn link_at(s: Seq<char>) -> Option<(int, int)> {
    if s.len() > 0 && s[0] == '[' {
        let j = 1 + find_char(s.skip(1), ']');
        if j + 1 < s.len() && s[j + 1] == '(' {
            let k = j + 2 + find_char(s.skip(j + 2), ')');
            if k < s.len() {
                Some((j, k))
            } else {
                None
            }
        } else {
            None
        }
    } else {
        None
    }
}

pub proof fn lemma_link_at(s: Seq<char>)
    ensures
        match link_at(s) {
            Some((j, k)) => 1 <= j && j + 1 < k && k < s.len(),
            None => true,
        },
{
    if s.len() > 0 && s[0] == '[' {
        lemma_find_char(s.skip(1), ']');
        let j = 1 + find_char(s.skip(1), ']');
        if j + 1 < s.len() && s[j + 1] == '(' {
            lemma_find_char(s.skip(j + 2), ')');
        }
    }
}

/// Inline markup stripped: `` ` ``, `*` and `_` dropped, and links replaced
/// by their text (kept as written).
pub open spec fn strip_inline(s: Seq<char>) -> Seq<char>
    decreases s.len(),
{
    if s.len() == 0 {
        seq![]
    } else if is_inline_mark(s[0]) {
        strip_inline(s.skip(1))
    } else {
        match link_at(s) {
            Some((j, k)) => {
                proof {
                    lemma_link_at(s);
                }
                s.subrange(1, j) + strip_inline(s.skip(k + 1))
            },
            None => seq![s[0]] + strip_inline(s.skip(1)),
        }
    }
}

fn link_at_vec(s: &[char], i: usize) -> (r: Option<(usize, usize)>)
    requires
        i < s@.len(),
    ensures
        match r {
            Some((j, k)) => link_at(s@.skip(i as int)) == Some(((j - i) as int, (k - i) as int)) && i
                < j && j + 1 < k && k < s@.len(),
            None => link_at(s@.skip(i as int)) is None,
        },
{
    let ghost t = s@.skip(i as int);
    if s[i] != '[' {
        return None;
    }
    let j = find_char_from(s, i + 1, ']');
    assert(t.skip(1) == s@.skip(i + 1));
    if !(j < s.len() - 1 && s[j + 1] == '(') {
        return None;
    }
    let k = find_char_from(s, j + 2, ')');
    assert(t.skip(j - i + 2) == s@.skip(j + 2));
    if k < s.len() {
        Some((j, k))
    } else {
        None
    }
}

/// `strip_inline` on chars.
pub fn strip_inline_vec(s: &[char]) -> (r: Vec<char>)
    ensures
        r@ == strip_inline(s@),
{
    let mut out: Vec<char> = Vec::new();
    let mut i: usize = 0;
    assert(s@.skip(0) == s@);
    while i < s.len()
        invariant
            i <= s@.len(),
            out@ + strip_inline(s@.skip(i as int)) == strip_inline(s@),
        decreases s@.len() - i,
    {
        let ghost t = s@.skip(i as int);
        assert(t[0] == s@[i as int]);
        assert(t.skip(1) == s@.skip(i + 1));
        let c = s[i];
        if c == '`' || c == '*' || c == '_' {
            i = i + 1;
        } else {
            match link_at_vec(s, i) {
                Some((j, k)) => {
                    assert(t.subrange(1, (j - i) as int) == s@.subrange(i + 1, j as int));
                    assert(t.skip((k - i) + 1) == s@.skip(k + 1));
                    let text = copy_range(s, i + 1, j);
                    let ghost before = out@;
                    push_all(&mut out, &text);
                    assert(out@ == before + text@);
                    i = k + 1;
                },
                None => {
                    out.push(c);
                    i = i + 1;
                },
            }
        }
    }
    assert(s@.skip(s@.len() as int) == Seq::<char>::empty());
    out
}

// ---------------------------------------------------------------------------
// Headings

/// A line's ATX heading: its level and its text with inline markup stripped.
pub open spec fn heading_of(line: Seq<char>) -> Option<(int, Seq<char>)> {
    match parse_heading(trim_start(line)) {
        Some((level, text)) => Some((level, strip_inline(text))),
        None => None,
    }
}

/// Whether a code fence is open after these lines.
pub open spec fn fence_open_after(ls: Seq<Seq<char>>) -> bool
    decreases ls.len(),
{
    if ls.len() == 0 {
        false
    } else if is_fence(trim_start(ls.last())) {
        !fence_open_after(ls.drop_last())
    } else {
        fence_open_after(ls.drop_last())
    }
}

/// The ATX headings among the lines, outside code fences, in order.
pub open spec fn headings_in(ls: Seq<Seq<char>>) -> Seq<(int, Seq<char>)>
    decreases ls.len(),
{
    if ls.len() == 0 {
        seq![]
    } else {
        let prev = headings_in(ls.drop_last());
        if is_fence(trim_start(ls.last())) || fence_open_after(ls.drop_last()) {
            prev
        } else {
            match heading_of(ls.last()) {
                Some(h) => prev.push(h),
                None => prev,
            }
        }
    }
}

pub open spec fn headings_spec(md: Seq<char>) -> Seq<(int, Seq<char>)> {
    headings_in(lines(md))
}

pub open spec fn heading_views(v: Seq<(usize, Vec<char>)>) -> Seq<(int, Seq<char>)> {
    v.map_values(|h: (usize, Vec<char>)| (h.0 as int, h.1@))
}

/// ATX headings outside code fences, with inline markup stripped.
pub fn headings(markdown: &str) -> (r: Vec<(usize, Vec<char>)>)
    ensures
        heading_views(r@) == headings_spec(markdown@),
{
    let ls = lines_vec(to_chars(markdown).as_slice());
    let ghost lv = seqs(ls@);
    let mut out: Vec<(usize, Vec<char>)> = Vec::new();
    let mut in_fence = false;
    let mut i: usize = 0;
    assert(lv.take(0) == Seq::<Seq<char>>::empty());
    while i < ls.len()
        invariant
            i <= ls@.len(),
            lv == seqs(ls@),
            lv == lines(markdown@),
            heading_views(out@) == headings_in(lv.take(i as int)),
            in_fence == fence_open_after(lv.take(i as int)),
        decreases ls@.len() - i,
    {
        assert(lv.take(i + 1).drop_last() == lv.take(i as int));
        assert(lv.take(i + 1).last() == ls@[i as int]@);
        let t = trim_start_vec(ls[i].as_slice());
        if fence_line(t.as_slice()) {
            in_fence = !in_fence;
        } else if !in_fence {
            match parse_heading_line(t.as_slice()) {
                Some((level, text)) => {
                    let stripped = strip_inline_vec(text.as_slice());
                    let ghost before = heading_views(out@);
                    out.push((level, stripped));
                    assert(heading_views(out@) == before.push((level as int, stripped@)));
                },
                None => {},
            }
        }
        i = i + 1;
    }
    assert(lv.take(ls@.len() as int) == lv);
    out
}

/// The text of the first level-1 heading among `hs`.
pub open spec fn first_title(hs: Seq<(int, Seq<char>)>) -> Option<Seq<char>>
    decreases hs.len(),
{
    if hs.len() == 0 {
        None
    } else if hs[0].0 == 1 {
        Some(hs[0].1)
    } else {
        first_title(hs.drop_first())
    }
}

/// The page's first `# ` heading, if any.
pub fn title(markdown: &str) -> (r: Option<String>)
    ensures
        match r {
            Some(t) => first_title(headings_spec(markdown@)) == Some(t@),
            None => first_title(headings_spec(markdown@)) is None,
        },
{
    let hs = headings(markdown);
    let ghost hv = heading_views(hs@);
    let mut i: usize = 0;
    assert(hv.skip(0) == hv);
    while i < hs.len()
        invariant
            i <= hs@.len(),
            hv == heading_views(hs@),
            hv == headings_spec(markdown@),
            first_title(hv.skip(i as int)) == first_title(hv),
        decreases hs@.len() - i,
    {
        assert(hv.skip(i as int).len() > 0);
        assert(hv.skip(i as int)[0] == (hs@[i as int].0 as int, hs@[i as int].1@));
        if hs[i].0 == 1 {
            let t = from_chars(hs[i].1.as_slice());
            assert(first_title(hv.skip(i as int)) == Some(hs@[i as int].1@));
            return Some(t);
        }
        assert(hv.skip(i as int).drop_first() == hv.skip(i + 1));
        i = i + 1;
    }
    assert(hv.skip(hs@.len() as int) == Seq::<(int, Seq<char>)>::empty());
    None
}

// ---------------------------------------------------------------------------
// Search entries

/// What `comrak::Anchorizer::anchorize` gives for these heading texts, fed
/// to one anchorizer in order (GitHub-style ids, numbered when repeated).
pub uninterp spec fn anchors_of(texts: Seq<Seq<char>>) -> Seq<Seq<char>>;

/// Calls `comrak::Anchorizer::anchorize` on each text in turn, with one
/// anchorizer. Trusted: the anchors are a function of the texts, one per
/// text.
#[verifier::external_body]
fn anchorize_all(texts: &Vec<Vec<char>>) -> (r: Vec<String>)
    ensures
        strs(r@) == anchors_of(seqs(texts@)),
        r@.len() == texts@.len(),
{
    let mut anchors = comrak::Anchorizer::new();
    texts.iter().map(|t| anchors.anchorize(&t.iter().collect::<String>())).collect()
}

pub open spec fn entry_view(e: Entry) -> (Seq<char>, Seq<char>, Seq<char>) {
    (e.name@, e.path@, e.kind@)
}

pub open spec fn entry_views(v: Seq<Entry>) -> Seq<(Seq<char>, Seq<char>, Seq<char>)> {
    v.map_values(|e: Entry| entry_view(e))
}

/// The `##` and `###` headings as section entries: `<text> - <page title>`
/// at `<path>#<anchor>`.
pub open spec fn section_entries(
    hs: Seq<(int, Seq<char>)>,
    anchors: Seq<Seq<char>>,
    page_title: Seq<char>,
    path: Seq<char>,
) -> Seq<(Seq<char>, Seq<char>, Seq<char>)>
    decreases hs.len(),
{
    if hs.len() == 0 {
        seq![]
    } else {
        let prev = section_entries(hs.drop_last(), anchors, page_title, path);
        let h = hs.last();
        if 2 <= h.0 <= 3 {
            prev.push(
                (h.1 + " - "@ + page_title, path + "#"@ + anchors[hs.len() - 1], "Section"@),
            )
        } else {
            prev
        }
    }
}

/// Search entries for a page: the page itself (a `Guide`, named by its
/// title or `fallback`), then its `##`/`###` headings (`Section`s at their
/// anchors, every heading anchorized in order so repeated ones line up).
pub open spec fn entries_spec(path: Seq<char>, markdown: Seq<char>, fallback: Seq<char>) -> Seq<
    (Seq<char>, Seq<char>, Seq<char>),
> {
    let hs = headings_spec(markdown);
    let page_title = match first_title(hs) {
        Some(t) => t,
        None => fallback,
    };
    let anchors = anchors_of(hs.map_values(|h: (int, Seq<char>)| h.1));
    seq![(page_title, path, "Guide"@)] + section_entries(hs, anchors, page_title, path)
}

pub fn entries(path: &str, markdown: &str, fallback_title: &str) -> (r: Vec<Entry>)
    ensures
        entry_views(r@) == entries_spec(path@, markdown@, fallback_title@),
{
    let hs = headings(markdown);
    let ghost hv = heading_views(hs@);
    let page_title = match title(markdown) {
        Some(t) => t,
        None => from_chars(&to_chars(fallback_title)),
    };
    let mut texts: Vec<Vec<char>> = Vec::new();
    let mut i: usize = 0;
    while i < hs.len()
        invariant
            i <= hs@.len(),
            hv == heading_views(hs@),
            seqs(texts@) == hv.map_values(|h: (int, Seq<char>)| h.1).take(i as int),
        decreases hs@.len() - i,
    {
        let c = hs[i].1.clone();
        let ghost before = seqs(texts@);
        texts.push(c);
        assert(seqs(texts@) == before.push(c@));
        assert(hv.map_values(|h: (int, Seq<char>)| h.1).take(i + 1) == hv.map_values(
            |h: (int, Seq<char>)| h.1,
        ).take(i as int).push(hs@[i as int].1@));
        i = i + 1;
    }
    assert(hv.map_values(|h: (int, Seq<char>)| h.1).take(hs@.len() as int) == hv.map_values(
        |h: (int, Seq<char>)| h.1,
    ));
    let anchors = anchorize_all(&texts);
    let ghost av = strs(anchors@);
    let mut out: Vec<Entry> = Vec::new();
    out.push(
        Entry {
            name: from_chars(&to_chars(page_title.as_str())),
            path: from_chars(&to_chars(path)),
            kind: from_chars(&to_chars("Guide")),
        },
    );
    let ghost head = entry_views(out@);
    let mut k: usize = 0;
    assert(hv.take(0) == Seq::<(int, Seq<char>)>::empty());
    while k < hs.len()
        invariant
            k <= hs@.len(),
            anchors@.len() == hs@.len(),
            hv == heading_views(hs@),
            av == strs(anchors@),
            entry_views(out@) == head + section_entries(hv.take(k as int), av, page_title@, path@),
        decreases hs@.len() - k,
    {
        assert(hv.take(k + 1).drop_last() == hv.take(k as int));
        assert(hv.take(k + 1).last() == (hs@[k as int].0 as int, hs@[k as int].1@));
        assert(av[k as int] == anchors@[k as int]@);
        let level = hs[k].0;
        if 2 <= level && level <= 3 {
            let mut name = hs[k].1.clone();
            push_str(&mut name, " - ");
            push_str(&mut name, page_title.as_str());
            let mut p = to_chars(path);
            push_str(&mut p, "#");
            push_str(&mut p, anchors[k].as_str());
            let e = Entry { name: from_chars(&name), path: from_chars(&p), kind: from_chars(&to_chars("Section")) };
            let ghost before = entry_views(out@);
            out.push(e);
            assert(entry_views(out@) == before.push(entry_view(e)));
        }
        k = k + 1;
    }
    assert(hv.take(hs@.len() as int) == hv);
    out
}

// ---------------------------------------------------------------------------
// MDX

/// Index of the first `*/}` in `s` at or after `from`, or -1.
pub open spec fn comment_close(s: Seq<char>, from: int) -> int
    decreases s.len() - from,
{
    if from < 0 || from + 3 > s.len() {
        -1
    } else if s[from] == '*' && s[from + 1] == '/' && s[from + 2] == '}' {
        from
    } else {
        comment_close(s, from + 1)
    }
}

proof fn lemma_comment_close(s: Seq<char>, from: int)
    requires
        0 <= from,
    ensures
        comment_close(s, from) == -1 || (from <= comment_close(s, from) && comment_close(s, from) + 3 <= s.len()),
    decreases s.len() - from,
{
    if from + 3 <= s.len() && !(s[from] == '*' && s[from + 1] == '/' && s[from + 2] == '}') {
        lemma_comment_close(s, from + 1);
    }
}

/// An MDX comment `{/* … */}` at the start of `s`: the index just past it.
pub open spec fn comment_at(s: Seq<char>) -> Option<int> {
    if s.len() >= 3 && s[0] == '{' && s[1] == '/' && s[2] == '*' && comment_close(s, 3) >= 0 {
        Some(comment_close(s, 3) + 3)
    } else {
        None
    }
}

pub open spec fn is_name_char(c: char) -> bool {
    ('A' <= c && c <= 'Z') || ('a' <= c && c <= 'z') || ('0' <= c && c <= '9') || c == '_' || c
        == '.'
}

/// The first index at or after `from` that is not a name character.
pub open spec fn name_end(s: Seq<char>, from: int) -> int
    decreases s.len() - from,
{
    if from < 0 || from >= s.len() {
        from
    } else if is_name_char(s[from]) {
        name_end(s, from + 1)
    } else {
        from
    }
}

/// The first index at or after `from` holding `<` or `>`, or `s.len()`.
pub open spec fn angle_at(s: Seq<char>, from: int) -> int
    decreases s.len() - from,
{
    if from < 0 || from >= s.len() {
        from
    } else if s[from] == '<' || s[from] == '>' {
        from
    } else {
        angle_at(s, from + 1)
    }
}

proof fn lemma_name_end(s: Seq<char>, from: int)
    requires
        0 <= from <= s.len(),
    ensures
        from <= name_end(s, from) <= s.len(),
    decreases s.len() - from,
{
    if from < s.len() && is_name_char(s[from]) {
        lemma_name_end(s, from + 1);
    }
}

proof fn lemma_angle_at(s: Seq<char>, from: int)
    requires
        0 <= from <= s.len(),
    ensures
        from <= angle_at(s, from) <= s.len(),
    decreases s.len() - from,
{
    if from < s.len() && !(s[from] == '<' || s[from] == '>') {
        lemma_angle_at(s, from + 1);
    }
}

/// A component tag (`<Tabs>`, `</Tab>`, `<Callout type="x">`, `<Foo />`) at
/// the start of `s`: `<`, an optional `/`, a capital letter and name
/// characters, then either whitespace and anything up to the next `>` (with
/// no `<` before it), or an optional `/` and `>`. The index just past it.
pub open spec fn component_at(s: Seq<char>) -> Option<int> {
    if s.len() == 0 || s[0] != '<' {
        None
    } else {
        let i = if s.len() > 1 && s[1] == '/' {
            2int
        } else {
            1int
        };
        if i < s.len() && 'A' <= s[i] && s[i] <= 'Z' {
            let e = name_end(s, i + 1);
            if e < s.len() && crate::text::is_ws(s[e]) {
                let a = angle_at(s, e + 1);
                if a < s.len() && s[a] == '>' {
                    Some(a + 1)
                } else {
                    None
                }
            } else if e < s.len() && s[e] == '>' {
                Some(e + 1)
            } else if e + 1 < s.len() && s[e] == '/' && s[e + 1] == '>' {
                Some(e + 2)
            } else {
                None
            }
        } else {
            None
        }
    }
}

pub proof fn lemma_comment_at(s: Seq<char>)
    ensures
        match comment_at(s) {
            Some(e) => 3 < e <= s.len(),
            None => true,
        },
{
    lemma_comment_close(s, 3);
}

pub proof fn lemma_component_at(s: Seq<char>)
    ensures
        match component_at(s) {
            Some(e) => 1 < e <= s.len(),
            None => true,
        },
{
    if s.len() > 0 && s[0] == '<' {
        let i = if s.len() > 1 && s[1] == '/' {
            2int
        } else {
            1int
        };
        if i < s.len() {
            lemma_name_end(s, i + 1);
            let e = name_end(s, i + 1);
            if e < s.len() {
                lemma_angle_at(s, e + 1);
            }
        }
    }
}

/// `s` without MDX comments.
pub open spec fn strip_comments(s: Seq<char>) -> Seq<char>
    decreases s.len(),
{
    if s.len() == 0 {
        seq![]
    } else {
        match comment_at(s) {
            Some(e) => {
                proof {
                    lemma_comment_at(s);
                }
                strip_comments(s.skip(e))
            },
            None => seq![s[0]] + strip_comments(s.skip(1)),
        }
    }
}

/// `s` without component tags (their children stay).
pub open spec fn strip_tags(s: Seq<char>) -> Seq<char>
    decreases s.len(),
{
    if s.len() == 0 {
        seq![]
    } else {
        match component_at(s) {
            Some(e) => {
                proof {
                    lemma_component_at(s);
                }
                strip_tags(s.skip(e))
            },
            None => seq![s[0]] + strip_tags(s.skip(1)),
        }
    }
}

/// The lines kept by `clean_mdx`, each followed by `\n`: fence lines and
/// lines inside fences as they are; outside fences, no top-level
/// `import`/`export` lines, comments and component tags removed, and lines
/// left blank by that dropped.
pub open spec fn clean_mdx_lines(ls: Seq<Seq<char>>) -> Seq<char>
    decreases ls.len(),
{
    if ls.len() == 0 {
        seq![]
    } else {
        let prev = clean_mdx_lines(ls.drop_last());
        let line = ls.last();
        let t = trim_start(line);
        if is_fence(t) || fence_open_after(ls.drop_last()) {
            prev + line + "\n"@
        } else if starts_with(t, "import "@) || starts_with(t, "export "@) {
            prev
        } else {
            let cleaned = strip_tags(strip_comments(line));
            if trim(cleaned).len() == 0 && trim(line).len() > 0 {
                prev
            } else {
                prev + cleaned + "\n"@
            }
        }
    }
}

/// A line that starts with `import ` or `export ` after leading whitespace.
pub open spec fn is_module_line(line: Seq<char>) -> bool {
    starts_with(trim_start(line), "import "@) || starts_with(trim_start(line), "export "@)
}

proof fn lemma_module_line_not_fence(line: Seq<char>)
    requires
        is_module_line(line),
    ensures
        !is_fence(trim_start(line)),
{
    let t = trim_start(line);
    reveal_strlit("import ");
    reveal_strlit("export ");
    reveal_strlit("```");
    reveal_strlit("~~~");
    assert(t.take(7)[0] == t[0]);
    if is_fence(t) {
        assert(t.take(3)[0] == t[0]);
    }
}

proof fn lemma_fence_skips_line(a: Seq<Seq<char>>, line: Seq<char>, b: Seq<Seq<char>>)
    requires
        !is_fence(trim_start(line)),
    ensures
        fence_open_after(a.push(line) + b) == fence_open_after(a + b),
    decreases b.len(),
{
    if b.len() == 0 {
        assert(a.push(line) + b == a.push(line));
        assert(a.push(line).drop_last() == a);
        assert(a + b == a);
    } else {
        lemma_fence_skips_line(a, line, b.drop_last());
        assert((a.push(line) + b).drop_last() == a.push(line) + b.drop_last());
        assert((a + b).drop_last() == a + b.drop_last());
        assert((a.push(line) + b).last() == b.last());
        assert((a + b).last() == b.last());
    }
}

/// Outside code fences, a top-level `import` or `export` line adds nothing
/// to what `clean_mdx` gives: the text cleans to the same output with the
/// line taken out.
pub proof fn lemma_module_lines_add_nothing(a: Seq<Seq<char>>, line: Seq<char>, b: Seq<Seq<char>>)
    requires
        !fence_open_after(a),
        is_module_line(line),
    ensures
        clean_mdx_lines(a.push(line) + b) == clean_mdx_lines(a + b),
    decreases b.len(),
{
    lemma_module_line_not_fence(line);
    if b.len() == 0 {
        assert(a.push(line) + b == a.push(line));
        assert(a.push(line).drop_last() == a);
        assert(a + b == a);
    } else {
        lemma_module_lines_add_nothing(a, line, b.drop_last());
        lemma_fence_skips_line(a, line, b.drop_last());
        assert((a.push(line) + b).drop_last() == a.push(line) + b.drop_last());
        assert((a + b).drop_last() == a + b.drop_last());
        assert((a.push(line) + b).last() == b.last());
        assert((a + b).last() == b.last());
    }
}

/// Fence lines, and lines inside code fences, come out of `clean_mdx` as
/// they are, `import`/`export` lines among them.
pub proof fn lemma_fenced_lines_kept(a: Seq<Seq<char>>, line: Seq<char>)
    requires
        fence_open_after(a) || is_fence(trim_start(line)),
    ensures
        clean_mdx_lines(a.push(line)) == clean_mdx_lines(a) + line + "\n"@,
{
    assert(a.push(line).drop_last() == a);
}

fn comment_at_vec(s: &[char], i: usize) -> (r: Option<usize>)
    requires
        i < s@.len(),
    ensures
        match r {
            Some(e) => comment_at(s@.skip(i as int)) == Some((e - i) as int) && i < e <= s@.len(),
            None => comment_at(s@.skip(i as int)) is None,
        },
{
    let ghost t = s@.skip(i as int);
    proof {
        lemma_comment_at(t);
    }
    if !(s.len() - i >= 3 && s[i] == '{' && s[i + 1] == '/' && s[i + 2] == '*') {
        return None;
    }
    let mut k: usize = i + 3;
    while s.len() - k >= 3 && !(s[k] == '*' && s[k + 1] == '/' && s[k + 2] == '}')
        invariant
            i < s@.len(),
            i + 3 <= k <= s@.len(),
            t == s@.skip(i as int),
            comment_close(t, (k - i) as int) == comment_close(t, 3),
        decreases s@.len() - k,
    {
        assert(t[(k - i) as int] == s@[k as int]);
        assert(t[(k - i) + 1] == s@[k + 1]);
        assert(t[(k - i) + 2] == s@[k + 2]);
        k = k + 1;
    }
    if s.len() - k >= 3 {
        assert(t[(k - i) as int] == s@[k as int]);
        assert(t[(k - i) + 1] == s@[k + 1]);
        assert(t[(k - i) + 2] == s@[k + 2]);
        Some(k + 3)
    } else {
        None
    }
}

fn component_at_vec(s: &[char], i: usize) -> (r: Option<usize>)
    requires
        i < s@.len(),
    ensures
        match r {
            Some(e) => component_at(s@.skip(i as int)) == Some((e - i) as int) && i < e <= s@.len(),
            None => component_at(s@.skip(i as int)) is None,
        },
{
    let ghost t = s@.skip(i as int);
    proof {
        lemma_component_at(t);
    }
    if s[i] != '<' {
        return None;
    }
    let mut j: usize = i + 1;
    if j < s.len() && s[j] == '/' {
        j = j + 1;
    }
    if !(j < s.len() && 'A' <= s[j] && s[j] <= 'Z') {
        return None;
    }
    let mut e: usize = j + 1;
    while e < s.len() && (('A' <= s[e] && s[e] <= 'Z') || ('a' <= s[e] && s[e] <= 'z') || ('0'
        <= s[e] && s[e] <= '9') || s[e] == '_' || s[e] == '.')
        invariant
            i < j,
            i < s@.len(),
            j + 1 <= e <= s@.len(),
            t == s@.skip(i as int),
            name_end(t, (e - i) as int) == name_end(t, (j - i) + 1),
        decreases s@.len() - e,
    {
        assert(t[(e - i) as int] == s@[e as int]);
        e = e + 1;
    }
    if e < s.len() {
        assert(t[(e - i) as int] == s@[e as int]);
    }
    if e < s.len() && crate::text::is_ws_char(s[e]) {
        let mut a: usize = e + 1;
        while a < s.len() && s[a] != '<' && s[a] != '>'
            invariant
                i < e,
                i < s@.len(),
                e + 1 <= a <= s@.len(),
                t == s@.skip(i as int),
                angle_at(t, (a - i) as int) == angle_at(t, (e - i) + 1),
            decreases s@.len() - a,
        {
            assert(t[(a - i) as int] == s@[a as int]);
            a = a + 1;
        }
        if a < s.len() {
            assert(t[(a - i) as int] == s@[a as int]);
        }
        if a < s.len() && s[a] == '>' {
            Some(a + 1)
        } else {
            None
        }
    } else if e < s.len() && s[e] == '>' {
        Some(e + 1)
    } else if e < s.len() && e < s.len() - 1 && s[e] == '/' && s[e + 1] == '>' {
        assert(t[(e - i) + 1] == s@[e + 1]);
        Some(e + 2)
    } else {
        if e < s.len() && e < s.len() - 1 {
            assert(t[(e - i) + 1] == s@[e + 1]);
        }
        None
    }
}

fn strip_comments_vec(s: &[char]) -> (r: Vec<char>)
    ensures
        r@ == strip_comments(s@),
{
    let mut out: Vec<char> = Vec::new();
    let mut i: usize = 0;
    assert(s@.skip(0) == s@);
    while i < s.len()
        invariant
            i <= s@.len(),
            out@ + strip_comments(s@.skip(i as int)) == strip_comments(s@),
        decreases s@.len() - i,
    {
        let ghost t = s@.skip(i as int);
        assert(t[0] == s@[i as int]);
        assert(t.skip(1) == s@.skip(i + 1));
        match comment_at_vec(s, i) {
            Some(e) => {
                assert(t.skip((e - i) as int) == s@.skip(e as int));
                i = e;
            },
            None => {
                out.push(s[i]);
                i = i + 1;
            },
        }
    }
    assert(s@.skip(s@.len() as int) == Seq::<char>::empty());
    out
}

fn strip_tags_vec(s: &[char]) -> (r: Vec<char>)
    ensures
        r@ == strip_tags(s@),
{
    let mut out: Vec<char> = Vec::new();
    let mut i: usize = 0;
    assert(s@.skip(0) == s@);
    while i < s.len()
        invariant
            i <= s@.len(),
            out@ + strip_tags(s@.skip(i as int)) == strip_tags(s@),
        decreases s@.len() - i,
    {
        let ghost t = s@.skip(i as int);
        assert(t[0] == s@[i as int]);
        assert(t.skip(1) == s@.skip(i + 1));
        match component_at_vec(s, i) {
            Some(e) => {
                assert(t.skip((e - i) as int) == s@.skip(e as int));
                i = e;
            },
            None => {
                out.push(s[i]);
                i = i + 1;
            },
        }
    }
    assert(s@.skip(s@.len() as int) == Seq::<char>::empty());
    out
}

/// Makes MDX readable as plain markdown: drops top-level `import`/`export`
/// lines and `{/* comments */}`, and strips component tags (`<Tabs>`,
/// `<Callout type="x">`, `<Foo />`) while keeping their children. Code fences
/// are left alone.
pub fn clean_mdx(text: &str) -> (r: String)
    ensures
        r@ == clean_mdx_lines(lines(text@)),
{
    let ls = lines_vec(to_chars(text).as_slice());
    let ghost lv = seqs(ls@);
    let mut out: Vec<char> = Vec::new();
    let mut in_fence = false;
    let mut i: usize = 0;
    assert(lv.take(0) == Seq::<Seq<char>>::empty());
    proof {
        reveal_strlit("\n");
    }
    while i < ls.len()
        invariant
            i <= ls@.len(),
            lv == seqs(ls@),
            lv == lines(text@),
            out@ == clean_mdx_lines(lv.take(i as int)),
            in_fence == fence_open_after(lv.take(i as int)),
        decreases ls@.len() - i,
    {
        assert(lv.take(i + 1).drop_last() == lv.take(i as int));
        assert(lv.take(i + 1).last() == ls@[i as int]@);
        let line = &ls[i];
        let ghost l = line@;
        let ghost prev = out@;
        proof {
            reveal_strlit("\n");
            reveal_strlit("import ");
            reveal_strlit("export ");
        }
        let t = trim_start_vec(line.as_slice());
        let fence = fence_line(t.as_slice());
        if fence || in_fence {
            if fence {
                in_fence = !in_fence;
            }
            push_all(&mut out, line.as_slice());
            out.push('\n');
            assert(out@ == prev + l + "\n"@);
        } else if starts_with_str(t.as_slice(), "import ") || starts_with_str(t.as_slice(), "export ") {
        } else {
            let cleaned = strip_tags_vec(strip_comments_vec(line.as_slice()).as_slice());
            if trim_vec(cleaned.as_slice()).len() == 0 && trim_vec(line.as_slice()).len() > 0 {
            } else {
                push_all(&mut out, cleaned.as_slice());
                out.push('\n');
                assert(out@ == prev + cleaned@ + "\n"@);
            }
        }
        assert(out@ == clean_mdx_lines(lv.take(i + 1)));
        i = i + 1;
    }
    assert(lv.take(ls@.len() as int) == lv);
    from_chars(&out)
}

} // verus!
