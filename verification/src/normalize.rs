//! HTML -> markdown, and markdown -> heading-scoped chunks.

use vstd::prelude::*;
use crate::text::{
    copy_range, from_chars, is_ws, join, lemma_join_push, lemma_trim_end_prefix,
    lemma_trim_start_suffix, lines, lines_vec, push_all, push_str, seqs, starts_with,
    starts_with_str, to_chars, trim, trim_end, trim_end_char, trim_end_char_vec, trim_end_vec,
    trim_start, trim_start_char, trim_start_vec, trim_vec, find_char, lemma_find_char,
    find_char_from,
};

verus! {

/// One heading-scoped slice of a page.
#[derive(Debug, Clone, PartialEq)]
pub struct Chunk {
    /// Heading trail, e.g. "useEffect > Usage > Connecting to a server".
    pub heading: String,
    pub body: String,
}

impl View for Chunk {
    type V = (Seq<char>, Seq<char>);

    open spec fn view(&self) -> (Seq<char>, Seq<char>) {
        (self.heading@, self.body@)
    }
}

pub open spec fn chunk_views(v: Seq<Chunk>) -> Seq<(Seq<char>, Seq<char>)> {
    v.map_values(|c: Chunk| c@)
}

/// A line (already left-trimmed) that opens or closes a code fence.
pub open spec fn is_fence(t: Seq<char>) -> bool {
    starts_with(t, "```"@) || starts_with(t, "~~~"@)
}

/// Number of leading `#`s.
pub open spec fn hash_run(t: Seq<char>) -> int {
    t.len() - trim_start_char(t, '#').len()
}

/// An ATX heading: 1 to 6 `#`s, a space, then the text without surrounding
/// whitespace or closing `#`s.
pub open spec fn parse_heading(t: Seq<char>) -> Option<(int, Seq<char>)> {
    let level = hash_run(t);
    let rest = t.skip(level);
    if 1 <= level <= 6 && rest.len() > 0 && rest[0] == ' ' {
        Some((level, trim_end(trim_end_char(trim(rest), '#'))))
    } else {
        None
    }
}

/// Open headings whose level is below `level` (the ones a new heading at
/// `level` stays under).
pub open spec fn trail_below(trail: Seq<(int, Seq<char>)>, level: int) -> Seq<(int, Seq<char>)>
    decreases trail.len(),
{
    if trail.len() == 0 {
        seq![]
    } else {
        let rest = trail_below(trail.drop_last(), level);
        if trail.last().0 < level {
            rest.push(trail.last())
        } else {
            rest
        }
    }
}

pub open spec fn trail_texts(trail: Seq<(int, Seq<char>)>) -> Seq<Seq<char>> {
    trail.map_values(|e: (int, Seq<char>)| e.1)
}

/// The heading trail as text: `A > B > C`.
pub open spec fn trail_heading(trail: Seq<(int, Seq<char>)>) -> Seq<char> {
    join(trail_texts(trail), " > "@)
}

/// Ends the current section: its trimmed body becomes a chunk unless empty.
pub open spec fn flush_spec(
    chunks: Seq<(Seq<char>, Seq<char>)>,
    trail: Seq<(int, Seq<char>)>,
    body: Seq<char>,
) -> Seq<(Seq<char>, Seq<char>)> {
    let text = trim(body);
    if text.len() > 0 {
        chunks.push((trail_heading(trail), text))
    } else {
        chunks
    }
}

/// Chunker state after some lines: chunks so far, open headings, the
/// current section's text, and whether a code fence is open.
pub type ChunkState = (Seq<(Seq<char>, Seq<char>)>, Seq<(int, Seq<char>)>, Seq<char>, bool);

pub open spec fn chunk_step(st: ChunkState, line: Seq<char>) -> ChunkState {
    let (chunks, trail, body, in_fence) = st;
    let t = trim_start(line);
    if is_fence(t) {
        (chunks, trail, body + line + seq!['\n'], !in_fence)
    } else if !in_fence && parse_heading(t) is Some {
        let (level, text) = parse_heading(t)->Some_0;
        (flush_spec(chunks, trail, body), trail_below(trail, level).push((level, text)), seq![], in_fence)
    } else {
        (chunks, trail, body + line + seq!['\n'], in_fence)
    }
}

pub open spec fn chunk_fold(ls: Seq<Seq<char>>) -> ChunkState
    decreases ls.len(),
{
    if ls.len() == 0 {
        (seq![], seq![], seq![], false)
    } else {
        chunk_step(chunk_fold(ls.drop_last()), ls.last())
    }
}

/// The chunks of a markdown text.
pub open spec fn chunks_of(md: Seq<char>) -> Seq<(Seq<char>, Seq<char>)> {
    let st = chunk_fold(lines(md));
    flush_spec(st.0, st.1, st.2)
}

/// Every chunk has a non-empty body with no whitespace at either end.
pub open spec fn all_trimmed(chunks: Seq<(Seq<char>, Seq<char>)>) -> bool {
    forall|i: int|
        0 <= i < chunks.len() ==> {
            let b = #[trigger] chunks[i].1;
            &&& b.len() > 0
            &&& !is_ws(b[0])
            &&& !is_ws(b.last())
        }
}

proof fn lemma_trim_ends(s: Seq<char>)
    ensures
        trim(s).len() > 0 ==> !is_ws(trim(s)[0]) && !is_ws(trim(s).last()),
{
    lemma_trim_start_suffix(s);
    lemma_trim_end_prefix(trim_start(s));
    if trim(s).len() > 0 {
        assert(trim(s)[0] == trim_start(s)[0]);
    }
}

proof fn lemma_flush_trimmed(
    chunks: Seq<(Seq<char>, Seq<char>)>,
    trail: Seq<(int, Seq<char>)>,
    body: Seq<char>,
)
    requires
        all_trimmed(chunks),
    ensures
        all_trimmed(flush_spec(chunks, trail, body)),
{
    lemma_trim_ends(body);
    let r = flush_spec(chunks, trail, body);
    assert forall|i: int| 0 <= i < r.len() implies {
        let b = #[trigger] r[i].1;
        &&& b.len() > 0
        &&& !is_ws(b[0])
        &&& !is_ws(b.last())
    } by {
        if i < chunks.len() {
            assert(r[i] == chunks[i]);
        }
    }
}

proof fn lemma_fold_trimmed(ls: Seq<Seq<char>>)
    ensures
        all_trimmed(chunk_fold(ls).0),
    decreases ls.len(),
{
    if ls.len() > 0 {
        lemma_fold_trimmed(ls.drop_last());
        let st = chunk_fold(ls.drop_last());
        lemma_flush_trimmed(st.0, st.1, st.2);
    }
}

/// Every chunk `chunk_markdown` returns has a non-empty body without
/// surrounding whitespace: empty sections never become chunks.
pub proof fn lemma_chunks_are_trimmed(md: Seq<char>)
    ensures
        all_trimmed(chunks_of(md)),
{
    let st = chunk_fold(lines(md));
    lemma_fold_trimmed(lines(md));
    lemma_flush_trimmed(st.0, st.1, st.2);
}

/// A heading keeps open exactly the headings above it in rank: every open
/// heading of a lower level stays, in order, and every one of the same or a
/// higher level closes.
pub proof fn lemma_trail_below_keeps_lower(trail: Seq<(int, Seq<char>)>, level: int)
    ensures
        trail_below(trail, level) == trail.filter(|e: (int, Seq<char>)| e.0 < level),
    decreases trail.len(),
{
    reveal(Seq::filter);
    if trail.len() > 0 {
        lemma_trail_below_keeps_lower(trail.drop_last(), level);
    }
}

/// After a heading line at level `l` outside code fences, the open headings
/// are those open before with a level below `l`, in order, then the new
/// heading; a chunk's heading joins the open headings with ` > `. So a `###`
/// under a `##` under a `#` has a three-part trail. The section the heading
/// ends becomes a chunk under the headings open before it, unless its text
/// is blank, and a new empty section starts.
pub proof fn lemma_heading_line_trail(st: ChunkState, line: Seq<char>)
    requires
        !st.3,
        parse_heading(trim_start(line)) is Some,
    ensures
        ({
            let (level, text) = parse_heading(trim_start(line))->Some_0;
            &&& chunk_step(st, line).1 == st.1.filter(|e: (int, Seq<char>)| e.0 < level).push(
                (level, text),
            )
            &&& (forall|i: int| 0 <= i < st.1.len() ==> #[trigger] st.1[i].0 < level)
                ==> chunk_step(st, line).1 == st.1.push((level, text))
            &&& chunk_step(st, line).0 == if trim(st.2).len() > 0 {
                st.0.push((trail_heading(st.1), trim(st.2)))
            } else {
                st.0
            }
            &&& chunk_step(st, line).2.len() == 0
            &&& !chunk_step(st, line).3
        }),
{
    let t = trim_start(line);
    let (level, text) = parse_heading(t)->Some_0;
    assert(!is_fence(t)) by {
        reveal_strlit("```");
        reveal_strlit("~~~");
        if is_fence(t) {
            assert(t.take(3)[0] == t[0]);
            assert("```"@[0] == '`');
            assert("~~~"@[0] == '~');
            assert(t[0] == '`' || t[0] == '~');
            assert(hash_run(t) >= 1);
            crate::text::lemma_trim_start_char_suffix(t, '#');
            assert(t[0] == '#');
        }
    }
    lemma_trail_below_keeps_lower(st.1, level);
    if forall|i: int| 0 <= i < st.1.len() ==> #[trigger] st.1[i].0 < level {
        lemma_filter_all(st.1, level);
    }
}

/// A chunk's heading names its open headings in order, joined by ` > `:
/// opening one more heading appends ` > ` and its text (or gives just its
/// text when none was open).
pub proof fn lemma_trail_heading_push(trail: Seq<(int, Seq<char>)>, e: (int, Seq<char>))
    ensures
        trail_heading(trail.push(e)) == if trail.len() == 0 {
            e.1
        } else {
            trail_heading(trail) + " > "@ + e.1
        },
{
    assert(trail_texts(trail.push(e)) =~= trail_texts(trail).push(e.1));
    lemma_join_push(trail_texts(trail), " > "@, e.1);
}

/// Inside a code fence a line that does not close it is section text, even
/// when it looks like a heading: the open headings stay as they are.
pub proof fn lemma_fenced_line_is_text(st: ChunkState, line: Seq<char>)
    requires
        st.3,
        !is_fence(trim_start(line)),
    ensures
        chunk_step(st, line) == (st.0, st.1, st.2 + line + seq!['\n'], true),
{
}

proof fn lemma_filter_all(trail: Seq<(int, Seq<char>)>, level: int)
    requires
        forall|i: int| 0 <= i < trail.len() ==> #[trigger] trail[i].0 < level,
    ensures
        trail.filter(|e: (int, Seq<char>)| e.0 < level) == trail,
    decreases trail.len(),
{
    reveal(Seq::filter);
    if trail.len() > 0 {
        assert forall|i: int| 0 <= i < trail.drop_last().len() implies #[trigger] trail.drop_last()[i].0
            < level by {
            assert(trail.drop_last()[i] == trail[i]);
        }
        lemma_filter_all(trail.drop_last(), level);
        assert(trail.last().0 < level);
        assert(trail.drop_last().push(trail.last()) == trail);
    }
}

pub open spec fn trail_view(t: Seq<(usize, Vec<char>)>) -> Seq<(int, Seq<char>)> {
    t.map_values(|e: (usize, Vec<char>)| (e.0 as int, e.1@))
}

pub(crate) fn fence_line(t: &[char]) -> (r: bool)
    ensures
        r == is_fence(t@),
{
    starts_with_str(t, "```") || starts_with_str(t, "~~~")
}

/// `Some((level, text))` for an ATX heading line (already left-trimmed).
pub(crate) fn parse_heading_line(t: &[char]) -> (r: Option<(usize, Vec<char>)>)
    ensures
        match r {
            Some((l, text)) => parse_heading(t@) == Some((l as int, text@)),
            None => parse_heading(t@) is None,
        },
{
    let mut level: usize = 0;
    assert(t@.skip(0) == t@);
    while level < t.len() && t[level] == '#'
        invariant
            level <= t@.len(),
            trim_start_char(t@.skip(level as int), '#') == trim_start_char(t@, '#'),
        decreases t@.len() - level,
    {
        assert(t@.skip(level as int).drop_first() == t@.skip(level + 1));
        level = level + 1;
    }
    proof {
        let r = t@.skip(level as int);
        assert(trim_start_char(r, '#') == r);
    }
    if level < 1 || level > 6 || level >= t.len() || t[level] != ' ' {
        return None;
    }
    let rest = copy_range(t, level, t.len());
    let a = trim_vec(&rest);
    let b = trim_end_char_vec(&a, '#');
    let c = trim_end_vec(&b);
    Some((level, c))
}

fn trail_below_vec(trail: &Vec<(usize, Vec<char>)>, level: usize) -> (r: Vec<(usize, Vec<char>)>)
    ensures
        trail_view(r@) == trail_below(trail_view(trail@), level as int),
{
    let mut r: Vec<(usize, Vec<char>)> = Vec::new();
    let mut i: usize = 0;
    while i < trail.len()
        invariant
            i <= trail@.len(),
            trail_view(r@) == trail_below(trail_view(trail@.take(i as int)), level as int),
        decreases trail@.len() - i,
    {
        let ghost before = trail_view(r@);
        assert(trail_view(trail@.take(i + 1)).drop_last() == trail_view(trail@.take(i as int)));
        assert(trail_view(trail@.take(i + 1)).last() == trail_view(trail@)[i as int]);
        if trail[i].0 < level {
            let e = (trail[i].0, trail[i].1.clone());
            r.push(e);
            assert(trail_view(r@) == before.push(trail_view(trail@)[i as int]));
        }
        i = i + 1;
    }
    assert(trail@.take(trail@.len() as int) == trail@);
    r
}

fn trail_heading_vec(trail: &Vec<(usize, Vec<char>)>) -> (r: Vec<char>)
    ensures
        r@ == trail_heading(trail_view(trail@)),
{
    let mut r: Vec<char> = Vec::new();
    let mut i: usize = 0;
    while i < trail.len()
        invariant
            i <= trail@.len(),
            r@ == join(trail_texts(trail_view(trail@.take(i as int))), " > "@),
        decreases trail@.len() - i,
    {
        let ghost before = trail_texts(trail_view(trail@.take(i as int)));
        assert(trail_texts(trail_view(trail@.take(i + 1))) == before.push(trail@[i as int].1@));
        proof {
            lemma_join_push(before, " > "@, trail@[i as int].1@);
        }
        if i > 0 {
            push_str(&mut r, " > ");
        }
        push_all(&mut r, &trail[i].1);
        i = i + 1;
    }
    assert(trail@.take(trail@.len() as int) == trail@);
    r
}

/// Ends the current section (see `flush_spec`) and clears `body`.
fn flush(chunks: &mut Vec<Chunk>, trail: &Vec<(usize, Vec<char>)>, body: &mut Vec<char>)
    ensures
        chunk_views(final(chunks)@) == flush_spec(
            chunk_views(old(chunks)@),
            trail_view(trail@),
            old(body)@,
        ),
        final(body)@ == Seq::<char>::empty(),
{
    let text = trim_vec(body);
    if text.len() > 0 {
        let heading = trail_heading_vec(trail);
        let ghost before = chunk_views(chunks@);
        let c = Chunk { heading: from_chars(&heading), body: from_chars(&text) };
        chunks.push(c);
        assert(chunk_views(chunks@) == before.push((heading@, text@)));
    }
    body.clear();
}

/// Splits markdown at ATX headings (ignoring ones inside code fences).
/// Sections with no body text are dropped; their heading stays in the trail.
pub fn chunk_markdown(md: &str) -> (r: Vec<Chunk>)
    ensures
        chunk_views(r@) == chunks_of(md@),
        all_trimmed(chunk_views(r@)),
{
    let chars = to_chars(md);
    let ls = lines_vec(&chars);
    let mut chunks: Vec<Chunk> = Vec::new();
    let mut trail: Vec<(usize, Vec<char>)> = Vec::new();
    let mut body: Vec<char> = Vec::new();
    let mut in_fence = false;
    let mut i: usize = 0;
    while i < ls.len()
        invariant
            i <= ls@.len(),
            seqs(ls@) == lines(md@),
            chunk_fold(seqs(ls@).take(i as int)) == (
                chunk_views(chunks@),
                trail_view(trail@),
                body@,
                in_fence,
            ),
        decreases ls@.len() - i,
    {
        let line = &ls[i];
        assert(seqs(ls@).take(i + 1).drop_last() == seqs(ls@).take(i as int));
        assert(seqs(ls@).take(i + 1).last() == line@);
        let t = trim_start_vec(line);
        if fence_line(&t) {
            in_fence = !in_fence;
            push_all(&mut body, line);
            body.push('\n');
        } else {
            let h = if in_fence { None } else { parse_heading_line(&t) };
            match h {
                Some((level, text)) => {
                    flush(&mut chunks, &trail, &mut body);
                    let mut below = trail_below_vec(&trail, level);
                    let ghost b = trail_view(below@);
                    below.push((level, text));
                    assert(trail_view(below@) == b.push((level as int, text@)));
                    trail = below;
                },
                None => {
                    push_all(&mut body, line);
                    body.push('\n');
                },
            }
        }
        i = i + 1;
    }
    assert(seqs(ls@).take(ls@.len() as int) == seqs(ls@));
    flush(&mut chunks, &trail, &mut body);
    proof {
        lemma_chunks_are_trimmed(md@);
    }
    chunks
}


/// `[](…)`: an empty link, as heading permalinks come through conversion.
pub open spec fn empty_link_at(s: Seq<char>) -> bool {
    &&& s.len() >= 3
    &&& s[0] == '[' && s[1] == ']' && s[2] == '('
    &&& find_char(s.skip(3), ')') < s.len() - 3
}

/// `s` with every empty link `[](…)` removed, scanning left to right.
pub open spec fn strip_empty_links(s: Seq<char>) -> Seq<char>
    decreases s.len(),
{
    if s.len() == 0 {
        seq![]
    } else if empty_link_at(s) {
        proof {
            lemma_find_char(s.skip(3), ')');
        }
        strip_empty_links(s.skip(3 + find_char(s.skip(3), ')') + 1))
    } else {
        seq![s[0]] + strip_empty_links(s.drop_first())
    }
}

/// Removes empty links `[](…)` (heading permalinks) from markdown.
pub fn strip_empty_link_chars(s: &[char]) -> (r: Vec<char>)
    ensures
        r@ == strip_empty_links(s@),
{
    let n = s.len();
    let mut out: Vec<char> = Vec::new();
    let mut i: usize = 0;
    assert(s@.skip(0) == s@);
    while i < n
        invariant
            n == s@.len(),
            i <= n,
            out@ + strip_empty_links(s@.skip(i as int)) == strip_empty_links(s@),
        decreases n - i,
    {
        let ghost t = s@.skip(i as int);
        if n - i >= 3 && s[i] == '[' && s[i + 1] == ']' && s[i + 2] == '(' {
            let j = find_char_from(s, i + 3, ')');
            assert(t.skip(3) == s@.skip(i + 3));
            if j < n {
                assert(empty_link_at(t));
                assert(t.skip(3 + (j - i - 3) + 1) == s@.skip(j + 1));
                i = j + 1;
                continue;
            }
        }
        assert(!empty_link_at(t));
        assert(t.drop_first() == s@.skip(i + 1));
        assert(t[0] == s@[i as int]);
        out.push(s[i]);
        i = i + 1;
    }
    assert(s@.skip(n as int) == Seq::<char>::empty());
    out
}

/// Why converting a page failed.
#[derive(Debug, Clone, Copy, PartialEq, Eq)]
pub enum ConvertError {
    /// The HTML could not be read into a document.
    Html,
}

/// `std::io::Error`, which the `htmd` converter reports failures with.
#[verifier::external_type_specification]
#[verifier::external_body]
pub struct ExIoError(std::io::Error);

/// What the `htmd` converter, set to skip scripts, styles, and page chrome,
/// makes of an HTML text.
pub uninterp spec fn htmd_markdown(html: Seq<char>) -> Seq<char>;

/// Calls `htmd::HtmlToMarkdown` (built to skip `script`, `style`, `nav`,
/// `aside`, `footer`, `svg`, `noscript`, `button`) on `html`. Trusted: the
/// result is `Ok` (the converter parses a `&str` in one go and builds its
/// tree without an error path), holding the converter's output for `html`,
/// a function of `html` alone.
#[verifier::external_body]
fn htmd_convert(html: &str) -> (r: Result<String, std::io::Error>)
    ensures
        match r {
            Ok(md) => md@ == htmd_markdown(html@),
            Err(_) => false,
        },
{
    htmd::HtmlToMarkdown::builder().skip_tags(
        vec!["script", "style", "nav", "aside", "footer", "svg", "noscript", "button"],
    ).build().convert(html)
}

/// HTML to markdown, with heading permalinks (`[](#anchor "Link for …")`)
/// removed. Every text converts.
pub fn html_to_markdown(html: &str) -> (r: Result<String, ConvertError>)
    ensures
        match r {
            Ok(md) => md@ == strip_empty_links(htmd_markdown(html@)),
            Err(_) => false,
        },
{
    match htmd_convert(html) {
        Ok(md) => {
            let c = to_chars(md.as_str());
            let stripped = strip_empty_link_chars(&c);
            Ok(from_chars(&stripped))
        },
        Err(_) => Err(ConvertError::Html),
    }
}

/// The inner HTML of the first element that `selector` matches in the
/// document parsed from `html` (`None` when nothing matches).
pub uninterp spec fn first_inner_html(html: Seq<char>, selector: Seq<char>) -> Option<Seq<char>>;

/// Calls `scraper::Html::parse_document` on `html` and returns the inner
/// HTML of the first match of `scraper::Selector::parse(selector)`. Trusted:
/// the result is a function of the two texts alone.
#[verifier::external_body]
fn select_first_inner_html(html: &str, selector: &str) -> (r: Option<String>)
    ensures
        match r {
            Some(s) => first_inner_html(html@, selector@) == Some(s@),
            None => first_inner_html(html@, selector@) is None,
        },
{
    let sel = scraper::Selector::parse(selector).ok()?;
    let doc = scraper::Html::parse_document(html);
    doc.select(&sel).next().map(|el| el.inner_html())
}

/// The page parts tried, in order, for a page's main content.
pub open spec fn main_selectors() -> Seq<Seq<char>> {
    seq!["article"@, "main"@, "[role=main]"@, "body"@]
}

/// The inner HTML of the first of `sels` that matches, else `html` itself.
pub open spec fn first_match(html: Seq<char>, sels: Seq<Seq<char>>) -> Seq<char>
    decreases sels.len(),
{
    if sels.len() == 0 {
        html
    } else {
        match first_inner_html(html, sels[0]) {
            Some(inner) => inner,
            None => first_match(html, sels.drop_first()),
        }
    }
}

/// The main content of a full HTML page (site captures in Dash docsets carry
/// navigation, sidebars, and footers): the first `<article>`, `<main>`, or
/// `[role=main]`, else the whole `<body>`, else the page itself.
pub fn main_content(html: &str) -> (r: String)
    ensures
        r@ == first_match(html@, main_selectors()),
{
    let sels = ["article", "main", "[role=main]", "body"];
    let ghost all = main_selectors();
    let mut i: usize = 0;
    assert(all.skip(0) == all);
    while i < 4
        invariant
            i <= 4,
            sels@.len() == 4,
            forall|k: int| 0 <= k < 4 ==> sels@[k]@ == #[trigger] all[k],
            all.len() == 4,
            all == main_selectors(),
            first_match(html@, all.skip(i as int)) == first_match(html@, all),
        decreases 4 - i,
    {
        assert(all.skip(i as int)[0] == all[i as int]);
        assert(all.skip(i as int).drop_first() == all.skip(i + 1));
        let sel = sels[i];
        assert(sel@ == all[i as int]);
        if let Some(s) = select_first_inner_html(html, sel) {
            assert(first_match(html@, all.skip(i as int)) == s@);
            return s;
        }
        i = i + 1;
    }
    assert(all.skip(4) == Seq::<Seq<char>>::empty());
    String::from_str(html)
}

} // verus!
