//! Catalog entries, install progress, and the reading of installed pages:
//! page paths, and the paging of a page's markdown.

use vstd::prelude::*;
use crate::dash::{dir_name, dir_name_spec, id_prefix, ZealDoc};
use crate::devdocs::{page_url, CatalogDoc};
use crate::paths::{join_path, join_path_vec};
use crate::sorted::{insert_sorted, sorted_strict};
use crate::index::{index_record, opt_view, IndexDoc, IndexRecord};
use crate::normalize::{chunk_markdown, chunk_views, chunks_of};
use crate::snippets::str_lowercase;
use crate::store::{Docset, Entry, Page};
use crate::text::has_char;
use crate::text::{
    ascii_lower_seq, copy_range, from_chars, push_str, starts_with, starts_with_str, strs,
    to_chars,
};

verus! {

/// One installable docset from any source.
#[derive(Debug, Clone)]
pub struct CatalogEntry {
    /// Docset id once installed: the DevDocs slug, or `dash:<name>`.
    pub id: String,
    pub name: String,
    /// `devdocs` or `dash`.
    pub source: String,
    pub version: String,
    /// Download size in bytes.
    pub size: u64,
    /// DevDocs modification time (0 for Dash, which is versioned instead).
    pub mtime: i64,
    /// Older versions that can be installed as `<id>@<version>` (Dash).
    pub versions: Vec<String>,
}

/// Install progress, for the app's progress display.
#[derive(Debug, Clone, Copy)]
pub enum Progress {
    Download { bytes: u64, total: Option<u64> },
    /// Converting and indexing pages.
    Index,
}

/// One window of a page's markdown.
#[derive(Debug)]
pub struct DocPage {
    pub docset: String,
    pub path: String,
    /// Upstream URL, when the source has one.
    pub url: String,
    /// One window of the page's markdown, starting at `offset` (in chars).
    pub markdown: String,
    pub offset: usize,
    pub total_chars: usize,
    pub next_offset: Option<usize>,
}

/// The window size when the caller names none.
pub open spec fn default_max_chars() -> nat {
    20000
}

// ---------------------------------------------------------------------------
// Page paths

/// Index of the first `#` or `?` in `s`, or `s.len()`.
pub open spec fn query_start(s: Seq<char>) -> int
    decreases s.len(),
{
    if s.len() == 0 {
        0
    } else if s[0] == '#' || s[0] == '?' {
        0
    } else {
        1 + query_start(s.drop_first())
    }
}

proof fn lemma_query_start(s: Seq<char>)
    ensures
        0 <= query_start(s) <= s.len(),
        forall|j: int| 0 <= j < query_start(s) ==> s[j] != '#' && s[j] != '?',
        query_start(s) < s.len() ==> (s[query_start(s)] == '#' || s[query_start(s)] == '?'),
    decreases s.len(),
{
    if s.len() > 0 && s[0] != '#' && s[0] != '?' {
        lemma_query_start(s.drop_first());
        assert forall|j: int| 0 <= j < query_start(s) implies s[j] != '#' && s[j] != '?' by {
            if j > 0 {
                assert(s[j] == s.drop_first()[j - 1]);
            }
        }
    }
}

/// A path without its `#fragment` or `?query`.
pub open spec fn page_path_spec(path: Seq<char>) -> Seq<char> {
    path.take(query_start(path))
}

pub fn page_path(path: &str) -> (r: String)
    ensures
        r@ == page_path_spec(path@),
{
    let cs = to_chars(path);
    let mut i: usize = 0;
    while i < cs.len() && cs[i] != '#' && cs[i] != '?'
        invariant
            i <= cs@.len(),
            cs@ == path@,
            forall|j: int| 0 <= j < i ==> cs@[j] != '#' && cs@[j] != '?',
        decreases cs@.len() - i,
    {
        i = i + 1;
    }
    proof {
        lemma_query_start_at(cs@, i as int);
    }
    from_chars(&copy_range(&cs, 0, i))
}

proof fn lemma_query_start_at(s: Seq<char>, k: int)
    requires
        0 <= k <= s.len(),
        forall|j: int| 0 <= j < k ==> s[j] != '#' && s[j] != '?',
        k < s.len() ==> (s[k] == '#' || s[k] == '?'),
    ensures
        query_start(s) == k,
    decreases s.len(),
{
    if s.len() > 0 && k > 0 {
        assert forall|j: int| 0 <= j < k - 1 implies s.drop_first()[j] != '#' && s.drop_first()[j]
            != '?' by {
            assert(s.drop_first()[j] == s[j + 1]);
        }
        lemma_query_start_at(s.drop_first(), k - 1);
    }
}

/// The text after the last `.` in `s`, when there is one.
pub open spec fn last_suffix(s: Seq<char>) -> Option<Seq<char>>
    decreases s.len(),
{
    if s.len() == 0 {
        None
    } else if s.last() == '.' {
        Some(seq![])
    } else {
        match last_suffix(s.drop_last()) {
            Some(e) => Some(e.push(s.last())),
            None => None,
        }
    }
}

/// A page whose extension (after the last `.`, any case) is `html`, `htm` or `xhtml`.
pub open spec fn is_html_spec(path: Seq<char>) -> bool {
    match last_suffix(path) {
        Some(e) => {
            let l = ascii_lower_seq(e);
            l == seq!['h', 't', 'm', 'l'] || l == seq!['h', 't', 'm'] || l == seq![
                'x',
                'h',
                't',
                'm',
                'l',
            ]
        },
        None => false,
    }
}

fn last_suffix_vec(s: &[char]) -> (r: Option<Vec<char>>)
    ensures
        match r {
            Some(e) => last_suffix(s@) == Some(e@),
            None => last_suffix(s@) is None,
        },
{
    let mut i: usize = s.len();
    assert(s@.take(i as int) == s@);
    while i > 0 && s[i - 1] != '.'
        invariant
            i <= s@.len(),
            forall|j: int| i <= j < s@.len() ==> s@[j] != '.',
        decreases i,
    {
        i = i - 1;
    }
    proof {
        lemma_last_suffix(s@, i as int);
    }
    if i == 0 {
        None
    } else {
        Some(copy_range(s, i, s.len()))
    }
}

proof fn lemma_last_suffix(s: Seq<char>, i: int)
    requires
        0 <= i <= s.len(),
        forall|j: int| i <= j < s.len() ==> s[j] != '.',
        i > 0 ==> s[i - 1] == '.',
    ensures
        i == 0 ==> last_suffix(s) is None,
        i > 0 ==> last_suffix(s) == Some(s.subrange(i, s.len() as int)),
    decreases s.len(),
{
    if s.len() > 0 {
        if i == s.len() {
            if i > 0 {
                assert(s.subrange(i, s.len() as int) == Seq::<char>::empty());
            }
        } else {
            lemma_last_suffix(s.drop_last(), i);
            if i > 0 {
                assert(s.subrange(i, s.len() as int) == s.drop_last().subrange(
                    i,
                    s.len() - 1,
                ).push(s.last()));
            }
        }
    }
}

/// Whether `path` names an HTML page.
pub fn is_html(path: &str) -> (r: bool)
    ensures
        r == is_html_spec(path@),
{
    match last_suffix_vec(to_chars(path).as_slice()) {
        Some(e) => {
            let mut l: Vec<char> = Vec::new();
            let mut i: usize = 0;
            while i < e.len()
                invariant
                    i <= e@.len(),
                    l@ == ascii_lower_seq(e@.take(i as int)),
                decreases e@.len() - i,
            {
                l.push(crate::text::ascii_lower_char(e[i]));
                assert(ascii_lower_seq(e@.take(i + 1)) == ascii_lower_seq(e@.take(i as int)).push(
                    crate::text::ascii_lower(e@[i as int]),
                ));
                i = i + 1;
            }
            assert(e@.take(e@.len() as int) == e@);
            proof {
                reveal_strlit("html");
                reveal_strlit("htm");
                reveal_strlit("xhtml");
                assert("html"@ =~= seq!['h', 't', 'm', 'l']);
                assert("htm"@ =~= seq!['h', 't', 'm']);
                assert("xhtml"@ =~= seq!['x', 'h', 't', 'm', 'l']);
            }
            crate::text::eq_str(&l, "html") || crate::text::eq_str(&l, "htm")
                || crate::text::eq_str(&l, "xhtml")
        },
        None => false,
    }
}

// ---------------------------------------------------------------------------
// Paging

/// Index of the last `\n` in `s`, or -1.
pub open spec fn last_newline(s: Seq<char>) -> int
    decreases s.len(),
{
    if s.len() == 0 {
        -1
    } else if s.last() == '\n' {
        s.len() - 1
    } else {
        last_newline(s.drop_last())
    }
}

pub open spec fn min(a: int, b: int) -> int {
    if a < b {
        a
    } else {
        b
    }
}

/// Where a window of `text` that starts at `start` ends: `max` chars on, but
/// not past the end, and back to just after the last line break in it when
/// the text goes on and that break is not the window's first char.
pub open spec fn window_end(text: Seq<char>, start: int, max: int) -> int {
    let end = min(start + max, text.len() as int);
    let nl = last_newline(text.subrange(start, end));
    if end < text.len() && nl > 0 {
        start + nl + 1
    } else {
        end
    }
}

/// The window at `offset` (clamped to the text): its chars, the text's
/// length, and where the next window starts when there is more.
pub open spec fn window_spec(text: Seq<char>, offset: int, max: int) -> (Seq<char>, int, Option<int>) {
    let start = min(offset, text.len() as int);
    let end = window_end(text, start, max);
    (text.subrange(start, end), text.len() as int, if end < text.len() {
        Some(end)
    } else {
        None
    })
}

proof fn lemma_last_newline(s: Seq<char>)
    ensures
        -1 <= last_newline(s) < s.len(),
    decreases s.len(),
{
    if s.len() > 0 && s.last() != '\n' {
        lemma_last_newline(s.drop_last());
    }
}

proof fn lemma_last_newline_is_last(s: Seq<char>)
    ensures
        last_newline(s) >= 0 ==> s[last_newline(s)] == '\n',
        forall|j: int| last_newline(s) < j < s.len() ==> s[j] != '\n',
    decreases s.len(),
{
    lemma_last_newline(s);
    if s.len() > 0 && s.last() != '\n' {
        lemma_last_newline_is_last(s.drop_last());
        lemma_last_newline(s.drop_last());
        if last_newline(s) >= 0 {
            assert(s[last_newline(s)] == s.drop_last()[last_newline(s)]);
        }
        assert forall|j: int| last_newline(s) < j < s.len() implies s[j] != '\n' by {
            if j < s.len() - 1 {
                assert(s[j] == s.drop_last()[j]);
            }
        }
    }
}

/// A window that stops before the end of the text ends just after its last
/// line break, when one comes after its first char; otherwise it holds
/// `max` chars, or the rest of the text.
pub proof fn lemma_window_breaks_at_last_newline(text: Seq<char>, start: int, max: int)
    requires
        0 <= start <= text.len(),
        0 <= max,
    ensures
        ({
            let end = window_end(text, start, max);
            let breaks = start + max < text.len() && exists|i: int|
                start < i < start + max && text[i] == '\n';
            &&& breaks ==> start + 1 < end && text[end - 1] == '\n' && forall|j: int|
                end <= j < start + max ==> text[j] != '\n'
            &&& !breaks ==> end == min(start + max, text.len() as int)
        }),
{
    let end0 = min(start + max, text.len() as int);
    let w = text.subrange(start, end0);
    lemma_last_newline(w);
    lemma_last_newline_is_last(w);
    let nl = last_newline(w);
    let breaks = start + max < text.len() && exists|i: int| start < i < start + max && text[i] == '\n';
    if breaks {
        let i = choose|i: int| start < i < start + max && text[i] == '\n';
        assert(w[i - start] == '\n');
        assert(nl >= i - start);
        assert(w[nl] == text[start + nl]);
        assert forall|j: int| start + nl + 1 <= j < start + max implies text[j] != '\n' by {
            assert(w[j - start] == text[j]);
        }
    } else {
        if end0 < text.len() && nl > 0 {
            assert(w[nl] == text[start + nl]);
            assert(start < start + nl < start + max && text[start + nl] == '\n');
        }
    }
}

pub proof fn lemma_window_end(text: Seq<char>, start: int, max: int)
    requires
        0 <= start <= text.len(),
        0 <= max,
    ensures
        start <= window_end(text, start, max) <= text.len(),
        window_end(text, start, max) <= start + max,
        max > 0 && start < text.len() ==> start < window_end(text, start, max),
{
    let end = min(start + max, text.len() as int);
    lemma_last_newline(text.subrange(start, end));
}

/// Slices `text` by chars, preferring to end on a line break.
pub fn window(text: &str, offset: usize, max_chars: usize) -> (r: (String, usize, Option<usize>))
    ensures
        ({
            let (m, t, n) = window_spec(text@, offset as int, max_chars as int);
            &&& r.0@ == m
            &&& r.1 == t
            &&& match r.2 {
                Some(x) => n == Some(x as int),
                None => n is None,
            }
        }),
{
    let chars = to_chars(text);
    let total = chars.len();
    let start = if offset < total {
        offset
    } else {
        total
    };
    let mut end = if max_chars < total - start {
        start + max_chars
    } else {
        total
    };
    assert(end == min(start + max_chars, total as int));
    if end < total {
        let mut k: usize = end;
        while k > start && chars[k - 1] != '\n'
            invariant
                start <= k <= end <= total,
                total == chars@.len(),
                last_newline(chars@.subrange(start as int, end as int)) == last_newline(
                    chars@.subrange(start as int, k as int),
                ),
            decreases k,
        {
            assert(chars@.subrange(start as int, k as int).drop_last() == chars@.subrange(
                start as int,
                k - 1,
            ));
            k = k - 1;
        }
        // `k - 1` is the last line break, or there is none (`k == start`).
        if k > start + 1 {
            end = k;
        }
    }
    let next = if end < total {
        Some(end)
    } else {
        None
    };
    (from_chars(&copy_range(&chars, start, end)), total, next)
}

/// The windows from `offset` on, each following the previous one's
/// `next_offset`, concatenated.
pub open spec fn pages_from(text: Seq<char>, offset: int, max: int) -> Seq<char>
    decreases text.len() - offset,
{
    let (m, _, n) = window_spec(text, offset, max);
    match n {
        Some(next) => if offset < next {
            m + pages_from(text, next, max)
        } else {
            m
        },
        None => m,
    }
}

/// Reading a page window by window, each from the previous window's
/// `next_offset`, gives back the whole page from the first offset on (as
/// long as a window may hold at least one char).
pub proof fn lemma_windows_cover_page(text: Seq<char>, offset: int, max: int)
    requires
        0 <= offset <= text.len(),
        max > 0,
    ensures
        pages_from(text, offset, max) == text.skip(offset),
    decreases text.len() - offset,
{
    let end = window_end(text, offset, max);
    lemma_window_end(text, offset, max);
    if end < text.len() {
        lemma_windows_cover_page(text, end, max);
        assert(text.subrange(offset, end) + text.skip(end) == text.skip(offset));
    } else {
        assert(text.subrange(offset, end) == text.skip(offset));
    }
}

// ---------------------------------------------------------------------------
// Reading a page

/// The page a reader gets: the stored page's path, a link to the page on
/// DevDocs (none for Dash docsets), and the window of its markdown at
/// `offset`.
pub fn doc_page(
    docset: &str,
    path: &str,
    stored_path: String,
    markdown: &str,
    offset: usize,
    max_chars: Option<usize>,
) -> (r: DocPage)
    ensures
        r.docset@ == docset@,
        r.path == stored_path,
        r.url@ == if starts_with(docset@, id_prefix()) {
            Seq::<char>::empty()
        } else {
            "https://devdocs.io/"@ + docset@ + "/"@ + path@
        },
        r.offset == offset,
        ({
            let (m, t, n) = window_spec(
                markdown@,
                offset as int,
                match max_chars {
                    Some(c) => c as int,
                    None => default_max_chars() as int,
                },
            );
            &&& r.markdown@ == m
            &&& r.total_chars == t
            &&& match r.next_offset {
                Some(x) => n == Some(x as int),
                None => n is None,
            }
        }),
{
    let max = match max_chars {
        Some(c) => c,
        None => 20000,
    };
    let (window_text, total, next) = window(markdown, offset, max);
    let dash = starts_with_str(to_chars(docset).as_slice(), "dash:");
    proof {
        reveal_strlit("dash:");
        assert("dash:"@ =~= id_prefix());
    }
    let url = if dash {
        from_chars(&Vec::new())
    } else {
        page_url(docset, path)
    };
    DocPage {
        docset: from_chars(&to_chars(docset)),
        path: stored_path,
        url,
        markdown: window_text,
        offset,
        total_chars: total,
        next_offset: next,
    }
}

/// The page paths of a Dash docset's entries that are HTML pages: fragments
/// and queries dropped, sorted, each once.
pub fn dash_page_paths(entry_paths: &Vec<String>) -> (r: Vec<String>)
    ensures
        sorted_strict(strs(r@)),
        forall|x: Seq<char>| #[trigger] strs(r@).contains(x) <==> (is_html_spec(x) && exists|i: int|
            0 <= i < entry_paths@.len() && x == page_path_spec(#[trigger] entry_paths@[i]@)),
{
    let mut out: Vec<String> = Vec::new();
    let mut i: usize = 0;
    while i < entry_paths.len()
        invariant
            i <= entry_paths@.len(),
            sorted_strict(strs(out@)),
            forall|x: Seq<char>| #[trigger] strs(out@).contains(x) <==> (is_html_spec(x) && exists|j: int|
                0 <= j < i && x == page_path_spec(#[trigger] entry_paths@[j]@)),
        decreases entry_paths@.len() - i,
    {
        let p = page_path(entry_paths[i].as_str());
        let ghost pv = p@;
        if is_html(p.as_str()) {
            insert_sorted(&mut out, p);
        }
        assert forall|x: Seq<char>| #[trigger] strs(out@).contains(x) <==> (is_html_spec(x)
            && exists|j: int| 0 <= j < i + 1 && x == page_path_spec(#[trigger] entry_paths@[j]@)) by {
            if x == pv && is_html_spec(x) {
                assert(x == page_path_spec(entry_paths@[i as int]@));
            }
            if exists|j: int| 0 <= j < i + 1 && x == page_path_spec(#[trigger] entry_paths@[j]@) {
                let j = choose|j: int| 0 <= j < i + 1 && x == page_path_spec(#[trigger] entry_paths@[j]@);
                if j < i {
                    assert(exists|j2: int| 0 <= j2 < i && x == page_path_spec(#[trigger] entry_paths@[j2]@));
                }
            }
        }
        i = i + 1;
    }
    out
}

// ---------------------------------------------------------------------------
// Catalog and installed docsets

/// `e` lists the DevDocs docset `d`: its slug as id, the release when there
/// is one (else the version), its database size and mtime.
pub open spec fn lists_devdocs(e: CatalogEntry, d: CatalogDoc) -> bool {
    &&& e.id == d.slug
    &&& e.name == d.name
    &&& e.source@ == "devdocs"@
    &&& e.version == if d.release@.len() == 0 {
        d.version
    } else {
        d.release
    }
    &&& e.size == d.db_size
    &&& e.mtime == d.mtime
    &&& e.versions@.len() == 0
}

/// `e` lists the Zeal docset `d`: `dash:<name>`, its title, its latest
/// version, and every version it lists.
pub open spec fn lists_dash(e: CatalogEntry, d: ZealDoc) -> bool {
    &&& e.id@ == id_prefix() + d.name@
    &&& e.name == d.title
    &&& e.source@ == "dash"@
    &&& e.version@ == if d.versions@.len() > 0 {
        d.versions@[0]@
    } else {
        Seq::<char>::empty()
    }
    &&& e.size == d.size
    &&& e.mtime == 0
    &&& e.versions == d.versions
}

/// A DevDocs catalog entry: the release when there is one, else the version.
pub fn devdocs_entry(d: CatalogDoc) -> (r: CatalogEntry)
    ensures
        lists_devdocs(r, d),
{
    let version = if d.release.as_str().is_empty() {
        d.version
    } else {
        d.release
    };
    CatalogEntry {
        id: d.slug,
        name: d.name,
        source: from_chars(&to_chars("devdocs")),
        version,
        size: d.db_size,
        mtime: d.mtime,
        versions: Vec::new(),
    }
}

/// A Zeal catalog entry: `dash:<name>`, its title, its latest version, and
/// every version it lists.
pub fn dash_entry(d: ZealDoc) -> (r: CatalogEntry)
    ensures
        lists_dash(r, d),
{
    let id = d.id();
    let version = from_chars(&to_chars(d.latest_version()));
    CatalogEntry {
        id,
        name: d.title,
        source: from_chars(&to_chars("dash")),
        version,
        size: d.size,
        mtime: 0,
        versions: d.versions,
    }
}

/// Every installable docset: DevDocs ones, then Dash ones.
pub fn catalog_entries(devdocs: Vec<CatalogDoc>, dash: Vec<ZealDoc>) -> (r: Vec<CatalogEntry>)
    ensures
        r@.len() == devdocs@.len() + dash@.len(),
        forall|i: int| 0 <= i < devdocs@.len() ==> lists_devdocs(#[trigger] r@[i], devdocs@[i]),
        forall|i: int|
            0 <= i < dash@.len() ==> lists_dash(#[trigger] r@[devdocs@.len() + i], dash@[i]),
{
    let mut out: Vec<CatalogEntry> = Vec::new();
    let mut devdocs = devdocs;
    let mut dash = dash;
    let ghost dd = devdocs@;
    let ghost zz = dash@;
    assert(dd.len() == devdocs.len() && zz.len() == dash.len());
    let mut k: usize = 0;
    while devdocs.len() > 0
        invariant
            k + devdocs@.len() == dd.len(),
            dd.len() <= usize::MAX,
            out@.len() == k,
            devdocs@ == dd.skip(k as int),
            forall|i: int| 0 <= i < k ==> lists_devdocs(#[trigger] out@[i], dd[i]),
        decreases devdocs@.len(),
    {
        let d = devdocs.remove(0);
        assert(d == dd[k as int]);
        out.push(devdocs_entry(d));
        assert(dd.skip(k + 1) =~= dd.skip(k as int).drop_first());
        k = k + 1;
    }
    let mut m: usize = 0;
    while dash.len() > 0
        invariant
            m + dash@.len() == zz.len(),
            zz.len() <= usize::MAX,
            out@.len() == dd.len() + m,
            dash@ == zz.skip(m as int),
            forall|i: int| 0 <= i < dd.len() ==> lists_devdocs(#[trigger] out@[i], dd[i]),
            forall|i: int| 0 <= i < m ==> lists_dash(#[trigger] out@[dd.len() + i], zz[i]),
        decreases dash@.len(),
    {
        let d = dash.remove(0);
        assert(d == zz[m as int]);
        out.push(dash_entry(d));
        assert(zz.skip(m + 1) =~= zz.skip(m as int).drop_first());
        m = m + 1;
    }
    out
}

/// An installed docset has a newer upstream copy: for Dash, the catalog's
/// latest version is known and differs; otherwise the catalog's mtime is
/// later.
pub open spec fn newer_upstream(ds: Docset, latest: CatalogEntry) -> bool {
    if ds.source@ == "dash"@ {
        latest.version@.len() > 0 && latest.version@ != ds.version@
    } else {
        latest.mtime > ds.mtime
    }
}

pub fn is_outdated(ds: &Docset, latest: &CatalogEntry) -> (r: bool)
    ensures
        r == newer_upstream(*ds, *latest),
{
    proof {
        reveal_strlit("dash");
    }
    let dash = crate::text::eq_str(to_chars(ds.source.as_str()).as_slice(), "dash");
    if dash {
        to_chars(latest.version.as_str()).len() > 0 && !crate::text::eq_str(
            to_chars(latest.version.as_str()).as_slice(),
            ds.version.as_str(),
        )
    } else {
        latest.mtime > ds.mtime
    }
}

/// The last catalog entry with id `id` (later entries replace earlier ones).
pub open spec fn latest_for(catalog: Seq<CatalogEntry>, id: Seq<char>) -> Option<CatalogEntry>
    decreases catalog.len(),
{
    if catalog.len() == 0 {
        None
    } else if catalog.last().id@ == id {
        Some(catalog.last())
    } else {
        latest_for(catalog.drop_last(), id)
    }
}

fn latest_index(catalog: &Vec<CatalogEntry>, id: &str) -> (r: Option<usize>)
    ensures
        match r {
            Some(k) => k < catalog@.len() && latest_for(catalog@, id@) == Some(catalog@[k as int]),
            None => latest_for(catalog@, id@) is None,
        },
{
    let mut i: usize = catalog.len();
    assert(catalog@.take(i as int) == catalog@);
    while i > 0
        invariant
            i <= catalog@.len(),
            latest_for(catalog@, id@) == latest_for(catalog@.take(i as int), id@),
        decreases i,
    {
        assert(catalog@.take(i as int).drop_last() == catalog@.take(i - 1));
        if crate::text::eq_str(to_chars(catalog[i - 1].id.as_str()).as_slice(), id) {
            return Some(i - 1);
        }
        i = i - 1;
    }
    None
}

/// A Dash id pins a version when its feed part holds `@`, as in
/// `dash:React@18.3.1`.
pub open spec fn pinned(id: Seq<char>) -> bool {
    starts_with(id, id_prefix()) && has_char(id.skip(id_prefix().len() as int), '@')
}

pub fn is_pinned(id: &str) -> (r: bool)
    ensures
        r == pinned(id@),
{
    let cs = to_chars(id);
    proof {
        reveal_strlit("dash:");
        assert("dash:"@ =~= id_prefix());
    }
    if !starts_with_str(cs.as_slice(), "dash:") {
        return false;
    }
    let rest = copy_range(&cs, 5, cs.len());
    crate::text::contains_char(rest.as_slice(), '@')
}

/// Whether the installed docset has a newer copy in the catalog; a pinned
/// version never has.
pub open spec fn outdated_in(ds: Docset, catalog: Seq<CatalogEntry>) -> bool {
    !pinned(ds.id@) && match latest_for(catalog, ds.id@) {
        Some(c) => newer_upstream(ds, c),
        None => false,
    }
}

/// Updating leaves pinned versions alone: a docset installed as
/// `dash:<name>@<version>` is never outdated, whatever the catalog says.
pub proof fn lemma_pinned_left_alone(ds: Docset, catalog: Seq<CatalogEntry>)
    requires
        pinned(ds.id@),
    ensures
        !outdated_in(ds, catalog),
{
}

/// The installed docsets with a newer upstream copy, in their order.
pub fn outdated(installed: Vec<Docset>, catalog: &Vec<CatalogEntry>) -> (r: Vec<Docset>)
    ensures
        r@ == installed@.filter(|ds: Docset| outdated_in(ds, catalog@)),
{
    let mut out: Vec<Docset> = Vec::new();
    let mut rest = installed;
    let ghost all = rest@;
    assert(all.len() == rest.len());
    let mut k: usize = 0;
    while rest.len() > 0
        invariant
            k + rest@.len() == all.len(),
            all.len() <= usize::MAX,
            rest@ == all.skip(k as int),
            out@ == all.take(k as int).filter(|ds: Docset| outdated_in(ds, catalog@)),
        decreases rest@.len(),
    {
        let ds = rest.remove(0);
        assert(ds == all[k as int]);
        assert(all.skip(k + 1) =~= all.skip(k as int).drop_first());
        assert(all.take(k + 1).drop_last() == all.take(k as int));
        reveal(Seq::filter);
        let keep = !is_pinned(ds.id.as_str()) && match latest_index(catalog, ds.id.as_str()) {
            Some(j) => is_outdated(&ds, &catalog[j]),
            None => false,
        };
        if keep {
            out.push(ds);
        }
        k = k + 1;
    }
    assert(all.take(all.len() as int) == all);
    out
}

/// Which source an id installs from.
pub enum InstallTarget {
    /// A Zeal feed, by name.
    Dash(String),
    /// A DevDocs documentation set, by slug.
    DevDocs(String),
}

/// `dash:<name>` installs the Zeal feed `<name>`; any other id is a DevDocs slug.
pub fn install_target(id: &str) -> (r: InstallTarget)
    ensures
        match r {
            InstallTarget::Dash(name) => starts_with(id@, id_prefix()) && name@ == id@.skip(5),
            InstallTarget::DevDocs(slug) => !starts_with(id@, id_prefix()) && slug@ == id@,
        },
{
    let cs = to_chars(id);
    proof {
        reveal_strlit("dash:");
        assert("dash:"@ =~= id_prefix());
    }
    if starts_with_str(cs.as_slice(), "dash:") {
        InstallTarget::Dash(from_chars(&copy_range(&cs, 5, cs.len())))
    } else {
        InstallTarget::DevDocs(from_chars(&cs))
    }
}

/// The record of an installed DevDocs set: the version when there is one,
/// else the release.
pub fn devdocs_docset(doc: &CatalogDoc, installed_at: i64) -> (r: Docset)
    ensures
        r.id == doc.slug,
        r.name == doc.name,
        r.source@ == "devdocs"@,
        r.version == if doc.version@.len() == 0 {
            doc.release
        } else {
            doc.version
        },
        r.release == doc.release,
        r.mtime == doc.mtime,
        r.installed_at == installed_at,
{
    Docset {
        id: doc.slug.clone(),
        name: doc.name.clone(),
        source: from_chars(&to_chars("devdocs")),
        version: if doc.version.as_str().is_empty() {
            doc.release.clone()
        } else {
            doc.version.clone()
        },
        release: doc.release.clone(),
        mtime: doc.mtime,
        installed_at,
    }
}

/// The feed part of a Dash id split at its first `@`: the feed name, and
/// the pinned version when there is one (`React@18.3.1`).
pub fn feed_version(feed: &str) -> (r: (String, Option<String>))
    ensures
        r.0@ == crate::text::before_char(feed@, '@'),
        match r.1 {
            Some(v) => crate::text::after_char(feed@, '@') == Some(v@),
            None => crate::text::after_char(feed@, '@') is None,
        },
{
    let cs = to_chars(feed);
    match crate::text::split_once_vec(cs.as_slice(), '@') {
        Some((a, b)) => (from_chars(&a), Some(from_chars(&b))),
        None => {
            proof {
                crate::text::lemma_find_char(cs@, '@');
                assert(cs@.take(cs@.len() as int) == cs@);
            }
            (from_chars(&cs), None)
        },
    }
}

/// The record of an installed Zeal feed: at the version pinned, or the
/// latest one, with the pin in its id.
pub fn dash_docset(doc: &ZealDoc, version: Option<&str>, installed_at: i64) -> (r: Docset)
    ensures
        r.id@ == id_prefix() + doc.name@ + match version {
            Some(v) => seq!['@'] + v@,
            None => Seq::<char>::empty(),
        },
        r.name == doc.title,
        r.source@ == "dash"@,
        r.version@ == match version {
            Some(v) => v@,
            None => if doc.versions@.len() > 0 {
                doc.versions@[0]@
            } else {
                Seq::<char>::empty()
            },
        },
        r.release@.len() == 0,
        r.mtime == 0,
        r.installed_at == installed_at,
{
    let mut id = to_chars(doc.id().as_str());
    let v = match version {
        Some(v) => {
            id.push('@');
            push_str(&mut id, v);
            to_chars(v)
        },
        None => to_chars(doc.latest_version()),
    };
    Docset {
        id: from_chars(&id),
        version: from_chars(&v),
        name: doc.title.clone(),
        source: from_chars(&to_chars("dash")),
        release: from_chars(&Vec::new()),
        mtime: 0,
        installed_at,
    }
}

/// Where an installed Zeal feed is kept: `<home>/docsets/dash/<dir name>`.
pub fn dash_dir(home: &str, name: &str) -> (r: String)
    ensures
        r@ == join_path(join_path(join_path(home@, "docsets"@), "dash"@), dir_name_spec(name@)),
{
    let a = join_path_vec(to_chars(home).as_slice(), to_chars("docsets").as_slice());
    let b = join_path_vec(a.as_slice(), to_chars("dash").as_slice());
    let c = join_path_vec(b.as_slice(), to_chars(dir_name(name).as_str()).as_slice());
    from_chars(&c)
}

/// A cached catalog is used when it is less than a day old and no refresh
/// was asked for.
pub fn use_cached(age_secs: Option<u64>, refresh: bool) -> (r: bool)
    ensures
        r == (!refresh && match age_secs {
            Some(a) => a < 86400,
            None => false,
        }),
{
    let fresh = match age_secs {
        Some(a) => a < 86400,
        None => false,
    };
    fresh && !refresh
}

// ---------------------------------------------------------------------------
// What a docset puts into the index

pub type RecordView = (
    Seq<char>,
    Seq<char>,
    Option<Seq<char>>,
    Option<Seq<char>>,
    Option<Seq<char>>,
    Option<Seq<char>>,
    Option<Seq<char>>,
    Option<Seq<char>>,
    Option<Seq<char>>,
);

pub open spec fn record_view(r: IndexRecord) -> RecordView {
    (
        r.docset@,
        r.kind@,
        opt_view(r.name),
        opt_view(r.name_exact),
        opt_view(r.entry_type),
        opt_view(r.path),
        opt_view(r.title),
        opt_view(r.heading),
        opt_view(r.body),
    )
}

pub open spec fn record_views(v: Seq<IndexRecord>) -> Seq<RecordView> {
    v.map_values(|r: IndexRecord| record_view(r))
}

/// An entry's record: found by name (also whole and lowercased), with its
/// type and path.
pub open spec fn entry_record(docset: Seq<char>, e: Entry) -> RecordView {
    (
        docset,
        "entry"@,
        Some(e.name@),
        Some(str_lowercase(e.name@)),
        Some(e.kind@),
        Some(e.path@),
        None,
        None,
        None,
    )
}

/// A chunk's record: its page's path and title, its heading trail and body.
pub open spec fn chunk_record(docset: Seq<char>, path: Seq<char>, title: Seq<char>, c: (Seq<char>, Seq<char>)) -> RecordView {
    (docset, "chunk"@, None, None, None, Some(path), Some(title), Some(c.0), Some(c.1))
}

/// A page's title for its chunks: the name of the entry that points at the
/// page itself (no `#anchor`; the last such entry when there are several),
/// else the page's path.
pub open spec fn page_title_in(entries: Seq<Entry>, path: Seq<char>) -> Seq<char>
    decreases entries.len(),
{
    if entries.len() == 0 {
        path
    } else if entries.last().path@ == path && !has_char(entries.last().path@, '#') {
        entries.last().name@
    } else {
        page_title_in(entries.drop_last(), path)
    }
}

pub open spec fn page_records(docset: Seq<char>, entries: Seq<Entry>, pages: Seq<Page>) -> Seq<RecordView>
    decreases pages.len(),
{
    if pages.len() == 0 {
        seq![]
    } else {
        let p = pages.last();
        let title = page_title_in(entries, p.path@);
        page_records(docset, entries, pages.drop_last()) + chunks_of(p.markdown@).map_values(
            |c: (Seq<char>, Seq<char>)| chunk_record(docset, p.path@, title, c),
        )
    }
}

/// Everything indexed for a docset: its entries, then the heading-scoped
/// chunks of each page.
pub open spec fn commit_records_spec(docset: Seq<char>, entries: Seq<Entry>, pages: Seq<Page>) -> Seq<RecordView> {
    entries.map_values(|e: Entry| entry_record(docset, e)) + page_records(docset, entries, pages)
}

fn page_title_for(entries: &Vec<Entry>, path: &str) -> (r: String)
    ensures
        r@ == page_title_in(entries@, path@),
{
    let mut i: usize = entries.len();
    assert(entries@.take(i as int) == entries@);
    while i > 0
        invariant
            i <= entries@.len(),
            page_title_in(entries@.take(i as int), path@) == page_title_in(entries@, path@),
        decreases i,
    {
        let e = &entries[i - 1];
        assert(entries@.take(i as int).drop_last() == entries@.take(i - 1));
        assert(entries@.take(i as int).last() == *e);
        let p = to_chars(e.path.as_str());
        if crate::text::eq_str(p.as_slice(), path) && !crate::text::contains_char(p.as_slice(), '#') {
            return from_chars(&to_chars(e.name.as_str()));
        }
        i = i - 1;
    }
    from_chars(&to_chars(path))
}

/// The records that replace a docset's in the index.
pub fn commit_records(docset: &str, entries: &Vec<Entry>, pages: &Vec<Page>) -> (r: Vec<IndexRecord>)
    ensures
        record_views(r@) == commit_records_spec(docset@, entries@, pages@),
{
    let mut out: Vec<IndexRecord> = Vec::new();
    let mut i: usize = 0;
    while i < entries.len()
        invariant
            i <= entries@.len(),
            record_views(out@) == entries@.take(i as int).map_values(|e: Entry| entry_record(docset@, e)),
        decreases entries@.len() - i,
    {
        let e = &entries[i];
        let rec = index_record(
            docset,
            &IndexDoc::Entry { name: e.name.as_str(), entry_type: e.kind.as_str(), path: e.path.as_str() },
        );
        let ghost before = record_views(out@);
        out.push(rec);
        assert(record_views(out@) == before.push(record_view(rec)));
        assert(entries@.take(i + 1).map_values(|e: Entry| entry_record(docset@, e)) == entries@.take(
            i as int,
        ).map_values(|e: Entry| entry_record(docset@, e)).push(entry_record(docset@, *e)));
        i = i + 1;
    }
    assert(entries@.take(entries@.len() as int) == entries@);
    let ghost head = record_views(out@);
    let mut k: usize = 0;
    assert(pages@.take(0) == Seq::<Page>::empty());
    while k < pages.len()
        invariant
            k <= pages@.len(),
            record_views(out@) == head + page_records(docset@, entries@, pages@.take(k as int)),
        decreases pages@.len() - k,
    {
        let p = &pages[k];
        assert(pages@.take(k + 1).drop_last() == pages@.take(k as int));
        assert(pages@.take(k + 1).last() == *p);
        let title = page_title_for(entries, p.path.as_str());
        let chunks = chunk_markdown(p.markdown.as_str());
        let ghost cv = chunk_views(chunks@);
        let ghost base = record_views(out@);
        let mut j: usize = 0;
        while j < chunks.len()
            invariant
                j <= chunks@.len(),
                cv == chunk_views(chunks@),
                record_views(out@) == base + cv.take(j as int).map_values(
                    |c: (Seq<char>, Seq<char>)| chunk_record(docset@, p.path@, title@, c),
                ),
            decreases chunks@.len() - j,
        {
            let c = &chunks[j];
            let rec = index_record(
                docset,
                &IndexDoc::Chunk {
                    path: p.path.as_str(),
                    title: title.as_str(),
                    heading: c.heading.as_str(),
                    body: c.body.as_str(),
                },
            );
            let ghost before = record_views(out@);
            out.push(rec);
            assert(record_views(out@) == before.push(record_view(rec)));
            assert(cv[j as int] == (c.heading@, c.body@));
            assert(cv.take(j + 1).map_values(
                |c: (Seq<char>, Seq<char>)| chunk_record(docset@, p.path@, title@, c),
            ) == cv.take(j as int).map_values(
                |c: (Seq<char>, Seq<char>)| chunk_record(docset@, p.path@, title@, c),
            ).push(chunk_record(docset@, p.path@, title@, cv[j as int])));
            j = j + 1;
        }
        assert(cv.take(chunks@.len() as int) == cv);
        k = k + 1;
    }
    assert(pages@.take(pages@.len() as int) == pages@);
    out
}

// ---------------------------------------------------------------------------
// Listing and updating

/// Whether a catalog entry is listed for a filter: its id or its name
/// (either case) holds the filter, lowercased.
pub open spec fn catalog_matches_spec(id: Seq<char>, name: Seq<char>, filter: Option<Seq<char>>) -> bool {
    match filter {
        None => true,
        Some(f) => crate::text::contains_seq(id, str_lowercase(f)) || crate::text::contains_seq(
            str_lowercase(name),
            str_lowercase(f),
        ),
    }
}

pub fn catalog_matches(entry: &CatalogEntry, filter: Option<&str>) -> (r: bool)
    ensures
        r == catalog_matches_spec(
            entry.id@,
            entry.name@,
            match filter {
                Some(f) => Some(f@),
                None => None,
            },
        ),
{
    match filter {
        None => true,
        Some(f) => {
            let lf = crate::snippets::lowercase_str(f);
            let lfc = to_chars(lf.as_str());
            crate::text::contains_chars(to_chars(entry.id.as_str()).as_slice(), lfc.as_slice())
                || crate::text::contains_chars(
                to_chars(crate::snippets::lowercase_str(entry.name.as_str()).as_str()).as_slice(),
                lfc.as_slice(),
            )
        },
    }
}

/// The docsets an update installs again: those named, or every outdated one.
pub fn update_targets(named: Vec<String>, outdated: &Vec<Docset>) -> (r: Vec<String>)
    ensures
        named@.len() > 0 ==> r@ == named@,
        named@.len() == 0 ==> strs(r@) == outdated@.map_values(|d: Docset| d.id@),
{
    if named.len() > 0 {
        return named;
    }
    let mut out: Vec<String> = Vec::new();
    let mut i: usize = 0;
    while i < outdated.len()
        invariant
            i <= outdated@.len(),
            strs(out@) == outdated@.take(i as int).map_values(|d: Docset| d.id@),
        decreases outdated@.len() - i,
    {
        let id = from_chars(&to_chars(outdated[i].id.as_str()));
        let ghost before = strs(out@);
        out.push(id);
        assert(strs(out@) == before.push(id@));
        assert(outdated@.take(i + 1).map_values(|d: Docset| d.id@) == outdated@.take(i as int).map_values(
            |d: Docset| d.id@,
        ).push(outdated@[i as int].id@));
        i = i + 1;
    }
    assert(outdated@.take(outdated@.len() as int) == outdated@);
    out
}

} // verus!
