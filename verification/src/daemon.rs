//! The daemon's decisions and texts: who may call it, how searches are
//! scoped and reported, how pages are framed for the viewer, and when
//! install progress is worth an event.

use vstd::prelude::*;
use crate::index::HitView;
use crate::library::DocPage;
use crate::paths::{join_path, join_path_vec};
use crate::snippets::{json_quoted, json_string};
use crate::project::{all_ascii_digits, dec_value, digit_value};
use crate::text::{
    decimal, is_digit, lines, trim_start, eq_chars, from_chars, push_all, push_decimal, push_str, seqs, split_spec,
    split_vec, starts_with, starts_with_str, strs, to_chars, trim, trim_vec,
};

verus! {

/// Written to `<home>/daemon.json` while the daemon runs, so clients can find it.
#[derive(Debug, Clone, Copy)]
pub struct DaemonInfo {
    pub port: u16,
    pub pid: u32,
}

/// Pushed to subscribers of `/api/events` (the desktop app).
#[derive(Debug, Clone)]
pub enum DaiEvent {
    InstallStarted { id: String },
    InstallProgress { id: String, stage: String, bytes: u64, total: Option<u64> },
    InstallFinished { id: String, error: Option<String> },
    Removed { id: String },
    /// An agent asked to show a page to the user.
    Open { docset: String, path: String },
}

/// Arguments of the `search_docs` tool.
#[derive(Debug, Clone)]
pub struct SearchArgs {
    /// A symbol name (`useEffect`, `Vec::push`, `os.path.join`) or a few keywords.
    pub query: String,
    /// Restrict to these docset ids (see list_docsets). Empty searches all.
    pub docsets: Vec<String>,
    /// Max results (default 10, max 50).
    pub limit: Option<usize>,
}

/// Arguments of the `get_doc` tool.
#[derive(Debug, Clone)]
pub struct GetDocArgs {
    /// Docset id from a search hit.
    pub docset: String,
    /// Page path from a search hit (a `#anchor` suffix is fine).
    pub path: String,
    /// Character offset to continue a long page from (use `next_offset`).
    pub offset: Option<usize>,
    /// Max characters to return (default 20000).
    pub max_chars: Option<usize>,
}

/// Arguments of the `open_in_app` tool.
#[derive(Debug, Clone)]
pub struct OpenArgs {
    /// Docset id from a search hit.
    pub docset: String,
    /// Page path from a search hit (a `#anchor` suffix scrolls to that section).
    pub path: String,
}

/// The daemon's answer to `/api/health`.
#[derive(Debug, Clone)]
pub struct Health {
    pub app: String,
    pub version: String,
}

/// The port the daemon listens on when nothing else is said.
pub open spec fn default_port() -> u16 {
    4747
}

/// The search size of the HTTP API when the request names none.
pub fn default_limit() -> (r: usize)
    ensures
        r == 10,
{
    10
}

/// Where the running daemon records its port and pid.
pub fn daemon_info_path(home: &str) -> (r: String)
    ensures
        r@ == join_path(home@, "daemon.json"@),
{
    from_chars(&join_path_vec(to_chars(home).as_slice(), to_chars("daemon.json").as_slice()))
}

/// Where the API token is kept.
/// The token kept in the token file: its text without surrounding
/// whitespace.
pub fn stored_token(text: &str) -> (r: String)
    ensures
        r@ == trim(text@),
{
    from_chars(&trim_vec(to_chars(text).as_slice()))
}

pub fn token_path(home: &str) -> (r: String)
    ensures
        r@ == join_path(home@, "token"@),
{
    from_chars(&join_path_vec(to_chars(home).as_slice(), to_chars("token").as_slice()))
}

// ---------------------------------------------------------------------------
// Access

/// A request is let in when its `Authorization` header is `Bearer <token>`.
pub open spec fn authorized_spec(header: Option<Seq<char>>, token: Seq<char>) -> bool {
    match header {
        Some(h) => starts_with(h, "Bearer "@) && h.skip(7) == token,
        None => false,
    }
}

pub fn authorized(header: Option<&str>, token: &str) -> (r: bool)
    ensures
        r == authorized_spec(
            match header {
                Some(h) => Some(h@),
                None => None,
            },
            token@,
        ),
{
    match header {
        Some(h) => {
            let cs = to_chars(h);
            proof {
                reveal_strlit("Bearer ");
            }
            if !starts_with_str(cs.as_slice(), "Bearer ") {
                return false;
            }
            let rest = crate::text::copy_range(&cs, 7, cs.len());
            eq_chars(rest.as_slice(), to_chars(token).as_slice())
        },
        None => false,
    }
}

/// The header that `authorized` lets in, and no other.
pub proof fn lemma_authorized_iff(header: Seq<char>, token: Seq<char>)
    ensures
        authorized_spec(Some(header), token) <==> header == "Bearer "@ + token,
{
    reveal_strlit("Bearer ");
    if header == "Bearer "@ + token {
        assert(header.take(7) == "Bearer "@);
        assert(header.skip(7) == token);
    }
    if authorized_spec(Some(header), token) {
        assert(header == header.take(7) + header.skip(7));
    }
}

// ---------------------------------------------------------------------------
// Searches

/// The tool's result count: 10 unless asked, and between 1 and 50.
pub open spec fn search_limit_spec(limit: Option<usize>) -> int {
    let l: int = match limit {
        Some(l) => l as int,
        None => 10,
    };
    if l < 1 {
        1
    } else if l > 50 {
        50
    } else {
        l
    }
}

/// A search is asked only for a query with something besides whitespace;
/// an empty one is refused ("query must not be empty").
pub fn query_given(query: &str) -> (r: bool)
    ensures
        r == (trim(query@).len() > 0),
{
    trim_vec(to_chars(query).as_slice()).len() > 0
}

pub fn search_limit(limit: Option<usize>) -> (r: usize)
    ensures
        r as int == search_limit_spec(limit),
        1 <= r <= 50,
{
    let l = match limit {
        Some(l) => l,
        None => 10,
    };
    if l < 1 {
        1
    } else if l > 50 {
        50
    } else {
        l
    }
}

/// The non-empty pieces of a comma-separated list.
pub open spec fn nonempty(ps: Seq<Seq<char>>) -> Seq<Seq<char>>
    decreases ps.len(),
{
    if ps.len() == 0 {
        seq![]
    } else if ps.last().len() == 0 {
        nonempty(ps.drop_last())
    } else {
        nonempty(ps.drop_last()).push(ps.last())
    }
}

/// Docset ids from `a,b,c` (empty pieces skipped).
pub fn split_docsets(list: &str) -> (r: Vec<String>)
    ensures
        strs(r@) == nonempty(split_spec(list@, ',')),
{
    let ps = split_vec(to_chars(list).as_slice(), ',');
    let ghost pv = seqs(ps@);
    let mut out: Vec<String> = Vec::new();
    let mut i: usize = 0;
    assert(pv.take(0) == Seq::<Seq<char>>::empty());
    while i < ps.len()
        invariant
            i <= ps@.len(),
            pv == seqs(ps@),
            strs(out@) == nonempty(pv.take(i as int)),
        decreases ps@.len() - i,
    {
        assert(pv.take(i + 1).drop_last() == pv.take(i as int));
        assert(pv.take(i + 1).last() == ps@[i as int]@);
        if ps[i].len() > 0 {
            let s = from_chars(ps[i].as_slice());
            let ghost before = strs(out@);
            out.push(s);
            assert(strs(out@) == before.push(s@));
        }
        i = i + 1;
    }
    assert(pv.take(ps@.len() as int) == pv);
    out
}

/// Runs of whitespace in `s` collapsed to single spaces, with none at the
/// ends (`split_whitespace` joined by `" "`).
pub open spec fn collapse_ws(s: Seq<char>) -> Seq<char>
    decreases s.len(),
{
    if s.len() == 0 {
        seq![]
    } else {
        let rest = collapse_ws(s.drop_last());
        if crate::text::is_ws(s.last()) {
            rest
        } else if s.len() >= 2 && crate::text::is_ws(s[s.len() - 2]) && rest.len() > 0 {
            rest + seq![' ', s.last()]
        } else {
            rest.push(s.last())
        }
    }
}

fn collapse_ws_vec(s: &[char]) -> (r: Vec<char>)
    ensures
        r@ == collapse_ws(s@),
{
    let mut out: Vec<char> = Vec::new();
    let mut i: usize = 0;
    assert(s@.take(0) == Seq::<char>::empty());
    while i < s.len()
        invariant
            i <= s@.len(),
            out@ == collapse_ws(s@.take(i as int)),
        decreases s@.len() - i,
    {
        let c = s[i];
        let ghost t = s@.take(i + 1);
        assert(t.drop_last() == s@.take(i as int));
        assert(t.last() == c);
        if crate::text::is_ws_char(c) {
        } else if i >= 1 && crate::text::is_ws_char(s[i - 1]) && out.len() > 0 {
            assert(t[t.len() - 2] == s@[i - 1]);
            out.push(' ');
            out.push(c);
        } else {
            if i >= 1 {
                assert(t[t.len() - 2] == s@[i - 1]);
            }
            out.push(c);
        }
        i = i + 1;
    }
    assert(s@.take(s@.len() as int) == s@);
    out
}

/// One hit as `search_docs` lists it: the rank, name, label (the entry type
/// in brackets for entries, else the heading), where it lives, and the
/// matching text on a line of its own when there is some.
pub open spec fn hit_lines(rank: nat, h: HitView) -> Seq<char> {
    let label = if h.kind@ == "entry"@ {
        "["@ + h.entry_type@ + "]"@
    } else {
        h.heading@
    };
    let head = decimal(rank) + ". "@ + h.name@ + " — "@ + label + "  (docset: "@ + h.docset@
        + ", path: "@ + h.path@ + ")\n"@;
    if h.snippet@.len() > 0 {
        head + "   "@ + collapse_ws(h.snippet@) + "\n"@
    } else {
        head
    }
}

pub open spec fn hits_text(hits: Seq<HitView>) -> Seq<char>
    decreases hits.len(),
{
    if hits.len() == 0 {
        seq![]
    } else {
        hits_text(hits.drop_last()) + hit_lines(hits.len(), hits.last())
    }
}

/// What `search_docs` answers: the ranked hits, or a note that there are none.
pub open spec fn search_text(query: Seq<char>, hits: Seq<HitView>) -> Seq<char> {
    if hits.len() == 0 {
        "No results for `"@ + query + "`."@
    } else {
        hits_text(hits)
    }
}

fn push_hit(out: &mut Vec<char>, rank: u64, h: &HitView)
    ensures
        final(out)@ == old(out)@ + hit_lines(rank as nat, *h),
{
    let ghost start = out@;
    push_decimal(out, rank);
    push_str(out, ". ");
    push_str(out, h.name.as_str());
    push_str(out, " — ");
    proof {
        reveal_strlit("entry");
    }
    let is_entry = crate::text::eq_str(to_chars(h.kind.as_str()).as_slice(), "entry");
    let ghost before_label = out@;
    if is_entry {
        push_str(out, "[");
        push_str(out, h.entry_type.as_str());
        push_str(out, "]");
    } else {
        push_str(out, h.heading.as_str());
    }
    push_str(out, "  (docset: ");
    push_str(out, h.docset.as_str());
    push_str(out, ", path: ");
    push_str(out, h.path.as_str());
    push_str(out, ")\n");
    let sn = to_chars(h.snippet.as_str());
    if sn.len() > 0 {
        push_str(out, "   ");
        push_all(out, &collapse_ws_vec(sn.as_slice()));
        push_str(out, "\n");
    }
}

/// The text of a `search_docs` answer.
pub fn format_hits(query: &str, hits: &Vec<HitView>) -> (r: String)
    ensures
        r@ == search_text(query@, hits@),
{
    let mut out: Vec<char> = Vec::new();
    if hits.len() == 0 {
        push_str(&mut out, "No results for `");
        push_str(&mut out, query);
        push_str(&mut out, "`.");
        return from_chars(&out);
    }
    let mut i: usize = 0;
    assert(hits@.take(0) == Seq::<HitView>::empty());
    while i < hits.len()
        invariant
            i <= hits@.len(),
            out@ == hits_text(hits@.take(i as int)),
        decreases hits@.len() - i,
    {
        assert(hits@.take(i + 1).drop_last() == hits@.take(i as int));
        push_hit(&mut out, (i + 1) as u64, &hits[i]);
        i = i + 1;
    }
    assert(hits@.take(hits@.len() as int) == hits@);
    from_chars(&out)
}

/// One installed docset as `list_docsets` lists it.
pub open spec fn docset_line(id: Seq<char>, name: Seq<char>, version: Seq<char>) -> Seq<char> {
    id + ": "@ + name + " "@ + version + "\n"@
}

pub open spec fn docsets_text(ds: Seq<crate::store::Docset>) -> Seq<char>
    decreases ds.len(),
{
    if ds.len() == 0 {
        seq![]
    } else {
        docsets_text(ds.drop_last()) + docset_line(
            ds.last().id@,
            ds.last().name@,
            ds.last().version@,
        )
    }
}

/// What `list_docsets` answers: a line per installed docset, or how to
/// install some.
pub fn format_docsets(ds: &Vec<crate::store::Docset>) -> (r: String)
    ensures
        r@ == if ds@.len() == 0 {
            "No docsets installed. The user can install some with `dai install <slug>`."@
        } else {
            docsets_text(ds@)
        },
{
    let mut out: Vec<char> = Vec::new();
    if ds.len() == 0 {
        push_str(&mut out, "No docsets installed. The user can install some with `dai install <slug>`.");
        return from_chars(&out);
    }
    let mut i: usize = 0;
    assert(ds@.take(0) == Seq::<crate::store::Docset>::empty());
    while i < ds.len()
        invariant
            i <= ds@.len(),
            out@ == docsets_text(ds@.take(i as int)),
        decreases ds@.len() - i,
    {
        assert(ds@.take(i + 1).drop_last() == ds@.take(i as int));
        push_str(&mut out, ds[i].id.as_str());
        push_str(&mut out, ": ");
        push_str(&mut out, ds[i].name.as_str());
        push_str(&mut out, " ");
        push_str(&mut out, ds[i].version.as_str());
        push_str(&mut out, "\n");
        i = i + 1;
    }
    assert(ds@.take(ds@.len() as int) == ds@);
    from_chars(&out)
}

/// What `get_doc` answers: a comment naming the page, its source and the
/// window's range (and where to continue), then the window's markdown.
pub open spec fn doc_text(p: DocPage) -> Seq<char> {
    let end: nat = match p.next_offset {
        Some(n) => n as nat,
        None => p.total_chars as nat,
    };
    "<!-- "@ + p.docset@ + " "@ + p.path@ + " | source: "@ + p.url@ + " | chars "@ + decimal(
        p.offset as nat,
    ) + "-"@ + decimal(end) + " of "@ + decimal(p.total_chars as nat) + match p.next_offset {
        Some(n) => " | next_offset: "@ + decimal(n as nat),
        None => seq![],
    } + " -->\n\n"@ + p.markdown@
}

pub fn format_doc(p: &DocPage) -> (r: String)
    ensures
        r@ == doc_text(*p),
{
    let end = match p.next_offset {
        Some(n) => n,
        None => p.total_chars,
    };
    let mut out: Vec<char> = Vec::new();
    push_str(&mut out, "<!-- ");
    push_str(&mut out, p.docset.as_str());
    push_str(&mut out, " ");
    push_str(&mut out, p.path.as_str());
    push_str(&mut out, " | source: ");
    push_str(&mut out, p.url.as_str());
    push_str(&mut out, " | chars ");
    push_decimal(&mut out, p.offset as u64);
    push_str(&mut out, "-");
    push_decimal(&mut out, end as u64);
    push_str(&mut out, " of ");
    push_decimal(&mut out, p.total_chars as u64);
    match p.next_offset {
        Some(n) => {
            push_str(&mut out, " | next_offset: ");
            push_decimal(&mut out, n as u64);
        },
        None => {},
    }
    push_str(&mut out, " -->\n\n");
    push_str(&mut out, p.markdown.as_str());
    from_chars(&out)
}

// ---------------------------------------------------------------------------
// Install progress

/// The step an install is at: indexing is one step of its own; a download
/// of known size counts whole percents, one of unknown size every 4 MiB.
pub open spec fn progress_step_spec(indexing: bool, bytes: u64, total: Option<u64>) -> int {
    if indexing {
        u64::MAX - 1
    } else {
        match total {
            Some(t) => if t > 0 {
                (bytes * 100) / (t as int)
            } else {
                (bytes / 4194304) as int
            },
            None => (bytes / 4194304) as int,
        }
    }
}

pub fn progress_step(indexing: bool, bytes: u64, total: Option<u64>) -> (r: u64)
    requires
        indexing || bytes * 100 <= u64::MAX,
    ensures
        r as int == progress_step_spec(indexing, bytes, total),
{
    if indexing {
        return u64::MAX - 1;
    }
    match total {
        Some(t) => if t > 0 {
            (bytes * 100) / t
        } else {
            bytes / 4194304
        },
        None => bytes / 4194304,
    }
}

/// An event is sent when the step differs from the last one sent.
pub fn should_report(last_step: u64, step: u64) -> (r: bool)
    ensures
        r == (last_step != step),
{
    last_step != step
}

// ---------------------------------------------------------------------------
// The viewer shell

/// `s` with `&`, `<` and `>` escaped for HTML text.
pub open spec fn html_escape_spec(s: Seq<char>) -> Seq<char>
    decreases s.len(),
{
    if s.len() == 0 {
        seq![]
    } else {
        html_escape_spec(s.drop_last()) + if s.last() == '&' {
            "&amp;"@
        } else if s.last() == '<' {
            "&lt;"@
        } else if s.last() == '>' {
            "&gt;"@
        } else {
            seq![s.last()]
        }
    }
}

/// Escaped text holds no `<` or `>`: it cannot open or close a tag.
pub proof fn lemma_escaped_has_no_tags(s: Seq<char>)
    ensures
        !crate::text::has_char(html_escape_spec(s), '<'),
        !crate::text::has_char(html_escape_spec(s), '>'),
    decreases s.len(),
{
    if s.len() > 0 {
        lemma_escaped_has_no_tags(s.drop_last());
        reveal_strlit("&amp;");
        reveal_strlit("&lt;");
        reveal_strlit("&gt;");
        let a = html_escape_spec(s.drop_last());
        let b = if s.last() == '&' {
            "&amp;"@
        } else if s.last() == '<' {
            "&lt;"@
        } else if s.last() == '>' {
            "&gt;"@
        } else {
            seq![s.last()]
        };
        assert(html_escape_spec(s) == a + b);
        assert forall|j: int| 0 <= j < (a + b).len() implies (a + b)[j] != '<' && (a + b)[j] != '>' by {
            if j >= a.len() {
                assert((a + b)[j] == b[j - a.len()]);
            } else {
                assert((a + b)[j] == a[j]);
            }
        }
    }
}

pub fn html_escape(s: &str) -> (r: String)
    ensures
        r@ == html_escape_spec(s@),
        !crate::text::has_char(r@, '<'),
        !crate::text::has_char(r@, '>'),
{
    proof {
        lemma_escaped_has_no_tags(s@);
    }
    let cs = to_chars(s);
    let mut out: Vec<char> = Vec::new();
    let mut i: usize = 0;
    assert(cs@.take(0) == Seq::<char>::empty());
    while i < cs.len()
        invariant
            i <= cs@.len(),
            cs@ == s@,
            out@ == html_escape_spec(cs@.take(i as int)),
        decreases cs@.len() - i,
    {
        assert(cs@.take(i + 1).drop_last() == cs@.take(i as int));
        let c = cs[i];
        if c == '&' {
            push_str(&mut out, "&amp;");
        } else if c == '<' {
            push_str(&mut out, "&lt;");
        } else if c == '>' {
            push_str(&mut out, "&gt;");
        } else {
            out.push(c);
        }
        i = i + 1;
    }
    assert(cs@.take(cs@.len() as int) == cs@);
    from_chars(&out)
}

/// The viewer's stylesheet (light and dark).
pub const VIEWER_STYLE: &'static str = r#"
:root {
  color-scheme: light dark;
  --bg: #ffffff; --fg: #1f2328; --muted: #59636e; --border: #d1d9e0;
  --code-bg: #f6f8fa; --link: #0969da; --accent-bg: #ddf4ff;
}
@media (prefers-color-scheme: dark) {
  :root {
    --bg: #16181d; --fg: #e6e8eb; --muted: #9198a1; --border: #30363d;
    --code-bg: #1f2329; --link: #58a6ff; --accent-bg: #16273d;
  }
}
* { box-sizing: border-box; }
html { background: var(--bg); color: var(--fg); }
body {
  margin: 0; padding: 24px 32px 64px;
  font: 15px/1.6 system-ui, -apple-system, "Segoe UI", sans-serif;
}
main { max-width: 860px; margin: 0 auto; overflow-wrap: anywhere; }
h1, h2, h3, h4 { line-height: 1.25; margin: 1.6em 0 0.6em; }
h1 { font-size: 1.9em; margin-top: 0.2em; }
h2 { font-size: 1.4em; padding-bottom: 0.3em; border-bottom: 1px solid var(--border); }
a { color: var(--link); text-decoration: none; }
a:hover { text-decoration: underline; }
code, pre { font: 13px/1.5 ui-monospace, SFMono-Regular, Menlo, Consolas, monospace; }
code { background: var(--code-bg); padding: 0.15em 0.35em; border-radius: 4px; }
pre { background: var(--code-bg); padding: 12px 14px; border-radius: 6px; overflow-x: auto; }
pre code { background: none; padding: 0; }
table { border-collapse: collapse; margin: 1em 0; display: block; overflow-x: auto; }
th, td { border: 1px solid var(--border); padding: 6px 10px; text-align: left; vertical-align: top; }
blockquote, .note, ._note { margin: 1em 0; padding: 8px 14px; background: var(--accent-bg); border-radius: 6px; }
img { max-width: 100%; }
dt { font-weight: 600; margin-top: 1em; }
"#;

/// Reports the current page to the parent window and routes external links
/// out to the system browser (the parent handles both messages).
pub const VIEWER_SCRIPT: &'static str = r#"
parent.postMessage({ type: "dai:page", docset: DAI_DOCSET, path: DAI_PATH, title: document.title }, "*");
document.addEventListener("click", (e) => {
  const a = e.target.closest("a[href]");
  if (!a || a.origin === location.origin) return;
  e.preventDefault();
  parent.postMessage({ type: "dai:external", url: a.href }, "*");
});
"#;

/// A page's HTML in the viewer shell: titled by the last part of its path,
/// styled, and with a script that knows the page's docset and path (as JSON
/// strings).
pub open spec fn wrap_spec(docset: Seq<char>, path: Seq<char>, html: Seq<char>) -> Seq<char> {
    let title = crate::generate::after_last(path, '/', '/');
    "<!doctype html><html><head><meta charset=\"utf-8\"><title>"@ + html_escape_spec(title)
        + "</title><style>"@ + VIEWER_STYLE@ + "</style></head><body><main>"@ + html
        + "</main><script>const DAI_DOCSET = "@ + json_quoted(docset) + "; const DAI_PATH = "@
        + json_quoted(path) + ";"@ + VIEWER_SCRIPT@ + "</script></body></html>"@
}

pub fn wrap(docset: &str, path: &str, html: &str) -> (r: String)
    ensures
        r@ == wrap_spec(docset@, path@, html@),
{
    let title = from_chars(&crate::generate::after_last_vec(to_chars(path).as_slice(), '/', '/'));
    let mut out: Vec<char> = Vec::new();
    push_str(&mut out, "<!doctype html><html><head><meta charset=\"utf-8\"><title>");
    push_str(&mut out, html_escape(title.as_str()).as_str());
    push_str(&mut out, "</title><style>");
    push_str(&mut out, VIEWER_STYLE);
    push_str(&mut out, "</style></head><body><main>");
    push_str(&mut out, html);
    push_str(&mut out, "</main><script>const DAI_DOCSET = ");
    push_str(&mut out, json_string(docset).as_str());
    push_str(&mut out, "; const DAI_PATH = ");
    push_str(&mut out, json_string(path).as_str());
    push_str(&mut out, ";");
    push_str(&mut out, VIEWER_SCRIPT);
    push_str(&mut out, "</script></body></html>");
    from_chars(&out)
}

// ---------------------------------------------------------------------------
// Finding the daemon

/// What `u16::from_str` accepts: an optional `+`, then ASCII digits (at
/// least one) whose value fits.
pub open spec fn port_text(s: Seq<char>) -> Option<u16> {
    let d = if s.len() > 0 && s[0] == '+' {
        s.skip(1)
    } else {
        s
    };
    if d.len() > 0 && all_ascii_digits(d) && dec_value(d) <= u16::MAX {
        Some(dec_value(d) as u16)
    } else {
        None
    }
}

pub fn parse_port(s: &str) -> (r: Option<u16>)
    ensures
        r == port_text(s@),
{
    let cs = to_chars(s);
    let start: usize = if cs.len() > 0 && cs[0] == '+' {
        1
    } else {
        0
    };
    let ghost d = cs@.skip(start as int);
    assert(d == (if s@.len() > 0 && s@[0] == '+' {
        s@.skip(1)
    } else {
        s@
    }));
    if start >= cs.len() {
        assert(d.len() == 0);
        return None;
    }
    let mut v: u32 = 0;
    let mut i: usize = start;
    assert(cs@.subrange(start as int, start as int) =~= Seq::<char>::empty());
    while i < cs.len()
        invariant
            cs@ == s@,
            start == (if cs@.len() > 0 && cs@[0] == '+' {
                1usize
            } else {
                0usize
            }),
            start <= i <= cs@.len(),
            start < cs@.len(),
            d == cs@.skip(start as int),
            d == (if s@.len() > 0 && s@[0] == '+' {
                s@.skip(1)
            } else {
                s@
            }),
            all_ascii_digits(cs@.subrange(start as int, i as int)),
            v as int == dec_value(cs@.subrange(start as int, i as int)),
            v <= u16::MAX,
        decreases cs@.len() - i,
    {
        let c = cs[i];
        let ghost pre = cs@.subrange(start as int, i as int);
        assert(cs@.subrange(start as int, i + 1) == pre.push(c));
        assert(cs@.subrange(start as int, i + 1).drop_last() == pre);
        if !('0' <= c && c <= '9') {
            proof {
                assert(d[i - start] == c);
                assert(!is_digit(d[i - start]));
                assert(!all_ascii_digits(d));
            }
            return None;
        }
        let digit: u32 = (c as u32) - ('0' as u32);
        assert(digit as int == digit_value(c));
        let next = v * 10 + digit;
        assert(dec_value(cs@.subrange(start as int, i + 1)) == next as int);
        if next > 65535 {
            proof {
                assert(d.take((i - start + 1) as int) == cs@.subrange(start as int, i + 1));
                if all_ascii_digits(d) {
                    lemma_dec_value_grows(d, (i - start + 1) as int);
                    assert(dec_value(d) > 65535);
                }
                assert(port_text(s@) is None);
            }
            return None;
        }
        v = next;
        i = i + 1;
    }
    assert(cs@.subrange(start as int, cs@.len() as int) == d);
    assert(d.len() > 0 && all_ascii_digits(d) && dec_value(d) <= u16::MAX);
    Some(v as u16)
}

proof fn lemma_dec_value_nonneg(d: Seq<char>)
    requires
        all_ascii_digits(d),
    ensures
        dec_value(d) >= 0,
    decreases d.len(),
{
    if d.len() > 0 {
        assert(all_ascii_digits(d.drop_last()));
        lemma_dec_value_nonneg(d.drop_last());
        assert(is_digit(d[d.len() - 1]));
    }
}

/// A longer digit prefix never has a smaller value.
proof fn lemma_dec_value_grows(d: Seq<char>, k: int)
    requires
        0 <= k <= d.len(),
        all_ascii_digits(d),
    ensures
        dec_value(d.take(k)) <= dec_value(d),
    decreases d.len() - k,
{
    if k < d.len() {
        assert(d.take(k + 1).drop_last() == d.take(k));
        assert(all_ascii_digits(d.take(k)));
        lemma_dec_value_nonneg(d.take(k));
        assert(is_digit(d[k]));
        assert(d.take(k + 1).last() == d[k]);
        lemma_dec_value_grows(d, k + 1);
    } else {
        assert(d.take(k) == d);
    }
}

/// The daemon's port: `$DAI_PORT` when it is a port number, else the
/// running daemon's recorded port, else the default.
pub fn choose_port(env: Option<&str>, recorded: Option<u16>) -> (r: u16)
    ensures
        r == match (
            match env {
                Some(e) => port_text(e@),
                None => None,
            },
            recorded,
        ) {
            (Some(p), _) => p,
            (None, Some(p)) => p,
            (None, None) => default_port(),
        },
{
    let from_env = match env {
        Some(e) => parse_port(e),
        None => None,
    };
    match (from_env, recorded) {
        (Some(p), _) => p,
        (None, Some(p)) => p,
        (None, None) => 4747,
    }
}

/// The daemon's address on the loopback interface.
pub fn daemon_base_url(port: u16) -> (r: String)
    ensures
        r@ == "http://127.0.0.1:"@ + decimal(port as nat),
{
    let mut out: Vec<char> = Vec::new();
    push_str(&mut out, "http://127.0.0.1:");
    push_decimal(&mut out, port as u64);
    from_chars(&out)
}

/// A health answer comes from DAI.
pub fn is_dai(h: &Health) -> (r: bool)
    ensures
        r == (h.app@ == "dai"@),
{
    crate::text::eq_str(to_chars(h.app.as_str()).as_slice(), "dai")
}

/// DAI's own health answer.
pub fn health(version: &str) -> (r: Health)
    ensures
        r.app@ == "dai"@,
        r.version@ == version@,
{
    Health { app: from_chars(&to_chars("dai")), version: from_chars(&to_chars(version)) }
}

// ---------------------------------------------------------------------------
// Event streams

/// The data of a server-sent event: its `data:` lines, each without the
/// prefix and leading whitespace, concatenated.
pub open spec fn sse_data(ls: Seq<Seq<char>>) -> Seq<char>
    decreases ls.len(),
{
    if ls.len() == 0 {
        seq![]
    } else if starts_with(ls.last(), "data:"@) {
        sse_data(ls.drop_last()) + trim_start(ls.last().skip(5))
    } else {
        sse_data(ls.drop_last())
    }
}

/// Index of the first blank line (`\n\n`) in `s`, or -1.
pub open spec fn event_end(s: Seq<char>, from: int) -> int
    decreases s.len() - from,
{
    if from < 0 || from + 2 > s.len() {
        -1
    } else if s[from] == '\n' && s[from + 1] == '\n' {
        from
    } else {
        event_end(s, from + 1)
    }
}

proof fn lemma_event_end(s: Seq<char>, from: int)
    requires
        0 <= from,
    ensures
        event_end(s, from) == -1 || (from <= event_end(s, from) && event_end(s, from) + 2 <= s.len()),
    decreases s.len() - from,
{
    if from + 2 <= s.len() && !(s[from] == '\n' && s[from + 1] == '\n') {
        lemma_event_end(s, from + 1);
    }
}

/// The first complete event in a stream buffer (events end with a blank
/// line): its data and what follows it.
pub open spec fn next_event_spec(buf: Seq<char>) -> Option<(Seq<char>, Seq<char>)> {
    let e = event_end(buf, 0);
    if e < 0 {
        None
    } else {
        Some((sse_data(lines(buf.take(e + 2))), buf.skip(e + 2)))
    }
}

pub fn next_event(buf: &str) -> (r: Option<(String, String)>)
    ensures
        match r {
            Some((data, rest)) => next_event_spec(buf@) == Some((data@, rest@)),
            None => next_event_spec(buf@) is None,
        },
{
    let cs = to_chars(buf);
    proof {
        lemma_event_end(cs@, 0);
    }
    let mut k: usize = 0;
    while cs.len() - k >= 2 && !(cs[k] == '\n' && cs[k + 1] == '\n')
        invariant
            k <= cs@.len(),
            event_end(cs@, k as int) == event_end(cs@, 0),
        decreases cs@.len() - k,
    {
        k = k + 1;
    }
    if cs.len() < 2 || cs.len() - k < 2 {
        return None;
    }
    let block = crate::text::copy_range(&cs, 0, k + 2);
    let rest = crate::text::copy_range(&cs, k + 2, cs.len());
    let ls = crate::text::lines_vec(block.as_slice());
    let ghost lv = seqs(ls@);
    let mut data: Vec<char> = Vec::new();
    let mut i: usize = 0;
    assert(lv.take(0) == Seq::<Seq<char>>::empty());
    proof {
        reveal_strlit("data:");
    }
    while i < ls.len()
        invariant
            i <= ls@.len(),
            lv == seqs(ls@),
            data@ == sse_data(lv.take(i as int)),
        decreases ls@.len() - i,
    {
        assert(lv.take(i + 1).drop_last() == lv.take(i as int));
        assert(lv.take(i + 1).last() == ls@[i as int]@);
        proof {
            reveal_strlit("data:");
        }
        if starts_with_str(ls[i].as_slice(), "data:") {
            let after = crate::text::copy_range(ls[i].as_slice(), 5, ls[i].len());
            assert(after@ == ls@[i as int]@.skip(5));
            push_all(&mut data, crate::text::trim_start_vec(after.as_slice()).as_slice());
        }
        i = i + 1;
    }
    assert(lv.take(ls@.len() as int) == lv);
    Some((from_chars(&data), from_chars(&rest)))
}

// ---------------------------------------------------------------------------
// Deep links

/// A page the app is asked to show.
#[derive(Debug, Clone)]
pub struct OpenTarget {
    pub docset: String,
    pub path: String,
}

/// What `url::Url::parse` makes of a URL: its scheme, host and decoded
/// query pairs; `None` when it does not parse.
pub uninterp spec fn url_query(s: Seq<char>) -> Option<(Seq<char>, Option<Seq<char>>, Seq<(Seq<char>, Seq<char>)>)>;

pub open spec fn pair_views(v: Seq<(String, String)>) -> Seq<(Seq<char>, Seq<char>)> {
    v.map_values(|p: (String, String)| (p.0@, p.1@))
}

/// Calls `url::Url::parse`, then `scheme`, `host_str` and `query_pairs`.
/// Trusted: the three are a function of `s`.
#[verifier::external_body]
fn parse_query_url(s: &str) -> (r: Option<(String, Option<String>, Vec<(String, String)>)>)
    ensures
        match r {
            Some((sc, h, q)) => url_query(s@) == Some((sc@, crate::generate::opt_str(h), pair_views(q@))),
            None => url_query(s@) is None,
        },
{
    let u = url::Url::parse(s).ok()?;
    Some((
        u.scheme().to_string(),
        u.host_str().map(|h| h.to_string()),
        u.query_pairs().map(|(k, v)| (k.into_owned(), v.into_owned())).collect(),
    ))
}

/// The value of the first pair with key `key`.
pub open spec fn first_value(q: Seq<(Seq<char>, Seq<char>)>, key: Seq<char>) -> Option<Seq<char>>
    decreases q.len(),
{
    if q.len() == 0 {
        None
    } else if q[0].0 == key {
        Some(q[0].1)
    } else {
        first_value(q.drop_first(), key)
    }
}

fn first_value_vec(q: &Vec<(String, String)>, key: &str) -> (r: Option<String>)
    ensures
        match r {
            Some(v) => first_value(pair_views(q@), key@) == Some(v@),
            None => first_value(pair_views(q@), key@) is None,
        },
{
    let ghost qv = pair_views(q@);
    let mut i: usize = 0;
    assert(qv.skip(0) == qv);
    while i < q.len()
        invariant
            i <= q@.len(),
            qv == pair_views(q@),
            first_value(qv.skip(i as int), key@) == first_value(qv, key@),
        decreases q@.len() - i,
    {
        assert(qv.skip(i as int)[0] == (q@[i as int].0@, q@[i as int].1@));
        if crate::text::eq_str(to_chars(q[i].0.as_str()).as_slice(), key) {
            return Some(from_chars(&to_chars(q[i].1.as_str())));
        }
        assert(qv.skip(i as int).drop_first() == qv.skip(i + 1));
        i = i + 1;
    }
    assert(qv.skip(q@.len() as int) == Seq::<(Seq<char>, Seq<char>)>::empty());
    None
}

/// `dai://open?docset=react&path=reference/react/useeffect`: the page a
/// deep link asks for.
pub open spec fn open_target_spec(url: Seq<char>) -> Option<(Seq<char>, Seq<char>)> {
    match url_query(url) {
        Some((scheme, host, q)) => if scheme == "dai"@ && host == Some("open"@) {
            match (first_value(q, "docset"@), first_value(q, "path"@)) {
                (Some(d), Some(p)) => Some((d, p)),
                _ => None,
            }
        } else {
            None
        },
        None => None,
    }
}

pub fn parse_open_url(url: &str) -> (r: Option<OpenTarget>)
    ensures
        match r {
            Some(t) => open_target_spec(url@) == Some((t.docset@, t.path@)),
            None => open_target_spec(url@) is None,
        },
{
    let (scheme, host, q) = match parse_query_url(url) {
        Some(x) => x,
        None => return None,
    };
    let ok_scheme = crate::text::eq_str(to_chars(scheme.as_str()).as_slice(), "dai");
    let ok_host = match &host {
        Some(h) => crate::text::eq_str(to_chars(h.as_str()).as_slice(), "open"),
        None => false,
    };
    if !ok_scheme || !ok_host {
        return None;
    }
    let docset = match first_value_vec(&q, "docset") {
        Some(d) => d,
        None => return None,
    };
    let path = match first_value_vec(&q, "path") {
        Some(p) => p,
        None => return None,
    };
    Some(OpenTarget { docset, path })
}

} // verus!
