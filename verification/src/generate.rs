//! Generated markdown docsets, for libraries without a DevDocs/Dash docset or
//! with stale ones: where they come from, what they are named, and how a
//! source's text becomes pages.

use vstd::prelude::*;
use crate::dash::{plain_relative, plain_relative_vec};
use crate::markdown::fence_open_after;
use crate::normalize::{fence_line, is_fence};
use crate::paths::{components, components_vec, is_name, is_name_vec};
use crate::snippets::{slug_spec, slugify};
use crate::text::{
    copy_range, decimal, drop_suffix, ends_with, ends_with_str, eq_chars, eq_str, from_chars,
    join, lemma_decimal_injective, lemma_decimal_len, lemma_join_push, push_all, push_decimal,
    push_str, seqs, split_spec, split_vec, strs, to_chars, trim_end_char, trim_end_char_vec,
    trim_end_str, trim_end_str_vec, trim_start_char, trim_start_char_vec, lines, lines_vec,
    starts_with, starts_with_str, trim, trim_start, trim_start_vec, trim_vec, find_char_from,
};

verus! {

/// Docset ids for generated docsets are `md:<slug>`, e.g. `md:svelte`.
pub const ID_PREFIX: &'static str = "md:";

/// Where a generated docset comes from; stored in its manifest so an update
/// re-runs the same generator.
#[derive(Debug, Clone)]
pub enum Source {
    /// A site's `llms-full.txt` / `llms.txt` (the site root or the file's URL).
    Llms { url: String },
    /// A git repository's README and docs folders (shallow clone).
    Repo { url: String, git_ref: Option<String> },
    /// Markdown files in a local folder.
    Dir { path: String },
    /// Context7 results for a library, one page per topic.
    Context7 { library_id: String, topics: Vec<String> },
}

/// A generated docset's manifest: its name, version, and how to regenerate it.
#[derive(Debug, Clone)]
pub struct Manifest {
    pub name: String,
    pub version: String,
    /// Unix seconds.
    pub generated_at: i64,
    pub source: Source,
}

/// One page of a generated docset.
#[derive(Debug, Clone)]
pub struct GeneratedPage {
    /// Relative path under `pages/`, ending in `.md` or `.mdx`.
    pub path: String,
    pub markdown: String,
}

/// What a generator produced.
#[derive(Debug, Clone)]
pub struct Generated {
    pub version: String,
    pub pages: Vec<GeneratedPage>,
    /// Images to copy: (relative path under `pages/`, source file).
    pub assets: Vec<(String, String)>,
}

/// A library as Context7's search lists it.
#[derive(Debug, Clone)]
pub struct Context7Library {
    pub id: String,
    pub title: String,
    pub description: String,
    pub total_tokens: u64,
    pub total_snippets: u64,
    pub versions: Vec<String>,
}

pub open spec fn page_views(ps: Seq<GeneratedPage>) -> Seq<(Seq<char>, Seq<char>)> {
    ps.map_values(|p: GeneratedPage| (p.path@, p.markdown@))
}

pub open spec fn source_kind(s: Source) -> Seq<char> {
    match s {
        Source::Llms { .. } => "llms"@,
        Source::Repo { .. } => "repo"@,
        Source::Dir { .. } => "dir"@,
        Source::Context7 { .. } => "context7"@,
    }
}

pub open spec fn source_origin(s: Source) -> Seq<char> {
    match s {
        Source::Llms { url } => url@,
        Source::Repo { url, .. } => url@,
        Source::Dir { path } => path@,
        Source::Context7 { library_id, .. } => library_id@,
    }
}

// ---------------------------------------------------------------------------
// Default names

/// What `url::Url::parse` makes of a URL: its serialization, its host, and
/// its path segments (none for a URL that cannot be a base); `None` when it
/// does not parse.
pub uninterp spec fn url_view(s: Seq<char>) -> Option<(Seq<char>, Option<Seq<char>>, Seq<Seq<char>>)>;

pub open spec fn opt_str(o: Option<String>) -> Option<Seq<char>> {
    match o {
        Some(s) => Some(s@),
        None => None,
    }
}

/// Calls `url::Url::parse`, then `as_str`, `host_str` and `path_segments`
/// on the result. Trusted: the three are a function of `s`.
#[verifier::external_body]
fn parse_url(s: &str) -> (r: Option<(String, Option<String>, Vec<String>)>)
    ensures
        match r {
            Some((t, h, segs)) => url_view(s@) == Some((t@, opt_str(h), strs(segs@))),
            None => url_view(s@) is None,
        },
{
    match url::Url::parse(s) {
        Ok(u) => Some((
            u.as_str().to_string(),
            u.host_str().map(|h| h.to_string()),
            u.path_segments().into_iter().flatten().map(|p| p.to_string()).collect(),
        )),
        Err(_) => None,
    }
}

/// Host labels that say nothing about the library.
pub open spec fn is_noise_label(l: Seq<char>) -> bool {
    l == "www"@ || l == "docs"@
}

/// Path segments that say nothing about the library.
pub open spec fn is_noise_segment(s: Seq<char>) -> bool {
    s.len() == 0 || s == "latest"@ || s == "docs"@ || s == "llms.txt"@ || s == "llms-full.txt"@
        || s == "en"@ || s == "v1"@ || s == "v2"@ || s == "stable"@
}

pub open spec fn keep_labels(ls: Seq<Seq<char>>) -> Seq<Seq<char>>
    decreases ls.len(),
{
    if ls.len() == 0 {
        seq![]
    } else if is_noise_label(ls.last()) {
        keep_labels(ls.drop_last())
    } else {
        keep_labels(ls.drop_last()).push(ls.last())
    }
}

pub open spec fn keep_segments(ss: Seq<Seq<char>>) -> Seq<Seq<char>>
    decreases ss.len(),
{
    if ss.len() == 0 {
        seq![]
    } else if is_noise_segment(ss.last()) {
        keep_segments(ss.drop_last())
    } else {
        keep_segments(ss.drop_last()).push(ss.last())
    }
}

/// The name of an `llms.txt` source: the host without its TLD, `www` and
/// `docs`, then the telling path segments, slugified; the slug of the whole
/// text when it is not a URL.
pub open spec fn llms_name(url: Seq<char>) -> Seq<char> {
    match url_view(url) {
        None => slug_spec(url),
        Some((_, host, segs)) => {
            let h = match host {
                Some(h) => h,
                None => "docs"@,
            };
            let labels = split_spec(h, '.');
            let labels = if labels.len() > 1 {
                labels.drop_last()
            } else {
                labels
            };
            slug_spec(join(keep_labels(labels) + keep_segments(segs), " "@))
        },
    }
}

/// What follows the last `a` or `b` in `s` (all of `s` when there is none).
pub open spec fn after_last(s: Seq<char>, a: char, b: char) -> Seq<char>
    decreases s.len(),
{
    if s.len() == 0 {
        seq![]
    } else if s.last() == a || s.last() == b {
        seq![]
    } else {
        after_last(s.drop_last(), a, b).push(s.last())
    }
}

/// The file name of a path: its last component, when that is a name.
pub open spec fn file_name(p: Seq<char>) -> Option<Seq<char>> {
    let cs = components(p);
    if cs.len() > 0 && is_name(cs.last()) {
        Some(cs.last())
    } else {
        None
    }
}

/// A name derived from the source alone (so the docset id is known before
/// anything is fetched).
pub open spec fn default_name_spec(s: Source) -> Seq<char> {
    match s {
        Source::Llms { url } => llms_name(url@),
        Source::Repo { url, .. } => slug_spec(
            trim_end_str(after_last(trim_end_char(url@, '/'), '/', ':'), ".git"@),
        ),
        Source::Dir { path } => slug_spec(
            match file_name(path@) {
                Some(n) => n,
                None => path@,
            },
        ),
        Source::Context7 { library_id, .. } => slug_spec(
            after_last(trim_end_char(library_id@, '/'), '/', '/'),
        ) + "-context7"@,
    }
}

pub(crate) fn after_last_vec(s: &[char], a: char, b: char) -> (r: Vec<char>)
    ensures
        r@ == after_last(s@, a, b),
{
    let mut i: usize = s.len();
    while i > 0 && s[i - 1] != a && s[i - 1] != b
        invariant
            i <= s@.len(),
            forall|j: int| i <= j < s@.len() ==> s@[j] != a && s@[j] != b,
        decreases i,
    {
        i = i - 1;
    }
    proof {
        lemma_after_last(s@, a, b, i as int);
    }
    copy_range(s, i, s.len())
}

proof fn lemma_after_last(s: Seq<char>, a: char, b: char, i: int)
    requires
        0 <= i <= s.len(),
        forall|j: int| i <= j < s.len() ==> s[j] != a && s[j] != b,
        i > 0 ==> (s[i - 1] == a || s[i - 1] == b),
    ensures
        after_last(s, a, b) == s.subrange(i, s.len() as int),
    decreases s.len(),
{
    if s.len() > 0 {
        if i == s.len() {
        } else {
            lemma_after_last(s.drop_last(), a, b, i);
            assert(s.subrange(i, s.len() as int) == s.drop_last().subrange(i, s.len() - 1).push(
                s.last(),
            ));
        }
    }
}

fn is_noise_label_vec(l: &Vec<char>) -> (r: bool)
    ensures
        r == is_noise_label(l@),
{
    eq_str(l.as_slice(), "www") || eq_str(l.as_slice(), "docs")
}

fn is_noise_segment_vec(s: &Vec<char>) -> (r: bool)
    ensures
        r == is_noise_segment(s@),
{
    s.len() == 0 || eq_str(s.as_slice(), "latest") || eq_str(s.as_slice(), "docs") || eq_str(
        s.as_slice(),
        "llms.txt",
    ) || eq_str(s.as_slice(), "llms-full.txt") || eq_str(s.as_slice(), "en") || eq_str(
        s.as_slice(),
        "v1",
    ) || eq_str(s.as_slice(), "v2") || eq_str(s.as_slice(), "stable")
}

fn llms_name_exec(url: &str) -> (r: String)
    ensures
        r@ == llms_name(url@),
{
    match parse_url(url) {
        None => slugify(url),
        Some((_, host, segs)) => {
            let h = match host {
                Some(h) => to_chars(h.as_str()),
                None => to_chars("docs"),
            };
            let labels = split_vec(h.as_slice(), '.');
            let ghost lv = seqs(labels@);
            let n = if labels.len() > 1 {
                labels.len() - 1
            } else {
                labels.len()
            };
            let ghost cut = if lv.len() > 1 {
                lv.drop_last()
            } else {
                lv
            };
            assert(cut == lv.take(n as int));
            let mut words: Vec<Vec<char>> = Vec::new();
            let mut i: usize = 0;
            assert(lv.take(0) == Seq::<Seq<char>>::empty());
            while i < n
                invariant
                    i <= n <= labels@.len(),
                    lv == seqs(labels@),
                    seqs(words@) == keep_labels(lv.take(i as int)),
                decreases n - i,
            {
                assert(lv.take(i + 1).drop_last() == lv.take(i as int));
                assert(lv.take(i + 1).last() == labels@[i as int]@);
                if !is_noise_label_vec(&labels[i]) {
                    let c = labels[i].clone();
                    let ghost before = seqs(words@);
                    words.push(c);
                    assert(seqs(words@) == before.push(c@));
                }
                i = i + 1;
            }
            let ghost head = seqs(words@);
            let mut j: usize = 0;
            assert(strs(segs@).take(0) == Seq::<Seq<char>>::empty());
            assert(keep_segments(Seq::<Seq<char>>::empty()) == Seq::<Seq<char>>::empty());
            while j < segs.len()
                invariant
                    j <= segs@.len(),
                    seqs(words@) == head + keep_segments(strs(segs@).take(j as int)),
                decreases segs@.len() - j,
            {
                assert(strs(segs@).take(j + 1).drop_last() == strs(segs@).take(j as int));
                assert(strs(segs@).take(j + 1).last() == segs@[j as int]@);
                let c = to_chars(segs[j].as_str());
                if !is_noise_segment_vec(&c) {
                    let ghost before = seqs(words@);
                    words.push(c);
                    assert(seqs(words@) == before.push(c@));
                }
                j = j + 1;
            }
            assert(strs(segs@).take(segs@.len() as int) == strs(segs@));
            let mut text: Vec<char> = Vec::new();
            let mut k: usize = 0;
            let ghost ws = seqs(words@);
            assert(ws.take(0) == Seq::<Seq<char>>::empty());
            while k < words.len()
                invariant
                    k <= words@.len(),
                    ws == seqs(words@),
                    text@ == join(ws.take(k as int), " "@),
                decreases words@.len() - k,
            {
                proof {
                    lemma_join_push(ws.take(k as int), " "@, words@[k as int]@);
                    assert(ws.take(k + 1) == ws.take(k as int).push(words@[k as int]@));
                }
                if k > 0 {
                    push_str(&mut text, " ");
                }
                push_all(&mut text, words[k].as_slice());
                k = k + 1;
            }
            assert(ws.take(words@.len() as int) == ws);
            slugify(from_chars(&text).as_str())
        },
    }
}

impl Source {
    /// The kind of generator, as stored in the manifest.
    pub fn kind(&self) -> (r: &'static str)
        ensures
            r@ == source_kind(*self),
    {
        match self {
            Source::Llms { .. } => "llms",
            Source::Repo { .. } => "repo",
            Source::Dir { .. } => "dir",
            Source::Context7 { .. } => "context7",
        }
    }

    /// What the generator reads: the URL, the folder, or the library id.
    pub fn origin(&self) -> (r: &str)
        ensures
            r@ == source_origin(*self),
    {
        match self {
            Source::Llms { url } => url.as_str(),
            Source::Repo { url, .. } => url.as_str(),
            Source::Dir { path } => path.as_str(),
            Source::Context7 { library_id, .. } => library_id.as_str(),
        }
    }

    /// A name derived from the source alone: `https://tanstack.com/query/latest/llms.txt`
    /// → `tanstack-query`, a repo → its name, a folder → its name, a
    /// Context7 library → `<name>-context7`.
    pub fn default_name(&self) -> (r: String)
        ensures
            r@ == default_name_spec(*self),
    {
        match self {
            Source::Llms { url } => llms_name_exec(url.as_str()),
            Source::Repo { url, .. } => {
                let t = trim_end_char_vec(to_chars(url.as_str()).as_slice(), '/');
                let last = after_last_vec(t.as_slice(), '/', ':');
                let stem = trim_end_str_vec(last.as_slice(), to_chars(".git").as_slice());
                slugify(from_chars(&stem).as_str())
            },
            Source::Dir { path } => {
                let cs = components_vec(to_chars(path.as_str()).as_slice());
                let n = cs.len();
                if n > 0 && is_name_vec(&cs[n - 1]) {
                    assert(seqs(cs@).last() == cs@[n - 1]@);
                    slugify(from_chars(cs[n - 1].as_slice()).as_str())
                } else {
                    if n > 0 {
                        assert(seqs(cs@).last() == cs@[n - 1]@);
                    }
                    slugify(path.as_str())
                }
            },
            Source::Context7 { library_id, .. } => {
                let t = trim_end_char_vec(to_chars(library_id.as_str()).as_slice(), '/');
                let last = after_last_vec(t.as_slice(), '/', '/');
                let mut out = to_chars(slugify(from_chars(&last).as_str()).as_str());
                push_str(&mut out, "-context7");
                from_chars(&out)
            },
        }
    }
}

// ---------------------------------------------------------------------------
// Page paths

/// `stem.ext`, then `stem-2.ext`, `stem-3.ext`, …
pub open spec fn numbered(stem: Seq<char>, ext: Seq<char>, n: nat) -> Seq<char> {
    if n == 1 {
        stem + "."@ + ext
    } else {
        stem + "-"@ + decimal(n) + "."@ + ext
    }
}

proof fn lemma_numbered_injective(stem: Seq<char>, ext: Seq<char>, a: nat, b: nat)
    requires
        a >= 1,
        b >= 1,
        a != b,
    ensures
        numbered(stem, ext, a) != numbered(stem, ext, b),
{
    reveal_strlit(".");
    reveal_strlit("-");
    assert("."@.len() == 1);
    assert("-"@.len() == 1);
    lemma_decimal_len(a);
    lemma_decimal_len(b);
    let da = decimal(a);
    let db = decimal(b);
    if a >= 2 {
        assert(numbered(stem, ext, a).len() == stem.len() + 1 + da.len() + 1 + ext.len());
    } else {
        assert(numbered(stem, ext, a).len() == stem.len() + 1 + ext.len());
    }
    if b >= 2 {
        assert(numbered(stem, ext, b).len() == stem.len() + 1 + db.len() + 1 + ext.len());
    } else {
        assert(numbered(stem, ext, b).len() == stem.len() + 1 + ext.len());
    }
    if a >= 2 && b >= 2 && numbered(stem, ext, a) == numbered(stem, ext, b) {
        let x = numbered(stem, ext, a);
        assert(da.len() == db.len());
        assert(x.subrange(stem.len() as int + 1, stem.len() as int + 1 + da.len() as int) == da);
        assert(x.subrange(stem.len() as int + 1, stem.len() as int + 1 + db.len() as int) == db);
        lemma_decimal_injective(a, b);
    }
}

/// Some numbered name among the first `used.len() + 1` is free.
proof fn lemma_some_numbered_free(used: Seq<Seq<char>>, stem: Seq<char>, ext: Seq<char>)
    ensures
        exists|m: nat| 1 <= m <= used.len() + 1 && !used.contains(#[trigger] numbered(stem, ext, m)),
{
    if forall|m: nat| 1 <= m <= used.len() + 1 ==> used.contains(#[trigger] numbered(stem, ext, m)) {
        let c = Seq::new((used.len() + 1) as nat, |i: int| numbered(stem, ext, (i + 1) as nat));
        assert(c.no_duplicates()) by {
            assert forall|i: int, j: int| 0 <= i < c.len() && 0 <= j < c.len() && i != j implies c[i]
                != c[j] by {
                lemma_numbered_injective(stem, ext, (i + 1) as nat, (j + 1) as nat);
            }
        }
        c.unique_seq_to_set();
        used.lemma_cardinality_of_set();
        assert(c.to_set().subset_of(used.to_set())) by {
            assert forall|x: Seq<char>| c.to_set().contains(x) implies used.to_set().contains(x) by {
                let i = choose|i: int| 0 <= i < c.len() && c[i] == x;
                assert(used.contains(numbered(stem, ext, (i + 1) as nat)));
            }
        }
        vstd::set_lib::lemma_len_subset(c.to_set(), used.to_set());
    }
}

fn numbered_vec(stem: &str, ext: &str, n: u64) -> (r: Vec<char>)
    requires
        n >= 1,
    ensures
        r@ == numbered(stem@, ext@, n as nat),
{
    let mut out = to_chars(stem);
    if n > 1 {
        push_str(&mut out, "-");
        push_decimal(&mut out, n);
    }
    push_str(&mut out, ".");
    push_str(&mut out, ext);
    out
}

fn contains_str_vec(v: &Vec<String>, x: &[char]) -> (r: bool)
    ensures
        r == strs(v@).contains(x@),
{
    let mut i: usize = 0;
    while i < v.len()
        invariant
            i <= v@.len(),
            forall|j: int| 0 <= j < i ==> strs(v@)[j] != x@,
        decreases v@.len() - i,
    {
        if eq_chars(to_chars(v[i].as_str()).as_slice(), x) {
            assert(strs(v@)[i as int] == x@);
            return true;
        }
        i = i + 1;
    }
    false
}

/// `n` is the first number whose name is not among `used`.
pub open spec fn first_free(used: Seq<Seq<char>>, stem: Seq<char>, ext: Seq<char>, n: nat) -> bool {
    &&& n >= 1
    &&& !used.contains(numbered(stem, ext, n))
    &&& forall|m: nat| 1 <= m < n ==> used.contains(#[trigger] numbered(stem, ext, m))
}

/// The first name not among `used`: `stem.ext`, or `stem-2.ext`, …
pub open spec fn unique_spec(used: Seq<Seq<char>>, stem: Seq<char>, ext: Seq<char>) -> Seq<char> {
    numbered(stem, ext, choose|n: nat| first_free(used, stem, ext, n))
}

proof fn lemma_unique_at(used: Seq<Seq<char>>, stem: Seq<char>, ext: Seq<char>, n: nat)
    requires
        first_free(used, stem, ext, n),
    ensures
        unique_spec(used, stem, ext) == numbered(stem, ext, n),
{
    let k = choose|k: nat| first_free(used, stem, ext, k);
    assert(first_free(used, stem, ext, k));
    if k < n {
        assert(used.contains(numbered(stem, ext, k)));
    } else if k > n {
        assert(used.contains(numbered(stem, ext, n)));
    }
}

/// `stem.ext`, or `stem-2.ext`, … if already used: the first free one,
/// which is then marked used.
pub fn unique(used: &mut Vec<String>, stem: &str, ext: &str) -> (r: String)
    requires
        old(used)@.len() < u64::MAX,
    ensures
        r@ == unique_spec(strs(old(used)@), stem@, ext@),
        !strs(old(used)@).contains(r@),
        final(used)@ == old(used)@.push(r),
{
    let ghost u = strs(used@);
    let mut n: u64 = 1;
    loop
        invariant
            1 <= n <= used@.len() + 1,
            used@ == old(used)@,
            used@.len() < u64::MAX,
            u == strs(used@),
            forall|m: nat| 1 <= m < n ==> u.contains(#[trigger] numbered(stem@, ext@, m)),
        decreases used@.len() + 1 - n,
    {
        let c = numbered_vec(stem, ext, n);
        if !contains_str_vec(used, c.as_slice()) {
            let r = from_chars(&c);
            assert(r@ == numbered(stem@, ext@, n as nat));
            proof {
                lemma_unique_at(u, stem@, ext@, n as nat);
            }
            used.push(r.clone());
            return r;
        }
        proof {
            if n as int == used@.len() + 1 {
                lemma_some_numbered_free(u, stem@, ext@);
                let m = choose|m: nat| 1 <= m <= u.len() + 1 && !u.contains(#[trigger] numbered(stem@, ext@, m));
                assert(m < n || m == n);
            }
        }
        n = n + 1;
    }
}

// ---------------------------------------------------------------------------
// Pages from text

/// A URL path as a relative page path without extension:
/// `/query/latest/docs/overview.md` → `query/latest/docs/overview`.
pub open spec fn strip_page_ext(t: Seq<char>) -> Seq<char> {
    if ends_with(t, ".md"@) {
        t.take(t.len() - 3)
    } else if ends_with(t, ".txt"@) {
        t.take(t.len() - 4)
    } else if ends_with(t, ".html"@) {
        t.take(t.len() - 5)
    } else {
        t
    }
}

/// The slugs of the non-empty parts.
pub open spec fn slug_parts(ps: Seq<Seq<char>>) -> Seq<Seq<char>>
    decreases ps.len(),
{
    if ps.len() == 0 {
        seq![]
    } else if ps.last().len() == 0 {
        slug_parts(ps.drop_last())
    } else {
        slug_parts(ps.drop_last()).push(slug_spec(ps.last()))
    }
}

pub open spec fn page_stem_spec(url_path: Seq<char>) -> Seq<char> {
    let t = trim_end_char(trim_start_char(url_path, '/'), '/');
    let parts = slug_parts(split_spec(strip_page_ext(t), '/'));
    if parts.len() == 0 {
        "index"@
    } else {
        join(parts, "/"@)
    }
}

pub fn page_stem(url_path: &str) -> (r: String)
    ensures
        r@ == page_stem_spec(url_path@),
{
    proof {
        reveal_strlit(".md");
        reveal_strlit(".txt");
        reveal_strlit(".html");
    }
    let a = trim_start_char_vec(to_chars(url_path).as_slice(), '/');
    let t = trim_end_char_vec(a.as_slice(), '/');
    let w = if ends_with_str(t.as_slice(), ".md") {
        drop_suffix(t.as_slice(), ".md")
    } else if ends_with_str(t.as_slice(), ".txt") {
        drop_suffix(t.as_slice(), ".txt")
    } else if ends_with_str(t.as_slice(), ".html") {
        drop_suffix(t.as_slice(), ".html")
    } else {
        let c = copy_range(t.as_slice(), 0, t.len());
        assert(c@ == t@);
        c
    };
    assert(".md"@.len() == 3 && ".txt"@.len() == 4 && ".html"@.len() == 5);
    assert(w@ == strip_page_ext(t@));
    assert(t@ == trim_end_char(trim_start_char(url_path@, '/'), '/'));
    let ps = split_vec(w.as_slice(), '/');
    let ghost pv = seqs(ps@);
    let mut parts: Vec<Vec<char>> = Vec::new();
    let mut i: usize = 0;
    assert(pv.take(0) == Seq::<Seq<char>>::empty());
    while i < ps.len()
        invariant
            i <= ps@.len(),
            pv == seqs(ps@),
            seqs(parts@) == slug_parts(pv.take(i as int)),
        decreases ps@.len() - i,
    {
        assert(pv.take(i + 1).drop_last() == pv.take(i as int));
        assert(pv.take(i + 1).last() == ps@[i as int]@);
        if ps[i].len() > 0 {
            let sl = to_chars(slugify(from_chars(ps[i].as_slice()).as_str()).as_str());
            let ghost before = seqs(parts@);
            parts.push(sl);
            assert(seqs(parts@) == before.push(sl@));
        }
        i = i + 1;
    }
    assert(pv.take(ps@.len() as int) == pv);
    if parts.len() == 0 {
        return from_chars(&to_chars("index"));
    }
    let mut out: Vec<char> = Vec::new();
    let ghost qv = seqs(parts@);
    let mut k: usize = 0;
    assert(qv.take(0) == Seq::<Seq<char>>::empty());
    while k < parts.len()
        invariant
            k <= parts@.len(),
            qv == seqs(parts@),
            out@ == join(qv.take(k as int), "/"@),
        decreases parts@.len() - k,
    {
        proof {
            lemma_join_push(qv.take(k as int), "/"@, parts@[k as int]@);
            assert(qv.take(k + 1) == qv.take(k as int).push(parts@[k as int]@));
        }
        if k > 0 {
            push_str(&mut out, "/");
        }
        push_all(&mut out, parts[k].as_slice());
        k = k + 1;
    }
    assert(qv.take(parts@.len() as int) == qv);
    from_chars(&out)
}

/// The page names handed out in turn for these stems, each the first free
/// one after those before it.
pub open spec fn unique_names(stems: Seq<Seq<char>>, ext: Seq<char>) -> Seq<Seq<char>>
    decreases stems.len(),
{
    if stems.len() == 0 {
        seq![]
    } else {
        let prev = unique_names(stems.drop_last(), ext);
        prev.push(unique_spec(prev, stems.last(), ext))
    }
}

/// Sections of an `llms-full.txt`: a section opens at each `# ` line outside
/// code fences (titled by the rest of the line, trimmed); text before the
/// first is the `index` section. Each line, with its line break, goes to the
/// section open at it.
pub open spec fn sections_of(ls: Seq<Seq<char>>) -> Seq<(Seq<char>, Seq<char>)>
    decreases ls.len(),
{
    if ls.len() == 0 {
        seq![("index"@, Seq::<char>::empty())]
    } else {
        let prev = sections_of(ls.drop_last());
        let l = ls.last();
        let opens = !is_fence(trim_start(l)) && !fence_open_after(ls.drop_last()) && starts_with(
            l,
            "# "@,
        );
        let secs = if opens {
            prev.push((trim(l.skip(2)), Seq::<char>::empty()))
        } else {
            prev
        };
        secs.update(secs.len() - 1, (secs.last().0, secs.last().1 + l + "\n"@))
    }
}

proof fn lemma_sections_nonempty(ls: Seq<Seq<char>>)
    ensures
        sections_of(ls).len() >= 1,
    decreases ls.len(),
{
    if ls.len() > 0 {
        lemma_sections_nonempty(ls.drop_last());
    }
}

/// The sections with some text besides whitespace.
pub open spec fn nonblank_sections(ss: Seq<(Seq<char>, Seq<char>)>) -> Seq<(Seq<char>, Seq<char>)>
    decreases ss.len(),
{
    if ss.len() == 0 {
        seq![]
    } else if trim(ss.last().1).len() == 0 {
        nonblank_sections(ss.drop_last())
    } else {
        nonblank_sections(ss.drop_last()).push(ss.last())
    }
}

/// One page per non-blank section: named by its title's slug (numbered when
/// taken), holding the section's lines.
pub open spec fn h1_pages(text: Seq<char>) -> Seq<(Seq<char>, Seq<char>)> {
    let kept = nonblank_sections(sections_of(lines(text)));
    let names = unique_names(kept.map_values(|s: (Seq<char>, Seq<char>)| slug_spec(s.0)), "md"@);
    Seq::new(kept.len(), |i: int| (names[i], kept[i].1))
}

pub open spec fn pair_views(v: Seq<(Vec<char>, Vec<char>)>) -> Seq<(Seq<char>, Seq<char>)> {
    v.map_values(|p: (Vec<char>, Vec<char>)| (p.0@, p.1@))
}

/// The sections of `text`, as `sections_of` says.
fn sections_vec(text: &str) -> (r: Vec<(Vec<char>, Vec<char>)>)
    ensures
        pair_views(r@) == sections_of(lines(text@)),
{
    let ls = lines_vec(to_chars(text).as_slice());
    let ghost lv = seqs(ls@);
    let mut done: Vec<(Vec<char>, Vec<char>)> = Vec::new();
    let mut title = to_chars("index");
    let mut body: Vec<char> = Vec::new();
    let mut in_fence = false;
    let mut i: usize = 0;
    assert(lv.take(0) == Seq::<Seq<char>>::empty());
    assert(pair_views(done@).push((title@, body@)) =~= sections_of(lv.take(0)));
    while i < ls.len()
        invariant
            i <= ls@.len(),
            lv == seqs(ls@),
            lv == lines(text@),
            pair_views(done@).push((title@, body@)) == sections_of(lv.take(i as int)),
            in_fence == fence_open_after(lv.take(i as int)),
        decreases ls@.len() - i,
    {
        let ghost prev = lv.take(i as int);
        assert(lv.take(i + 1).drop_last() == prev);
        assert(lv.take(i + 1).last() == ls@[i as int]@);
        let line = &ls[i];
        let ghost l = line@;
        let ghost old_secs = pair_views(done@).push((title@, body@));
        let t = trim_start_vec(line.as_slice());
        let fence = fence_line(t.as_slice());
        let opens = !fence && !in_fence && starts_with_str(line.as_slice(), "# ");
        proof {
            reveal_strlit("# ");
            reveal_strlit("\n");
            assert(opens == (!is_fence(trim_start(l)) && !fence_open_after(prev) && starts_with(
                l,
                "# "@,
            )));
        }
        if fence {
            in_fence = !in_fence;
        }
        if opens {
            let ghost before = pair_views(done@);
            let finished = (title, body);
            done.push(finished);
            assert(pair_views(done@) == before.push((finished.0@, finished.1@)));
            let rest = copy_range(line.as_slice(), 2, line.len());
            assert(rest@ == line@.skip(2));
            title = trim_vec(rest.as_slice());
            body = Vec::new();
            assert(pair_views(done@) == old_secs);
        }
        let ghost body_before = body@;
        push_all(&mut body, line.as_slice());
        body.push('\n');
        assert(body@ == body_before + l + "\n"@);
        proof {
            let secs = pair_views(done@).push((title@, body@));
            let mid = if opens {
                old_secs.push((trim(l.skip(2)), Seq::<char>::empty()))
            } else {
                old_secs
            };
            assert(sections_of(lv.take(i + 1)) == mid.update(mid.len() - 1, (mid.last().0, mid.last().1 + l + "\n"@)));
            assert(secs =~= mid.update(mid.len() - 1, (mid.last().0, mid.last().1 + l + "\n"@)));
        }
        i = i + 1;
    }
    assert(lv.take(ls@.len() as int) == lv);
    done.push((title, body));
    done
}

/// Splits an `llms-full.txt` concatenation into one page per `# ` section.
pub fn split_by_h1(text: &str) -> (r: Vec<GeneratedPage>)
    ensures
        page_views(r@) == h1_pages(text@),
{
    let secs = sections_vec(text);
    let ghost sv = pair_views(secs@);
    let mut kept: Vec<(Vec<char>, Vec<char>)> = Vec::new();
    let mut i: usize = 0;
    assert(sv.take(0) == Seq::<(Seq<char>, Seq<char>)>::empty());
    while i < secs.len()
        invariant
            i <= secs@.len(),
            sv == pair_views(secs@),
            pair_views(kept@) == nonblank_sections(sv.take(i as int)),
        decreases secs@.len() - i,
    {
        assert(sv.take(i + 1).drop_last() == sv.take(i as int));
        assert(sv.take(i + 1).last() == (secs@[i as int].0@, secs@[i as int].1@));
        if trim_vec(secs[i].1.as_slice()).len() > 0 {
            let c = (secs[i].0.clone(), secs[i].1.clone());
            let ghost before = pair_views(kept@);
            kept.push(c);
            assert(pair_views(kept@) == before.push((c.0@, c.1@)));
        }
        i = i + 1;
    }
    assert(sv.take(secs@.len() as int) == sv);
    let ghost kv = pair_views(kept@);
    let ghost stems = kv.map_values(|s: (Seq<char>, Seq<char>)| slug_spec(s.0));
    let mut used: Vec<String> = Vec::new();
    let mut pages: Vec<GeneratedPage> = Vec::new();
    let mut k: usize = 0;
    assert(stems.take(0) == Seq::<Seq<char>>::empty());
    while k < kept.len()
        invariant
            k <= kept@.len(),
            kv == pair_views(kept@),
            stems == kv.map_values(|s: (Seq<char>, Seq<char>)| slug_spec(s.0)),
            strs(used@) == unique_names(stems.take(k as int), "md"@),
            used@.len() == k,
            page_views(pages@) == Seq::new(
                k as nat,
                |j: int| (unique_names(stems.take(k as int), "md"@)[j], kv[j].1),
            ),
        decreases kept@.len() - k,
    {
        assert(stems.take(k + 1).drop_last() == stems.take(k as int));
        assert(stems.take(k + 1).last() == slug_spec(kept@[k as int].0@));
        let stem = slugify(from_chars(kept[k].0.as_slice()).as_str());
        let ghost old_names = strs(used@);
        let path = unique(&mut used, stem.as_str(), "md");
        assert(strs(used@) == old_names.push(path@));
        let page = GeneratedPage { path, markdown: from_chars(kept[k].1.as_slice()) };
        let ghost before = page_views(pages@);
        pages.push(page);
        assert(page_views(pages@) == before.push((page.path@, page.markdown@)));
        assert(page_views(pages@) =~= Seq::new(
            (k + 1) as nat,
            |j: int| (unique_names(stems.take(k + 1), "md"@)[j], kv[j].1),
        ));
        k = k + 1;
    }
    assert(stems.take(kept@.len() as int) == stems);
    pages
}

// ---------------------------------------------------------------------------
// Files

/// Why a generated docset could not be written.
#[derive(Debug, Clone, Copy, PartialEq, Eq)]
pub enum GenerateError {
    /// A page or asset path that is empty or would leave the `pages/` folder.
    UnsafePath,
    /// A repository without a single markdown page.
    NoPages,
}

/// A page path is safe when it is not empty and made of plain names only.
pub fn safe_rel(rel: &str) -> (r: Result<(), GenerateError>)
    ensures
        r is Ok <==> (rel@.len() > 0 && plain_relative(rel@)),
        r is Err ==> r == Err::<(), GenerateError>(GenerateError::UnsafePath),
{
    if to_chars(rel).len() == 0 || !plain_relative_vec(rel) {
        Err(GenerateError::UnsafePath)
    } else {
        Ok(())
    }
}

pub open spec fn lower(s: Seq<char>) -> Seq<char> {
    crate::text::ascii_lower_seq(s)
}

fn lower_vec(s: &[char]) -> (r: Vec<char>)
    ensures
        r@ == lower(s@),
{
    let mut out: Vec<char> = Vec::new();
    let mut i: usize = 0;
    while i < s.len()
        invariant
            i <= s@.len(),
            out@ == lower(s@.take(i as int)),
        decreases s@.len() - i,
    {
        out.push(crate::text::ascii_lower_char(s[i]));
        assert(lower(s@.take(i + 1)) == lower(s@.take(i as int)).push(crate::text::ascii_lower(s@[i as int])));
        i = i + 1;
    }
    assert(s@.take(s@.len() as int) == s@);
    out
}

/// A markdown page: `.md` or `.mdx`, in any case.
pub open spec fn is_markdown_spec(path: Seq<char>) -> bool {
    match crate::paths::path_extension(path) {
        Some(e) => lower(e) == "md"@ || lower(e) == "mdx"@,
        None => false,
    }
}

pub fn is_markdown(path: &str) -> (r: bool)
    ensures
        r == is_markdown_spec(path@),
{
    match crate::paths::path_extension_vec(to_chars(path).as_slice()) {
        Some(e) => {
            let l = lower_vec(e.as_slice());
            eq_str(l.as_slice(), "md") || eq_str(l.as_slice(), "mdx")
        },
        None => false,
    }
}

/// An image copied along with the pages.
pub open spec fn is_asset_spec(path: Seq<char>) -> bool {
    match crate::paths::path_extension(path) {
        Some(e) => {
            let l = lower(e);
            l == "png"@ || l == "jpg"@ || l == "jpeg"@ || l == "gif"@ || l == "svg"@ || l
                == "webp"@
        },
        None => false,
    }
}

pub fn is_asset(path: &str) -> (r: bool)
    ensures
        r == is_asset_spec(path@),
{
    match crate::paths::path_extension_vec(to_chars(path).as_slice()) {
        Some(e) => {
            let l = lower_vec(e.as_slice());
            eq_str(l.as_slice(), "png") || eq_str(l.as_slice(), "jpg") || eq_str(l.as_slice(), "jpeg")
                || eq_str(l.as_slice(), "gif") || eq_str(l.as_slice(), "svg") || eq_str(
                l.as_slice(),
                "webp",
            )
        },
        None => false,
    }
}

/// Folder entries a walk skips: hidden ones, and dependency and build folders.
pub open spec fn skipped_entry(name: Seq<char>) -> bool {
    (name.len() > 0 && name[0] == '.') || name == "node_modules"@ || name == "target"@ || name
        == "vendor"@ || name == "dist"@ || name == "build"@
}

pub fn skip_entry(name: &str) -> (r: bool)
    ensures
        r == skipped_entry(name@),
{
    let cs = to_chars(name);
    (cs.len() > 0 && cs[0] == '.') || eq_str(cs.as_slice(), "node_modules") || eq_str(
        cs.as_slice(),
        "target",
    ) || eq_str(cs.as_slice(), "vendor") || eq_str(cs.as_slice(), "dist") || eq_str(
        cs.as_slice(),
        "build",
    )
}

/// A file's path below `root`, its components joined by `/` (the whole path
/// when it is not below `root`).
pub open spec fn rel_path_spec(root: Seq<char>, file: Seq<char>) -> Seq<char> {
    match crate::paths::strip_components(components(file), components(root)) {
        Some(rel) => join(rel, "/"@),
        None => join(components(file), "/"@),
    }
}

pub fn rel_path(root: &str, file: &str) -> (r: String)
    ensures
        r@ == rel_path_spec(root@, file@),
{
    let fc = components_vec(to_chars(file).as_slice());
    let rc = components_vec(to_chars(root).as_slice());
    proof {
        reveal_strlit("/");
        assert("/"@ =~= seq!['/']);
    }
    match crate::paths::strip_components_vec(&fc, &rc) {
        Some(rel) => from_chars(&crate::paths::join_components(&rel)),
        None => from_chars(&crate::paths::join_components(&fc)),
    }
}

// ---------------------------------------------------------------------------
// llms.txt

/// The files tried for an `llms.txt` source: the URL itself when it names a
/// `.txt` or `.md` file, else `llms-full.txt` then `llms.txt` under it.
pub open spec fn llms_candidates_spec(url: Seq<char>) -> Seq<Seq<char>> {
    let base = trim_end_char(url, '/');
    if ends_with(base, ".txt"@) || ends_with(base, ".md"@) {
        seq![base]
    } else {
        seq![base + "/llms-full.txt"@, base + "/llms.txt"@]
    }
}

pub fn llms_candidates(url: &str) -> (r: Vec<String>)
    ensures
        strs(r@) == llms_candidates_spec(url@),
{
    let base = trim_end_char_vec(to_chars(url).as_slice(), '/');
    let mut out: Vec<String> = Vec::new();
    if ends_with_str(base.as_slice(), ".txt") || ends_with_str(base.as_slice(), ".md") {
        out.push(from_chars(&base));
    } else {
        let mut a = base.clone();
        push_str(&mut a, "/llms-full.txt");
        let mut b = base.clone();
        push_str(&mut b, "/llms.txt");
        out.push(from_chars(&a));
        out.push(from_chars(&b));
    }
    assert(strs(out@) =~= llms_candidates_spec(url@));
    out
}

/// A response is an HTML page when its content type mentions `html`.
pub open spec fn html_type(content_type: Option<Seq<char>>) -> bool {
    match content_type {
        Some(c) => crate::text::contains_seq(c, "html"@),
        None => false,
    }
}

pub fn is_html_type(content_type: Option<&str>) -> (r: bool)
    ensures
        r == html_type(
            match content_type {
                Some(c) => Some(c@),
                None => None,
            },
        ),
{
    match content_type {
        Some(c) => crate::text::contains_str(to_chars(c).as_slice(), "html"),
        None => false,
    }
}

/// Whether a fetched candidate is used: a success that is not an HTML page
/// and has some text.
pub fn usable_index(success: bool, content_type: Option<&str>, text: &str) -> (r: bool)
    ensures
        r == (success && !html_type(
            match content_type {
                Some(c) => Some(c@),
                None => None,
            },
        ) && trim(text@).len() > 0),
{
    let html = is_html_type(content_type);
    success && !html && trim_vec(to_chars(text).as_slice()).len() > 0
}

/// An `llms-full.txt` is split into sections; an `llms.txt` is an index of links.
pub fn is_full_text(candidate: &str) -> (r: bool)
    ensures
        r == ends_with(candidate@, "llms-full.txt"@),
{
    ends_with_str(to_chars(candidate).as_slice(), "llms-full.txt")
}

/// The first index in `t` of a `)` or whitespace, or `t.len()`.
pub open spec fn target_end(t: Seq<char>) -> int
    decreases t.len(),
{
    if t.len() == 0 {
        0
    } else if t[0] == ')' || crate::text::is_ws(t[0]) {
        0
    } else {
        1 + target_end(t.drop_first())
    }
}

proof fn lemma_target_end(t: Seq<char>)
    ensures
        0 <= target_end(t) <= t.len(),
        target_end(t) < t.len() ==> (t[target_end(t)] == ')' || crate::text::is_ws(t[target_end(t)])),
        forall|i: int| 0 <= i < target_end(t) ==> t[i] != ')' && !crate::text::is_ws(t[i]),
    decreases t.len(),
{
    if t.len() > 0 && t[0] != ')' && !crate::text::is_ws(t[0]) {
        lemma_target_end(t.drop_first());
        assert forall|i: int| 0 <= i < target_end(t) implies t[i] != ')' && !crate::text::is_ws(t[i]) by {
            if i > 0 {
                assert(t[i] == t.drop_first()[i - 1]);
            }
        }
    }
}

proof fn lemma_target_end_at(t: Seq<char>, k: int)
    requires
        0 <= k <= t.len(),
        forall|i: int| 0 <= i < k ==> t[i] != ')' && !crate::text::is_ws(t[i]),
        k < t.len() ==> (t[k] == ')' || crate::text::is_ws(t[k])),
    ensures
        target_end(t) == k,
    decreases t.len(),
{
    if t.len() > 0 && k > 0 {
        assert forall|i: int| 0 <= i < k - 1 implies t.drop_first()[i] != ')' && !crate::text::is_ws(t.drop_first()[i]) by {
            assert(t.drop_first()[i] == t[i + 1]);
        }
        lemma_target_end_at(t.drop_first(), k - 1);
    }
}

/// A link `[title](target)` at the start of `s`: the indexes of its `]` and
/// `)`. The title is not empty and has no `]`; the target is not empty and
/// has no `)` or whitespace.
pub open spec fn index_link_at(s: Seq<char>) -> Option<(int, int)> {
    if s.len() > 0 && s[0] == '[' {
        let j = 1 + crate::text::find_char(s.skip(1), ']');
        if j > 1 && j + 1 < s.len() && s[j + 1] == '(' {
            let k = j + 2 + target_end(s.skip(j + 2));
            if k > j + 2 && k < s.len() && s[k] == ')' {
                Some((j, k))
            } else {
                None
            }
        } else {
            None
        }
    } else {
        None
    }
}

pub proof fn lemma_index_link_at(s: Seq<char>)
    ensures
        match index_link_at(s) {
            Some((j, k)) => 1 < j && j + 2 < k && k < s.len(),
            None => true,
        },
{
    if s.len() > 0 && s[0] == '[' {
        crate::text::lemma_find_char(s.skip(1), ']');
        let j = 1 + crate::text::find_char(s.skip(1), ']');
        if j > 1 && j + 1 < s.len() && s[j + 1] == '(' {
            lemma_target_end(s.skip(j + 2));
        }
    }
}

/// The links of an `llms.txt` index, in order: (title, target).
pub open spec fn links_in(s: Seq<char>) -> Seq<(Seq<char>, Seq<char>)>
    decreases s.len(),
{
    if s.len() == 0 {
        seq![]
    } else {
        match index_link_at(s) {
            Some((j, k)) => {
                proof {
                    lemma_index_link_at(s);
                }
                seq![(s.subrange(1, j), s.subrange(j + 2, k))] + links_in(s.skip(k + 1))
            },
            None => links_in(s.skip(1)),
        }
    }
}

fn index_link_at_vec(s: &[char], i: usize) -> (r: Option<(usize, usize)>)
    requires
        i < s@.len(),
    ensures
        match r {
            Some((j, k)) => index_link_at(s@.skip(i as int)) == Some(((j - i) as int, (k - i) as int))
                && i + 1 < j && j + 2 < k && k < s@.len(),
            None => index_link_at(s@.skip(i as int)) is None,
        },
{
    let ghost t = s@.skip(i as int);
    if s[i] != '[' {
        return None;
    }
    let j = find_char_from(s, i + 1, ']');
    assert(t.skip(1) == s@.skip(i + 1));
    if !(j > i + 1 && j < s.len() - 1 && s[j + 1] == '(') {
        return None;
    }
    let mut k: usize = j + 2;
    while k < s.len() && s[k] != ')' && !crate::text::is_ws_char(s[k])
        invariant
            j + 2 <= k <= s@.len(),
            forall|m: int| j + 2 <= m < k ==> s@[m] != ')' && !crate::text::is_ws(s@[m]),
        decreases s@.len() - k,
    {
        k = k + 1;
    }
    proof {
        let u = s@.skip(j + 2);
        assert(t.skip(j - i + 2) == u);
        assert forall|m: int| 0 <= m < k - (j + 2) implies u[m] != ')' && !crate::text::is_ws(u[m]) by {
            assert(u[m] == s@[m + j + 2]);
        }
        if k < s@.len() {
            assert(u[k - (j + 2)] == s@[k as int]);
        }
        lemma_target_end_at(u, k - (j + 2));
    }
    if k > j + 2 && k < s.len() && s[k] == ')' {
        Some((j, k))
    } else {
        None
    }
}

/// `links_in` on chars.
pub fn index_links(s: &[char]) -> (r: Vec<(Vec<char>, Vec<char>)>)
    ensures
        pair_views(r@) == links_in(s@),
{
    let mut out: Vec<(Vec<char>, Vec<char>)> = Vec::new();
    let mut i: usize = 0;
    assert(s@.skip(0) == s@);
    while i < s.len()
        invariant
            i <= s@.len(),
            pair_views(out@) + links_in(s@.skip(i as int)) == links_in(s@),
        decreases s@.len() - i,
    {
        let ghost t = s@.skip(i as int);
        assert(t.skip(1) == s@.skip(i + 1));
        match index_link_at_vec(s, i) {
            Some((j, k)) => {
                assert(t.subrange(1, (j - i) as int) == s@.subrange(i + 1, j as int));
                assert(t.subrange((j - i) + 2, (k - i) as int) == s@.subrange(j + 2, k as int));
                assert(t.skip((k - i) + 1) == s@.skip(k + 1));
                let title = copy_range(s, i + 1, j);
                let target = copy_range(s, j + 2, k);
                let ghost before = pair_views(out@);
                out.push((title, target));
                assert(pair_views(out@) == before.push((title@, target@)));
                assert(seq![(title@, target@)] + links_in(s@.skip(k + 1)) == links_in(t));
                assert(before.push((title@, target@)) + links_in(s@.skip(k + 1)) == before + (seq![(title@, target@)] + links_in(s@.skip(k + 1))));
                i = k + 1;
            },
            None => {
                i = i + 1;
            },
        }
    }
    assert(s@.skip(s@.len() as int) == Seq::<char>::empty());
    assert(pair_views(out@) + Seq::<(Seq<char>, Seq<char>)>::empty() == pair_views(out@));
    out
}

/// What `url::Url::join` makes of a link in the page `base`, with the
/// fragment removed: (serialization, host, scheme, path); `None` when the
/// base or the joined URL does not parse.
pub uninterp spec fn joined_url(base: Seq<char>, link: Seq<char>) -> Option<(Seq<char>, Option<Seq<char>>, Seq<char>, Seq<char>)>;

/// Calls `url::Url::parse` on `base`, `join` with `link`, and
/// `set_fragment(None)`, then reads `as_str`, `host_str`, `scheme` and
/// `path`. Trusted: the four are a function of `base` and `link`.
#[verifier::external_body]
fn join_url(base: &str, link: &str) -> (r: Option<(String, Option<String>, String, String)>)
    ensures
        match r {
            Some((t, h, sc, p)) => joined_url(base@, link@) == Some((t@, opt_str(h), sc@, p@)),
            None => joined_url(base@, link@) is None,
        },
{
    let b = url::Url::parse(base).ok()?;
    let mut u = b.join(link).ok()?;
    u.set_fragment(None);
    Some((
        u.as_str().to_string(),
        u.host_str().map(|h| h.to_string()),
        u.scheme().to_string(),
        u.path().to_string(),
    ))
}

/// The most pages fetched from one index.
pub open spec fn max_linked_pages() -> nat {
    2000
}

/// Links followed from an index, after the first `n` links: the joined
/// URLs seen so far (starting with the index's own), and for each new
/// same-host http(s) link, its title, URL and path.
pub open spec fn follow(
    index_url: Seq<char>,
    base_text: Seq<char>,
    base_host: Option<Seq<char>>,
    links: Seq<(Seq<char>, Seq<char>)>,
) -> (Seq<Seq<char>>, Seq<(Seq<char>, Seq<char>, Seq<char>)>)
    decreases links.len(),
{
    if links.len() == 0 {
        (seq![base_text], seq![])
    } else {
        let (seen, out) = follow(index_url, base_text, base_host, links.drop_last());
        match joined_url(index_url, links.last().1) {
            Some((text, host, scheme, path)) => if host == base_host && starts_with(scheme, "http"@)
                && !seen.contains(text) {
                (seen.push(text), out.push((links.last().0, text, path)))
            } else {
                (seen, out)
            },
            None => (seen, out),
        }
    }
}

/// The pages an `llms.txt` index links to: same host, each once, at most
/// `max_linked_pages`; `None` when the index's own URL does not parse.
pub open spec fn link_targets_spec(index_url: Seq<char>, index: Seq<char>) -> Option<
    Seq<(Seq<char>, Seq<char>, Seq<char>)>,
> {
    match url_view(index_url) {
        None => None,
        Some((text, host, _)) => {
            let out = follow(index_url, text, host, links_in(index)).1;
            Some(
                if out.len() > max_linked_pages() {
                    out.take(max_linked_pages() as int)
                } else {
                    out
                },
            )
        },
    }
}

pub open spec fn triple_views(v: Seq<(String, String, String)>) -> Seq<(Seq<char>, Seq<char>, Seq<char>)> {
    v.map_values(|t: (String, String, String)| (t.0@, t.1@, t.2@))
}

fn contains_chars_vec(v: &Vec<Vec<char>>, x: &[char]) -> (r: bool)
    ensures
        r == seqs(v@).contains(x@),
{
    let mut i: usize = 0;
    while i < v.len()
        invariant
            i <= v@.len(),
            forall|j: int| 0 <= j < i ==> seqs(v@)[j] != x@,
        decreases v@.len() - i,
    {
        if eq_chars(v[i].as_slice(), x) {
            assert(seqs(v@)[i as int] == x@);
            return true;
        }
        i = i + 1;
    }
    false
}

/// The pages to fetch for an `llms.txt` index: (title, URL, URL path).
pub fn link_targets(index_url: &str, index: &str) -> (r: Option<Vec<(String, String, String)>>)
    ensures
        match r {
            Some(v) => link_targets_spec(index_url@, index@) == Some(triple_views(v@)),
            None => link_targets_spec(index_url@, index@) is None,
        },
{
    let (base_text, base_host) = match parse_url(index_url) {
        None => return None,
        Some((t, h, _)) => (t, h),
    };
    let ghost bh = opt_str(base_host);
    let links = index_links(to_chars(index).as_slice());
    let ghost lv = pair_views(links@);
    let mut seen: Vec<Vec<char>> = Vec::new();
    seen.push(to_chars(base_text.as_str()));
    let mut out: Vec<(String, String, String)> = Vec::new();
    let mut i: usize = 0;
    assert(lv.take(0) == Seq::<(Seq<char>, Seq<char>)>::empty());
    assert(seqs(seen@) =~= seq![base_text@]);
    while i < links.len()
        invariant
            i <= links@.len(),
            lv == pair_views(links@),
            lv == links_in(index@),
            bh == opt_str(base_host),
            (seqs(seen@), triple_views(out@)) == follow(index_url@, base_text@, bh, lv.take(i as int)),
        decreases links@.len() - i,
    {
        assert(lv.take(i + 1).drop_last() == lv.take(i as int));
        assert(lv.take(i + 1).last() == (links@[i as int].0@, links@[i as int].1@));
        let target = from_chars(links[i].1.as_slice());
        match join_url(index_url, target.as_str()) {
            Some((text, host, scheme, path)) => {
                let same_host = match (&host, &base_host) {
                    (Some(a), Some(b)) => crate::text::eq_chars(to_chars(a.as_str()).as_slice(), to_chars(b.as_str()).as_slice()),
                    (None, None) => true,
                    _ => false,
                };
                let tc = to_chars(text.as_str());
                if same_host && starts_with_str(to_chars(scheme.as_str()).as_slice(), "http")
                    && !contains_chars_vec(&seen, tc.as_slice()) {
                    let ghost before_seen = seqs(seen@);
                    seen.push(tc);
                    assert(seqs(seen@) == before_seen.push(text@));
                    let title = from_chars(links[i].0.as_slice());
                    let ghost before = triple_views(out@);
                    let item = (title, text, path);
                    out.push(item);
                    assert(triple_views(out@) == before.push((item.0@, item.1@, item.2@)));
                }
            },
            None => {},
        }
        i = i + 1;
    }
    assert(lv.take(links@.len() as int) == lv);
    if out.len() > 2000 {
        let ghost before = triple_views(out@);
        out.truncate(2000);
        assert(triple_views(out@) =~= before.take(2000));
    }
    Some(out)
}

/// A fetched page keeps its own `# ` title; one without gets the link's.
pub open spec fn titled(title: Seq<char>, markdown: Seq<char>) -> Seq<char> {
    if crate::markdown::first_title(crate::markdown::headings_spec(markdown)) is None {
        "# "@ + title + "\n\n"@ + markdown
    } else {
        markdown
    }
}

/// The pages of an `llms.txt` docset: the index itself, then each fetched
/// page (title, URL path, markdown), named after its URL path.
pub open spec fn linked_pages_spec(index: Seq<char>, fetched: Seq<(Seq<char>, Seq<char>, Seq<char>)>) -> Seq<(Seq<char>, Seq<char>)> {
    let stems = seq!["index"@] + fetched.map_values(|f: (Seq<char>, Seq<char>, Seq<char>)| page_stem_spec(f.1));
    let names = unique_names(stems, "md"@);
    Seq::new(
        fetched.len() + 1,
        |i: int| if i == 0 {
            (names[0], index)
        } else {
            (names[i], titled(fetched[i - 1].0, fetched[i - 1].2))
        },
    )
}

pub fn linked_pages(index: &str, fetched: &Vec<(String, String, String)>) -> (r: Vec<GeneratedPage>)
    requires
        fetched@.len() + 1 < u64::MAX,
    ensures
        page_views(r@) == linked_pages_spec(index@, triple_views(fetched@)),
{
    let ghost fv = triple_views(fetched@);
    let ghost stems = seq!["index"@] + fv.map_values(|f: (Seq<char>, Seq<char>, Seq<char>)| page_stem_spec(f.1));
    let ghost all = linked_pages_spec(index@, fv);
    let mut used: Vec<String> = Vec::new();
    let mut pages: Vec<GeneratedPage> = Vec::new();
    assert(strs(used@) =~= Seq::<Seq<char>>::empty());
    let first = unique(&mut used, "index", "md");
    proof {
        let one = stems.take(1);
        assert(one.drop_last() =~= Seq::<Seq<char>>::empty());
        assert(one.last() == "index"@);
        assert(unique_names(Seq::<Seq<char>>::empty(), "md"@) =~= Seq::<Seq<char>>::empty());
        assert(unique_names(one, "md"@) == Seq::<Seq<char>>::empty().push(
            unique_spec(Seq::<Seq<char>>::empty(), "index"@, "md"@),
        ));
        assert(strs(used@) =~= seq![first@]);
        lemma_unique_names_prefix(stems, "md"@, 1);
    }
    let p0 = GeneratedPage { path: first, markdown: from_chars(&to_chars(index)) };
    pages.push(p0);
    proof {
        let names = unique_names(stems, "md"@);
        assert(unique_names(stems.take(1), "md"@)[0] == names[0]);
        assert(all[0] == (names[0], index@));
        assert(page_views(pages@) =~= all.take(1));
    }
    let mut k: usize = 0;
    while k < fetched.len()
        invariant
            k <= fetched@.len(),
            fetched@.len() + 1 < u64::MAX,
            fv == triple_views(fetched@),
            stems == seq!["index"@] + fv.map_values(|f: (Seq<char>, Seq<char>, Seq<char>)| page_stem_spec(f.1)),
            all == linked_pages_spec(index@, fv),
            used@.len() == k + 1,
            strs(used@) == unique_names(stems.take(k + 1), "md"@),
            page_views(pages@) == all.take(k + 1),
        decreases fetched@.len() - k,
    {
        assert(stems.take(k + 2).drop_last() == stems.take(k + 1));
        assert(stems.take(k + 2).last() == page_stem_spec(fetched@[k as int].1@));
        let stem = page_stem(fetched[k].1.as_str());
        let ghost old_names = strs(used@);
        let path = unique(&mut used, stem.as_str(), "md");
        assert(strs(used@) == old_names.push(path@));
        assert(unique_names(stems.take(k + 2), "md"@) == old_names.push(path@));
        let md = match crate::markdown::title(fetched[k].2.as_str()) {
            Some(_) => from_chars(&to_chars(fetched[k].2.as_str())),
            None => {
                let mut t: Vec<char> = Vec::new();
                push_str(&mut t, "# ");
                push_str(&mut t, fetched[k].0.as_str());
                push_str(&mut t, "\n\n");
                push_str(&mut t, fetched[k].2.as_str());
                from_chars(&t)
            },
        };
        let ghost before = page_views(pages@);
        let page = GeneratedPage { path, markdown: md };
        pages.push(page);
        proof {
            assert(page_views(pages@) == before.push((page.path@, page.markdown@)));
            let names = unique_names(stems, "md"@);
            lemma_unique_names_prefix(stems, "md"@, k + 2);
            assert(all[k + 1] == (names[k + 1], titled(fv[k as int].0, fv[k as int].2)));
            assert(unique_names(stems.take(k + 2), "md"@)[k + 1] == page.path@);
            assert(page_views(pages@) =~= all.take(k + 2));
        }
        k = k + 1;
    }
    pages
}

/// The names handed out for a prefix of the stems are a prefix of those
/// handed out for all of them.
proof fn lemma_unique_names_prefix(stems: Seq<Seq<char>>, ext: Seq<char>, n: int)
    requires
        0 <= n <= stems.len(),
    ensures
        unique_names(stems.take(n), ext) == unique_names(stems, ext).take(n),
        unique_names(stems, ext).len() == stems.len(),
    decreases stems.len(),
{
    if stems.len() == 0 {
        assert(stems.take(n) == stems);
    } else if n == stems.len() {
        assert(stems.take(n) == stems);
        lemma_unique_names_prefix(stems.drop_last(), ext, n - 1);
    } else {
        lemma_unique_names_prefix(stems.drop_last(), ext, n);
        assert(stems.drop_last().take(n) == stems.take(n));
    }
}

/// The Context7 topics asked about when the source names none.
pub open spec fn default_topics() -> Seq<Seq<char>> {
    seq![
        "getting started and installation"@,
        "core API reference"@,
        "configuration options"@,
        "common patterns and examples"@,
    ]
}

/// The topics of a Context7 source: its own, or the defaults.
pub fn context7_topics(topics: &Vec<String>) -> (r: Vec<String>)
    ensures
        strs(r@) == if topics@.len() == 0 {
            default_topics()
        } else {
            strs(topics@)
        },
{
    let mut out: Vec<String> = Vec::new();
    if topics.len() == 0 {
        out.push(from_chars(&to_chars("getting started and installation")));
        out.push(from_chars(&to_chars("core API reference")));
        out.push(from_chars(&to_chars("configuration options")));
        out.push(from_chars(&to_chars("common patterns and examples")));
        assert(strs(out@) =~= default_topics());
        return out;
    }
    let mut i: usize = 0;
    while i < topics.len()
        invariant
            i <= topics@.len(),
            strs(out@) == strs(topics@).take(i as int),
        decreases topics@.len() - i,
    {
        let t = from_chars(&to_chars(topics[i].as_str()));
        let ghost before = strs(out@);
        out.push(t);
        assert(strs(out@) == before.push(t@));
        assert(strs(topics@).take(i + 1) == strs(topics@).take(i as int).push(topics@[i as int]@));
        i = i + 1;
    }
    assert(strs(topics@).take(topics@.len() as int) == strs(topics@));
    out
}

/// One page per Context7 topic: `# <topic>` over the text Context7 gave
/// for it, named after the topic.
pub open spec fn context7_pages_spec(topics: Seq<Seq<char>>, texts: Seq<Seq<char>>) -> Seq<(Seq<char>, Seq<char>)> {
    let names = unique_names(topics.map_values(|t: Seq<char>| slug_spec(t)), "md"@);
    Seq::new(topics.len(), |i: int| (names[i], "# "@ + topics[i] + "\n\n"@ + texts[i]))
}

pub fn context7_pages(topics: &Vec<String>, texts: &Vec<String>) -> (r: Vec<GeneratedPage>)
    requires
        topics@.len() == texts@.len(),
        topics@.len() < u64::MAX,
    ensures
        page_views(r@) == context7_pages_spec(strs(topics@), strs(texts@)),
{
    let ghost tv = strs(topics@);
    let ghost stems = tv.map_values(|t: Seq<char>| slug_spec(t));
    let ghost all = context7_pages_spec(tv, strs(texts@));
    let mut used: Vec<String> = Vec::new();
    let mut pages: Vec<GeneratedPage> = Vec::new();
    let mut k: usize = 0;
    while k < topics.len()
        invariant
            k <= topics@.len() == texts@.len(),
            topics@.len() < u64::MAX,
            tv == strs(topics@),
            stems == tv.map_values(|t: Seq<char>| slug_spec(t)),
            all == context7_pages_spec(tv, strs(texts@)),
            used@.len() == k,
            strs(used@) == unique_names(stems.take(k as int), "md"@),
            page_views(pages@) == all.take(k as int),
        decreases topics@.len() - k,
    {
        assert(stems.take(k + 1).drop_last() == stems.take(k as int));
        assert(stems.take(k + 1).last() == slug_spec(topics@[k as int]@));
        let stem = slugify(topics[k].as_str());
        let ghost old_names = strs(used@);
        let path = unique(&mut used, stem.as_str(), "md");
        assert(strs(used@) == old_names.push(path@));
        assert(unique_names(stems.take(k + 1), "md"@) == old_names.push(path@));
        let mut t: Vec<char> = Vec::new();
        push_str(&mut t, "# ");
        push_str(&mut t, topics[k].as_str());
        push_str(&mut t, "\n\n");
        push_str(&mut t, texts[k].as_str());
        let ghost before = page_views(pages@);
        let page = GeneratedPage { path, markdown: from_chars(&t) };
        pages.push(page);
        proof {
            assert(page_views(pages@) == before.push((page.path@, page.markdown@)));
            lemma_unique_names_prefix(stems, "md"@, k + 1);
            let names = unique_names(stems, "md"@);
            assert(old_names.len() == k);
            assert(unique_names(stems.take(k + 1), "md"@)[k as int] == path@);
            assert(names[k as int] == path@);
            assert(all[k as int] == (names[k as int], "# "@ + tv[k as int] + "\n\n"@ + strs(texts@)[k as int]));
            assert(page_views(pages@) =~= all.take(k + 1));
        }
        k = k + 1;
    }
    assert(all.take(topics@.len() as int) == all);
    pages
}

/// `YYYY-MM-DD`, as a generated docset's version.
pub open spec fn date_text(year: int, month: nat, day: nat) -> Seq<char> {
    year_text(year) + "-"@ + pad(decimal(month), 2) + "-"@ + pad(decimal(day), 2)
}

/// A year zero-padded to four chars, a sign included (`{:04}`).
pub open spec fn year_text(year: int) -> Seq<char> {
    if year >= 0 {
        pad(decimal(year as nat), 4)
    } else {
        "-"@ + pad(decimal((-year) as nat), 3)
    }
}

/// Zeros in front of `s` up to `width` chars.
pub open spec fn pad(s: Seq<char>, width: nat) -> Seq<char> {
    if s.len() >= width {
        s
    } else {
        Seq::new((width - s.len()) as nat, |i: int| '0') + s
    }
}

fn push_padded(out: &mut Vec<char>, n: u64, width: usize)
    ensures
        final(out)@ == old(out)@ + pad(decimal(n as nat), width as nat),
{
    let mut d: Vec<char> = Vec::new();
    crate::text::push_decimal(&mut d, n);
    assert(d@ == decimal(n as nat));
    if d.len() < width {
        let mut z: Vec<char> = Vec::new();
        let mut k: usize = 0;
        let m = width - d.len();
        while k < m
            invariant
                k <= m,
                z@ == Seq::new(k as nat, |i: int| '0'),
            decreases m - k,
        {
            z.push('0');
            k = k + 1;
        }
        push_all(out, &z);
    }
    push_all(out, &d);
}

pub fn date_string(year: i32, month: u8, day: u8) -> (r: String)
    ensures
        r@ == date_text(year as int, month as nat, day as nat),
{
    let mut out: Vec<char> = Vec::new();
    if year >= 0 {
        push_padded(&mut out, year as u64, 4);
    } else {
        push_str(&mut out, "-");
        let magnitude: i64 = -(year as i64);
        push_padded(&mut out, magnitude as u64, 3);
    }
    push_str(&mut out, "-");
    push_padded(&mut out, month as u64, 2);
    push_str(&mut out, "-");
    push_padded(&mut out, day as u64, 2);
    from_chars(&out)
}

/// Reads the UTC calendar date from `time::OffsetDateTime::now_utc`. Nothing
/// is promised of it but that the month is 1 to 12 and the day 1 to 31 (the
/// crate's ranges); it is the clock's.
#[verifier::external_body]
fn utc_date() -> (r: (i32, u8, u8))
    ensures
        1 <= r.1 <= 12,
        1 <= r.2 <= 31,
{
    let now = time::OffsetDateTime::now_utc();
    (now.year(), u8::from(now.month()), now.day())
}

/// Today's date, as a generated docset's version.
pub fn today() -> (r: String)
    ensures
        exists|y: int, m: nat, d: nat| 1 <= m <= 12 && 1 <= d <= 31 && r@ == date_text(y, m, d),
{
    let (y, m, d) = utc_date();
    date_string(y, m, d)
}

// ---------------------------------------------------------------------------
// Repositories

/// The folders a repository's docs are looked for in, in order.
pub open spec fn docs_dirs_spec() -> Seq<Seq<char>> {
    seq!["docs"@, "doc"@, "documentation"@, "website/docs"@, "content/docs"@]
}

pub fn docs_dirs() -> (r: Vec<String>)
    ensures
        strs(r@) == docs_dirs_spec(),
{
    let mut v: Vec<String> = Vec::new();
    v.push(String::from_str("docs"));
    v.push(String::from_str("doc"));
    v.push(String::from_str("documentation"));
    v.push(String::from_str("website/docs"));
    v.push(String::from_str("content/docs"));
    assert(strs(v@) =~= docs_dirs_spec());
    v
}

/// The names a repository's README goes by, in the order they are tried.
pub open spec fn readme_names_spec() -> Seq<Seq<char>> {
    seq!["README.md"@, "readme.md"@, "Readme.md"@]
}

pub fn readme_names() -> (r: Vec<String>)
    ensures
        strs(r@) == readme_names_spec(),
{
    let mut v: Vec<String> = Vec::new();
    v.push(String::from_str("README.md"));
    v.push(String::from_str("readme.md"));
    v.push(String::from_str("Readme.md"));
    assert(strs(v@) =~= readme_names_spec());
    v
}

pub open spec fn asset_views(v: Seq<(String, String)>) -> Seq<(Seq<char>, Seq<char>)> {
    v.map_values(|p: (String, String)| (p.0@, p.1@))
}

/// The pages of several generator outputs, in order.
pub open spec fn all_pages(gs: Seq<Generated>) -> Seq<(Seq<char>, Seq<char>)>
    decreases gs.len(),
{
    if gs.len() == 0 {
        seq![]
    } else {
        all_pages(gs.drop_last()) + page_views(gs.last().pages@)
    }
}

/// The assets of several generator outputs, in order.
pub open spec fn all_assets(gs: Seq<Generated>) -> Seq<(Seq<char>, Seq<char>)>
    decreases gs.len(),
{
    if gs.len() == 0 {
        seq![]
    } else {
        all_assets(gs.drop_last()) + asset_views(gs.last().assets@)
    }
}

/// The README page of a repository, when it has one.
pub open spec fn readme_page(readme: Option<String>) -> Seq<(Seq<char>, Seq<char>)> {
    match readme {
        Some(m) => seq![("README.md"@, m@)],
        None => seq![],
    }
}

/// A repository's docs gathered from its docs folders: its README first
/// (when it has one, as `README.md`), then each folder's pages, and each
/// folder's assets, in order.
pub fn docs_from_folders(version: String, readme: Option<String>, folders: Vec<Generated>) -> (r:
    Generated)
    ensures
        r.version == version,
        page_views(r.pages@) == readme_page(readme) + all_pages(folders@),
        asset_views(r.assets@) == all_assets(folders@),
{
    let ghost fs = folders@;
    let mut pages: Vec<GeneratedPage> = Vec::new();
    match readme {
        Some(m) => {
            pages.push(GeneratedPage { path: String::from_str("README.md"), markdown: m });
        },
        None => {},
    }
    assert(page_views(pages@) =~= readme_page(readme));
    let mut assets: Vec<(String, String)> = Vec::new();
    let mut folders = folders;
    let mut k: usize = 0;
    let n = folders.len();
    assert(fs.len() == n);
    while folders.len() > 0
        invariant
            k + folders@.len() == fs.len(),
            fs.len() <= usize::MAX,
            folders@ == fs.skip(k as int),
            page_views(pages@) == readme_page(readme) + all_pages(fs.take(k as int)),
            asset_views(assets@) == all_assets(fs.take(k as int)),
        decreases folders@.len(),
    {
        let g = folders.remove(0);
        assert(g == fs[k as int]);
        assert(fs.take(k + 1).drop_last() == fs.take(k as int));
        assert(fs.take(k + 1).last() == g);
        let ghost before_p = pages@;
        let ghost before_a = assets@;
        let mut gp = g.pages;
        let mut ga = g.assets;
        let ghost gpv = gp@;
        let ghost gav = ga@;
        pages.append(&mut gp);
        assets.append(&mut ga);
        assert(page_views(before_p + gpv) =~= page_views(before_p) + page_views(gpv));
        assert(asset_views(before_a + gav) =~= asset_views(before_a) + asset_views(gav));
        assert(fs.skip(k + 1) =~= fs.skip(k as int).drop_first());
        k = k + 1;
    }
    assert(fs.take(fs.len() as int) == fs);
    Generated { version, pages, assets }
}


/// A repository's docs are kept only when they have a page.
pub fn with_pages(g: Generated) -> (r: Result<Generated, GenerateError>)
    ensures
        g.pages@.len() > 0 ==> r == Ok::<Generated, GenerateError>(g),
        g.pages@.len() == 0 ==> r == Err::<Generated, GenerateError>(GenerateError::NoPages),
{
    if g.pages.len() == 0 {
        Err(GenerateError::NoPages)
    } else {
        Ok(g)
    }
}

// ---------------------------------------------------------------------------
// Laws

proof fn lemma_least_free(used: Seq<Seq<char>>, stem: Seq<char>, ext: Seq<char>, m: nat)
    requires
        m >= 1,
        !used.contains(numbered(stem, ext, m)),
    ensures
        exists|n: nat| first_free(used, stem, ext, n),
    decreases m,
{
    if forall|k: nat| 1 <= k < m ==> used.contains(#[trigger] numbered(stem, ext, k)) {
        assert(first_free(used, stem, ext, m));
    } else {
        let k = choose|k: nat| 1 <= k < m && !used.contains(#[trigger] numbered(stem, ext, k));
        lemma_least_free(used, stem, ext, k);
    }
}

/// The first free name is free.
proof fn lemma_unique_spec_fresh(used: Seq<Seq<char>>, stem: Seq<char>, ext: Seq<char>)
    ensures
        !used.contains(unique_spec(used, stem, ext)),
{
    lemma_some_numbered_free(used, stem, ext);
    let m = choose|m: nat| 1 <= m <= used.len() + 1 && !used.contains(#[trigger] numbered(stem, ext, m));
    lemma_least_free(used, stem, ext, m);
    let n = choose|n: nat| first_free(used, stem, ext, n);
    assert(first_free(used, stem, ext, n));
}

/// Every name handed out is different from those before it: pages of a
/// generated docset never share a file.
pub proof fn lemma_unique_names_distinct(stems: Seq<Seq<char>>, ext: Seq<char>)
    ensures
        unique_names(stems, ext).len() == stems.len(),
        unique_names(stems, ext).no_duplicates(),
    decreases stems.len(),
{
    if stems.len() > 0 {
        let prev = unique_names(stems.drop_last(), ext);
        lemma_unique_names_distinct(stems.drop_last(), ext);
        lemma_unique_spec_fresh(prev, stems.last(), ext);
        let n = prev.push(unique_spec(prev, stems.last(), ext));
        assert forall|i: int, j: int| 0 <= i < n.len() && 0 <= j < n.len() && i != j implies n[i] != n[j] by {
            if i == n.len() - 1 && j < prev.len() {
                assert(prev.contains(prev[j]));
            } else if j == n.len() - 1 && i < prev.len() {
                assert(prev.contains(prev[i]));
            }
        }
    }
}

/// The pages split from an `llms-full.txt` all have different paths.
pub proof fn lemma_h1_page_paths_distinct(text: Seq<char>)
    ensures
        forall|i: int, j: int|
            0 <= i < h1_pages(text).len() && 0 <= j < h1_pages(text).len() && i != j ==> (#[trigger] h1_pages(text)[i]).0
                != (#[trigger] h1_pages(text)[j]).0,
{
    let kept = nonblank_sections(sections_of(lines(text)));
    let stems = kept.map_values(|s: (Seq<char>, Seq<char>)| slug_spec(s.0));
    lemma_unique_names_distinct(stems, "md"@);
}

} // verus!
