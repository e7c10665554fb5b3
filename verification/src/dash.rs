//! Dash/Zeal docsets: catalog entries, portable archive paths, and resolving
//! page paths inside an extracted docset.

use vstd::prelude::*;
use crate::paths::{
    components, components_vec, is_absolute, is_file, is_name, is_name_vec, join_path,
    join_path_vec, path_extension, path_extension_vec,
};
use crate::text::{
    eq_str, from_chars, has_char, join, lemma_join_push, push_all, push_str, seqs, split_spec,
    split_vec, to_chars,
};

verus! {

/// Docset ids for Dash docsets are `dash:<Zeal name>`, e.g. `dash:React`.
pub open spec fn id_prefix() -> Seq<char> {
    seq!['d', 'a', 's', 'h', ':']
}

/// One docset of the Zeal catalog.
#[derive(Debug, Clone)]
pub struct ZealDoc {
    /// Feed name, e.g. `React`, `ABAP_Contrib`, `Ack_Cheatsheet`.
    pub name: String,
    pub title: String,
    /// Newest first (the catalog's `null`s are dropped when it is read).
    pub versions: Vec<String>,
    pub size: u64,
}

impl ZealDoc {
    /// `dash:<name>`.
    pub fn id(&self) -> (r: String)
        ensures
            r@ == id_prefix() + self.name@,
    {
        let mut out: Vec<char> = Vec::new();
        push_str(&mut out, "dash:");
        proof {
            reveal_strlit("dash:");
        }
        assert(out@ == id_prefix());
        push_str(&mut out, self.name.as_str());
        from_chars(&out)
    }

    /// The newest version, or `""` when the catalog lists none.
    pub fn latest_version(&self) -> (r: &str)
        ensures
            r@ == if self.versions@.len() > 0 {
                self.versions@[0]@
            } else {
                Seq::<char>::empty()
            },
    {
        if self.versions.len() > 0 {
            self.versions[0].as_str()
        } else {
            proof {
                reveal_strlit("");
            }
            ""
        }
    }
}

// ---------------------------------------------------------------------------
// Portable names

/// Characters that some platform forbids in a file name.
pub open spec fn forbidden(c: char) -> bool {
    c == '<' || c == '>' || c == ':' || c == '"' || c == '/' || c == '\\' || c == '|' || c == '?'
        || c == '*'
}

pub open spec fn dir_name_spec(s: Seq<char>) -> Seq<char> {
    s.map_values(
        |c: char|
            if forbidden(c) {
                '_'
            } else {
                c
            },
    )
}

/// A directory name safe on every platform for a Zeal feed name: each
/// forbidden character becomes `_`.
pub fn dir_name(name: &str) -> (r: String)
    ensures
        r@ == dir_name_spec(name@),
        r@.len() == name@.len(),
        forall|j: int| 0 <= j < r@.len() ==> !forbidden(#[trigger] r@[j]),
{
    let cs = to_chars(name);
    let mut out: Vec<char> = Vec::new();
    let mut i: usize = 0;
    while i < cs.len()
        invariant
            i <= cs@.len(),
            cs@ == name@,
            out@ == dir_name_spec(cs@.take(i as int)),
        decreases cs@.len() - i,
    {
        let c = cs[i];
        let d = if c == '<' || c == '>' || c == ':' || c == '"' || c == '/' || c == '\\' || c
            == '|' || c == '?' || c == '*' {
            '_'
        } else {
            c
        };
        out.push(d);
        assert(dir_name_spec(cs@.take(i + 1)) == dir_name_spec(cs@.take(i as int)).push(d));
        i = i + 1;
    }
    assert(cs@.take(cs@.len() as int) == cs@);
    from_chars(&out)
}

/// `s` without trailing dots and spaces.
pub open spec fn trim_dots_spaces(s: Seq<char>) -> Seq<char>
    decreases s.len(),
{
    if s.len() > 0 && (s.last() == '.' || s.last() == ' ') {
        trim_dots_spaces(s.drop_last())
    } else {
        s
    }
}

/// A name made portable: forbidden characters replaced, trailing dots and
/// spaces dropped.
pub open spec fn portable_name(part: Seq<char>) -> Seq<char> {
    trim_dots_spaces(dir_name_spec(part))
}

/// The portable names of the pieces between slashes, or `None` when a piece
/// is `..` or has nothing left once made portable. Empty pieces and `.` are
/// skipped.
pub open spec fn portable_parts(ps: Seq<Seq<char>>) -> Option<Seq<Seq<char>>>
    decreases ps.len(),
{
    if ps.len() == 0 {
        Some(seq![])
    } else {
        match portable_parts(ps.drop_last()) {
            None => None,
            Some(done) => {
                let x = ps.last();
                if x.len() == 0 || x == seq!['.'] {
                    Some(done)
                } else if x == seq!['.', '.'] {
                    None
                } else if portable_name(x).len() == 0 {
                    None
                } else {
                    Some(done.push(portable_name(x)))
                }
            },
        }
    }
}

pub open spec fn portable_path_spec(p: Seq<char>) -> Option<Seq<char>> {
    if is_absolute(p) {
        None
    } else {
        match portable_parts(split_spec(p, '/')) {
            None => None,
            Some(qs) => if qs.len() == 0 {
                None
            } else {
                Some(join(qs, seq!['/']))
            },
        }
    }
}

fn trim_dots_spaces_vec(s: &[char]) -> (r: Vec<char>)
    ensures
        r@ == trim_dots_spaces(s@),
{
    let mut k: usize = s.len();
    assert(s@.take(k as int) == s@);
    while k > 0 && (s[k - 1] == '.' || s[k - 1] == ' ')
        invariant
            k <= s@.len(),
            trim_dots_spaces(s@.take(k as int)) == trim_dots_spaces(s@),
        decreases k,
    {
        assert(s@.take(k as int).drop_last() == s@.take(k - 1));
        k = k - 1;
    }
    crate::text::copy_range(s, 0, k)
}

fn is_dot_dot(s: &Vec<char>) -> (r: bool)
    ensures
        r == (s@ == seq!['.', '.']),
{
    let r = s.len() == 2 && s[0] == '.' && s[1] == '.';
    proof {
        if s@ == seq!['.', '.'] {
            assert(s@[0] == '.' && s@[1] == '.');
        }
        if r {
            assert(s@ =~= seq!['.', '.']);
        }
    }
    r
}

fn is_dot(s: &Vec<char>) -> (r: bool)
    ensures
        r == (s@ == seq!['.']),
{
    let r = s.len() == 1 && s[0] == '.';
    proof {
        if s@ == seq!['.'] {
            assert(s@[0] == '.');
        }
        if r {
            assert(s@ =~= seq!['.']);
        }
    }
    r
}

/// A relative path with every component valid on all platforms (characters
/// Windows forbids become `_`), or `None` if it isn't a plain relative path.
pub fn portable_path(path: &str) -> (r: Option<String>)
    ensures
        match r {
            Some(s) => portable_path_spec(path@) == Some(s@),
            None => portable_path_spec(path@) is None,
        },
{
    let cs = to_chars(path);
    if cs.len() > 0 && cs[0] == '/' {
        return None;
    }
    let ps = split_vec(&cs, '/');
    let ghost pv = seqs(ps@);
    let mut out: Vec<char> = Vec::new();
    let mut count: usize = 0;
    let ghost mut done: Seq<Seq<char>> = seq![];
    let mut i: usize = 0;
    assert(pv.take(0) == Seq::<Seq<char>>::empty());
    while i < ps.len()
        invariant
            i <= ps@.len(),
            pv == seqs(ps@),
            pv == split_spec(path@, '/'),
            portable_parts(pv.take(i as int)) == Some(done),
            out@ == join(done, seq!['/']),
            count == done.len(),
            count <= i,
        decreases ps@.len() - i,
    {
        assert(pv.take(i + 1).drop_last() == pv.take(i as int));
        assert(pv.take(i + 1).last() == ps@[i as int]@);
        let x = &ps[i];
        if x.len() == 0 || is_dot(x) {
        } else if is_dot_dot(x) {
            assert(portable_parts(pv.take(i + 1)) is None);
            proof {
                lemma_portable_parts_none(pv, i + 1);
            }
            return None;
        } else {
            let named = dir_name(from_chars(x.as_slice()).as_str());
            let q = trim_dots_spaces_vec(to_chars(named.as_str()).as_slice());
            if q.len() == 0 {
                assert(portable_parts(pv.take(i + 1)) is None);
                proof {
                    lemma_portable_parts_none(pv, i + 1);
                }
                return None;
            }
            proof {
                lemma_join_push(done, seq!['/'], q@);
            }
            if count > 0 {
                out.push('/');
            }
            push_all(&mut out, &q);
            proof {
                done = done.push(q@);
            }
            count = count + 1;
        }
        i = i + 1;
    }
    assert(pv.take(ps@.len() as int) == pv);
    if count == 0 {
        return None;
    }
    Some(from_chars(&out))
}

/// Once a prefix of the pieces is refused, so are all of them.
proof fn lemma_portable_parts_none(ps: Seq<Seq<char>>, k: int)
    requires
        0 <= k <= ps.len(),
        portable_parts(ps.take(k)) is None,
    ensures
        portable_parts(ps) is None,
    decreases ps.len() - k,
{
    if k < ps.len() {
        assert(ps.take(k + 1).drop_last() == ps.take(k));
        lemma_portable_parts_none(ps, k + 1);
    } else {
        assert(ps.take(k) == ps);
    }
}

/// Where an extracted docset keeps its pages.
pub fn documents_dir(docset_dir: &str) -> (r: String)
    ensures
        r@ == join_path(docset_dir@, "Contents/Resources/Documents"@),
{
    let out = join_path_vec(
        to_chars(docset_dir).as_slice(),
        to_chars("Contents/Resources/Documents").as_slice(),
    );
    from_chars(&out)
}

/// Whether `path` names a `*.docset` directory (by its extension).
pub fn is_docset_path(path: &str) -> (r: bool)
    ensures
        r == (path_extension(path@) == Some(seq!['d', 'o', 'c', 's', 'e', 't'])),
{
    match path_extension_vec(to_chars(path).as_slice()) {
        Some(e) => {
            proof {
                reveal_strlit("docset");
                assert("docset"@ =~= seq!['d', 'o', 'c', 's', 'e', 't']);
            }
            eq_str(e.as_slice(), "docset")
        },
        None => false,
    }
}

// ---------------------------------------------------------------------------
// Archive entries and page paths

/// Where an archive entry goes under `dest`: nowhere for links and for paths
/// that are not plain relative paths, else under its portable path.
pub open spec fn extract_target_spec(dest: Seq<char>, entry: Seq<char>, is_link: bool) -> Option<
    Seq<char>,
> {
    if is_link {
        None
    } else {
        match portable_path_spec(entry) {
            Some(rel) => Some(join_path(dest, rel)),
            None => None,
        }
    }
}

/// The file an archive entry is extracted to, if any.
pub fn extract_target(dest: &str, entry: &str, is_link: bool) -> (r: Option<String>)
    ensures
        match r {
            Some(t) => extract_target_spec(dest@, entry@, is_link) == Some(t@),
            None => extract_target_spec(dest@, entry@, is_link) is None,
        },
{
    if is_link {
        return None;
    }
    match portable_path(entry) {
        Some(rel) => Some(
            from_chars(
                &join_path_vec(to_chars(dest).as_slice(), to_chars(rel.as_str()).as_slice()),
            ),
        ),
        None => None,
    }
}

/// Every component of `p` is a plain name.
pub open spec fn plain_relative(p: Seq<char>) -> bool {
    forall|i: int| 0 <= i < components(p).len() ==> is_name(#[trigger] components(p)[i])
}

pub(crate) fn plain_relative_vec(p: &str) -> (r: bool)
    ensures
        r == plain_relative(p@),
{
    let cs = components_vec(to_chars(p).as_slice());
    let mut i: usize = 0;
    while i < cs.len()
        invariant
            i <= cs@.len(),
            seqs(cs@) == components(p@),
            forall|j: int| 0 <= j < i ==> is_name(#[trigger] components(p@)[j]),
        decreases cs@.len() - i,
    {
        if !is_name_vec(&cs[i]) {
            assert(components(p@)[i as int] == cs@[i as int]@);
            return false;
        }
        i = i + 1;
    }
    true
}

/// The file a page path stands for under `root`: only a plain relative path
/// qualifies, mapped as extraction maps it.
pub open spec fn resolve_candidate(root: Seq<char>, p: Seq<char>) -> Option<Seq<char>> {
    if plain_relative(p) {
        match portable_path_spec(p) {
            Some(rel) => Some(join_path(root, rel)),
            None => None,
        }
    } else {
        None
    }
}

/// `resolve_candidate` on strings.
pub fn candidate_file(root: &str, p: &str) -> (r: Option<String>)
    ensures
        match r {
            Some(f) => resolve_candidate(root@, p@) == Some(f@),
            None => resolve_candidate(root@, p@) is None,
        },
{
    if !plain_relative_vec(p) {
        return None;
    }
    match portable_path(p) {
        Some(rel) => Some(
            from_chars(
                &join_path_vec(to_chars(root).as_slice(), to_chars(rel.as_str()).as_slice()),
            ),
        ),
        None => None,
    }
}

/// What `percent_encoding::percent_decode_str(s).decode_utf8_lossy()` makes of `s`.
pub uninterp spec fn percent_decoded(s: Seq<char>) -> Seq<char>;

/// Calls `percent_encoding::percent_decode_str` and `decode_utf8_lossy`.
/// Trusted: the result is a function of `s`, and a text without `%` comes
/// back unchanged (the decoder passes every other byte through).
#[verifier::external_body]
fn percent_decode(s: &str) -> (r: String)
    ensures
        r@ == percent_decoded(s@),
        !has_char(s@, '%') ==> r@ == s@,
{
    percent_encoding::percent_decode_str(s).decode_utf8_lossy().into_owned()
}

/// Which candidate a page resolves to, given whether each is a file: the
/// path as given when it is one, else the decoded path when that is one.
pub open spec fn file_choice(
    given: Option<Seq<char>>,
    given_is_file: bool,
    decoded: Option<Seq<char>>,
    decoded_is_file: bool,
) -> Option<Seq<char>> {
    if given is Some && given_is_file {
        given
    } else if decoded is Some && decoded_is_file {
        decoded
    } else {
        None
    }
}

pub open spec fn opt_string(o: Option<String>) -> Option<Seq<char>> {
    match o {
        Some(s) => Some(s@),
        None => None,
    }
}

/// The file a page resolves to, from its two candidates and what the disk
/// said of each (see `file_choice`).
pub fn resolved_file(
    given: Option<String>,
    given_is_file: bool,
    decoded: Option<String>,
    decoded_is_file: bool,
) -> (r: Option<String>)
    ensures
        opt_string(r) == file_choice(
            opt_string(given),
            given_is_file,
            opt_string(decoded),
            decoded_is_file,
        ),
{
    if given.is_some() && given_is_file {
        given
    } else if decoded.is_some() && decoded_is_file {
        decoded
    } else {
        None
    }
}

/// Resolves a page path (no fragment) under `root`, refusing anything that
/// would escape it. Dash paths are sometimes percent-encoded, so the decoded
/// path is tried after the path as given; the first that is a file wins.
/// Which candidates are files is the disk's to say.
pub fn resolve(root: &str, path: &str) -> (r: Option<String>)
    ensures
        exists|given_is_file: bool, decoded_is_file: bool|
            opt_string(r) == file_choice(
                resolve_candidate(root@, path@),
                given_is_file,
                resolve_candidate(root@, percent_decoded(path@)),
                decoded_is_file,
            ),
        match r {
            Some(f) => resolve_candidate(root@, path@) == Some(f@) || resolve_candidate(
                root@,
                percent_decoded(path@),
            ) == Some(f@),
            None => true,
        },
        resolve_candidate(root@, path@) is None && resolve_candidate(
            root@,
            percent_decoded(path@),
        ) is None ==> r is None,
{
    let given = candidate_file(root, path);
    let given_is_file = match &given {
        Some(f) => is_file(f.as_str()),
        None => false,
    };
    let decoded_path = percent_decode(path);
    let decoded = candidate_file(root, decoded_path.as_str());
    // The decoded path is only looked at when the given one is no file.
    let decoded_is_file = if given_is_file {
        false
    } else {
        match &decoded {
            Some(f) => is_file(f.as_str()),
            None => false,
        }
    };
    proof {
        assert(opt_string(given) == resolve_candidate(root@, path@));
        assert(opt_string(decoded) == resolve_candidate(root@, percent_decoded(path@)));
    }
    resolved_file(given, given_is_file, decoded, decoded_is_file)
}

/// The tarball of a docset: its latest version, or a given one.
pub fn download_url(name: &str, version: Option<&str>) -> (r: String)
    ensures
        r@ == "https://go.zealdocs.org/d/com.kapeli/"@ + name@ + "/"@ + match version {
            Some(v) => v@,
            None => "latest"@,
        },
{
    let mut out: Vec<char> = Vec::new();
    push_str(&mut out, "https://go.zealdocs.org/d/com.kapeli/");
    push_str(&mut out, name);
    push_str(&mut out, "/");
    match version {
        Some(v) => push_str(&mut out, v),
        None => push_str(&mut out, "latest"),
    }
    from_chars(&out)
}

// ---------------------------------------------------------------------------
// Laws

proof fn lemma_trim_dots_spaces(s: Seq<char>)
    ensures
        trim_dots_spaces(s).len() <= s.len(),
        trim_dots_spaces(s) == s.take(trim_dots_spaces(s).len() as int),
        trim_dots_spaces(s).len() > 0 ==> trim_dots_spaces(s).last() != '.',
    decreases s.len(),
{
    if s.len() > 0 && (s.last() == '.' || s.last() == ' ') {
        lemma_trim_dots_spaces(s.drop_last());
        assert(s.drop_last().take(trim_dots_spaces(s).len() as int) == s.take(
            trim_dots_spaces(s).len() as int,
        ));
    } else {
        assert(s.take(s.len() as int) == s);
    }
}

/// A portable name has no `/` and does not end with `.`.
proof fn lemma_portable_name(x: Seq<char>)
    ensures
        !has_char(portable_name(x), '/'),
        portable_name(x).len() > 0 ==> portable_name(x).last() != '.',
{
    let d = dir_name_spec(x);
    lemma_trim_dots_spaces(d);
    let y = portable_name(x);
    assert forall|j: int| 0 <= j < y.len() implies y[j] != '/' by {
        assert(y[j] == d[j]);
    }
}

proof fn lemma_portable_parts(ps: Seq<Seq<char>>)
    ensures
        match portable_parts(ps) {
            Some(qs) => forall|i: int|
                0 <= i < qs.len() ==> (#[trigger] qs[i]).len() > 0 && !has_char(qs[i], '/')
                    && qs[i].last() != '.',
            None => true,
        },
    decreases ps.len(),
{
    if ps.len() > 0 {
        lemma_portable_parts(ps.drop_last());
        lemma_portable_name(ps.last());
    }
}

/// An extracted or resolved path stays below its root: a portable path is
/// never empty, never absolute, and made of plain names only (no `.`, `..`
/// or empty parts, no `/` inside a name).
pub proof fn lemma_portable_paths_stay_below(p: Seq<char>)
    ensures
        match portable_path_spec(p) {
            Some(q) => q.len() > 0 && !is_absolute(q) && plain_relative(q),
            None => true,
        },
{
    match portable_path_spec(p) {
        Some(q) => {
            let qs = portable_parts(split_spec(p, '/'))->Some_0;
            lemma_portable_parts(split_spec(p, '/'));
            assert(q == join(qs, seq!['/']));
            crate::text::lemma_split_join(qs, '/');
            let ps = split_spec(q, '/');
            assert(ps == qs);
            lemma_named_parts_all(qs);
            assert(q.len() > 0 && q[0] != '/') by {
                lemma_join_starts(qs);
            }
            assert(ps[0] != seq!['.']) by {
                if ps[0] == seq!['.'] {
                    assert(qs[0].last() == '.');
                }
            }
            assert(components(q) =~= qs);
            assert forall|i: int| 0 <= i < components(q).len() implies is_name(#[trigger] components(q)[i]) by {
                let x = qs[i];
                assert(x.len() > 0 && x.last() != '.' && !has_char(x, '/'));
                if x == seq!['/'] {
                    assert(x[0] == '/');
                }
            }
        },
        None => {},
    }
}

/// Names none of which is empty or `.` are all kept.
proof fn lemma_named_parts_all(qs: Seq<Seq<char>>)
    requires
        forall|i: int| 0 <= i < qs.len() ==> (#[trigger] qs[i]).len() > 0 && qs[i].last() != '.',
    ensures
        crate::paths::named_parts(qs) == qs,
    decreases qs.len(),
{
    if qs.len() > 0 {
        let rest = qs.drop_last();
        assert forall|i: int| 0 <= i < rest.len() implies (#[trigger] rest[i]).len() > 0 && rest[i].last() != '.' by {
            assert(rest[i] == qs[i]);
        }
        lemma_named_parts_all(rest);
        let l = qs[qs.len() - 1];
        if l == seq!['.'] {
            assert(l.last() == '.');
        }
        assert(qs == rest.push(qs.last()));
    }
}

/// Parts joined by `/` start with the first part's first char.
proof fn lemma_join_starts(qs: Seq<Seq<char>>)
    requires
        qs.len() > 0,
        qs[0].len() > 0,
        !has_char(qs[0], '/'),
    ensures
        join(qs, seq!['/']).len() > 0,
        join(qs, seq!['/'])[0] == qs[0][0],
    decreases qs.len(),
{
    if qs.len() > 1 {
        let rest = qs.drop_last();
        assert(rest[0] == qs[0]);
        lemma_join_starts(rest);
    }
    assert(qs[0][0] != '/');
}

/// Resolving a page path never leaves the root: what comes back is the root
/// joined with a plain relative path.
pub proof fn lemma_resolve_stays_below(root: Seq<char>, p: Seq<char>)
    ensures
        match resolve_candidate(root, p) {
            Some(f) => exists|q: Seq<char>|
                q.len() > 0 && plain_relative(q) && f == #[trigger] join_path(root, q),
            None => true,
        },
{
    lemma_portable_paths_stay_below(p);
    match resolve_candidate(root, p) {
        Some(f) => {
            let q = portable_path_spec(p)->Some_0;
            assert(f == join_path(root, q));
        },
        None => {},
    }
}

/// Extraction never writes outside `dest`: a target is `dest` joined with a
/// plain relative path.
pub proof fn lemma_extract_stays_below(dest: Seq<char>, entry: Seq<char>, is_link: bool)
    ensures
        match extract_target_spec(dest, entry, is_link) {
            Some(t) => !is_link && exists|q: Seq<char>|
                q.len() > 0 && plain_relative(q) && t == #[trigger] join_path(dest, q),
            None => true,
        },
{
    lemma_portable_paths_stay_below(entry);
    match extract_target_spec(dest, entry, is_link) {
        Some(t) => {
            let q = portable_path_spec(entry)->Some_0;
            assert(t == join_path(dest, q));
        },
        None => {},
    }
}

} // verus!
