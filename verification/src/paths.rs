//! `/`-separated paths as a Unix `Path` reads them: components, joining,
//! prefixes, file stems and extensions.

use vstd::prelude::*;
use crate::text::{copy_range, eq_chars, join, lemma_join_push, push_all, seqs, split_spec, split_vec};

verus! {

/// The names among the pieces between slashes: empty pieces and `.` are
/// dropped, as `Path::components` normalizes them away.
pub open spec fn named_parts(ps: Seq<Seq<char>>) -> Seq<Seq<char>>
    decreases ps.len(),
{
    if ps.len() == 0 {
        seq![]
    } else if ps.last().len() == 0 || ps.last() == seq!['.'] {
        named_parts(ps.drop_last())
    } else {
        named_parts(ps.drop_last()).push(ps.last())
    }
}

pub open spec fn is_absolute(p: Seq<char>) -> bool {
    p.len() > 0 && p[0] == '/'
}

/// `Path::components`, each as its text: `/` for the root, `.` for a
/// leading current-dir, `..` for a parent, and the names.
pub open spec fn components(p: Seq<char>) -> Seq<Seq<char>> {
    let ps = split_spec(p, '/');
    let head: Seq<Seq<char>> = if is_absolute(p) {
        seq![seq!['/']]
    } else if ps[0] == seq!['.'] {
        seq![seq!['.']]
    } else {
        seq![]
    };
    head + named_parts(ps)
}

/// A component that is a plain name (not the root, `.` or `..`).
pub open spec fn is_name(c: Seq<char>) -> bool {
    c != seq!['/'] && c != seq!['.'] && c != seq!['.', '.']
}

/// `PathBuf::push`: an absolute `rel` replaces `base`; otherwise a `/` goes
/// between them unless `base` is empty or already ends with one.
pub open spec fn join_path(base: Seq<char>, rel: Seq<char>) -> Seq<char> {
    if is_absolute(rel) {
        rel
    } else if base.len() == 0 || base.last() == '/' {
        base + rel
    } else {
        base + seq!['/'] + rel
    }
}

/// `Path::strip_prefix` on components: what follows `base` in `path`.
pub open spec fn strip_components(path: Seq<Seq<char>>, base: Seq<Seq<char>>) -> Option<
    Seq<Seq<char>>,
> {
    if base.len() <= path.len() && path.take(base.len() as int) == base {
        Some(path.skip(base.len() as int))
    } else {
        None
    }
}

/// Index of the last `.` in `s`, or -1.
pub open spec fn last_dot(s: Seq<char>) -> int
    decreases s.len(),
{
    if s.len() == 0 {
        -1
    } else if s.last() == '.' {
        s.len() - 1
    } else {
        last_dot(s.drop_last())
    }
}

/// `Path::extension` of a file name: what follows its last `.`, unless that
/// dot starts the name.
pub open spec fn extension(name: Seq<char>) -> Option<Seq<char>> {
    if last_dot(name) > 0 {
        Some(name.skip(last_dot(name) + 1))
    } else {
        None
    }
}

/// `Path::file_stem` of a file name: the name without its extension.
pub open spec fn stem(name: Seq<char>) -> Seq<char> {
    if last_dot(name) > 0 {
        name.take(last_dot(name))
    } else {
        name
    }
}

pub proof fn lemma_last_dot(s: Seq<char>)
    ensures
        -1 <= last_dot(s) < s.len(),
        last_dot(s) >= 0 ==> s[last_dot(s)] == '.',
    decreases s.len(),
{
    if s.len() > 0 && s.last() != '.' {
        lemma_last_dot(s.drop_last());
    }
}

// ---------------------------------------------------------------------------
// Executable forms

fn is_dot(s: &Vec<char>) -> (r: bool)
    ensures
        r == (s@ == seq!['.']),
{
    let r = s.len() == 1 && s[0] == '.';
    proof {
        if s@ == seq!['.'] {
            assert(s@[0] == '.');
        }
        if r {
            assert(s@ =~= seq!['.']);
        }
    }
    r
}

fn is_dot_dot(s: &Vec<char>) -> (r: bool)
    ensures
        r == (s@ == seq!['.', '.']),
{
    let r = s.len() == 2 && s[0] == '.' && s[1] == '.';
    proof {
        if s@ == seq!['.', '.'] {
            assert(s@[0] == '.' && s@[1] == '.');
        }
        if r {
            assert(s@ =~= seq!['.', '.']);
        }
    }
    r
}

pub fn is_name_vec(c: &Vec<char>) -> (r: bool)
    ensures
        r == is_name(c@),
{
    let r = !(c.len() == 1 && (c[0] == '/' || c[0] == '.')) && !is_dot_dot(c);
    proof {
        if c@ == seq!['/'] {
            assert(c@[0] == '/');
        }
        if c@ == seq!['.'] {
            assert(c@[0] == '.');
        }
        if c@.len() == 1 && (c@[0] == '/') {
            assert(c@ =~= seq!['/']);
        }
        if c@.len() == 1 && (c@[0] == '.') {
            assert(c@ =~= seq!['.']);
        }
    }
    r
}

/// `Path::components` of `p`, each as its text.
pub fn components_vec(p: &[char]) -> (r: Vec<Vec<char>>)
    ensures
        seqs(r@) == components(p@),
{
    let ps = split_vec(p, '/');
    let ghost pv = seqs(ps@);
    let mut out: Vec<Vec<char>> = Vec::new();
    proof {
        assert(pv.len() > 0) by {
            lemma_split_nonempty(p@, '/');
        }
    }
    if p.len() > 0 && p[0] == '/' {
        let mut root: Vec<char> = Vec::new();
        root.push('/');
        out.push(root);
        assert(seqs(out@) =~= seq![seq!['/']]);
    } else if is_dot(&ps[0]) {
        let mut cur: Vec<char> = Vec::new();
        cur.push('.');
        out.push(cur);
        assert(seqs(out@) =~= seq![seq!['.']]);
    } else {
        assert(seqs(out@) =~= Seq::<Seq<char>>::empty());
    }
    let ghost head = seqs(out@);
    assert(pv[0] == ps@[0]@);
    assert(components(p@) == head + named_parts(pv));
    assert(pv.take(0) == Seq::<Seq<char>>::empty());
    let mut i: usize = 0;
    while i < ps.len()
        invariant
            i <= ps@.len(),
            pv == seqs(ps@),
            seqs(out@) == head + named_parts(pv.take(i as int)),
        decreases ps@.len() - i,
    {
        assert(pv.take(i + 1).drop_last() == pv.take(i as int));
        assert(pv.take(i + 1).last() == ps@[i as int]@);
        if ps[i].len() > 0 && !is_dot(&ps[i]) {
            let c = ps[i].clone();
            let ghost before = seqs(out@);
            out.push(c);
            assert(seqs(out@) == before.push(c@));
        }
        i = i + 1;
    }
    assert(pv.take(ps@.len() as int) == pv);
    assert(pv[0] == ps@[0]@);
    out
}

proof fn lemma_split_nonempty(s: Seq<char>, c: char)
    ensures
        split_spec(s, c).len() > 0,
{
    reveal_with_fuel(split_spec, 1);
}

/// Whether the components `a` and `b` are the same.
fn same_components(a: &Vec<Vec<char>>, b: &Vec<Vec<char>>, n: usize) -> (r: bool)
    requires
        n <= a@.len(),
        n <= b@.len(),
    ensures
        r == (seqs(a@).take(n as int) == seqs(b@).take(n as int)),
{
    let mut i: usize = 0;
    while i < n
        invariant
            i <= n <= a@.len(),
            n <= b@.len(),
            seqs(a@).take(i as int) == seqs(b@).take(i as int),
        decreases n - i,
    {
        if !eq_chars(a[i].as_slice(), b[i].as_slice()) {
            assert(seqs(a@).take(n as int)[i as int] == a@[i as int]@);
            assert(seqs(b@).take(n as int)[i as int] == b@[i as int]@);
            return false;
        }
        assert(seqs(a@).take(i + 1) == seqs(a@).take(i as int).push(a@[i as int]@));
        assert(seqs(b@).take(i + 1) == seqs(b@).take(i as int).push(b@[i as int]@));
        i = i + 1;
    }
    true
}

/// The components of `path` after those of `base`, when `base`'s come first.
pub fn strip_components_vec(path: &Vec<Vec<char>>, base: &Vec<Vec<char>>) -> (r: Option<
    Vec<Vec<char>>,
>)
    ensures
        match r {
            Some(rest) => strip_components(seqs(path@), seqs(base@)) == Some(seqs(rest@)),
            None => strip_components(seqs(path@), seqs(base@)) is None,
        },
{
    assert(seqs(base@).take(base@.len() as int) == seqs(base@));
    if base.len() > path.len() || !same_components(path, base, base.len()) {
        return None;
    }
    assert(seqs(base@).take(base@.len() as int) == seqs(base@));
    let mut rest: Vec<Vec<char>> = Vec::new();
    let mut i: usize = base.len();
    while i < path.len()
        invariant
            base@.len() <= i <= path@.len(),
            seqs(rest@) == seqs(path@).subrange(base@.len() as int, i as int),
        decreases path@.len() - i,
    {
        let c = path[i].clone();
        let ghost before = seqs(rest@);
        rest.push(c);
        assert(seqs(rest@) == before.push(c@));
        assert(seqs(path@).subrange(base@.len() as int, i + 1) == seqs(path@).subrange(
            base@.len() as int,
            i as int,
        ).push(path@[i as int]@));
        i = i + 1;
    }
    Some(rest)
}

/// `join_path` on char vectors.
pub fn join_path_vec(base: &[char], rel: &[char]) -> (r: Vec<char>)
    ensures
        r@ == join_path(base@, rel@),
{
    let mut out: Vec<char> = Vec::new();
    if rel.len() > 0 && rel[0] == '/' {
        push_all(&mut out, rel);
        return out;
    }
    push_all(&mut out, base);
    if base.len() > 0 && base[base.len() - 1] != '/' {
        out.push('/');
    }
    push_all(&mut out, rel);
    out
}

/// `last_dot` on a char slice.
pub fn last_dot_vec(s: &[char]) -> (r: Option<usize>)
    ensures
        match r {
            Some(k) => last_dot(s@) == k as int,
            None => last_dot(s@) == -1,
        },
{
    let mut i: usize = s.len();
    assert(s@.take(i as int) == s@);
    while i > 0
        invariant
            i <= s@.len(),
            last_dot(s@) == last_dot(s@.take(i as int)),
        decreases i,
    {
        assert(s@.take(i as int).drop_last() == s@.take(i - 1));
        if s[i - 1] == '.' {
            return Some(i - 1);
        }
        i = i - 1;
    }
    None
}

/// `stem` on a char slice.
pub fn stem_vec(name: &[char]) -> (r: Vec<char>)
    ensures
        r@ == stem(name@),
{
    proof {
        lemma_last_dot(name@);
    }
    match last_dot_vec(name) {
        Some(k) if k > 0 => copy_range(name, 0, k),
        _ => copy_range(name, 0, name.len()),
    }
}

/// `extension` on a char slice.
pub fn extension_vec(name: &[char]) -> (r: Option<Vec<char>>)
    ensures
        match r {
            Some(e) => extension(name@) == Some(e@),
            None => extension(name@) is None,
        },
{
    proof {
        lemma_last_dot(name@);
    }
    let d = last_dot_vec(name);
    match d {
        Some(k) => {
            if k > 0 && k < name.len() {
                Some(copy_range(name, k + 1, name.len()))
            } else {
                None
            }
        },
        None => None,
    }
}

/// `Path::extension` of a whole path: that of its last component, when that
/// is a name.
pub open spec fn path_extension(p: Seq<char>) -> Option<Seq<char>> {
    let cs = components(p);
    if cs.len() > 0 && is_name(cs.last()) {
        extension(cs.last())
    } else {
        None
    }
}

/// `path_extension` on a char slice.
pub fn path_extension_vec(p: &[char]) -> (r: Option<Vec<char>>)
    ensures
        match r {
            Some(e) => path_extension(p@) == Some(e@),
            None => path_extension(p@) is None,
        },
{
    let cs = components_vec(p);
    if cs.len() == 0 {
        return None;
    }
    let last = &cs[cs.len() - 1];
    assert(last@ == components(p@).last());
    if !is_name_vec(last) {
        return None;
    }
    extension_vec(last.as_slice())
}

/// Joins components with `/`.
pub fn join_components(cs: &Vec<Vec<char>>) -> (r: Vec<char>)
    ensures
        r@ == join(seqs(cs@), seq!['/']),
{
    let mut out: Vec<char> = Vec::new();
    let mut i: usize = 0;
    assert(seqs(cs@).take(0) == Seq::<Seq<char>>::empty());
    while i < cs.len()
        invariant
            i <= cs@.len(),
            out@ == join(seqs(cs@).take(i as int), seq!['/']),
        decreases cs@.len() - i,
    {
        proof {
            lemma_join_push(seqs(cs@).take(i as int), seq!['/'], cs@[i as int]@);
            assert(seqs(cs@).take(i + 1) == seqs(cs@).take(i as int).push(cs@[i as int]@));
        }
        if i > 0 {
            out.push('/');
        }
        push_all(&mut out, cs[i].as_slice());
        i = i + 1;
    }
    assert(seqs(cs@).take(cs@.len() as int) == seqs(cs@));
    out
}

/// Calls `Path::exists`: whether something is at `p` now. Nothing is
/// promised: the answer is the disk's.
#[verifier::external_body]
pub(crate) fn path_exists(p: &str) -> (r: bool) {
    std::path::Path::new(p).exists()
}

/// Calls `Path::is_dir`: whether a directory is at `p` now. Nothing is
/// promised: the answer is the disk's.
#[verifier::external_body]
pub(crate) fn path_is_dir(p: &str) -> (r: bool) {
    std::path::Path::new(p).is_dir()
}

/// Calls `Path::is_file`: whether a regular file is there now. Nothing is
/// promised: the answer is the disk's.
#[verifier::external_body]
pub(crate) fn is_file(p: &str) -> (r: bool) {
    std::path::Path::new(p).is_file()
}

/// The path that components make: the root, then the rest joined by `/`.
pub open spec fn path_of(cs: Seq<Seq<char>>) -> Seq<char> {
    if cs.len() > 0 && cs[0] == seq!['/'] {
        seq!['/'] + join(cs.skip(1), seq!['/'])
    } else {
        join(cs, seq!['/'])
    }
}

/// `path_of` on the first `n` components.
pub fn path_of_vec(cs: &Vec<Vec<char>>, n: usize) -> (r: Vec<char>)
    requires
        n <= cs@.len(),
    ensures
        r@ == path_of(seqs(cs@).take(n as int)),
{
    let mut parts: Vec<Vec<char>> = Vec::new();
    let root = n > 0 && cs[0].len() == 1 && cs[0][0] == '/';
    proof {
        if n > 0 {
            assert(seqs(cs@).take(n as int)[0] == cs@[0]@);
            if cs@[0]@ == seq!['/'] {
                assert(cs@[0]@[0] == '/');
            }
            if root {
                assert(cs@[0]@ =~= seq!['/']);
            }
        }
    }
    let from: usize = if root {
        1
    } else {
        0
    };
    let mut i: usize = from;
    while i < n
        invariant
            from <= i <= n <= cs@.len(),
            seqs(parts@) == seqs(cs@).subrange(from as int, i as int),
        decreases n - i,
    {
        let c = cs[i].clone();
        let ghost before = seqs(parts@);
        parts.push(c);
        assert(seqs(parts@) == before.push(c@));
        assert(seqs(cs@).subrange(from as int, i + 1) == seqs(cs@).subrange(from as int, i as int).push(cs@[i as int]@));
        i = i + 1;
    }
    assert(seqs(cs@).take(n as int).skip(from as int) == seqs(cs@).subrange(from as int, n as int));
    let joined = join_components(&parts);
    if root {
        let mut out: Vec<char> = Vec::new();
        out.push('/');
        push_all(&mut out, joined.as_slice());
        out
    } else {
        joined
    }
}

/// A configured path with a leading `~` read as the home folder: `~` alone
/// is `home`, `~/rest` is `rest` under `home`, anything else is kept.
pub open spec fn expand_home_spec(path: Seq<char>, home: Seq<char>) -> Seq<char> {
    if path == seq!['~'] {
        home
    } else if path.len() >= 2 && path[0] == '~' && path[1] == '/' {
        join_path(home, path.skip(2))
    } else {
        path
    }
}

pub fn expand_home(path: &str, home: &str) -> (r: String)
    ensures
        r@ == expand_home_spec(path@, home@),
{
    let p = crate::text::to_chars(path);
    let h = crate::text::to_chars(home);
    if p.len() == 1 && p[0] == '~' {
        assert(p@ =~= seq!['~']);
        return crate::text::from_chars(&h);
    }
    if p.len() >= 2 && p[0] == '~' && p[1] == '/' {
        assert(p@ != seq!['~']);
        let rest = copy_range(&p, 2, p.len());
        return crate::text::from_chars(&join_path_vec(h.as_slice(), rest.as_slice()));
    }
    proof {
        if p@ == seq!['~'] {
            assert(p@.len() == 1 && p@[0] == '~');
        }
    }
    crate::text::from_chars(&p)
}

} // verus!
