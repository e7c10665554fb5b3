//! Text as sequences of chars: the std string operations the library relies
//! on (`trim`, `lines`, prefixes), stated as spec functions and implemented
//! over `Vec<char>`.

use vstd::prelude::*;

verus! {

/// `String::push` appends one char.
pub assume_specification[ String::push ](s: &mut String, ch: char)
    ensures
        final(s)@ == old(s)@.push(ch),
;

// ---------------------------------------------------------------------------
// Spec functions

/// Unicode `White_Space`, the set `char::is_whitespace` tests.
pub open spec fn is_ws(c: char) -> bool {
    ||| ('\t' <= c && c <= '\r')
    ||| c == ' '
    ||| c == '\u{85}'
    ||| c == '\u{a0}'
    ||| c == '\u{1680}'
    ||| ('\u{2000}' <= c && c <= '\u{200a}')
    ||| c == '\u{2028}'
    ||| c == '\u{2029}'
    ||| c == '\u{202f}'
    ||| c == '\u{205f}'
    ||| c == '\u{3000}'
}

/// `str::trim_start`.
pub open spec fn trim_start(s: Seq<char>) -> Seq<char>
    decreases s.len(),
{
    if s.len() > 0 && is_ws(s[0]) {
        trim_start(s.drop_first())
    } else {
        s
    }
}

/// `str::trim_end`.
pub open spec fn trim_end(s: Seq<char>) -> Seq<char>
    decreases s.len(),
{
    if s.len() > 0 && is_ws(s.last()) {
        trim_end(s.drop_last())
    } else {
        s
    }
}

/// `str::trim`.
pub open spec fn trim(s: Seq<char>) -> Seq<char> {
    trim_end(trim_start(s))
}

/// `str::trim_end_matches(c)` for a single char.
pub open spec fn trim_end_char(s: Seq<char>, c: char) -> Seq<char>
    decreases s.len(),
{
    if s.len() > 0 && s.last() == c {
        trim_end_char(s.drop_last(), c)
    } else {
        s
    }
}

/// `str::trim_start_matches(c)` for a single char.
pub open spec fn trim_start_char(s: Seq<char>, c: char) -> Seq<char>
    decreases s.len(),
{
    if s.len() > 0 && s[0] == c {
        trim_start_char(s.drop_first(), c)
    } else {
        s
    }
}

pub open spec fn starts_with(s: Seq<char>, p: Seq<char>) -> bool {
    p.len() <= s.len() && s.take(p.len() as int) == p
}

pub open spec fn ends_with(s: Seq<char>, p: Seq<char>) -> bool {
    p.len() <= s.len() && s.skip(s.len() - p.len()) == p
}

/// Index of the first `c` in `s`, or `s.len()` when there is none.
pub open spec fn find_char(s: Seq<char>, c: char) -> int
    decreases s.len(),
{
    if s.len() == 0 {
        0
    } else if s[0] == c {
        0
    } else {
        1 + find_char(s.drop_first(), c)
    }
}

/// Whether `c` occurs in `s`.
pub open spec fn has_char(s: Seq<char>, c: char) -> bool {
    exists|i: int| 0 <= i < s.len() && s[i] == c
}

/// A line without the `\r` of a `\r\n` ending.
pub open spec fn strip_cr(l: Seq<char>) -> Seq<char> {
    if l.len() > 0 && l.last() == '\r' {
        l.drop_last()
    } else {
        l
    }
}

/// `str::lines`: split at `\n` (dropping a `\r` before it); a final line
/// ending is optional, and an empty text has no lines.
pub open spec fn lines(s: Seq<char>) -> Seq<Seq<char>>
    decreases s.len(),
{
    if s.len() == 0 {
        seq![]
    } else {
        let i = find_char(s, '\n');
        if i >= s.len() {
            seq![s]
        } else {
            proof {
                lemma_find_char(s, '\n');
            }
            seq![strip_cr(s.take(i))] + lines(s.skip(i + 1))
        }
    }
}

/// Parts joined with `sep` between them.
pub open spec fn join(parts: Seq<Seq<char>>, sep: Seq<char>) -> Seq<char>
    decreases parts.len(),
{
    if parts.len() == 0 {
        seq![]
    } else if parts.len() == 1 {
        parts[0]
    } else {
        join(parts.drop_last(), sep) + sep + parts.last()
    }
}

/// Each line followed by `\n`, concatenated.
pub open spec fn unlines(ls: Seq<Seq<char>>) -> Seq<char>
    decreases ls.len(),
{
    if ls.len() == 0 {
        seq![]
    } else {
        unlines(ls.drop_last()) + ls.last() + seq!['\n']
    }
}

/// ASCII digits `0`–`9`.
pub open spec fn is_digit(c: char) -> bool {
    '0' <= c && c <= '9'
}

/// `char::is_ascii_alphanumeric`.
pub open spec fn is_ascii_alnum(c: char) -> bool {
    is_digit(c) || ('a' <= c && c <= 'z') || ('A' <= c && c <= 'Z')
}

/// `char::to_ascii_lowercase`.
pub open spec fn ascii_lower(c: char) -> char {
    if 'A' <= c && c <= 'Z' {
        ((c as u32) + 32) as char
    } else {
        c
    }
}

pub open spec fn ascii_lower_seq(s: Seq<char>) -> Seq<char> {
    s.map_values(|c: char| ascii_lower(c))
}

/// Views of a sequence of char vectors.
pub open spec fn seqs(v: Seq<Vec<char>>) -> Seq<Seq<char>> {
    v.map_values(|x: Vec<char>| x@)
}

/// Views of a sequence of strings.
pub open spec fn strs(v: Seq<String>) -> Seq<Seq<char>> {
    v.map_values(|x: String| x@)
}


/// `str::strip_suffix` repeated while it applies: `str::trim_end_matches`
/// with a non-empty string pattern.
pub open spec fn trim_end_str(s: Seq<char>, p: Seq<char>) -> Seq<char>
    decreases s.len(),
{
    if p.len() > 0 && ends_with(s, p) {
        trim_end_str(s.take(s.len() - p.len()), p)
    } else {
        s
    }
}

/// The text before the first `c` (`s.split(c).next()`).
pub open spec fn before_char(s: Seq<char>, c: char) -> Seq<char> {
    s.take(find_char(s, c))
}

/// The text after the first `c`, when there is one.
pub open spec fn after_char(s: Seq<char>, c: char) -> Option<Seq<char>> {
    if find_char(s, c) < s.len() {
        Some(s.skip(find_char(s, c) + 1))
    } else {
        None
    }
}

/// Whether `p` occurs in `s`.
pub open spec fn contains_seq(s: Seq<char>, p: Seq<char>) -> bool {
    exists|i: int| 0 <= i <= s.len() - p.len() && #[trigger] s.subrange(i, i + p.len()) == p
}

// ---------------------------------------------------------------------------
// Lemmas

pub proof fn lemma_find_char(s: Seq<char>, c: char)
    ensures
        0 <= find_char(s, c) <= s.len(),
        find_char(s, c) < s.len() ==> s[find_char(s, c)] == c,
        forall|j: int| 0 <= j < find_char(s, c) ==> s[j] != c,
    decreases s.len(),
{
    if s.len() > 0 && s[0] != c {
        lemma_find_char(s.drop_first(), c);
        assert forall|j: int| 0 <= j < find_char(s, c) implies s[j] != c by {
            if j > 0 {
                assert(s[j] == s.drop_first()[j - 1]);
            }
        }
    }
}

/// `find_char` is pinned down by the first occurrence.
pub proof fn lemma_find_char_at(s: Seq<char>, c: char, k: int)
    requires
        0 <= k <= s.len(),
        forall|j: int| 0 <= j < k ==> s[j] != c,
        k < s.len() ==> s[k] == c,
    ensures
        find_char(s, c) == k,
    decreases s.len(),
{
    if s.len() > 0 && k > 0 {
        assert forall|j: int| 0 <= j < k - 1 implies s.drop_first()[j] != c by {
            assert(s.drop_first()[j] == s[j + 1]);
        }
        lemma_find_char_at(s.drop_first(), c, k - 1);
    }
}

pub proof fn lemma_trim_start_suffix(s: Seq<char>)
    ensures
        trim_start(s).len() <= s.len(),
        trim_start(s) == s.skip(s.len() - trim_start(s).len()),
        trim_start(s).len() > 0 ==> !is_ws(trim_start(s)[0]),
        forall|j: int| 0 <= j < s.len() - trim_start(s).len() ==> is_ws(s[j]),
    decreases s.len(),
{
    if s.len() > 0 && is_ws(s[0]) {
        lemma_trim_start_suffix(s.drop_first());
        assert(s.drop_first().skip(s.drop_first().len() - trim_start(s).len()) == s.skip(
            s.len() - trim_start(s).len(),
        ));
        assert forall|j: int| 0 <= j < s.len() - trim_start(s).len() implies is_ws(s[j]) by {
            if j > 0 {
                assert(s[j] == s.drop_first()[j - 1]);
            }
        }
    } else {
        assert(s.skip(0) == s);
    }
}

pub proof fn lemma_trim_end_prefix(s: Seq<char>)
    ensures
        trim_end(s).len() <= s.len(),
        trim_end(s) == s.take(trim_end(s).len() as int),
        trim_end(s).len() > 0 ==> !is_ws(trim_end(s).last()),
        forall|j: int| trim_end(s).len() <= j < s.len() ==> is_ws(s[j]),
    decreases s.len(),
{
    if s.len() > 0 && is_ws(s.last()) {
        lemma_trim_end_prefix(s.drop_last());
        assert(s.drop_last().take(trim_end(s).len() as int) == s.take(trim_end(s).len() as int));
        assert forall|j: int| trim_end(s).len() <= j < s.len() implies is_ws(s[j]) by {
            if j < s.len() - 1 {
                assert(s[j] == s.drop_last()[j]);
            }
        }
    } else {
        assert(s.take(s.len() as int) == s);
    }
}

/// Trimming leaves nothing exactly when every char is whitespace.
pub proof fn lemma_trim_empty(s: Seq<char>)
    ensures
        (trim(s).len() == 0) <==> (forall|j: int| 0 <= j < s.len() ==> is_ws(s[j])),
{
    lemma_trim_start_suffix(s);
    lemma_trim_end_prefix(trim_start(s));
    if trim(s).len() == 0 {
        let t = trim_start(s);
        assert forall|j: int| 0 <= j < s.len() implies is_ws(s[j]) by {
            if j >= s.len() - t.len() {
                assert(s[j] == t[j - (s.len() - t.len())]);
            }
        }
    } else {
        let t = trim_start(s);
        assert(t.len() > 0);
        assert(s[s.len() - t.len()] == t[0]);
    }
}

pub proof fn lemma_trim_start_char_suffix(s: Seq<char>, c: char)
    ensures
        trim_start_char(s, c).len() <= s.len(),
        trim_start_char(s, c) == s.skip(s.len() - trim_start_char(s, c).len()),
        forall|j: int| 0 <= j < s.len() - trim_start_char(s, c).len() ==> s[j] == c,
        trim_start_char(s, c).len() > 0 ==> trim_start_char(s, c)[0] != c,
    decreases s.len(),
{
    if s.len() > 0 && s[0] == c {
        lemma_trim_start_char_suffix(s.drop_first(), c);
        assert(s.drop_first().skip(s.drop_first().len() - trim_start_char(s, c).len()) == s.skip(
            s.len() - trim_start_char(s, c).len(),
        ));
        assert forall|j: int| 0 <= j < s.len() - trim_start_char(s, c).len() implies s[j] == c by {
            if j > 0 {
                assert(s[j] == s.drop_first()[j - 1]);
            }
        }
    } else {
        assert(s.skip(0) == s);
    }
}

pub proof fn lemma_join_push(parts: Seq<Seq<char>>, sep: Seq<char>, p: Seq<char>)
    ensures
        join(parts.push(p), sep) == if parts.len() == 0 {
            p
        } else {
            join(parts, sep) + sep + p
        },
{
    assert(parts.push(p).drop_last() == parts);
    if parts.len() == 0 {
        assert(parts.push(p) == seq![p]);
    }
}

pub proof fn lemma_unlines_push(ls: Seq<Seq<char>>, l: Seq<char>)
    ensures
        unlines(ls.push(l)) == unlines(ls) + l + seq!['\n'],
{
    assert(ls.push(l).drop_last() == ls);
}

// ---------------------------------------------------------------------------
// Exec helpers

/// The chars of `s`, in order.
pub fn to_chars(s: &str) -> (v: Vec<char>)
    ensures
        v@ == s@,
{
    let mut v: Vec<char> = Vec::new();
    for c in it: s.chars()
        invariant
            v@ == it.seq().take(it.index() as int),
            it.seq() == s@,
    {
        v.push(c);
    }
    v
}

/// A `String` holding exactly the chars of `v`.
pub fn from_chars(v: &[char]) -> (s: String)
    ensures
        s@ == v@,
{
    let mut s = String::new();
    let mut i: usize = 0;
    while i < v.len()
        invariant
            0 <= i <= v@.len(),
            s@ == v@.subrange(0, i as int),
        decreases v@.len() - i,
    {
        s.push(v[i]);
        assert(v@.subrange(0, i + 1) == v@.subrange(0, i as int).push(v@[i as int]));
        i = i + 1;
    }
    assert(v@.subrange(0, v@.len() as int) == v@);
    s
}

/// Appends `s` to `v`.
pub fn push_all(v: &mut Vec<char>, s: &[char])
    ensures
        final(v)@ == old(v)@ + s@,
{
    let mut i: usize = 0;
    while i < s.len()
        invariant
            0 <= i <= s@.len(),
            v@ == old(v)@ + s@.subrange(0, i as int),
        decreases s@.len() - i,
    {
        v.push(s[i]);
        assert(s@.subrange(0, i + 1) == s@.subrange(0, i as int).push(s@[i as int]));
        i = i + 1;
    }
    assert(s@.subrange(0, s@.len() as int) == s@);
}

/// Appends the chars of `s` to `v`.
pub fn push_str(v: &mut Vec<char>, s: &str)
    ensures
        final(v)@ == old(v)@ + s@,
{
    let c = to_chars(s);
    push_all(v, &c);
}

/// `s[a..b]` as a new vector.
pub fn copy_range(s: &[char], a: usize, b: usize) -> (r: Vec<char>)
    requires
        a <= b <= s@.len(),
    ensures
        r@ == s@.subrange(a as int, b as int),
{
    let mut r: Vec<char> = Vec::new();
    let mut i: usize = a;
    while i < b
        invariant
            a <= i <= b <= s@.len(),
            r@ == s@.subrange(a as int, i as int),
        decreases b - i,
    {
        r.push(s[i]);
        assert(s@.subrange(a as int, i + 1) == s@.subrange(a as int, i as int).push(s@[i as int]));
        i = i + 1;
    }
    r
}

pub fn is_ws_char(c: char) -> (b: bool)
    ensures
        b == is_ws(c),
{
    ('\t' <= c && c <= '\r') || c == ' ' || c == '\u{85}' || c == '\u{a0}' || c == '\u{1680}'
        || ('\u{2000}' <= c && c <= '\u{200a}') || c == '\u{2028}' || c == '\u{2029}' || c
        == '\u{202f}' || c == '\u{205f}' || c == '\u{3000}'
}

pub fn is_digit_char(c: char) -> (b: bool)
    ensures
        b == is_digit(c),
{
    '0' <= c && c <= '9'
}

pub fn is_ascii_alnum_char(c: char) -> (b: bool)
    ensures
        b == is_ascii_alnum(c),
{
    ('0' <= c && c <= '9') || ('a' <= c && c <= 'z') || ('A' <= c && c <= 'Z')
}

pub fn ascii_lower_char(c: char) -> (r: char)
    ensures
        r == ascii_lower(c),
{
    if 'A' <= c && c <= 'Z' {
        let u: u8 = (c as u8) + 32;
        u as char
    } else {
        c
    }
}

/// Number of leading whitespace chars.
pub fn trim_start_len(s: &[char]) -> (k: usize)
    ensures
        k <= s@.len(),
        s@.skip(k as int) == trim_start(s@),
{
    let mut k: usize = 0;
    assert(s@.skip(0) == s@);
    while k < s.len() && is_ws_char(s[k])
        invariant
            k <= s@.len(),
            trim_start(s@.skip(k as int)) == trim_start(s@),
        decreases s@.len() - k,
    {
        assert(s@.skip(k as int).drop_first() == s@.skip(k + 1));
        k = k + 1;
    }
    k
}

/// Length of `s` without trailing whitespace.
pub fn trim_end_len(s: &[char]) -> (k: usize)
    ensures
        k <= s@.len(),
        s@.take(k as int) == trim_end(s@),
{
    let mut k: usize = s.len();
    assert(s@.take(k as int) == s@);
    while k > 0 && is_ws_char(s[k - 1])
        invariant
            k <= s@.len(),
            trim_end(s@.take(k as int)) == trim_end(s@),
        decreases k,
    {
        assert(s@.take(k as int).drop_last() == s@.take(k - 1));
        k = k - 1;
    }
    k
}

pub fn trim_start_vec(s: &[char]) -> (r: Vec<char>)
    ensures
        r@ == trim_start(s@),
{
    let k = trim_start_len(s);
    copy_range(s, k, s.len())
}

pub fn trim_end_vec(s: &[char]) -> (r: Vec<char>)
    ensures
        r@ == trim_end(s@),
{
    let k = trim_end_len(s);
    copy_range(s, 0, k)
}

pub fn trim_vec(s: &[char]) -> (r: Vec<char>)
    ensures
        r@ == trim(s@),
{
    let t = trim_start_vec(s);
    trim_end_vec(&t)
}

pub fn trim_end_char_vec(s: &[char], c: char) -> (r: Vec<char>)
    ensures
        r@ == trim_end_char(s@, c),
{
    let mut k: usize = s.len();
    assert(s@.take(k as int) == s@);
    while k > 0 && s[k - 1] == c
        invariant
            k <= s@.len(),
            trim_end_char(s@.take(k as int), c) == trim_end_char(s@, c),
        decreases k,
    {
        assert(s@.take(k as int).drop_last() == s@.take(k - 1));
        k = k - 1;
    }
    copy_range(s, 0, k)
}

pub fn trim_start_char_vec(s: &[char], c: char) -> (r: Vec<char>)
    ensures
        r@ == trim_start_char(s@, c),
{
    let mut k: usize = 0;
    assert(s@.skip(0) == s@);
    while k < s.len() && s[k] == c
        invariant
            k <= s@.len(),
            trim_start_char(s@.skip(k as int), c) == trim_start_char(s@, c),
        decreases s@.len() - k,
    {
        assert(s@.skip(k as int).drop_first() == s@.skip(k + 1));
        k = k + 1;
    }
    copy_range(s, k, s.len())
}

/// Whether `a` and `b` hold the same chars.
pub fn eq_chars(a: &[char], b: &[char]) -> (r: bool)
    ensures
        r == (a@ == b@),
{
    if a.len() != b.len() {
        return false;
    }
    let mut i: usize = 0;
    while i < a.len()
        invariant
            a@.len() == b@.len(),
            i <= a@.len(),
            forall|j: int| 0 <= j < i ==> a@[j] == b@[j],
        decreases a@.len() - i,
    {
        if a[i] != b[i] {
            return false;
        }
        i = i + 1;
    }
    assert(a@ == b@);
    true
}

/// Whether `s[at..]` starts with `p`.
pub fn starts_with_at(s: &[char], at: usize, p: &[char]) -> (r: bool)
    requires
        at <= s@.len(),
    ensures
        r == starts_with(s@.skip(at as int), p@),
{
    if p.len() > s.len() - at {
        return false;
    }
    let mut i: usize = 0;
    while i < p.len()
        invariant
            s@.len() == s.len(),
            at + p@.len() <= s@.len(),
            i <= p@.len(),
            forall|j: int| 0 <= j < i ==> s@[at + j] == p@[j],
        decreases p@.len() - i,
    {
        if s[at + i] != p[i] {
            assert(s@.skip(at as int).take(p@.len() as int)[i as int] == s@[at + i]);
            return false;
        }
        i = i + 1;
    }
    assert(s@.skip(at as int).take(p@.len() as int) == p@);
    true
}

pub fn starts_with_chars(s: &[char], p: &[char]) -> (r: bool)
    ensures
        r == starts_with(s@, p@),
{
    assert(s@.skip(0) == s@);
    starts_with_at(s, 0, p)
}

pub fn starts_with_str(s: &[char], p: &str) -> (r: bool)
    ensures
        r == starts_with(s@, p@),
{
    let pc = to_chars(p);
    starts_with_chars(s, &pc)
}

pub fn ends_with_chars(s: &[char], p: &[char]) -> (r: bool)
    ensures
        r == ends_with(s@, p@),
{
    if p.len() > s.len() {
        return false;
    }
    let at = s.len() - p.len();
    let r = starts_with_at(s, at, p);
    assert(s@.skip(at as int).take(p@.len() as int) == s@.skip(at as int));
    r
}

pub fn ends_with_str(s: &[char], p: &str) -> (r: bool)
    ensures
        r == ends_with(s@, p@),
{
    let pc = to_chars(p);
    ends_with_chars(s, &pc)
}

/// Whether `c` occurs in `s`.
pub fn contains_char(s: &[char], c: char) -> (r: bool)
    ensures
        r == has_char(s@, c),
{
    let mut i: usize = 0;
    while i < s.len()
        invariant
            i <= s@.len(),
            forall|j: int| 0 <= j < i ==> s@[j] != c,
        decreases s@.len() - i,
    {
        if s[i] == c {
            return true;
        }
        i = i + 1;
    }
    false
}

/// Index of the first `c` at or after `from`, or `s.len()`.
pub fn find_char_from(s: &[char], from: usize, c: char) -> (e: usize)
    requires
        from <= s@.len(),
    ensures
        from <= e <= s@.len(),
        e - from == find_char(s@.skip(from as int), c),
        e < s@.len() ==> s@[e as int] == c,
        forall|j: int| from <= j < e ==> s@[j] != c,
{
    let mut e = from;
    while e < s.len() && s[e] != c
        invariant
            from <= e <= s@.len(),
            forall|j: int| from <= j < e ==> s@[j] != c,
        decreases s@.len() - e,
    {
        e = e + 1;
    }
    proof {
        let t = s@.skip(from as int);
        assert forall|j: int| 0 <= j < e - from implies t[j] != c by {
            assert(t[j] == s@[from + j]);
        }
        if e < s@.len() {
            assert(t[e - from] == s@[e as int]);
        }
        lemma_find_char_at(t, c, e - from);
    }
    e
}

pub fn strip_cr_vec(l: Vec<char>) -> (r: Vec<char>)
    ensures
        r@ == strip_cr(l@),
{
    let mut l = l;
    if l.len() > 0 && l[l.len() - 1] == '\r' {
        l.pop();
    }
    l
}

/// `str::lines`.
pub fn lines_vec(s: &[char]) -> (r: Vec<Vec<char>>)
    ensures
        seqs(r@) == lines(s@),
{
    let n = s.len();
    let mut out: Vec<Vec<char>> = Vec::new();
    let mut start: usize = 0;
    assert(s@.skip(0) == s@);
    while start < n
        invariant
            n == s@.len(),
            start <= n,
            seqs(out@) + lines(s@.skip(start as int)) == lines(s@),
        decreases n - start,
    {
        let ghost t = s@.skip(start as int);
        let ghost prev = seqs(out@);
        let e = find_char_from(s, start, '\n');
        if e == n {
            let line = copy_range(s, start, n);
            assert(line@ == t);
            assert(lines(t) == seq![t]);
            out.push(line);
            assert(seqs(out@) == prev.push(t));
            assert(s@.skip(n as int) == Seq::<char>::empty());
            start = n;
        } else {
            let line = strip_cr_vec(copy_range(s, start, e));
            assert(t.take(e - start) == s@.subrange(start as int, e as int));
            assert(t.skip(e - start + 1) == s@.skip(e + 1));
            out.push(line);
            assert(seqs(out@) == prev.push(line@));
            start = e + 1;
        }
    }
    out
}

pub fn trim_end_str_vec(s: &[char], p: &[char]) -> (r: Vec<char>)
    ensures
        r@ == trim_end_str(s@, p@),
{
    let mut k: usize = s.len();
    assert(s@.take(k as int) == s@);
    if p.len() == 0 {
        return copy_range(s, 0, k);
    }
    while k >= p.len() && ends_with_at(s, k, p)
        invariant
            k <= s@.len(),
            p@.len() > 0,
            trim_end_str(s@.take(k as int), p@) == trim_end_str(s@, p@),
        decreases k,
    {
        assert(s@.take(k as int).take(k - p@.len()) == s@.take(k - p.len()));
        k = k - p.len();
    }
    copy_range(s, 0, k)
}

/// Whether `s[..k]` ends with `p`.
pub fn ends_with_at(s: &[char], k: usize, p: &[char]) -> (r: bool)
    requires
        k <= s@.len(),
    ensures
        r == ends_with(s@.take(k as int), p@),
{
    if p.len() > k {
        return false;
    }
    let at = k - p.len();
    let mut i: usize = 0;
    while i < p.len()
        invariant
            s@.len() == s.len(),
            at + p@.len() == k,
            k <= s@.len(),
            i <= p@.len(),
            forall|j: int| 0 <= j < i ==> s@[at + j] == p@[j],
        decreases p@.len() - i,
    {
        if s[at + i] != p[i] {
            assert(s@.take(k as int).skip(at as int)[i as int] == s@[at + i]);
            return false;
        }
        i = i + 1;
    }
    assert(s@.take(k as int).skip(at as int) == p@);
    true
}

/// `s.split(c).next()`.
pub fn before_char_vec(s: &[char], c: char) -> (r: Vec<char>)
    ensures
        r@ == before_char(s@, c),
{
    let e = find_char_from(s, 0, c);
    assert(s@.skip(0) == s@);
    copy_range(s, 0, e)
}

/// `s.split_once(c)`.
pub fn split_once_vec(s: &[char], c: char) -> (r: Option<(Vec<char>, Vec<char>)>)
    ensures
        match r {
            Some((a, b)) => after_char(s@, c) == Some(b@) && a@ == before_char(s@, c),
            None => after_char(s@, c) is None,
        },
{
    let e = find_char_from(s, 0, c);
    assert(s@.skip(0) == s@);
    if e < s.len() {
        Some((copy_range(s, 0, e), copy_range(s, e + 1, s.len())))
    } else {
        None
    }
}

/// Whether `p` occurs in `s`.
pub fn contains_chars(s: &[char], p: &[char]) -> (r: bool)
    ensures
        r == contains_seq(s@, p@),
{
    if p.len() > s.len() {
        return false;
    }
    if p.len() == 0 {
        assert(s@.subrange(0int, 0int + p@.len()) == p@);
        return true;
    }
    let mut i: usize = 0;
    while i <= s.len() - p.len()
        invariant
            0 < p@.len() <= s@.len(),
            s@.len() == s.len(),
            i <= s@.len() - p@.len() + 1,
            forall|j: int| 0 <= j < i ==> #[trigger] s@.subrange(j, j + p@.len()) != p@,
        decreases s@.len() - p@.len() + 1 - i,
    {
        if starts_with_at(s, i, p) {
            assert(s@.skip(i as int).take(p@.len() as int) == s@.subrange(i as int, i + p@.len()));
            return true;
        }
        assert(s@.skip(i as int).take(p@.len() as int) == s@.subrange(i as int, i + p@.len()));
        i = i + 1;
    }
    false
}

pub fn contains_str(s: &[char], p: &str) -> (r: bool)
    ensures
        r == contains_seq(s@, p@),
{
    let pc = to_chars(p);
    contains_chars(s, &pc)
}

pub fn eq_str(a: &[char], b: &str) -> (r: bool)
    ensures
        r == (a@ == b@),
{
    let bc = to_chars(b);
    eq_chars(a, &bc)
}

/// `s` without the prefix `p` (which it must start with).
pub fn skip_prefix(s: &[char], p: &str) -> (r: Vec<char>)
    requires
        starts_with(s@, p@),
    ensures
        r@ == s@.skip(p@.len() as int),
{
    let pc = to_chars(p);
    copy_range(s, pc.len(), s.len())
}

/// `s` without the suffix `p` (which it must end with).
pub fn drop_suffix(s: &[char], p: &str) -> (r: Vec<char>)
    requires
        ends_with(s@, p@),
    ensures
        r@ == s@.take(s@.len() - p@.len()),
{
    let pc = to_chars(p);
    copy_range(s, 0, s.len() - pc.len())
}

/// `s.split(c)`: the pieces between occurrences of `c`.
pub open spec fn split_spec(s: Seq<char>, c: char) -> Seq<Seq<char>>
    decreases s.len(),
{
    let i = find_char(s, c);
    if i >= s.len() {
        seq![s]
    } else {
        proof {
            lemma_find_char(s, c);
        }
        seq![s.take(i)] + split_spec(s.skip(i + 1), c)
    }
}

pub fn split_vec(s: &[char], c: char) -> (r: Vec<Vec<char>>)
    ensures
        seqs(r@) == split_spec(s@, c),
{
    let n = s.len();
    let mut out: Vec<Vec<char>> = Vec::new();
    let mut start: usize = 0;
    assert(s@.skip(0) == s@);
    loop
        invariant
            n == s@.len(),
            start <= n,
            seqs(out@) + split_spec(s@.skip(start as int), c) == split_spec(s@, c),
        decreases n - start,
    {
        let ghost t = s@.skip(start as int);
        let ghost prev = seqs(out@);
        let e = find_char_from(s, start, c);
        if e == n {
            let piece = copy_range(s, start, n);
            assert(piece@ == t);
            out.push(piece);
            assert(seqs(out@) == prev.push(t));
            return out;
        } else {
            let piece = copy_range(s, start, e);
            assert(t.take(e - start) == piece@);
            assert(t.skip(e - start + 1) == s@.skip(e + 1));
            out.push(piece);
            assert(seqs(out@) == prev.push(piece@));
            start = e + 1;
        }
    }
}

/// The digit for `d` (0 to 9).
pub open spec fn digit_char(d: int) -> char {
    if d == 0 {
        '0'
    } else if d == 1 {
        '1'
    } else if d == 2 {
        '2'
    } else if d == 3 {
        '3'
    } else if d == 4 {
        '4'
    } else if d == 5 {
        '5'
    } else if d == 6 {
        '6'
    } else if d == 7 {
        '7'
    } else if d == 8 {
        '8'
    } else {
        '9'
    }
}

/// `n` in decimal, as `u64`'s `Display` writes it.
pub open spec fn decimal(n: nat) -> Seq<char>
    decreases n,
{
    if n < 10 {
        seq![digit_char(n as int)]
    } else {
        decimal(n / 10).push(digit_char((n % 10) as int))
    }
}

/// `n` in decimal, with a `-` when negative, as `i64`'s `Display` writes it.
pub open spec fn signed_decimal(n: int) -> Seq<char> {
    if n < 0 {
        seq!['-'] + decimal((-n) as nat)
    } else {
        decimal(n as nat)
    }
}

fn digit_char_exec(d: u64) -> (c: char)
    requires
        d < 10,
    ensures
        c == digit_char(d as int),
{
    if d == 0 {
        '0'
    } else if d == 1 {
        '1'
    } else if d == 2 {
        '2'
    } else if d == 3 {
        '3'
    } else if d == 4 {
        '4'
    } else if d == 5 {
        '5'
    } else if d == 6 {
        '6'
    } else if d == 7 {
        '7'
    } else if d == 8 {
        '8'
    } else {
        '9'
    }
}

/// Appends `n` in decimal.
pub fn push_decimal(out: &mut Vec<char>, n: u64)
    ensures
        final(out)@ == old(out)@ + decimal(n as nat),
    decreases n,
{
    if n >= 10 {
        push_decimal(out, n / 10);
    }
    let d = digit_char_exec(n % 10);
    out.push(d);
    proof {
        if n < 10 {
            assert(n % 10 == n);
        }
    }
}

/// Appends `n` in decimal, with a `-` when negative.
pub fn push_signed_decimal(out: &mut Vec<char>, n: i64)
    ensures
        final(out)@ == old(out)@ + signed_decimal(n as int),
{
    if n < 0 {
        out.push('-');
        let m: u64 = ((-(n + 1)) as u64) + 1;
        push_decimal(out, m);
    } else {
        push_decimal(out, n as u64);
    }
}

/// `n` in decimal, as a string.
pub fn decimal_string(n: u64) -> (r: String)
    ensures
        r@ == decimal(n as nat),
{
    let mut out: Vec<char> = Vec::new();
    push_decimal(&mut out, n);
    from_chars(&out)
}

pub proof fn lemma_decimal_len(n: nat)
    ensures
        decimal(n).len() >= 1,
        n >= 10 ==> decimal(n).len() >= 2,
    decreases n,
{
    if n >= 10 {
        lemma_decimal_len(n / 10);
    }
}

/// Different numbers are written differently.
pub proof fn lemma_decimal_injective(a: nat, b: nat)
    requires
        decimal(a) == decimal(b),
    ensures
        a == b,
    decreases a,
{
    lemma_decimal_len(a);
    lemma_decimal_len(b);
    if a >= 10 && b >= 10 {
        let da = decimal(a);
        let db = decimal(b);
        assert(da.last() == digit_char((a % 10) as int));
        assert(db.last() == digit_char((b % 10) as int));
        assert(a % 10 == b % 10);
        assert(da.drop_last() == decimal(a / 10));
        assert(db.drop_last() == decimal(b / 10));
        lemma_decimal_injective(a / 10, b / 10);
    } else if a < 10 && b < 10 {
        assert(decimal(a)[0] == digit_char(a as int));
        assert(decimal(b)[0] == digit_char(b as int));
    }
}

pub proof fn lemma_trim_end_char_prefix(s: Seq<char>, c: char)
    ensures
        trim_end_char(s, c).len() <= s.len(),
        trim_end_char(s, c) == s.take(trim_end_char(s, c).len() as int),
        trim_end_char(s, c).len() > 0 ==> trim_end_char(s, c).last() != c,
    decreases s.len(),
{
    if s.len() > 0 && s.last() == c {
        lemma_trim_end_char_prefix(s.drop_last(), c);
        assert(s.drop_last().take(trim_end_char(s, c).len() as int) == s.take(
            trim_end_char(s, c).len() as int,
        ));
    } else {
        assert(s.take(s.len() as int) == s);
    }
}

pub proof fn lemma_split_no_sep(b: Seq<char>, c: char)
    requires
        !has_char(b, c),
    ensures
        split_spec(b, c) == seq![b],
{
    lemma_find_char(b, c);
    if find_char(b, c) < b.len() {
        assert(b[find_char(b, c)] == c);
    }
}

/// Splitting at `c` splits each side of a `c` on its own.
pub proof fn lemma_split_concat(a: Seq<char>, b: Seq<char>, c: char)
    ensures
        split_spec(a + seq![c] + b, c) == split_spec(a, c) + split_spec(b, c),
    decreases a.len(),
{
    let s = a + seq![c] + b;
    lemma_find_char(a, c);
    let i = find_char(a, c);
    if i >= a.len() {
        lemma_find_char_at(s, c, a.len() as int);
        assert(s.take(a.len() as int) == a);
        assert(s.skip(a.len() as int + 1) == b);
    } else {
        assert forall|j: int| 0 <= j < i implies s[j] != c by {
            assert(s[j] == a[j]);
        }
        lemma_find_char_at(s, c, i);
        lemma_split_concat(a.skip(i + 1), b, c);
        assert(s.take(i) == a.take(i));
        assert(s.skip(i + 1) == a.skip(i + 1) + seq![c] + b);
    }
}

/// Splitting parts joined by `c`, none of which holds `c`, gives the parts back.
pub proof fn lemma_split_join(qs: Seq<Seq<char>>, c: char)
    requires
        qs.len() > 0,
        forall|i: int| 0 <= i < qs.len() ==> !has_char(#[trigger] qs[i], c),
    ensures
        split_spec(join(qs, seq![c]), c) == qs,
    decreases qs.len(),
{
    if qs.len() == 1 {
        lemma_split_no_sep(qs[0], c);
        assert(qs == seq![qs[0]]);
    } else {
        let rest = qs.drop_last();
        assert forall|i: int| 0 <= i < rest.len() implies !has_char(#[trigger] rest[i], c) by {
            assert(rest[i] == qs[i]);
        }
        lemma_split_join(rest, c);
        assert(!has_char(qs[qs.len() - 1], c));
        lemma_split_no_sep(qs.last(), c);
        lemma_split_concat(join(rest, seq![c]), qs.last(), c);
        assert(qs == rest.push(qs.last()));
    }
}

/// A line without `\n`, then a newline: the first line, then the rest's.
pub proof fn lemma_lines_line(x: Seq<char>, y: Seq<char>)
    requires
        !has_char(x, '\n'),
    ensures
        lines(x + seq!['\n'] + y) == seq![strip_cr(x)] + lines(y),
{
    let s = x + seq!['\n'] + y;
    assert forall|j: int| 0 <= j < x.len() implies s[j] != '\n' by {
        assert(s[j] == x[j]);
    }
    lemma_find_char_at(s, '\n', x.len() as int);
    assert(s.take(x.len() as int) == x);
    assert(s.skip(x.len() as int + 1) == y);
}

/// Text without `\r`, then a newline: its lines are its pieces between
/// newlines, then the rest's lines.
pub proof fn lemma_lines_split(c: Seq<char>, y: Seq<char>)
    requires
        !has_char(c, '\r'),
    ensures
        lines(c + seq!['\n'] + y) == split_spec(c, '\n') + lines(y),
    decreases c.len(),
{
    lemma_find_char(c, '\n');
    let i = find_char(c, '\n');
    if i >= c.len() {
        assert(!has_char(c, '\n'));
        lemma_lines_line(c, y);
        lemma_split_no_sep(c, '\n');
        if c.len() > 0 {
            assert(c.last() != '\r');
        }
        assert(strip_cr(c) == c);
    } else {
        let a = c.take(i);
        let b = c.skip(i + 1);
        assert(!has_char(a, '\n'));
        assert(!has_char(b, '\r')) by {
            if has_char(b, '\r') {
                let j = choose|j: int| 0 <= j < b.len() && b[j] == '\r';
                assert(c[i + 1 + j] == '\r');
            }
        }
        assert(c + seq!['\n'] + y == a + seq!['\n'] + (b + seq!['\n'] + y));
        lemma_lines_line(a, b + seq!['\n'] + y);
        lemma_lines_split(b, y);
        if a.len() > 0 {
            assert(a.last() == c[i - 1]);
            assert(a.last() != '\r');
        }
        assert(strip_cr(a) == a);
        assert(split_spec(c, '\n') == seq![a] + split_spec(b, '\n'));
    }
}

/// Joining a first part to the rest puts one separator between them.
pub proof fn lemma_join_cons(x: Seq<char>, rest: Seq<Seq<char>>, sep: Seq<char>)
    requires
        rest.len() > 0,
    ensures
        join(seq![x] + rest, sep) == x + sep + join(rest, sep),
    decreases rest.len(),
{
    let all = seq![x] + rest;
    if rest.len() == 1 {
        assert(all.drop_last() == seq![x]);
        assert(all.last() == rest[0]);
        assert(join(seq![x], sep) == x);
        assert(join(rest, sep) == rest[0]);
        assert(join(all, sep) == join(all.drop_last(), sep) + sep + all.last());
    } else {
        lemma_join_cons(x, rest.drop_last(), sep);
        assert(all.drop_last() == seq![x] + rest.drop_last());
        assert(all.last() == rest.last());
        let j = join(rest.drop_last(), sep);
        assert(join(rest, sep) == j + sep + rest.last());
        assert(join(all, sep) == join(all.drop_last(), sep) + sep + all.last());
        assert((x + sep + j) + sep + rest.last() =~= x + sep + (j + sep + rest.last()));
    }
}

/// Joining the pieces of a split with the separator gives the text back.
pub proof fn lemma_join_split(c: Seq<char>, ch: char)
    ensures
        split_spec(c, ch).len() > 0,
        join(split_spec(c, ch), seq![ch]) == c,
    decreases c.len(),
{
    lemma_find_char(c, ch);
    let i = find_char(c, ch);
    if i < c.len() {
        lemma_join_split(c.skip(i + 1), ch);
        lemma_join_cons(c.take(i), split_spec(c.skip(i + 1), ch), seq![ch]);
        assert(c == c.take(i) + seq![ch] + c.skip(i + 1));
    }
}

} // verus!
