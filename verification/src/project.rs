//! Project awareness: match a project's dependencies (and language/runtime)
//! to installed docsets by name and version, and read the dependency lists
//! out of manifests.

use vstd::prelude::*;
use crate::library::CatalogEntry;
use crate::paths::{components, components_vec, is_file, join_path_vec, path_of, path_of_vec};
use crate::store::Docset;
use crate::text::{
    after_char, ascii_lower, ascii_lower_char, before_char, before_char_vec, contains_char,
    copy_range, drop_suffix, ends_with, ends_with_str, eq_str, find_char, find_char_from,
    from_chars, has_char, is_ascii_alnum, is_ascii_alnum_char, is_digit, is_digit_char,
    lemma_find_char, push_all, seqs, skip_prefix, split_once_vec, starts_with, starts_with_str,
    strs, to_chars, trim_end_str, trim_end_str_vec, trim, trim_start, trim_vec, trim_start_len,
    is_ws, is_ws_char, lines, lines_vec, contains_seq, contains_str, eq_chars, split_spec,
    split_vec,
};

verus! {

// ---------------------------------------------------------------------------
// Version numbers

/// `\d`: a decimal digit of any script (Unicode `Nd`).
pub open spec fn is_nd(c: char) -> bool {
    ||| ('\u{30}' <= c && c <= '\u{39}')
    ||| ('\u{660}' <= c && c <= '\u{669}')
    ||| ('\u{6f0}' <= c && c <= '\u{6f9}')
    ||| ('\u{7c0}' <= c && c <= '\u{7c9}')
    ||| ('\u{966}' <= c && c <= '\u{96f}')
    ||| ('\u{9e6}' <= c && c <= '\u{9ef}')
    ||| ('\u{a66}' <= c && c <= '\u{a6f}')
    ||| ('\u{ae6}' <= c && c <= '\u{aef}')
    ||| ('\u{b66}' <= c && c <= '\u{b6f}')
    ||| ('\u{be6}' <= c && c <= '\u{bef}')
    ||| ('\u{c66}' <= c && c <= '\u{c6f}')
    ||| ('\u{ce6}' <= c && c <= '\u{cef}')
    ||| ('\u{d66}' <= c && c <= '\u{d6f}')
    ||| ('\u{de6}' <= c && c <= '\u{def}')
    ||| ('\u{e50}' <= c && c <= '\u{e59}')
    ||| ('\u{ed0}' <= c && c <= '\u{ed9}')
    ||| ('\u{f20}' <= c && c <= '\u{f29}')
    ||| ('\u{1040}' <= c && c <= '\u{1049}')
    ||| ('\u{1090}' <= c && c <= '\u{1099}')
    ||| ('\u{17e0}' <= c && c <= '\u{17e9}')
    ||| ('\u{1810}' <= c && c <= '\u{1819}')
    ||| ('\u{1946}' <= c && c <= '\u{194f}')
    ||| ('\u{19d0}' <= c && c <= '\u{19d9}')
    ||| ('\u{1a80}' <= c && c <= '\u{1a89}')
    ||| ('\u{1a90}' <= c && c <= '\u{1a99}')
    ||| ('\u{1b50}' <= c && c <= '\u{1b59}')
    ||| ('\u{1bb0}' <= c && c <= '\u{1bb9}')
    ||| ('\u{1c40}' <= c && c <= '\u{1c49}')
    ||| ('\u{1c50}' <= c && c <= '\u{1c59}')
    ||| ('\u{a620}' <= c && c <= '\u{a629}')
    ||| ('\u{a8d0}' <= c && c <= '\u{a8d9}')
    ||| ('\u{a900}' <= c && c <= '\u{a909}')
    ||| ('\u{a9d0}' <= c && c <= '\u{a9d9}')
    ||| ('\u{a9f0}' <= c && c <= '\u{a9f9}')
    ||| ('\u{aa50}' <= c && c <= '\u{aa59}')
    ||| ('\u{abf0}' <= c && c <= '\u{abf9}')
    ||| ('\u{ff10}' <= c && c <= '\u{ff19}')
    ||| ('\u{104a0}' <= c && c <= '\u{104a9}')
    ||| ('\u{10d30}' <= c && c <= '\u{10d39}')
    ||| ('\u{10d40}' <= c && c <= '\u{10d49}')
    ||| ('\u{11066}' <= c && c <= '\u{1106f}')
    ||| ('\u{110f0}' <= c && c <= '\u{110f9}')
    ||| ('\u{11136}' <= c && c <= '\u{1113f}')
    ||| ('\u{111d0}' <= c && c <= '\u{111d9}')
    ||| ('\u{112f0}' <= c && c <= '\u{112f9}')
    ||| ('\u{11450}' <= c && c <= '\u{11459}')
    ||| ('\u{114d0}' <= c && c <= '\u{114d9}')
    ||| ('\u{11650}' <= c && c <= '\u{11659}')
    ||| ('\u{116c0}' <= c && c <= '\u{116c9}')
    ||| ('\u{116d0}' <= c && c <= '\u{116e3}')
    ||| ('\u{11730}' <= c && c <= '\u{11739}')
    ||| ('\u{118e0}' <= c && c <= '\u{118e9}')
    ||| ('\u{11950}' <= c && c <= '\u{11959}')
    ||| ('\u{11bf0}' <= c && c <= '\u{11bf9}')
    ||| ('\u{11c50}' <= c && c <= '\u{11c59}')
    ||| ('\u{11d50}' <= c && c <= '\u{11d59}')
    ||| ('\u{11da0}' <= c && c <= '\u{11da9}')
    ||| ('\u{11f50}' <= c && c <= '\u{11f59}')
    ||| ('\u{16130}' <= c && c <= '\u{16139}')
    ||| ('\u{16a60}' <= c && c <= '\u{16a69}')
    ||| ('\u{16ac0}' <= c && c <= '\u{16ac9}')
    ||| ('\u{16b50}' <= c && c <= '\u{16b59}')
    ||| ('\u{16d70}' <= c && c <= '\u{16d79}')
    ||| ('\u{1ccf0}' <= c && c <= '\u{1ccf9}')
    ||| ('\u{1d7ce}' <= c && c <= '\u{1d7ff}')
    ||| ('\u{1e140}' <= c && c <= '\u{1e149}')
    ||| ('\u{1e2f0}' <= c && c <= '\u{1e2f9}')
    ||| ('\u{1e4f0}' <= c && c <= '\u{1e4f9}')
    ||| ('\u{1e5f1}' <= c && c <= '\u{1e5fa}')
    ||| ('\u{1e950}' <= c && c <= '\u{1e959}')
    ||| ('\u{1fbf0}' <= c && c <= '\u{1fbf9}')
}

pub fn is_nd_char(c: char) -> (b: bool)
    ensures
        b == is_nd(c),
{
    ('\u{30}' <= c && c <= '\u{39}') ||
        ('\u{660}' <= c && c <= '\u{669}') ||
        ('\u{6f0}' <= c && c <= '\u{6f9}') ||
        ('\u{7c0}' <= c && c <= '\u{7c9}') ||
        ('\u{966}' <= c && c <= '\u{96f}') ||
        ('\u{9e6}' <= c && c <= '\u{9ef}') ||
        ('\u{a66}' <= c && c <= '\u{a6f}') ||
        ('\u{ae6}' <= c && c <= '\u{aef}') ||
        ('\u{b66}' <= c && c <= '\u{b6f}') ||
        ('\u{be6}' <= c && c <= '\u{bef}') ||
        ('\u{c66}' <= c && c <= '\u{c6f}') ||
        ('\u{ce6}' <= c && c <= '\u{cef}') ||
        ('\u{d66}' <= c && c <= '\u{d6f}') ||
        ('\u{de6}' <= c && c <= '\u{def}') ||
        ('\u{e50}' <= c && c <= '\u{e59}') ||
        ('\u{ed0}' <= c && c <= '\u{ed9}') ||
        ('\u{f20}' <= c && c <= '\u{f29}') ||
        ('\u{1040}' <= c && c <= '\u{1049}') ||
        ('\u{1090}' <= c && c <= '\u{1099}') ||
        ('\u{17e0}' <= c && c <= '\u{17e9}') ||
        ('\u{1810}' <= c && c <= '\u{1819}') ||
        ('\u{1946}' <= c && c <= '\u{194f}') ||
        ('\u{19d0}' <= c && c <= '\u{19d9}') ||
        ('\u{1a80}' <= c && c <= '\u{1a89}') ||
        ('\u{1a90}' <= c && c <= '\u{1a99}') ||
        ('\u{1b50}' <= c && c <= '\u{1b59}') ||
        ('\u{1bb0}' <= c && c <= '\u{1bb9}') ||
        ('\u{1c40}' <= c && c <= '\u{1c49}') ||
        ('\u{1c50}' <= c && c <= '\u{1c59}') ||
        ('\u{a620}' <= c && c <= '\u{a629}') ||
        ('\u{a8d0}' <= c && c <= '\u{a8d9}') ||
        ('\u{a900}' <= c && c <= '\u{a909}') ||
        ('\u{a9d0}' <= c && c <= '\u{a9d9}') ||
        ('\u{a9f0}' <= c && c <= '\u{a9f9}') ||
        ('\u{aa50}' <= c && c <= '\u{aa59}') ||
        ('\u{abf0}' <= c && c <= '\u{abf9}') ||
        ('\u{ff10}' <= c && c <= '\u{ff19}') ||
        ('\u{104a0}' <= c && c <= '\u{104a9}') ||
        ('\u{10d30}' <= c && c <= '\u{10d39}') ||
        ('\u{10d40}' <= c && c <= '\u{10d49}') ||
        ('\u{11066}' <= c && c <= '\u{1106f}') ||
        ('\u{110f0}' <= c && c <= '\u{110f9}') ||
        ('\u{11136}' <= c && c <= '\u{1113f}') ||
        ('\u{111d0}' <= c && c <= '\u{111d9}') ||
        ('\u{112f0}' <= c && c <= '\u{112f9}') ||
        ('\u{11450}' <= c && c <= '\u{11459}') ||
        ('\u{114d0}' <= c && c <= '\u{114d9}') ||
        ('\u{11650}' <= c && c <= '\u{11659}') ||
        ('\u{116c0}' <= c && c <= '\u{116c9}') ||
        ('\u{116d0}' <= c && c <= '\u{116e3}') ||
        ('\u{11730}' <= c && c <= '\u{11739}') ||
        ('\u{118e0}' <= c && c <= '\u{118e9}') ||
        ('\u{11950}' <= c && c <= '\u{11959}') ||
        ('\u{11bf0}' <= c && c <= '\u{11bf9}') ||
        ('\u{11c50}' <= c && c <= '\u{11c59}') ||
        ('\u{11d50}' <= c && c <= '\u{11d59}') ||
        ('\u{11da0}' <= c && c <= '\u{11da9}') ||
        ('\u{11f50}' <= c && c <= '\u{11f59}') ||
        ('\u{16130}' <= c && c <= '\u{16139}') ||
        ('\u{16a60}' <= c && c <= '\u{16a69}') ||
        ('\u{16ac0}' <= c && c <= '\u{16ac9}') ||
        ('\u{16b50}' <= c && c <= '\u{16b59}') ||
        ('\u{16d70}' <= c && c <= '\u{16d79}') ||
        ('\u{1ccf0}' <= c && c <= '\u{1ccf9}') ||
        ('\u{1d7ce}' <= c && c <= '\u{1d7ff}') ||
        ('\u{1e140}' <= c && c <= '\u{1e149}') ||
        ('\u{1e2f0}' <= c && c <= '\u{1e2f9}') ||
        ('\u{1e4f0}' <= c && c <= '\u{1e4f9}') ||
        ('\u{1e5f1}' <= c && c <= '\u{1e5fa}') ||
        ('\u{1e950}' <= c && c <= '\u{1e959}') ||
        ('\u{1fbf0}' <= c && c <= '\u{1fbf9}')
}

/// Index of the first `\d` in `s`, or `s.len()`.
pub open spec fn find_nd(s: Seq<char>) -> int
    decreases s.len(),
{
    if s.len() == 0 || is_nd(s[0]) {
        0
    } else {
        1 + find_nd(s.drop_first())
    }
}

/// Length of the run of `\d`s that `s` starts with.
pub open spec fn nd_run(s: Seq<char>) -> int
    decreases s.len(),
{
    if s.len() > 0 && is_nd(s[0]) {
        1 + nd_run(s.drop_first())
    } else {
        0
    }
}

/// The number groups of the `\d+(\.\d+)*` match that starts `s`.
pub open spec fn dotted(s: Seq<char>) -> Seq<Seq<char>>
    decreases s.len(),
{
    let k = nd_run(s);
    proof {
        lemma_nd_run_bounds(s);
    }
    let rest = s.skip(k);
    if rest.len() >= 2 && rest[0] == '.' && is_nd(rest[1]) {
        seq![s.take(k)] + dotted(rest.drop_first())
    } else {
        seq![s.take(k)]
    }
}

pub open spec fn digit_value(c: char) -> int {
    (c as int) - ('0' as int)
}

/// The decimal value of a digit string.
pub open spec fn dec_value(d: Seq<char>) -> int
    decreases d.len(),
{
    if d.len() == 0 {
        0
    } else {
        10 * dec_value(d.drop_last()) + digit_value(d.last())
    }
}

pub open spec fn all_ascii_digits(d: Seq<char>) -> bool {
    forall|i: int| 0 <= i < d.len() ==> is_digit(#[trigger] d[i])
}

/// A number group that `u64::from_str` accepts.
pub open spec fn group_ok(d: Seq<char>) -> bool {
    all_ascii_digits(d) && dec_value(d) <= u64::MAX
}

/// First `1.2.3`-style number in `s` (`^18.2.0` → [18, 2, 0], `v1.21` →
/// [1, 21]); `None` when there is none or a group is not a `u64`.
pub open spec fn parse_version_spec(s: Seq<char>) -> Option<Seq<u64>> {
    let p = find_nd(s);
    if p >= s.len() {
        None
    } else {
        let groups = dotted(s.skip(p));
        if forall|i: int| 0 <= i < groups.len() ==> group_ok(#[trigger] groups[i]) {
            Some(groups.map_values(|d: Seq<char>| dec_value(d) as u64))
        } else {
            None
        }
    }
}

pub proof fn lemma_nd_run_bounds(s: Seq<char>)
    ensures
        0 <= nd_run(s) <= s.len(),
        forall|j: int| 0 <= j < nd_run(s) ==> is_nd(s[j]),
        nd_run(s) < s.len() ==> !is_nd(s[nd_run(s)]),
    decreases s.len(),
{
    if s.len() > 0 && is_nd(s[0]) {
        lemma_nd_run_bounds(s.drop_first());
        assert forall|j: int| 0 <= j < nd_run(s) implies is_nd(s[j]) by {
            if j > 0 {
                assert(s[j] == s.drop_first()[j - 1]);
            }
        }
        if nd_run(s) < s.len() {
            assert(s[nd_run(s)] == s.drop_first()[nd_run(s) - 1]);
        }
    }
}

proof fn lemma_nd_run_at(s: Seq<char>, k: int)
    requires
        0 <= k <= s.len(),
        forall|j: int| 0 <= j < k ==> is_nd(s[j]),
        k < s.len() ==> !is_nd(s[k]),
    ensures
        nd_run(s) == k,
    decreases s.len(),
{
    if k > 0 {
        assert forall|j: int| 0 <= j < k - 1 implies is_nd(s.drop_first()[j]) by {
            assert(s.drop_first()[j] == s[j + 1]);
        }
        lemma_nd_run_at(s.drop_first(), k - 1);
    }
}

proof fn lemma_find_nd_at(s: Seq<char>, k: int)
    requires
        0 <= k <= s.len(),
        forall|j: int| 0 <= j < k ==> !is_nd(s[j]),
        k < s.len() ==> is_nd(s[k]),
    ensures
        find_nd(s) == k,
    decreases s.len(),
{
    if k > 0 {
        assert forall|j: int| 0 <= j < k - 1 implies !is_nd(s.drop_first()[j]) by {
            assert(s.drop_first()[j] == s[j + 1]);
        }
        lemma_find_nd_at(s.drop_first(), k - 1);
    }
}

proof fn lemma_dec_value_mono(d: Seq<char>, k: int)
    requires
        0 <= k <= d.len(),
        all_ascii_digits(d),
    ensures
        0 <= dec_value(d.take(k)) <= dec_value(d),
    decreases d.len(),
{
    if k < d.len() {
        let p = d.drop_last();
        assert(all_ascii_digits(p)) by {
            assert forall|i: int| 0 <= i < p.len() implies is_digit(#[trigger] p[i]) by {
                assert(p[i] == d[i]);
            }
        }
        lemma_dec_value_mono(p, k);
        assert(p.take(k) == d.take(k));
        assert(is_digit(d[d.len() - 1]));
        lemma_dec_value_mono(p, p.len() as int);
        assert(p.take(p.len() as int) == p);
    } else {
        assert(d.take(k) == d);
        lemma_dec_value_nonneg(d);
    }
}

proof fn lemma_dec_value_nonneg(d: Seq<char>)
    requires
        all_ascii_digits(d),
    ensures
        dec_value(d) >= 0,
    decreases d.len(),
{
    if d.len() > 0 {
        let p = d.drop_last();
        assert(all_ascii_digits(p)) by {
            assert forall|i: int| 0 <= i < p.len() implies is_digit(#[trigger] p[i]) by {
                assert(p[i] == d[i]);
            }
        }
        lemma_dec_value_nonneg(p);
        assert(is_digit(d[d.len() - 1]));
    }
}

/// The value of the digit group `s[i..e]`, if it is a `u64`.
fn group_value(s: &[char], i: usize, e: usize) -> (r: Option<u64>)
    requires
        i <= e <= s@.len(),
    ensures
        match r {
            Some(v) => group_ok(s@.subrange(i as int, e as int)) && v as int == dec_value(
                s@.subrange(i as int, e as int),
            ),
            None => !group_ok(s@.subrange(i as int, e as int)),
        },
{
    let ghost d = s@.subrange(i as int, e as int);
    let mut v: u64 = 0;
    let mut k: usize = i;
    while k < e
        invariant
            i <= k <= e <= s@.len(),
            d == s@.subrange(i as int, e as int),
            all_ascii_digits(d.take(k - i)),
            v as int == dec_value(d.take(k - i)),
        decreases e - k,
    {
        let c = s[k];
        assert(d[k - i] == c);
        assert(d.take(k - i + 1).drop_last() == d.take(k - i));
        if !is_digit_char(c) {
            return None;
        }
        let dv: u64 = (c as u64) - ('0' as u64);
        if v > (u64::MAX - dv) / 10 {
            proof {
                assert(dec_value(d.take(k - i + 1)) > u64::MAX);
                if all_ascii_digits(d) {
                    lemma_dec_value_mono(d, k - i + 1);
                }
            }
            return None;
        }
        v = v * 10 + dv;
        k = k + 1;
        assert(all_ascii_digits(d.take(k - i))) by {
            assert forall|j: int| 0 <= j < k - i implies is_digit(#[trigger] d.take(k - i)[j]) by {
                if j < k - i - 1 {
                    assert(d.take(k - i)[j] == d.take(k - i - 1)[j]);
                }
            }
        }
    }
    assert(d.take(e - i) == d);
    Some(v)
}

/// First `1.2.3`-style number in `s`.
pub fn parse_version_chars(s: &[char]) -> (r: Option<Vec<u64>>)
    ensures
        match r {
            Some(v) => parse_version_spec(s@) == Some(v@),
            None => parse_version_spec(s@) is None,
        },
{
    let n = s.len();
    let mut p: usize = 0;
    while p < n && !is_nd_char(s[p])
        invariant
            n == s@.len(),
            p <= n,
            forall|j: int| 0 <= j < p ==> !is_nd(s@[j]),
        decreases n - p,
    {
        p = p + 1;
    }
    proof {
        lemma_find_nd_at(s@, p as int);
    }
    if p == n {
        return None;
    }
    let ghost all = dotted(s@.skip(p as int));
    let ghost done: Seq<Seq<char>> = seq![];
    let mut out: Vec<u64> = Vec::new();
    let mut i: usize = p;
    assert(s@.skip(p as int) == s@.skip(i as int));
    loop
        invariant
            n == s@.len(),
            p <= i < n,
            is_nd(s@[i as int]),
            find_nd(s@) == p,
            all == dotted(s@.skip(p as int)),
            all == done + dotted(s@.skip(i as int)),
            forall|j: int| 0 <= j < done.len() ==> group_ok(#[trigger] done[j]),
            out@ == done.map_values(|d: Seq<char>| dec_value(d) as u64),
        decreases n - i,
    {
        let mut e = i;
        while e < n && is_nd_char(s[e])
            invariant
                n == s@.len(),
                i <= e <= n,
                forall|j: int| i <= j < e ==> is_nd(s@[j]),
            decreases n - e,
        {
            e = e + 1;
        }
        let ghost t = s@.skip(i as int);
        proof {
            assert forall|j: int| 0 <= j < e - i implies is_nd(t[j]) by {
                assert(t[j] == s@[i + j]);
            }
            if e < n {
                assert(t[e - i] == s@[e as int]);
            }
            lemma_nd_run_at(t, e - i);
            assert(t.take(e - i) == s@.subrange(i as int, e as int));
            assert(t.skip(e - i) == s@.skip(e as int));
        }
        let g = group_value(s, i, e);
        match g {
            None => {
                proof {
                    assert(all[done.len() as int] == s@.subrange(i as int, e as int));
                }
                return None;
            },
            Some(v) => {
                let ghost before = out@;
                out.push(v);
                let ghost g_seq = s@.subrange(i as int, e as int);
                proof {
                    assert(out@ == done.push(g_seq).map_values(|d: Seq<char>| dec_value(d) as u64));
                    done = done.push(g_seq);
                }
                if n - e >= 2 && s[e] == '.' && is_nd_char(s[e + 1]) {
                    proof {
                        assert(s@.skip(e as int).drop_first() == s@.skip(e + 1));
                        assert(dotted(t) == seq![g_seq] + dotted(s@.skip(e + 1)));
                    }
                    i = e + 1;
                } else {
                    proof {
                        assert(dotted(t) == seq![g_seq]);
                        assert(all == done);
                    }
                    return Some(out);
                }
            },
        }
    }
}

/// First `1.2.3`-style number in `s` (`^18.2.0` → [18, 2, 0], `v1.21` → [1, 21]).
pub fn parse_version(s: &str) -> (r: Option<Vec<u64>>)
    ensures
        match r {
            Some(v) => parse_version_spec(s@) == Some(v@),
            None => parse_version_spec(s@) is None,
        },
{
    let c = to_chars(s);
    parse_version_chars(&c)
}

pub proof fn lemma_parse_version_nonempty(s: Seq<char>)
    ensures
        parse_version_spec(s) matches Some(v) ==> v.len() > 0,
{
    let p = find_nd(s);
    if p < s.len() {
        let t = s.skip(p);
        lemma_nd_run_bounds(t);
        assert(dotted(t).len() >= 1);
    }
}

// ---------------------------------------------------------------------------
// Names

/// ASCII letters and digits of `s`, lowercased.
pub open spec fn alnum_lower(s: Seq<char>) -> Seq<char>
    decreases s.len(),
{
    if s.len() == 0 {
        seq![]
    } else if is_ascii_alnum(s.last()) {
        alnum_lower(s.drop_last()).push(ascii_lower(s.last()))
    } else {
        alnum_lower(s.drop_last())
    }
}

/// Lowercase alphanumerics, with a trailing `js` dropped (`NodeJS`, `next.js`)
/// except where it's part of a different product's name.
pub open spec fn normalize_spec(s: Seq<char>) -> Seq<char> {
    let n = alnum_lower(s);
    if ends_with(n, seq!['j', 's']) && n.len() - 2 >= 3 && n != "angularjs"@ {
        n.take(n.len() - 2)
    } else {
        n
    }
}

fn alnum_lower_vec(s: &[char]) -> (r: Vec<char>)
    ensures
        r@ == alnum_lower(s@),
{
    let mut r: Vec<char> = Vec::new();
    let mut i: usize = 0;
    while i < s.len()
        invariant
            i <= s@.len(),
            r@ == alnum_lower(s@.take(i as int)),
        decreases s@.len() - i,
    {
        assert(s@.take(i + 1).drop_last() == s@.take(i as int));
        if is_ascii_alnum_char(s[i]) {
            r.push(ascii_lower_char(s[i]));
        }
        i = i + 1;
    }
    assert(s@.take(s@.len() as int) == s@);
    r
}

/// Lowercase alphanumerics, with a trailing `js` dropped (`NodeJS`, `next.js`)
/// except where it's part of a different product's name (`angularjs`).
pub fn normalize(s: &[char]) -> (r: Vec<char>)
    ensures
        r@ == normalize_spec(s@),
{
    let n = alnum_lower_vec(s);
    let len = n.len();
    if len >= 5 && n[len - 2] == 'j' && n[len - 1] == 's' && !eq_str(&n, "angularjs") {
        assert(n@.skip(len - 2) == seq!['j', 's']);
        copy_range(&n, 0, len - 2)
    } else {
        proof {
            if ends_with(n@, seq!['j', 's']) {
                assert(n@.skip(n@.len() - 2)[0] == n@[len - 2]);
                assert(n@.skip(n@.len() - 2)[1] == n@[len - 1]);
            }
        }
        n
    }
}

/// `name` without a trailing `_3` or `_2` (Zeal splits Python by major version).
pub open spec fn strip_major(name: Seq<char>) -> Seq<char> {
    if ends_with(name, "_3"@) {
        name.take(name.len() - "_3"@.len())
    } else if ends_with(name, "_2"@) {
        name.take(name.len() - "_2"@.len())
    } else {
        name
    }
}

/// The name part of a docset id, normalized: `react~18` → `react`,
/// `dash:NodeJS` → `node`, `dash:React@18.3.1` → `react`,
/// `md:tanstack-query` → `tanstackquery`. Cheatsheets never match.
pub open spec fn docset_key_spec(id: Seq<char>) -> Option<Seq<char>> {
    if starts_with(id, "dash:"@) {
        let name = before_char(id.skip("dash:"@.len() as int), '@');
        if ends_with(name, "_Cheatsheet"@) {
            None
        } else {
            Some(normalize_spec(strip_major(trim_end_str(name, "_Contrib"@))))
        }
    } else if starts_with(id, "md:"@) {
        Some(normalize_spec(trim_end_str(id.skip("md:"@.len() as int), "-context7"@)))
    } else {
        Some(normalize_spec(before_char(id, '~')))
    }
}

/// The name part of a docset id, normalized (see `docset_key_spec`).
pub fn docset_key(id: &str) -> (r: Option<String>)
    ensures
        match r {
            Some(k) => docset_key_spec(id@) == Some(k@),
            None => docset_key_spec(id@) is None,
        },
{
    let c = to_chars(id);
    if starts_with_str(&c, "dash:") {
        let dash = skip_prefix(&c, "dash:");
        let name = before_char_vec(&dash, '@');
        if ends_with_str(&name, "_Cheatsheet") {
            return None;
        }
        let extra = to_chars("_Contrib");
        let name = trim_end_str_vec(&name, &extra);
        let name = if ends_with_str(&name, "_3") {
            drop_suffix(&name, "_3")
        } else if ends_with_str(&name, "_2") {
            drop_suffix(&name, "_2")
        } else {
            name
        };
        let k = normalize(&name);
        return Some(from_chars(&k));
    }
    if starts_with_str(&c, "md:") {
        let md = skip_prefix(&c, "md:");
        let suffix = to_chars("-context7");
        let name = trim_end_str_vec(&md, &suffix);
        let k = normalize(&name);
        return Some(from_chars(&k));
    }
    let name = before_char_vec(&c, '~');
    let k = normalize(&name);
    Some(from_chars(&k))
}

// ---------------------------------------------------------------------------
// Dependencies

/// One dependency of a project.
#[derive(Debug, Clone, PartialEq)]
pub struct Dependency {
    /// `npm`, `cargo`, `go`, `pypi`, or `language`.
    pub ecosystem: String,
    pub name: String,
    /// As written in the manifest, e.g. `^18.2.0`. May be empty.
    pub spec: String,
    /// Exact version from a lockfile or `node_modules`, when available.
    pub resolved: Option<String>,
}

pub open spec fn opt_view(o: Option<String>) -> Option<Seq<char>> {
    match o {
        Some(s) => Some(s@),
        None => None,
    }
}

/// The most precise version known: resolved, else the spec's numbers.
pub open spec fn dep_version(d: Dependency) -> Option<Seq<u64>> {
    match d.resolved {
        Some(r) => match parse_version_spec(r@) {
            Some(v) => Some(v),
            None => parse_version_spec(d.spec@),
        },
        None => parse_version_spec(d.spec@),
    }
}

impl Dependency {
    /// The most precise version known: resolved, else the spec's numbers.
    pub fn version(&self) -> (r: Option<Vec<u64>>)
        ensures
            match r {
                Some(v) => dep_version(*self) == Some(v@),
                None => dep_version(*self) is None,
            },
    {
        if let Some(res) = &self.resolved {
            if let Some(v) = parse_version(res.as_str()) {
                return Some(v);
            }
        }
        parse_version(self.spec.as_str())
    }
}

/// A Go module path segment that is a major-version suffix (`v4`).
pub open spec fn is_version_segment(s: Seq<char>) -> bool {
    s.len() >= 1 && s[0] == 'v' && all_ascii_digits(s.skip(1))
}

/// The last segment that is not a version suffix.
pub open spec fn last_named_segment(segs: Seq<Seq<char>>) -> Option<Seq<char>>
    decreases segs.len(),
{
    if segs.len() == 0 {
        None
    } else if !is_version_segment(segs.last()) {
        Some(segs.last())
    } else {
        last_named_segment(segs.drop_last())
    }
}

/// Frameworks whose bindings are documented with the core library
/// (`@tanstack/react-query` is documented as TanStack Query).
pub open spec fn framework_prefixes() -> Seq<Seq<char>> {
    seq!["react-"@, "vue-"@, "solid-"@, "svelte-"@, "angular-"@, "preact-"@]
}

/// Keys from `pkg` with one of `fws` as prefix, the prefix dropped.
pub open spec fn framework_keys(scope: Seq<char>, pkg: Seq<char>, fws: Seq<Seq<char>>) -> Seq<
    Seq<char>,
>
    decreases fws.len(),
{
    if fws.len() == 0 {
        seq![]
    } else {
        let rest = framework_keys(scope, pkg, fws.drop_last());
        let fw = fws.last();
        if starts_with(pkg, fw) {
            rest.push(normalize_spec(scope + pkg.skip(fw.len() as int)))
        } else {
            rest
        }
    }
}

/// Names an npm dependency's docs might go by.
pub open spec fn npm_keys(name: Seq<char>) -> Seq<Seq<char>> {
    let base = if starts_with(name, seq!['@']) && after_char(name.drop_first(), '/') is Some {
        let n = name.drop_first();
        let scope = before_char(n, '/');
        let pkg = after_char(n, '/')->Some_0;
        let ks = seq![normalize_spec(scope + pkg), normalize_spec(pkg)] + framework_keys(
            scope,
            pkg,
            framework_prefixes(),
        );
        let ks = if pkg == "core"@ {
            ks.push(normalize_spec(scope))
        } else {
            ks
        };
        if scope == "types"@ {
            ks.push(normalize_spec(pkg))
        } else {
            ks
        }
    } else {
        seq![normalize_spec(name)]
    };
    if name == "react-dom"@ {
        base.push("react"@)
    } else {
        base
    }
}

/// Names a dependency's docs might go by.
pub open spec fn dependency_keys_spec(d: Dependency) -> Seq<Seq<char>> {
    if d.ecosystem@ == "npm"@ {
        npm_keys(d.name@)
    } else if d.ecosystem@ == "go"@ {
        // `github.com/labstack/echo/v4` → `echo`.
        match last_named_segment(split_spec(d.name@, '/')) {
            Some(last) => seq![normalize_spec(last)],
            None => seq![normalize_spec(d.name@)],
        }
    } else {
        seq![normalize_spec(d.name@)]
    }
}

fn is_version_segment_vec(s: &[char]) -> (r: bool)
    ensures
        r == is_version_segment(s@),
{
    if s.len() == 0 || s[0] != 'v' {
        return false;
    }
    let mut i: usize = 1;
    while i < s.len()
        invariant
            1 <= i <= s@.len(),
            forall|j: int| 1 <= j < i ==> is_digit(s@[j]),
        decreases s@.len() - i,
    {
        if !is_digit_char(s[i]) {
            assert(s@.skip(1)[i - 1] == s@[i as int]);
            return false;
        }
        i = i + 1;
    }
    assert forall|j: int| 0 <= j < s@.skip(1).len() implies is_digit(#[trigger] s@.skip(1)[j]) by {
        assert(s@.skip(1)[j] == s@[j + 1]);
    }
    true
}

fn push_key(keys: &mut Vec<String>, k: &[char])
    ensures
        strs(final(keys)@) == strs(old(keys)@).push(normalize_spec(k@)),
{
    let n = normalize(k);
    let ghost before = strs(keys@);
    keys.push(from_chars(&n));
    assert(strs(keys@) == before.push(n@));
}

fn npm_keys_vec(name: &[char]) -> (r: Vec<String>)
    ensures
        strs(r@) == npm_keys(name@),
{
    let mut keys: Vec<String> = Vec::new();
    let mut scoped = false;
    let ghost is_scoped = starts_with(name@, seq!['@']) && after_char(name@.drop_first(), '/') is Some;
    if !(name.len() > 0 && name[0] == '@') {
        assert(!starts_with(name@, seq!['@'])) by {
            if name@.len() > 0 {
                assert(name@.take(1)[0] == name@[0]);
            }
        }
    }
    if name.len() > 0 && name[0] == '@' {
        let n = copy_range(name, 1, name.len());
        assert(n@ == name@.drop_first());
        assert(name@.take(1) == seq!['@']);
        if let Some((scope, pkg)) = split_once_vec(&n, '/') {
            scoped = true;
            let mut both = scope.clone();
            push_all(&mut both, &pkg);
            push_key(&mut keys, &both);
            push_key(&mut keys, &pkg);
            let fws = ["react-", "vue-", "solid-", "svelte-", "angular-", "preact-"];
            let ghost all = framework_prefixes();
            let mut i: usize = 0;
            assert(all.take(0) == Seq::<Seq<char>>::empty());
            assert(strs(keys@) == seq![normalize_spec(scope@ + pkg@), normalize_spec(pkg@)]);
            while i < 6
                invariant
                    i <= 6,
                    fws@.len() == 6,
                    all == framework_prefixes(),
                    forall|k: int| 0 <= k < 6 ==> fws@[k]@ == #[trigger] all[k],
                    strs(keys@) == seq![normalize_spec(scope@ + pkg@), normalize_spec(pkg@)]
                        + framework_keys(scope@, pkg@, all.take(i as int)),
                decreases 6 - i,
            {
                let fw = fws[i];
                assert(fw@ == all[i as int]);
                assert(all.take(i + 1).drop_last() == all.take(i as int));
                assert(all.take(i + 1).last() == all[i as int]);
                let fc = to_chars(fw);
                if starts_with_str(&pkg, fw) {
                    let mut k = scope.clone();
                    let rest = copy_range(&pkg, fc.len(), pkg.len());
                    assert(rest@ == pkg@.skip(fw@.len() as int));
                    push_all(&mut k, &rest);
                    push_key(&mut keys, &k);
                }
                i = i + 1;
            }
            assert(all.take(6) == all);
            if eq_str(&pkg, "core") {
                push_key(&mut keys, &scope);
            }
            if eq_str(&scope, "types") {
                push_key(&mut keys, &pkg);
            }
        }
    }
    assert(scoped == is_scoped);
    if !scoped {
        push_key(&mut keys, name);
        assert(strs(keys@) == seq![normalize_spec(name@)]);
    }
    if eq_str(name, "react-dom") {
        let ghost before = strs(keys@);
        keys.push(String::from_str("react"));
        assert(strs(keys@) == before.push("react"@));
    }
    keys
}

/// Names a dependency's docs might go by (a key may repeat).
pub fn dependency_keys(d: &Dependency) -> (r: Vec<String>)
    ensures
        strs(r@) == dependency_keys_spec(*d),
{
    let eco = to_chars(d.ecosystem.as_str());
    let name = to_chars(d.name.as_str());
    if eq_str(&eco, "npm") {
        return npm_keys_vec(&name);
    }
    let mut keys: Vec<String> = Vec::new();
    if eq_str(&eco, "go") {
        let segs = split_vec(&name, '/');
        let mut i: usize = segs.len();
        assert(seqs(segs@).take(i as int) == seqs(segs@));
        while i > 0
            invariant
                i <= segs@.len(),
                keys@ == Seq::<String>::empty(),
                seqs(segs@) == split_spec(d.name@, '/'),
                eco@ == d.ecosystem@,
                eco@ == "go"@,
                eco@ != "npm"@,
                last_named_segment(seqs(segs@).take(i as int)) == last_named_segment(
                    seqs(segs@),
                ),
            decreases i,
        {
            assert(seqs(segs@).take(i as int).last() == segs@[i - 1]@);
            assert(seqs(segs@).take(i as int).drop_last() == seqs(segs@).take(i - 1));
            if !is_version_segment_vec(&segs[i - 1]) {
                assert(last_named_segment(seqs(segs@).take(i as int)) == Some(segs@[i - 1]@));
                push_key(&mut keys, &segs[i - 1]);
                assert(strs(keys@) == seq![normalize_spec(segs@[i - 1]@)]);
                return keys;
            }
            i = i - 1;
        }
    }
    push_key(&mut keys, &name);
    assert(strs(keys@) == seq![normalize_spec(name@)]);
    keys
}

// ---------------------------------------------------------------------------
// Version matching

/// The version a docset id pins: after `~` (without `_lts`), else after `@`.
pub open spec fn id_pin(id: Seq<char>) -> Option<Seq<u64>> {
    if has_char(id, '~') {
        parse_version_spec(trim_end_str(after_char(id, '~')->Some_0, "_lts"@))
    } else if has_char(id, '@') {
        parse_version_spec(after_char(id, '@')->Some_0)
    } else {
        None
    }
}

/// How many version components are compared for a "latest" docset or a full
/// `@` pin: the major, or major.minor for 0.x.
pub open spec fn major_depth(p: Seq<u64>) -> int {
    if p[0] == 0 {
        2
    } else {
        1
    }
}

pub open spec fn min(a: int, b: int) -> int {
    if a <= b {
        a
    } else {
        b
    }
}

/// Whether a docset (`id`, `ds_version`) covers `version`. Pinned docsets
/// (`react~18`, `python~3.12`, `dash:React@18.3.1`) compare as many
/// components as the pin gives (up to major.minor); "latest" docsets compare
/// the major version (and minor for 0.x). Generated docsets aren't compared.
pub open spec fn version_matches_spec(version: Seq<u64>, id: Seq<char>, ds_version: Seq<char>) -> Option<
    bool,
> {
    if starts_with(id, "md:"@) {
        None
    } else {
        let target: Option<(Seq<u64>, int)> = match id_pin(id) {
            Some(p) => if has_char(id, '@') {
                Some((p, major_depth(p)))
            } else {
                Some((p, min(p.len() as int, 2)))
            },
            None => match parse_version_spec(ds_version) {
                Some(p) => Some((p, major_depth(p))),
                None => None,
            },
        };
        match target {
            Some((theirs, depth)) => {
                let d = min(min(depth, version.len() as int), theirs.len() as int);
                Some(version.take(d) == theirs.take(d))
            },
            None => None,
        }
    }
}

fn prefix_eq(a: &Vec<u64>, b: &Vec<u64>, d: usize) -> (r: bool)
    requires
        d <= a@.len(),
        d <= b@.len(),
    ensures
        r == (a@.take(d as int) == b@.take(d as int)),
{
    let mut i: usize = 0;
    while i < d
        invariant
            d <= a@.len(),
            d <= b@.len(),
            i <= d,
            forall|j: int| 0 <= j < i ==> a@[j] == b@[j],
        decreases d - i,
    {
        if a[i] != b[i] {
            assert(a@.take(d as int)[i as int] != b@.take(d as int)[i as int]);
            return false;
        }
        i = i + 1;
    }
    assert(a@.take(d as int) == b@.take(d as int));
    true
}

/// Whether the docset `id` (at `ds_version`) covers `version`; `None` when
/// it cannot tell (generated docsets, or no version to compare).
pub fn version_matches(version: &Vec<u64>, id: &str, ds_version: &str) -> (r: Option<bool>)
    ensures
        r == version_matches_spec(version@, id@, ds_version@),
{
    let c = to_chars(id);
    let pin: Option<Vec<u64>> = if let Some((_, p)) = split_once_vec(&c, '~') {
        let lts = to_chars("_lts");
        let p = trim_end_str_vec(&p, &lts);
        parse_version_chars(&p)
    } else if let Some((_, p)) = split_once_vec(&c, '@') {
        parse_version_chars(&p)
    } else {
        None
    };
    proof {
        lemma_find_char(c@, '~');
        lemma_find_char(c@, '@');
    }
    assert(pin matches Some(p) ==> id_pin(id@) == Some(p@));
    assert(pin is None ==> id_pin(id@) is None);
    if starts_with_str(&c, "md:") {
        return None;
    }
    let has_at = contains_char(&c, '@');
    let (theirs, depth): (Vec<u64>, usize) = match pin {
        Some(p) => {
            proof {
                lemma_parse_version_nonempty(c@);
                lemma_pin_nonempty(id@);
            }
            if has_at {
                let d: usize = if p[0] == 0 { 2 } else { 1 };
                (p, d)
            } else {
                let d: usize = if p.len() < 2 { p.len() } else { 2 };
                (p, d)
            }
        },
        None => match parse_version(ds_version) {
            Some(p) => {
                proof {
                    lemma_parse_version_nonempty(ds_version@);
                }
                let d: usize = if p[0] == 0 { 2 } else { 1 };
                (p, d)
            },
            None => {
                return None;
            },
        },
    };
    let mut d = depth;
    if version.len() < d {
        d = version.len();
    }
    if theirs.len() < d {
        d = theirs.len();
    }
    Some(prefix_eq(version, &theirs, d))
}

proof fn lemma_pin_nonempty(id: Seq<char>)
    ensures
        id_pin(id) matches Some(p) ==> p.len() > 0,
{
    if has_char(id, '~') {
        lemma_parse_version_nonempty(trim_end_str(after_char(id, '~')->Some_0, "_lts"@));
    } else if has_char(id, '@') {
        lemma_parse_version_nonempty(after_char(id, '@')->Some_0);
    }
}

// ---------------------------------------------------------------------------
// Reports

/// An installed docset found for a dependency.
#[derive(Debug, Clone)]
pub struct DocsetMatch {
    pub id: String,
    pub version: String,
    /// `Some(true)` if the docset covers the project's version, `Some(false)` if
    /// it's a different version, `None` if unknown (e.g. generated docsets).
    pub matches: Option<bool>,
}

impl View for DocsetMatch {
    type V = (Seq<char>, Seq<char>, Option<bool>);

    open spec fn view(&self) -> (Seq<char>, Seq<char>, Option<bool>) {
        (self.id@, self.version@, self.matches)
    }
}

/// A dependency with its installed docsets.
#[derive(Debug, Clone)]
pub struct DepReport {
    pub dependency: Dependency,
    /// Installed docsets for this dependency, version matches first.
    pub installed: Vec<DocsetMatch>,
}

/// How a project's dependencies map to installed docsets.
#[derive(Debug, Clone)]
pub struct ProjectReport {
    /// Folder the manifests were read from.
    pub root: String,
    /// Dependencies with at least one installed docset.
    pub covered: Vec<DepReport>,
    /// Dependencies with no installed docset.
    pub uncovered: Vec<Dependency>,
    /// Catalog docsets that would cover what's missing (see `suggest`).
    pub suggestions: Vec<Suggestion>,
}

/// A catalog docset to install for a dependency.
#[derive(Debug, Clone, PartialEq)]
pub struct Suggestion {
    /// Dependency name.
    pub dependency: String,
    /// Docset id to install, e.g. `react~18` or `dash:React@18.3.1`.
    pub id: String,
    pub version: String,
}

impl View for Suggestion {
    type V = (Seq<char>, Seq<char>, Seq<char>);

    open spec fn view(&self) -> (Seq<char>, Seq<char>, Seq<char>) {
        (self.dependency@, self.id@, self.version@)
    }
}

pub type MatchView = (Seq<char>, Seq<char>, Option<bool>);

pub open spec fn match_views(v: Seq<DocsetMatch>) -> Seq<MatchView> {
    v.map_values(|m: DocsetMatch| m@)
}

pub open spec fn report_views(v: Seq<DepReport>) -> Seq<(Dependency, Seq<MatchView>)> {
    v.map_values(|r: DepReport| (r.dependency, match_views(r.installed@)))
}

pub open spec fn suggestion_views(v: Seq<Suggestion>) -> Seq<(Seq<char>, Seq<char>, Seq<char>)> {
    v.map_values(|s: Suggestion| s@)
}

/// Whether the docset `id` goes by one of `keys`.
pub open spec fn key_matches(id: Seq<char>, keys: Seq<Seq<char>>) -> bool {
    docset_key_spec(id) matches Some(k) && keys.contains(k)
}

/// The installed docsets for `d`, in installed order.
pub open spec fn matches_for(d: Dependency, installed: Seq<Docset>) -> Seq<MatchView>
    decreases installed.len(),
{
    if installed.len() == 0 {
        seq![]
    } else {
        let rest = matches_for(d, installed.drop_last());
        let ds = installed.last();
        if key_matches(ds.id@, dependency_keys_spec(d)) {
            rest.push(
                (
                    ds.id@,
                    ds.version@,
                    match dep_version(d) {
                        Some(v) => version_matches_spec(v, ds.id@, ds.version@),
                        None => None,
                    },
                ),
            )
        } else {
            rest
        }
    }
}

/// Sort rank: version matches first, then unknown, then other versions.
pub open spec fn rank(m: Option<bool>) -> int {
    match m {
        Some(true) => 0,
        None => 1,
        Some(false) => 2,
    }
}

pub open spec fn with_rank(ms: Seq<MatchView>, r: int) -> Seq<MatchView>
    decreases ms.len(),
{
    if ms.len() == 0 {
        seq![]
    } else if rank(ms.last().2) == r {
        with_rank(ms.drop_last(), r).push(ms.last())
    } else {
        with_rank(ms.drop_last(), r)
    }
}

/// Matches in rank order, keeping the order within a rank.
pub open spec fn ranked(ms: Seq<MatchView>) -> Seq<MatchView> {
    with_rank(ms, 0) + with_rank(ms, 1) + with_rank(ms, 2)
}

pub open spec fn covered_spec(deps: Seq<Dependency>, installed: Seq<Docset>) -> Seq<
    (Dependency, Seq<MatchView>),
>
    decreases deps.len(),
{
    if deps.len() == 0 {
        seq![]
    } else {
        let rest = covered_spec(deps.drop_last(), installed);
        let ms = matches_for(deps.last(), installed);
        if ms.len() > 0 {
            rest.push((deps.last(), ranked(ms)))
        } else {
            rest
        }
    }
}

/// `r` lists the matches of `ms` version matches first, then those of
/// unknown version, then other versions, each group in the order of `ms`.
pub open spec fn in_match_order(r: Seq<MatchView>, ms: Seq<MatchView>) -> bool {
    &&& r.len() == ms.len()
    &&& forall|i: int, j: int|
        #![trigger r[i], r[j]]
        0 <= i < j < r.len() ==> {
            &&& (r[j].2 == Some(true) ==> r[i].2 == Some(true))
            &&& (r[i].2 == Some(false) ==> r[j].2 == Some(false))
        }
    &&& r.filter(|m: MatchView| m.2 == Some(true)) == ms.filter(|m: MatchView| m.2 == Some(true))
    &&& r.filter(|m: MatchView| m.2 == None::<bool>) == ms.filter(|m: MatchView| m.2 == None::<bool>)
    &&& r.filter(|m: MatchView| m.2 == Some(false)) == ms.filter(
        |m: MatchView| m.2 == Some(false),
    )
}

proof fn lemma_with_rank_members(ms: Seq<MatchView>, k: int)
    ensures
        forall|i: int|
            0 <= i < with_rank(ms, k).len() ==> rank(#[trigger] with_rank(ms, k)[i].2) == k,
    decreases ms.len(),
{
    if ms.len() > 0 {
        lemma_with_rank_members(ms.drop_last(), k);
        let w = with_rank(ms.drop_last(), k);
        assert forall|i: int| 0 <= i < with_rank(ms, k).len() implies rank(
            #[trigger] with_rank(ms, k)[i].2,
        ) == k by {
            if i < w.len() {
                assert(with_rank(ms, k)[i] == w[i]);
            }
        }
    }
}

proof fn lemma_with_rank_filter(ms: Seq<MatchView>, k: int, x: Option<bool>)
    ensures
        with_rank(ms, k).filter(|m: MatchView| m.2 == x) == if rank(x) == k {
            ms.filter(|m: MatchView| m.2 == x)
        } else {
            Seq::<MatchView>::empty()
        },
    decreases ms.len(),
{
    reveal(Seq::filter);
    if ms.len() > 0 {
        lemma_with_rank_filter(ms.drop_last(), k, x);
        let w = with_rank(ms.drop_last(), k);
        w.lemma_filter_push(ms.last(), |m: MatchView| m.2 == x);
    }
}

proof fn lemma_with_rank_len(ms: Seq<MatchView>)
    ensures
        with_rank(ms, 0).len() + with_rank(ms, 1).len() + with_rank(ms, 2).len() == ms.len(),
    decreases ms.len(),
{
    if ms.len() > 0 {
        lemma_with_rank_len(ms.drop_last());
    }
}

proof fn lemma_ranked_filter(ms: Seq<MatchView>, x: Option<bool>)
    ensures
        ranked(ms).filter(|m: MatchView| m.2 == x) == ms.filter(|m: MatchView| m.2 == x),
{
    let p = |m: MatchView| m.2 == x;
    let a = with_rank(ms, 0);
    let b = with_rank(ms, 1);
    let c = with_rank(ms, 2);
    Seq::filter_distributes_over_add(a + b, c, p);
    Seq::filter_distributes_over_add(a, b, p);
    lemma_with_rank_filter(ms, 0, x);
    lemma_with_rank_filter(ms, 1, x);
    lemma_with_rank_filter(ms, 2, x);
    assert(ranked(ms).filter(p) =~= ms.filter(p));
}

/// The installed docsets of a dependency are listed version matches first,
/// then those whose version is unknown, then other versions; within each
/// group the installed order stays, and none is added or dropped.
pub proof fn lemma_ranked_order(ms: Seq<MatchView>)
    ensures
        in_match_order(ranked(ms), ms),
{
    let r = ranked(ms);
    let a = with_rank(ms, 0);
    let b = with_rank(ms, 1);
    let c = with_rank(ms, 2);
    lemma_with_rank_len(ms);
    lemma_with_rank_members(ms, 0);
    lemma_with_rank_members(ms, 1);
    lemma_with_rank_members(ms, 2);
    assert forall|i: int| 0 <= i < r.len() implies rank(#[trigger] r[i].2) == if i < a.len() {
        0int
    } else if i < a.len() + b.len() {
        1int
    } else {
        2int
    } by {
        if i < a.len() {
            assert(r[i] == a[i]);
        } else if i < a.len() + b.len() {
            assert(r[i] == b[i - a.len()]);
        } else {
            assert(r[i] == c[i - a.len() - b.len()]);
        }
    }
    lemma_ranked_filter(ms, Some(true));
    lemma_ranked_filter(ms, None);
    lemma_ranked_filter(ms, Some(false));
}

/// Every covered dependency of a project lists the installed docsets that
/// go by its keys in rank order: version matches first, then unknown
/// versions, then other versions, each group in installed order.
pub proof fn lemma_covered_in_rank_order(deps: Seq<Dependency>, installed: Seq<Docset>)
    ensures
        forall|i: int|
            0 <= i < covered_spec(deps, installed).len() ==> in_match_order(
                #[trigger] covered_spec(deps, installed)[i].1,
                matches_for(covered_spec(deps, installed)[i].0, installed),
            ),
    decreases deps.len(),
{
    if deps.len() > 0 {
        lemma_covered_in_rank_order(deps.drop_last(), installed);
        lemma_ranked_order(matches_for(deps.last(), installed));
        let rest = covered_spec(deps.drop_last(), installed);
        let cs = covered_spec(deps, installed);
        assert forall|i: int| 0 <= i < cs.len() implies in_match_order(
            #[trigger] cs[i].1,
            matches_for(cs[i].0, installed),
        ) by {
            if i < rest.len() {
                assert(cs[i] == rest[i]);
            }
        }
    }
}

pub open spec fn uncovered_spec(deps: Seq<Dependency>, installed: Seq<Docset>) -> Seq<Dependency>
    decreases deps.len(),
{
    if deps.len() == 0 {
        seq![]
    } else {
        let rest = uncovered_spec(deps.drop_last(), installed);
        if matches_for(deps.last(), installed).len() == 0 {
            rest.push(deps.last())
        } else {
            rest
        }
    }
}

fn copy_string(s: &String) -> (r: String)
    ensures
        r == *s,
{
    s.clone()
}

fn copy_dependency(d: &Dependency) -> (r: Dependency)
    ensures
        r == *d,
{
    Dependency {
        ecosystem: copy_string(&d.ecosystem),
        name: copy_string(&d.name),
        spec: copy_string(&d.spec),
        resolved: match &d.resolved {
            Some(s) => Some(copy_string(s)),
            None => None,
        },
    }
}

/// Whether some of `keys` is `k`.
fn keys_contain(keys: &Vec<String>, k: &String) -> (r: bool)
    ensures
        r == strs(keys@).contains(k@),
{
    let mut i: usize = 0;
    while i < keys.len()
        invariant
            i <= keys@.len(),
            forall|j: int| 0 <= j < i ==> keys@[j]@ != k@,
        decreases keys@.len() - i,
    {
        if keys[i] == *k {
            assert(strs(keys@)[i as int] == k@);
            return true;
        }
        i = i + 1;
    }
    assert forall|j: int| 0 <= j < strs(keys@).len() implies strs(keys@)[j] != k@ by {
        assert(strs(keys@)[j] == keys@[j]@);
    }
    false
}

/// Whether the docset `id` goes by one of `keys`.
fn id_matches_keys(id: &String, keys: &Vec<String>) -> (r: bool)
    ensures
        r == key_matches(id@, strs(keys@)),
{
    match docset_key(id.as_str()) {
        Some(k) => keys_contain(keys, &k),
        None => false,
    }
}

fn matches_for_vec(d: &Dependency, installed: &Vec<Docset>) -> (r: Vec<DocsetMatch>)
    ensures
        match_views(r@) == matches_for(*d, installed@),
{
    let keys = dependency_keys(d);
    let version = d.version();
    let mut out: Vec<DocsetMatch> = Vec::new();
    let mut i: usize = 0;
    while i < installed.len()
        invariant
            i <= installed@.len(),
            strs(keys@) == dependency_keys_spec(*d),
            match version {
                Some(v) => dep_version(*d) == Some(v@),
                None => dep_version(*d) is None,
            },
            match_views(out@) == matches_for(*d, installed@.take(i as int)),
        decreases installed@.len() - i,
    {
        let ds = &installed[i];
        assert(installed@.take(i + 1).drop_last() == installed@.take(i as int));
        assert(installed@.take(i + 1).last() == *ds);
        if id_matches_keys(&ds.id, &keys) {
            let m = match &version {
                Some(v) => version_matches(v, ds.id.as_str(), ds.version.as_str()),
                None => None,
            };
            let ghost before = match_views(out@);
            out.push(DocsetMatch { id: copy_string(&ds.id), version: copy_string(&ds.version), matches: m });
            assert(match_views(out@) == before.push((ds.id@, ds.version@, m)));
        }
        i = i + 1;
    }
    assert(installed@.take(installed@.len() as int) == installed@);
    out
}

fn rank_of(m: Option<bool>) -> (r: u8)
    ensures
        r as int == rank(m),
{
    match m {
        Some(true) => 0,
        None => 1,
        Some(false) => 2,
    }
}

fn copy_match(m: &DocsetMatch) -> (r: DocsetMatch)
    ensures
        r@ == m@,
{
    DocsetMatch { id: copy_string(&m.id), version: copy_string(&m.version), matches: m.matches }
}

fn push_with_rank(out: &mut Vec<DocsetMatch>, ms: &Vec<DocsetMatch>, r: u8)
    ensures
        match_views(final(out)@) == match_views(old(out)@) + with_rank(match_views(ms@), r as int),
{
    let ghost start = match_views(out@);
    let mut i: usize = 0;
    while i < ms.len()
        invariant
            i <= ms@.len(),
            match_views(out@) == start + with_rank(match_views(ms@).take(i as int), r as int),
        decreases ms@.len() - i,
    {
        assert(match_views(ms@).take(i + 1).drop_last() == match_views(ms@).take(i as int));
        assert(match_views(ms@).take(i + 1).last() == ms@[i as int]@);
        if rank_of(ms[i].matches) == r {
            let ghost before = match_views(out@);
            out.push(copy_match(&ms[i]));
            assert(match_views(out@) == before.push(ms@[i as int]@));
        }
        i = i + 1;
    }
    assert(match_views(ms@).take(ms@.len() as int) == match_views(ms@));
}

/// Matches sorted by rank, stable within a rank.
fn rank_sorted(ms: &Vec<DocsetMatch>) -> (r: Vec<DocsetMatch>)
    ensures
        match_views(r@) == ranked(match_views(ms@)),
{
    let mut out: Vec<DocsetMatch> = Vec::new();
    assert(match_views(out@) == Seq::<MatchView>::empty());
    push_with_rank(&mut out, ms, 0);
    push_with_rank(&mut out, ms, 1);
    push_with_rank(&mut out, ms, 2);
    out
}

/// Matches dependencies (read from the project at `root`) against the
/// `installed` docsets: each dependency is covered, with its installed
/// docsets in rank order, or uncovered.
pub fn analyze(root: String, deps: Vec<Dependency>, installed: &Vec<Docset>) -> (r: ProjectReport)
    ensures
        r.root == root,
        report_views(r.covered@) == covered_spec(deps@, installed@),
        r.uncovered@ == uncovered_spec(deps@, installed@),
        r.suggestions@.len() == 0,
{
    let mut covered: Vec<DepReport> = Vec::new();
    let mut uncovered: Vec<Dependency> = Vec::new();
    let mut i: usize = 0;
    while i < deps.len()
        invariant
            i <= deps@.len(),
            report_views(covered@) == covered_spec(deps@.take(i as int), installed@),
            uncovered@ == uncovered_spec(deps@.take(i as int), installed@),
        decreases deps@.len() - i,
    {
        let dep = &deps[i];
        assert(deps@.take(i + 1).drop_last() == deps@.take(i as int));
        assert(deps@.take(i + 1).last() == *dep);
        let ms = matches_for_vec(dep, installed);
        if ms.len() == 0 {
            uncovered.push(copy_dependency(dep));
        } else {
            let sorted = rank_sorted(&ms);
            let ghost before = report_views(covered@);
            covered.push(DepReport { dependency: copy_dependency(dep), installed: sorted });
            assert(report_views(covered@) == before.push((*dep, ranked(matches_for(*dep, installed@)))));
        }
        i = i + 1;
    }
    assert(deps@.take(deps@.len() as int) == deps@);
    ProjectReport { root, covered, uncovered, suggestions: Vec::new() }
}

// ---------------------------------------------------------------------------
// Exclusions and suggestions

/// Ids of the matches for other versions.
pub open spec fn other_version_ids(ms: Seq<MatchView>) -> Seq<Seq<char>>
    decreases ms.len(),
{
    if ms.len() == 0 {
        seq![]
    } else if ms.last().2 == Some(false) {
        other_version_ids(ms.drop_last()).push(ms.last().0)
    } else {
        other_version_ids(ms.drop_last())
    }
}

pub open spec fn has_version_match(ms: Seq<MatchView>) -> bool {
    exists|i: int| 0 <= i < ms.len() && #[trigger] ms[i].2 == Some(true)
}

/// Installed docsets to leave out of searches: other versions of a
/// dependency when a matching version is installed.
pub open spec fn excluded_spec(covered: Seq<(Dependency, Seq<MatchView>)>) -> Seq<Seq<char>>
    decreases covered.len(),
{
    if covered.len() == 0 {
        seq![]
    } else {
        let rest = excluded_spec(covered.drop_last());
        let ms = covered.last().1;
        if has_version_match(ms) {
            rest + other_version_ids(ms)
        } else {
            rest
        }
    }
}

impl ProjectReport {
    /// Installed docsets to leave out of searches: other versions of a
    /// dependency when a matching version is installed.
    pub fn excluded_docsets(&self) -> (r: Vec<String>)
        ensures
            strs(r@) == excluded_spec(report_views(self.covered@)),
    {
        let mut out: Vec<String> = Vec::new();
        let mut i: usize = 0;
        while i < self.covered.len()
            invariant
                i <= self.covered@.len(),
                strs(out@) == excluded_spec(report_views(self.covered@).take(i as int)),
            decreases self.covered@.len() - i,
        {
            let d = &self.covered[i];
            let ghost cv = report_views(self.covered@);
            assert(cv.take(i + 1).drop_last() == cv.take(i as int));
            assert(cv.take(i + 1).last() == (d.dependency, match_views(d.installed@)));
            let ghost ms = match_views(d.installed@);
            let mut any = false;
            let mut j: usize = 0;
            while j < d.installed.len()
                invariant
                    j <= d.installed@.len(),
                    ms == match_views(d.installed@),
                    any == exists|k: int| 0 <= k < j && #[trigger] ms[k].2 == Some(true),
                decreases d.installed@.len() - j,
            {
                if d.installed[j].matches == Some(true) {
                    assert(ms[j as int].2 == Some(true));
                    any = true;
                }
                j = j + 1;
            }
            if any {
                let ghost before = strs(out@);
                let mut k: usize = 0;
                while k < d.installed.len()
                    invariant
                        k <= d.installed@.len(),
                        ms == match_views(d.installed@),
                        strs(out@) == before + other_version_ids(ms.take(k as int)),
                    decreases d.installed@.len() - k,
                {
                    assert(ms.take(k + 1).drop_last() == ms.take(k as int));
                    assert(ms.take(k + 1).last() == d.installed@[k as int]@);
                    if d.installed[k].matches == Some(false) {
                        let ghost b2 = strs(out@);
                        out.push(copy_string(&d.installed[k].id));
                        assert(strs(out@) == b2.push(d.installed@[k as int].id@));
                    }
                    k = k + 1;
                }
                assert(ms.take(ms.len() as int) == ms);
            }
            i = i + 1;
        }
        assert(report_views(self.covered@).take(self.covered@.len() as int) == report_views(
            self.covered@,
        ));
        out
    }
}

pub open spec fn all_other_versions(ms: Seq<MatchView>) -> bool {
    forall|i: int| 0 <= i < ms.len() ==> #[trigger] ms[i].2 == Some(false)
}

/// Covered dependencies whose installed docsets are all other versions.
pub open spec fn needing(covered: Seq<(Dependency, Seq<MatchView>)>) -> Seq<Dependency>
    decreases covered.len(),
{
    if covered.len() == 0 {
        seq![]
    } else if all_other_versions(covered.last().1) {
        needing(covered.drop_last()).push(covered.last().0)
    } else {
        needing(covered.drop_last())
    }
}

/// Catalog entries that go by one of `keys`, in catalog order.
pub open spec fn candidates(keys: Seq<Seq<char>>, catalog: Seq<CatalogEntry>) -> Seq<CatalogEntry>
    decreases catalog.len(),
{
    if catalog.len() == 0 {
        seq![]
    } else if key_matches(catalog.last().id@, keys) {
        candidates(keys, catalog.drop_last()).push(catalog.last())
    } else {
        candidates(keys, catalog.drop_last())
    }
}

/// The first candidate whose own version covers `v`.
pub open spec fn first_exact(v: Seq<u64>, cands: Seq<CatalogEntry>) -> Option<CatalogEntry>
    decreases cands.len(),
{
    if cands.len() == 0 {
        None
    } else if version_matches_spec(v, cands[0].id@, cands[0].version@) == Some(true) {
        Some(cands[0])
    } else {
        first_exact(v, cands.drop_first())
    }
}

/// The first of `versions` that covers `v`, as `(<id>@<version>, version)`.
pub open spec fn first_older_in(v: Seq<u64>, id: Seq<char>, versions: Seq<Seq<char>>) -> Option<
    (Seq<char>, Seq<char>),
>
    decreases versions.len(),
{
    if versions.len() == 0 {
        None
    } else {
        let vid = id + seq!['@'] + versions[0];
        if version_matches_spec(v, vid, versions[0]) == Some(true) {
            Some((vid, versions[0]))
        } else {
            first_older_in(v, id, versions.drop_first())
        }
    }
}

/// The first older (Dash) version of a candidate that covers `v`.
pub open spec fn first_older(v: Seq<u64>, cands: Seq<CatalogEntry>) -> Option<
    (Seq<char>, Seq<char>),
>
    decreases cands.len(),
{
    if cands.len() == 0 {
        None
    } else {
        match first_older_in(v, cands[0].id@, strs(cands[0].versions@)) {
            Some(p) => Some(p),
            None => first_older(v, cands.drop_first()),
        }
    }
}

/// What to install for `d`: a version match when the catalog has one
/// (catalog versions first, then older Dash versions), else the first
/// candidate; nothing when no catalog docset goes by its names.
pub open spec fn suggestion_for(d: Dependency, catalog: Seq<CatalogEntry>) -> Option<
    (Seq<char>, Seq<char>, Seq<char>),
> {
    let cands = candidates(dependency_keys_spec(d), catalog);
    if cands.len() == 0 {
        None
    } else {
        let latest = cands[0];
        match dep_version(d) {
            None => Some((d.name@, latest.id@, latest.version@)),
            Some(v) => match first_exact(v, cands) {
                Some(c) => Some((d.name@, c.id@, c.version@)),
                None => match first_older(v, cands) {
                    Some((id, ver)) => Some((d.name@, id, ver)),
                    None => Some((d.name@, latest.id@, latest.version@)),
                },
            },
        }
    }
}

pub open spec fn suggestions_for(deps: Seq<Dependency>, catalog: Seq<CatalogEntry>) -> Seq<
    (Seq<char>, Seq<char>, Seq<char>),
>
    decreases deps.len(),
{
    if deps.len() == 0 {
        seq![]
    } else {
        let rest = suggestions_for(deps.drop_last(), catalog);
        match suggestion_for(deps.last(), catalog) {
            Some(s) => rest.push(s),
            None => rest,
        }
    }
}

/// Dependencies that need docs: covered ones with only other versions
/// installed, then the uncovered ones.
pub open spec fn needs_docs(report: ProjectReport) -> Seq<Dependency> {
    needing(report_views(report.covered@)) + report.uncovered@
}

/// Catalog docsets for dependencies that have no installed docs, or only
/// other versions.
pub open spec fn suggest_spec(report: ProjectReport, catalog: Seq<CatalogEntry>) -> Seq<
    (Seq<char>, Seq<char>, Seq<char>),
> {
    suggestions_for(needs_docs(report), catalog)
}

/// Indices of the catalog entries that go by one of `keys`.
fn candidate_indices(keys: &Vec<String>, catalog: &Vec<CatalogEntry>) -> (r: Vec<usize>)
    ensures
        r@.len() == candidates(strs(keys@), catalog@).len(),
        forall|j: int|
            0 <= j < r@.len() ==> #[trigger] r@[j] < catalog@.len() && catalog@[r@[j] as int]
                == candidates(strs(keys@), catalog@)[j],
{
    let mut out: Vec<usize> = Vec::new();
    let mut i: usize = 0;
    while i < catalog.len()
        invariant
            i <= catalog@.len(),
            out@.len() == candidates(strs(keys@), catalog@.take(i as int)).len(),
            forall|j: int|
                0 <= j < out@.len() ==> #[trigger] out@[j] < catalog@.len() && catalog@[out@[j] as int]
                    == candidates(strs(keys@), catalog@.take(i as int))[j],
        decreases catalog@.len() - i,
    {
        assert(catalog@.take(i + 1).drop_last() == catalog@.take(i as int));
        assert(catalog@.take(i + 1).last() == catalog@[i as int]);
        if id_matches_keys(&catalog[i].id, keys) {
            out.push(i);
        }
        i = i + 1;
    }
    assert(catalog@.take(catalog@.len() as int) == catalog@);
    out
}

/// The first older version of the entry `c` that covers `v`.
fn older_in(v: &Vec<u64>, c: &CatalogEntry) -> (r: Option<(String, String)>)
    ensures
        match r {
            Some((id, ver)) => first_older_in(v@, c.id@, strs(c.versions@)) == Some((id@, ver@)),
            None => first_older_in(v@, c.id@, strs(c.versions@)) is None,
        },
{
    let ghost all = strs(c.versions@);
    let mut i: usize = 0;
    assert(all.skip(0) == all);
    while i < c.versions.len()
        invariant
            i <= c.versions@.len(),
            all == strs(c.versions@),
            first_older_in(v@, c.id@, all.skip(i as int)) == first_older_in(v@, c.id@, all),
        decreases c.versions@.len() - i,
    {
        let ver = &c.versions[i];
        let mut id = to_chars(c.id.as_str());
        id.push('@');
        let vc = to_chars(ver.as_str());
        push_all(&mut id, &vc);
        let ids = from_chars(&id);
        assert(ids@ == c.id@ + seq!['@'] + ver@);
        assert(all.skip(i as int)[0] == ver@);
        assert(all.skip(i as int).drop_first() == all.skip(i + 1));
        if version_matches(v, ids.as_str(), ver.as_str()) == Some(true) {
            return Some((ids, copy_string(ver)));
        }
        i = i + 1;
    }
    assert(all.skip(c.versions@.len() as int) == Seq::<Seq<char>>::empty());
    None
}

fn suggestion(name: &String, id: &String, version: &String) -> (r: Suggestion)
    ensures
        r@ == (name@, id@, version@),
{
    Suggestion { dependency: copy_string(name), id: copy_string(id), version: copy_string(version) }
}

/// What to install for `d` (see `suggestion_for`).
fn suggest_one(d: &Dependency, catalog: &Vec<CatalogEntry>) -> (r: Option<Suggestion>)
    ensures
        match r {
            Some(s) => suggestion_for(*d, catalog@) == Some(s@),
            None => suggestion_for(*d, catalog@) is None,
        },
{
    let keys = dependency_keys(d);
    let idx = candidate_indices(&keys, catalog);
    let ghost cands = candidates(dependency_keys_spec(*d), catalog@);
    if idx.len() == 0 {
        return None;
    }
    let latest = &catalog[idx[0]];
    assert(*latest == cands[0]);
    let version = match d.version() {
        None => {
            return Some(suggestion(&d.name, &latest.id, &latest.version));
        },
        Some(v) => v,
    };
    // A candidate whose own version matches.
    let mut i: usize = 0;
    assert(cands.skip(0) == cands);
    while i < idx.len()
        invariant
            i <= idx@.len(),
            idx@.len() == cands.len(),
            forall|j: int|
                0 <= j < idx@.len() ==> #[trigger] idx@[j] < catalog@.len() && catalog@[idx@[j] as int]
                    == cands[j],
            first_exact(version@, cands.skip(i as int)) == first_exact(version@, cands),
            dep_version(*d) == Some(version@),
            cands == candidates(dependency_keys_spec(*d), catalog@),
            cands.len() > 0,
            *latest == cands[0],
        decreases idx@.len() - i,
    {
        let c = &catalog[idx[i]];
        assert(cands.skip(i as int)[0] == *c);
        assert(cands.skip(i as int).drop_first() == cands.skip(i + 1));
        if version_matches(&version, c.id.as_str(), c.version.as_str()) == Some(true) {
            assert(first_exact(version@, cands.skip(i as int)) == Some(*c));
            return Some(suggestion(&d.name, &c.id, &c.version));
        }
        i = i + 1;
    }
    assert(cands.skip(idx@.len() as int) == Seq::<CatalogEntry>::empty());
    // An older (Dash) version that matches.
    let mut i: usize = 0;
    while i < idx.len()
        invariant
            i <= idx@.len(),
            idx@.len() == cands.len(),
            forall|j: int|
                0 <= j < idx@.len() ==> #[trigger] idx@[j] < catalog@.len() && catalog@[idx@[j] as int]
                    == cands[j],
            first_older(version@, cands.skip(i as int)) == first_older(version@, cands),
            first_exact(version@, cands) is None,
            dep_version(*d) == Some(version@),
            cands == candidates(dependency_keys_spec(*d), catalog@),
            cands.len() > 0,
            *latest == cands[0],
        decreases idx@.len() - i,
    {
        let c = &catalog[idx[i]];
        assert(cands.skip(i as int)[0] == *c);
        assert(cands.skip(i as int).drop_first() == cands.skip(i + 1));
        if let Some((id, ver)) = older_in(&version, c) {
            assert(first_older(version@, cands.skip(i as int)) == Some((id@, ver@)));
            return Some(Suggestion { dependency: copy_string(&d.name), id, version: ver });
        }
        i = i + 1;
    }
    assert(cands.skip(idx@.len() as int) == Seq::<CatalogEntry>::empty());
    Some(suggestion(&d.name, &latest.id, &latest.version))
}

/// Dependencies that need docs (see `needs_docs`).
fn needs_docs_vec(report: &ProjectReport) -> (r: Vec<Dependency>)
    ensures
        r@ == needs_docs(*report),
{
    let mut out: Vec<Dependency> = Vec::new();
    let ghost cv = report_views(report.covered@);
    let mut i: usize = 0;
    while i < report.covered.len()
        invariant
            i <= report.covered@.len(),
            cv == report_views(report.covered@),
            out@ == needing(cv.take(i as int)),
        decreases report.covered@.len() - i,
    {
        let d = &report.covered[i];
        assert(cv.take(i + 1).drop_last() == cv.take(i as int));
        assert(cv.take(i + 1).last() == (d.dependency, match_views(d.installed@)));
        let ghost ms = match_views(d.installed@);
        let mut all = true;
        let mut j: usize = 0;
        while j < d.installed.len()
            invariant
                j <= d.installed@.len(),
                ms == match_views(d.installed@),
                all == forall|k: int| 0 <= k < j ==> #[trigger] ms[k].2 == Some(false),
            decreases d.installed@.len() - j,
        {
            if d.installed[j].matches != Some(false) {
                assert(ms[j as int].2 != Some(false));
                all = false;
            }
            j = j + 1;
        }
        if all {
            out.push(copy_dependency(&d.dependency));
        }
        i = i + 1;
    }
    assert(cv.take(report.covered@.len() as int) == cv);
    let mut k: usize = 0;
    let ghost mid = out@;
    while k < report.uncovered.len()
        invariant
            k <= report.uncovered@.len(),
            out@ == mid + report.uncovered@.take(k as int),
        decreases report.uncovered@.len() - k,
    {
        assert(report.uncovered@.take(k + 1) == report.uncovered@.take(k as int).push(
            report.uncovered@[k as int],
        ));
        out.push(copy_dependency(&report.uncovered[k]));
        k = k + 1;
    }
    assert(report.uncovered@.take(report.uncovered@.len() as int) == report.uncovered@);
    out
}

/// Catalog docsets for dependencies that have no installed docs, or only
/// other versions: a version match when the catalog has one (catalog pins
/// first, then Dash versions), else the first candidate.
pub fn suggest(report: &ProjectReport, catalog: &Vec<CatalogEntry>) -> (r: Vec<Suggestion>)
    ensures
        suggestion_views(r@) == suggest_spec(*report, catalog@),
{
    let deps = needs_docs_vec(report);
    let mut out: Vec<Suggestion> = Vec::new();
    let mut i: usize = 0;
    while i < deps.len()
        invariant
            i <= deps@.len(),
            suggestion_views(out@) == suggestions_for(deps@.take(i as int), catalog@),
        decreases deps@.len() - i,
    {
        assert(deps@.take(i + 1).drop_last() == deps@.take(i as int));
        assert(deps@.take(i + 1).last() == deps@[i as int]);
        if let Some(s) = suggest_one(&deps[i], catalog) {
            let ghost before = suggestion_views(out@);
            out.push(s);
            assert(suggestion_views(out@) == before.push(s@));
        }
        i = i + 1;
    }
    assert(deps@.take(deps@.len() as int) == deps@);
    out
}

// ---------------------------------------------------------------------------
// Locked versions

/// `Vec<u64>` order: lexicographic, a prefix first.
pub open spec fn nums_lt(a: Seq<u64>, b: Seq<u64>) -> bool
    decreases a.len(),
{
    if a.len() == 0 {
        b.len() > 0
    } else if b.len() == 0 {
        false
    } else if a[0] != b[0] {
        a[0] < b[0]
    } else {
        nums_lt(a.drop_first(), b.drop_first())
    }
}

/// `String` order: lexicographic by char (the same as by UTF-8 byte).
pub open spec fn chars_lt(a: Seq<char>, b: Seq<char>) -> bool
    decreases a.len(),
{
    if a.len() == 0 {
        b.len() > 0
    } else if b.len() == 0 {
        false
    } else if a[0] != b[0] {
        a[0] < b[0]
    } else {
        chars_lt(a.drop_first(), b.drop_first())
    }
}

pub proof fn lemma_chars_lt_irreflexive(a: Seq<char>)
    ensures
        !chars_lt(a, a),
    decreases a.len(),
{
    if a.len() > 0 {
        lemma_chars_lt_irreflexive(a.drop_first());
    }
}

pub proof fn lemma_chars_lt_trans(a: Seq<char>, b: Seq<char>, c: Seq<char>)
    requires
        chars_lt(a, b),
        chars_lt(b, c),
    ensures
        chars_lt(a, c),
    decreases a.len(),
{
    if a.len() > 0 && b.len() > 0 && c.len() > 0 && a[0] == b[0] && b[0] == c[0] {
        lemma_chars_lt_trans(a.drop_first(), b.drop_first(), c.drop_first());
    }
}

pub proof fn lemma_chars_lt_total(a: Seq<char>, b: Seq<char>)
    requires
        a != b,
    ensures
        chars_lt(a, b) || chars_lt(b, a),
    decreases a.len(),
{
    if a.len() > 0 && b.len() > 0 && a[0] == b[0] {
        if a.drop_first() == b.drop_first() {
            assert(a == seq![a[0]] + a.drop_first());
            assert(b == seq![b[0]] + b.drop_first());
        }
        lemma_chars_lt_total(a.drop_first(), b.drop_first());
    } else if a.len() > 0 && b.len() > 0 {
        assert(a[0] != b[0]);
    } else if a.len() == 0 && b.len() == 0 {
        assert(a == b);
    }
}

/// Order of `(parsed version, text)` pairs, as a sort of such tuples orders them.
pub open spec fn locked_lt(a: (Seq<u64>, Seq<char>), b: (Seq<u64>, Seq<char>)) -> bool {
    nums_lt(a.0, b.0) || (a.0 == b.0 && chars_lt(a.1, b.1))
}

/// Whether a locked version is compatible with the wanted one: same major,
/// or same minor for 0.x; anything when nothing is wanted.
pub open spec fn compatible(wanted: Option<Seq<u64>>, v: Seq<u64>) -> bool {
    match wanted {
        Some(w) => if w.len() > 0 && w[0] == 0 {
            v.len() > 0 && v[0] == 0 && (v.len() > 1) == (w.len() > 1) && (v.len() > 1 ==> v[1]
                == w[1])
        } else {
            (v.len() > 0) == (w.len() > 0) && (v.len() > 0 ==> v[0] == w[0])
        },
        None => true,
    }
}

/// The highest of the parseable `versions` that satisfies `ok`, scanning
/// left to right.
pub open spec fn highest(
    versions: Seq<Seq<char>>,
    wanted: Option<Seq<u64>>,
    only_compatible: bool,
) -> Option<(Seq<u64>, Seq<char>)>
    decreases versions.len(),
{
    if versions.len() == 0 {
        None
    } else {
        let best = highest(versions.drop_last(), wanted, only_compatible);
        let t = versions.last();
        match parse_version_spec(t) {
            Some(v) => if only_compatible && !compatible(wanted, v) {
                best
            } else {
                match best {
                    Some(b) => if locked_lt(b, (v, t)) {
                        Some((v, t))
                    } else {
                        best
                    },
                    None => Some((v, t)),
                }
            },
            None => best,
        }
    }
}

proof fn lemma_nums_lt_trans(a: Seq<u64>, b: Seq<u64>, c: Seq<u64>)
    requires
        nums_lt(a, b),
        nums_lt(b, c),
    ensures
        nums_lt(a, c),
    decreases a.len(),
{
    if a.len() > 0 && b.len() > 0 && c.len() > 0 && a[0] == b[0] && b[0] == c[0] {
        lemma_nums_lt_trans(a.drop_first(), b.drop_first(), c.drop_first());
    }
}

proof fn lemma_locked_lt_trans(
    a: (Seq<u64>, Seq<char>),
    b: (Seq<u64>, Seq<char>),
    c: (Seq<u64>, Seq<char>),
)
    requires
        locked_lt(a, b),
        locked_lt(b, c),
    ensures
        locked_lt(a, c),
{
    if nums_lt(a.0, b.0) && nums_lt(b.0, c.0) {
        lemma_nums_lt_trans(a.0, b.0, c.0);
    } else if a.0 == b.0 && b.0 == c.0 {
        lemma_chars_lt_trans(a.1, b.1, c.1);
    }
}

/// A locked version is considered (it parses, and is compatible when
/// only compatible ones count).
pub open spec fn considered(t: Seq<char>, wanted: Option<Seq<u64>>, only_compatible: bool) -> bool {
    parse_version_spec(t) matches Some(v) && (only_compatible ==> compatible(wanted, v))
}

/// `highest` picks a considered version that no considered version is
/// above, and picks none only when no version is considered.
proof fn lemma_highest(versions: Seq<Seq<char>>, wanted: Option<Seq<u64>>, only_compatible: bool)
    ensures
        match highest(versions, wanted, only_compatible) {
            Some((v, t)) => (exists|k: int| 0 <= k < versions.len() && versions[k] == t)
                && parse_version_spec(t) == Some(v) && considered(t, wanted, only_compatible)
                && forall|j: int|
                0 <= j < versions.len() && considered(#[trigger] versions[j], wanted, only_compatible)
                    ==> !locked_lt((v, t), (parse_version_spec(versions[j])->Some_0, versions[j])),
            None => forall|j: int|
                0 <= j < versions.len() ==> !considered(#[trigger] versions[j], wanted, only_compatible),
        },
    decreases versions.len(),
{
    if versions.len() > 0 {
        let pre = versions.drop_last();
        lemma_highest(pre, wanted, only_compatible);
        let t = versions.last();
        let n = versions.len() - 1;
        assert(versions[n] == t);
        assert forall|j: int| 0 <= j < n implies #[trigger] versions[j] == pre[j] by {}
        match highest(versions, wanted, only_compatible) {
            Some((v, t0)) => {
                if considered(t, wanted, only_compatible) {
                    let w = parse_version_spec(t)->Some_0;
                    match highest(pre, wanted, only_compatible) {
                        Some(b) => {
                            if locked_lt(b, (w, t)) {
                                assert forall|j: int|
                                    0 <= j < versions.len() && considered(
                                        #[trigger] versions[j],
                                        wanted,
                                        only_compatible,
                                    ) implies !locked_lt(
                                    (v, t0),
                                    (parse_version_spec(versions[j])->Some_0, versions[j]),
                                ) by {
                                    if j < n {
                                        let e = (parse_version_spec(versions[j])->Some_0, versions[j]);
                                        assert(pre[j] == versions[j]);
                                        if locked_lt((v, t0), e) {
                                            lemma_locked_lt_trans(b, (v, t0), e);
                                        }
                                    } else {
                                        lemma_chars_lt_irreflexive(t);
                                        lemma_nums_lt_irreflexive(w);
                                    }
                                }
                            } else {
                                let k = choose|k: int| 0 <= k < pre.len() && pre[k] == b.1;
                                assert(versions[k] == b.1);
                            }
                        },
                        None => {
                            assert forall|j: int|
                                0 <= j < versions.len() && considered(
                                    #[trigger] versions[j],
                                    wanted,
                                    only_compatible,
                                ) implies !locked_lt(
                                (v, t0),
                                (parse_version_spec(versions[j])->Some_0, versions[j]),
                            ) by {
                                if j < n {
                                    assert(pre[j] == versions[j]);
                                } else {
                                    lemma_chars_lt_irreflexive(t);
                                    lemma_nums_lt_irreflexive(w);
                                }
                            }
                        },
                    }
                } else {
                    let k = choose|k: int| 0 <= k < pre.len() && pre[k] == t0;
                    assert(versions[k] == t0);
                }
            },
            None => {},
        }
    }
}

proof fn lemma_nums_lt_irreflexive(a: Seq<u64>)
    ensures
        !nums_lt(a, a),
    decreases a.len(),
{
    if a.len() > 0 {
        lemma_nums_lt_irreflexive(a.drop_first());
    }
}

/// The highest locked version compatible with `spec` (same major, or same
/// minor for 0.x), else the highest locked version.
pub open spec fn pick_locked_spec(versions: Seq<Seq<char>>, spec: Seq<char>) -> Option<Seq<char>> {
    let wanted = parse_version_spec(spec);
    match highest(versions, wanted, true) {
        Some(b) => Some(b.1),
        None => match highest(versions, wanted, false) {
            Some(b) => Some(b.1),
            None => None,
        },
    }
}

/// `pick_locked` picks the highest compatible locked version (no
/// compatible one is above it); when none is compatible, the highest locked
/// version; and nothing only when no locked version parses.
pub proof fn lemma_pick_locked_highest(versions: Seq<Seq<char>>, spec: Seq<char>)
    ensures
        ({
            let w = parse_version_spec(spec);
            let any_compatible = exists|j: int|
                0 <= j < versions.len() && considered(#[trigger] versions[j], w, true);
            let any_parsed = exists|j: int|
                0 <= j < versions.len() && considered(#[trigger] versions[j], w, false);
            &&& any_compatible ==> (pick_locked_spec(versions, spec) matches Some(t) && considered(
                t,
                w,
                true,
            ) && forall|j: int|
                0 <= j < versions.len() && considered(#[trigger] versions[j], w, true) ==> !locked_lt(
                    (parse_version_spec(t)->Some_0, t),
                    (parse_version_spec(versions[j])->Some_0, versions[j]),
                ))
            &&& !any_compatible && any_parsed ==> (pick_locked_spec(versions, spec) matches Some(t)
                && considered(t, w, false) && forall|j: int|
                0 <= j < versions.len() && considered(#[trigger] versions[j], w, false) ==> !locked_lt(
                    (parse_version_spec(t)->Some_0, t),
                    (parse_version_spec(versions[j])->Some_0, versions[j]),
                ))
            &&& !any_parsed ==> pick_locked_spec(versions, spec) is None
        }),
{
    let w = parse_version_spec(spec);
    lemma_highest(versions, w, true);
    lemma_highest(versions, w, false);
}

fn nums_less(a: &Vec<u64>, b: &Vec<u64>) -> (r: bool)
    ensures
        r == nums_lt(a@, b@),
{
    let mut i: usize = 0;
    assert(a@.skip(0) == a@ && b@.skip(0) == b@);
    while i < a.len() && i < b.len() && a[i] == b[i]
        invariant
            i <= a@.len(),
            i <= b@.len(),
            nums_lt(a@.skip(i as int), b@.skip(i as int)) == nums_lt(a@, b@),
        decreases a@.len() - i,
    {
        assert(a@.skip(i as int).drop_first() == a@.skip(i + 1));
        assert(b@.skip(i as int).drop_first() == b@.skip(i + 1));
        i = i + 1;
    }
    if i == a.len() {
        i < b.len()
    } else if i == b.len() {
        false
    } else {
        assert(a@.skip(i as int)[0] == a@[i as int]);
        assert(b@.skip(i as int)[0] == b@[i as int]);
        a[i] < b[i]
    }
}

pub fn chars_less(a: &[char], b: &[char]) -> (r: bool)
    ensures
        r == chars_lt(a@, b@),
{
    let mut i: usize = 0;
    assert(a@.skip(0) == a@ && b@.skip(0) == b@);
    while i < a.len() && i < b.len() && a[i] == b[i]
        invariant
            i <= a@.len(),
            i <= b@.len(),
            chars_lt(a@.skip(i as int), b@.skip(i as int)) == chars_lt(a@, b@),
        decreases a@.len() - i,
    {
        assert(a@.skip(i as int).drop_first() == a@.skip(i + 1));
        assert(b@.skip(i as int).drop_first() == b@.skip(i + 1));
        i = i + 1;
    }
    if i == a.len() {
        i < b.len()
    } else if i == b.len() {
        false
    } else {
        assert(a@.skip(i as int)[0] == a@[i as int]);
        assert(b@.skip(i as int)[0] == b@[i as int]);
        a[i] < b[i]
    }
}

fn compatible_with(wanted: &Option<Vec<u64>>, v: &Vec<u64>) -> (r: bool)
    ensures
        r == compatible(
            match wanted {
                Some(w) => Some(w@),
                None => None,
            },
            v@,
        ),
{
    match wanted {
        Some(w) => {
            if w.len() > 0 && w[0] == 0 {
                v.len() > 0 && v[0] == 0 && (v.len() > 1) == (w.len() > 1) && (v.len() <= 1 || v[1]
                    == w[1])
            } else {
                (v.len() > 0) == (w.len() > 0) && (v.len() == 0 || v[0] == w[0])
            }
        },
        None => true,
    }
}

fn highest_vec(versions: &Vec<String>, wanted: &Option<Vec<u64>>, only_compatible: bool) -> (r:
    Option<(Vec<u64>, Vec<char>)>)
    ensures
        match r {
            Some((v, t)) => highest(
                strs(versions@),
                match wanted {
                    Some(w) => Some(w@),
                    None => None,
                },
                only_compatible,
            ) == Some((v@, t@)),
            None => highest(
                strs(versions@),
                match wanted {
                    Some(w) => Some(w@),
                    None => None,
                },
                only_compatible,
            ) is None,
        },
{
    let ghost wv = match wanted {
        Some(w) => Some(w@),
        None => None,
    };
    let ghost all = strs(versions@);
    let mut best: Option<(Vec<u64>, Vec<char>)> = None;
    let mut i: usize = 0;
    while i < versions.len()
        invariant
            i <= versions@.len(),
            all == strs(versions@),
            wv == match wanted {
                Some(w) => Some(w@),
                None => None,
            },
            match best {
                Some((v, t)) => highest(all.take(i as int), wv, only_compatible) == Some((v@, t@)),
                None => highest(all.take(i as int), wv, only_compatible) is None,
            },
        decreases versions@.len() - i,
    {
        assert(all.take(i + 1).drop_last() == all.take(i as int));
        assert(all.take(i + 1).last() == versions@[i as int]@);
        let t = to_chars(versions[i].as_str());
        match parse_version_chars(&t) {
            Some(v) => {
                if !(only_compatible && !compatible_with(wanted, &v)) {
                    let better = match &best {
                        Some((bv, bt)) => nums_less(bv, &v) || (eq_nums(bv, &v) && chars_less(bt, &t)),
                        None => true,
                    };
                    if better {
                        best = Some((v, t));
                    }
                }
            },
            None => {},
        }
        i = i + 1;
    }
    assert(all.take(versions@.len() as int) == all);
    best
}

fn eq_nums(a: &Vec<u64>, b: &Vec<u64>) -> (r: bool)
    ensures
        r == (a@ == b@),
{
    if a.len() != b.len() {
        return false;
    }
    let mut i: usize = 0;
    while i < a.len()
        invariant
            a@.len() == b@.len(),
            i <= a@.len(),
            forall|j: int| 0 <= j < i ==> a@[j] == b@[j],
        decreases a@.len() - i,
    {
        if a[i] != b[i] {
            return false;
        }
        i = i + 1;
    }
    assert(a@ == b@);
    true
}

/// The highest locked version compatible with `spec` (same major, or same
/// minor for 0.x), else the highest locked version; `None` when no locked
/// version parses.
pub fn pick_locked(versions: &Vec<String>, spec: &str) -> (r: Option<String>)
    ensures
        opt_view(r) == pick_locked_spec(strs(versions@), spec@),
{
    let wanted = parse_version(spec);
    match highest_vec(versions, &wanted, true) {
        Some((_, t)) => Some(from_chars(&t)),
        None => match highest_vec(versions, &wanted, false) {
            Some((_, t)) => Some(from_chars(&t)),
            None => None,
        },
    }
}

// ---------------------------------------------------------------------------
// Manifests

pub type DepView = (Seq<char>, Seq<char>, Seq<char>, Option<Seq<char>>);

pub open spec fn dep_view(d: Dependency) -> DepView {
    (d.ecosystem@, d.name@, d.spec@, opt_view(d.resolved))
}

pub open spec fn dep_views(v: Seq<Dependency>) -> Seq<DepView> {
    v.map_values(|d: Dependency| dep_view(d))
}

/// A dependency as manifests are read: the spec without surrounding whitespace.
pub open spec fn dep_spec(
    eco: Seq<char>,
    name: Seq<char>,
    spec: Seq<char>,
    resolved: Option<Seq<char>>,
) -> DepView {
    (eco, name, trim(spec), resolved)
}

fn make_dep(eco: &str, name: &[char], spec: &[char], resolved: Option<Vec<char>>) -> (r: Dependency)
    ensures
        dep_view(r) == dep_spec(
            eco@,
            name@,
            spec@,
            match resolved {
                Some(v) => Some(v@),
                None => None,
            },
        ),
{
    let sp = trim_vec(spec);
    Dependency {
        ecosystem: String::from_str(eco),
        name: from_chars(name),
        spec: from_chars(&sp),
        resolved: match resolved {
            Some(v) => Some(from_chars(&v)),
            None => None,
        },
    }
}

/// Index of the first whitespace char in `s`, or `s.len()`.
pub open spec fn find_ws(s: Seq<char>) -> int
    decreases s.len(),
{
    if s.len() == 0 || is_ws(s[0]) {
        0
    } else {
        1 + find_ws(s.drop_first())
    }
}

proof fn lemma_find_ws_at(s: Seq<char>, k: int)
    requires
        0 <= k <= s.len(),
        forall|j: int| 0 <= j < k ==> !is_ws(s[j]),
        k < s.len() ==> is_ws(s[k]),
    ensures
        find_ws(s) == k,
    decreases s.len(),
{
    if k > 0 {
        assert forall|j: int| 0 <= j < k - 1 implies !is_ws(s.drop_first()[j]) by {
            assert(s.drop_first()[j] == s[j + 1]);
        }
        lemma_find_ws_at(s.drop_first(), k - 1);
    }
}

/// The first two whitespace-separated words of `s`, if it has two.
pub open spec fn two_words(s: Seq<char>) -> Option<(Seq<char>, Seq<char>)> {
    let t1 = trim_start(s);
    let w1 = t1.take(find_ws(t1));
    let t2 = trim_start(t1.skip(find_ws(t1)));
    let w2 = t2.take(find_ws(t2));
    if t1.len() == 0 || t2.len() == 0 {
        None
    } else {
        Some((w1, w2))
    }
}

/// `(start, end)` of the first word of `s[from..]`, or `None` when only
/// whitespace is left.
fn next_word(s: &[char], from: usize) -> (r: Option<(usize, usize)>)
    requires
        from <= s@.len(),
    ensures
        match r {
            Some((a, b)) => {
                let t = trim_start(s@.skip(from as int));
                &&& from <= a < b <= s@.len()
                &&& t.len() > 0
                &&& t == s@.skip(a as int)
                &&& b - a == find_ws(t)
            },
            None => trim_start(s@.skip(from as int)).len() == 0,
        },
{
    let rest = copy_range(s, from, s.len());
    assert(rest@ == s@.skip(from as int));
    let k = trim_start_len(&rest);
    let a = from + k;
    assert(rest@.skip(k as int) == s@.skip(a as int));
    if a == s.len() {
        return None;
    }
    let mut b = a;
    while b < s.len() && !is_ws_char(s[b])
        invariant
            a <= b <= s@.len(),
            forall|j: int| a <= j < b ==> !is_ws(s@[j]),
        decreases s@.len() - b,
    {
        b = b + 1;
    }
    proof {
        let t = s@.skip(a as int);
        crate::text::lemma_trim_start_suffix(rest@);
        assert(!is_ws(t[0]));
        assert forall|j: int| 0 <= j < b - a implies !is_ws(t[j]) by {
            assert(t[j] == s@[a + j]);
        }
        if b < s@.len() {
            assert(t[b - a] == s@[b as int]);
        }
        lemma_find_ws_at(t, b - a);
    }
    Some((a, b))
}

fn two_words_vec(s: &[char]) -> (r: Option<(Vec<char>, Vec<char>)>)
    ensures
        match r {
            Some((a, b)) => two_words(s@) == Some((a@, b@)),
            None => two_words(s@) is None,
        },
{
    assert(s@.skip(0) == s@);
    match next_word(s, 0) {
        None => None,
        Some((a1, b1)) => {
            let ghost t1 = trim_start(s@);
            assert(t1.skip(find_ws(t1)) == s@.skip(b1 as int));
            assert(t1.take(find_ws(t1)) == s@.subrange(a1 as int, b1 as int));
            match next_word(s, b1) {
                None => None,
                Some((a2, b2)) => {
                    let ghost t2 = trim_start(s@.skip(b1 as int));
                    assert(t2.take(find_ws(t2)) == s@.subrange(a2 as int, b2 as int));
                    Some((copy_range(s, a1, b1), copy_range(s, a2, b2)))
                },
            }
        },
    }
}

/// State while reading `go.mod`: dependencies so far, and whether a
/// `require ( … )` block is open.
pub open spec fn go_step(st: (Seq<DepView>, bool), raw: Seq<char>) -> (Seq<DepView>, bool) {
    let (out, in_require) = st;
    let line = trim(raw);
    if starts_with(line, "go "@) {
        let v = line.skip("go "@.len() as int);
        (out.push(dep_spec("language"@, "go"@, v, Some(trim(v)))), in_require)
    } else if line == "require ("@ {
        (out, true)
    } else if in_require && line == ")"@ {
        (out, false)
    } else {
        let rest: Option<Seq<char>> = if starts_with(line, "require "@) {
            Some(line.skip("require "@.len() as int))
        } else if in_require {
            Some(line)
        } else {
            None
        };
        match rest {
            Some(r) => if contains_seq(r, "// indirect"@) {
                (out, in_require)
            } else {
                match two_words(r) {
                    Some((module, version)) => (
                        out.push(dep_spec("go"@, module, version, Some(version))),
                        in_require,
                    ),
                    None => (out, in_require),
                }
            },
            None => (out, in_require),
        }
    }
}

pub open spec fn go_fold(ls: Seq<Seq<char>>) -> (Seq<DepView>, bool)
    decreases ls.len(),
{
    if ls.len() == 0 {
        (seq![], false)
    } else {
        go_step(go_fold(ls.drop_last()), ls.last())
    }
}

/// The Go version and direct requirements of a `go.mod` text.
pub open spec fn go_spec(text: Seq<char>) -> Seq<DepView> {
    go_fold(lines(text)).0
}

/// The Go version and direct (not `// indirect`) requirements of a
/// `go.mod` text.
pub fn go_dependencies(text: &str) -> (r: Vec<Dependency>)
    ensures
        dep_views(r@) == go_spec(text@),
{
    let chars = to_chars(text);
    let ls = lines_vec(&chars);
    let mut out: Vec<Dependency> = Vec::new();
    let mut in_require = false;
    let mut i: usize = 0;
    while i < ls.len()
        invariant
            i <= ls@.len(),
            seqs(ls@) == lines(text@),
            go_fold(seqs(ls@).take(i as int)) == (dep_views(out@), in_require),
        decreases ls@.len() - i,
    {
        assert(seqs(ls@).take(i + 1).drop_last() == seqs(ls@).take(i as int));
        assert(seqs(ls@).take(i + 1).last() == ls@[i as int]@);
        let line = trim_vec(&ls[i]);
        let ghost before = dep_views(out@);
        if starts_with_str(&line, "go ") {
            let v = skip_prefix(&line, "go ");
            let tv = trim_vec(&v);
            let d = make_dep("language", &to_chars("go"), &v, Some(tv));
            out.push(d);
            assert(dep_views(out@) == before.push(dep_view(d)));
        } else if eq_str(&line, "require (") {
            in_require = true;
        } else if in_require && eq_str(&line, ")") {
            in_require = false;
        } else {
            let rest: Option<Vec<char>> = if starts_with_str(&line, "require ") {
                Some(skip_prefix(&line, "require "))
            } else if in_require {
                Some(line)
            } else {
                None
            };
            if let Some(r) = rest {
                if !contains_str(&r, "// indirect") {
                    if let Some((module, version)) = two_words_vec(&r) {
                        let d = make_dep("go", &module, &version, Some(version.clone()));
                        out.push(d);
                        assert(dep_views(out@) == before.push(dep_view(d)));
                    }
                }
            }
        }
        i = i + 1;
    }
    assert(seqs(ls@).take(ls@.len() as int) == seqs(ls@));
    out
}

// ---------------------------------------------------------------------------
// Python requirements

/// Chars of a distribution name after its first: `[A-Za-z0-9._-]`.
pub open spec fn is_name_char(c: char) -> bool {
    is_ascii_alnum(c) || c == '.' || c == '_' || c == '-'
}

pub open spec fn name_run(s: Seq<char>) -> int
    decreases s.len(),
{
    if s.len() > 0 && is_name_char(s[0]) {
        1 + name_run(s.drop_first())
    } else {
        0
    }
}

/// Index of the first `;` or `#`, or `s.len()`.
pub open spec fn find_marker(s: Seq<char>) -> int
    decreases s.len(),
{
    if s.len() == 0 || s[0] == ';' || s[0] == '#' {
        0
    } else {
        1 + find_marker(s.drop_first())
    }
}

proof fn lemma_name_run_at(s: Seq<char>, k: int)
    requires
        0 <= k <= s.len(),
        forall|j: int| 0 <= j < k ==> is_name_char(s[j]),
        k < s.len() ==> !is_name_char(s[k]),
    ensures
        name_run(s) == k,
    decreases s.len(),
{
    if k > 0 {
        assert forall|j: int| 0 <= j < k - 1 implies is_name_char(s.drop_first()[j]) by {
            assert(s.drop_first()[j] == s[j + 1]);
        }
        lemma_name_run_at(s.drop_first(), k - 1);
    }
}

proof fn lemma_find_marker_at(s: Seq<char>, k: int)
    requires
        0 <= k <= s.len(),
        forall|j: int| 0 <= j < k ==> s[j] != ';' && s[j] != '#',
        k < s.len() ==> s[k] == ';' || s[k] == '#',
    ensures
        find_marker(s) == k,
    decreases s.len(),
{
    if k > 0 {
        assert forall|j: int| 0 <= j < k - 1 implies s.drop_first()[j] != ';' && s.drop_first()[j]
            != '#' by {
            assert(s.drop_first()[j] == s[j + 1]);
        }
        lemma_find_marker_at(s.drop_first(), k - 1);
    }
}

/// A PEP 508 requirement's name and version spec:
/// `django[bcrypt]>=5.0; python_version>"3.10"` → (`django`, `>=5.0`).
/// Extras in brackets, environment markers after `;`, and comments after
/// `#` are dropped.
pub open spec fn pep508_spec(req: Seq<char>) -> Option<(Seq<char>, Seq<char>)> {
    let t = trim_start(req);
    if t.len() == 0 || !is_ascii_alnum(t[0]) {
        None
    } else {
        let n = 1 + name_run(t.drop_first());
        let r = trim_start(t.skip(n));
        let r2 = if r.len() > 0 && r[0] == '[' && find_char(r.drop_first(), ']') < r.len() - 1 {
            r.skip(find_char(r.drop_first(), ']') + 2)
        } else {
            r
        };
        let r3 = trim_start(r2);
        Some((t.take(n), trim(r3.take(find_marker(r3)))))
    }
}

/// A PEP 508 requirement's name and version spec (see `pep508_spec`).
pub fn pep508(req: &[char]) -> (r: Option<(Vec<char>, Vec<char>)>)
    ensures
        match r {
            Some((n, s)) => pep508_spec(req@) == Some((n@, s@)),
            None => pep508_spec(req@) is None,
        },
{
    let t = crate::text::trim_start_vec(req);
    if t.len() == 0 || !is_ascii_alnum_char(t[0]) {
        return None;
    }
    let mut n: usize = 1;
    while n < t.len() && (is_ascii_alnum_char(t[n]) || t[n] == '.' || t[n] == '_' || t[n] == '-')
        invariant
            1 <= n <= t@.len(),
            forall|j: int| 1 <= j < n ==> is_name_char(t@[j]),
        decreases t@.len() - n,
    {
        n = n + 1;
    }
    proof {
        let u = t@.drop_first();
        assert forall|j: int| 0 <= j < n - 1 implies is_name_char(u[j]) by {
            assert(u[j] == t@[j + 1]);
        }
        if n < t@.len() {
            assert(u[n - 1] == t@[n as int]);
        }
        lemma_name_run_at(u, n - 1);
    }
    let name = copy_range(&t, 0, n);
    let after = copy_range(&t, n, t.len());
    let r = crate::text::trim_start_vec(&after);
    let mut r2 = r.clone();
    assert(r2@ == r@);
    if r.len() > 0 && r[0] == '[' {
        let close = find_char_from(&r, 1, ']');
        if close < r.len() {
            assert(r@.skip(1) == r@.drop_first());
            r2 = copy_range(&r, close + 1, r.len());
            assert(r2@ == r@.skip((close - 1) + 2));
        }
    }
    let r3 = crate::text::trim_start_vec(&r2);
    let mut m: usize = 0;
    while m < r3.len() && r3[m] != ';' && r3[m] != '#'
        invariant
            m <= r3@.len(),
            forall|j: int| 0 <= j < m ==> r3@[j] != ';' && r3@[j] != '#',
        decreases r3@.len() - m,
    {
        m = m + 1;
    }
    proof {
        lemma_find_marker_at(r3@, m as int);
    }
    let spec = copy_range(&r3, 0, m);
    let spec = trim_vec(&spec);
    Some((name, spec))
}

/// A `requirements.txt` line that names a requirement (not blank, a
/// comment, or an option such as `-r other.txt`).
pub open spec fn is_requirement_line(l: Seq<char>) -> bool {
    l.len() > 0 && l[0] != '#' && l[0] != '-'
}

pub open spec fn requirements_fold(ls: Seq<Seq<char>>) -> Seq<DepView>
    decreases ls.len(),
{
    if ls.len() == 0 {
        seq![]
    } else {
        let rest = requirements_fold(ls.drop_last());
        let line = trim(ls.last());
        if is_requirement_line(line) {
            match pep508_spec(line) {
                Some((n, sp)) => rest.push(dep_spec("pypi"@, n, sp, None)),
                None => rest,
            }
        } else {
            rest
        }
    }
}

/// The requirements of a `requirements.txt` text.
pub open spec fn requirements_spec(text: Seq<char>) -> Seq<DepView> {
    requirements_fold(lines(text))
}

fn requirements_vec(text: &str) -> (r: Vec<Dependency>)
    ensures
        dep_views(r@) == requirements_spec(text@),
{
    let chars = to_chars(text);
    let ls = lines_vec(&chars);
    let mut out: Vec<Dependency> = Vec::new();
    let mut i: usize = 0;
    while i < ls.len()
        invariant
            i <= ls@.len(),
            seqs(ls@) == lines(text@),
            dep_views(out@) == requirements_fold(seqs(ls@).take(i as int)),
        decreases ls@.len() - i,
    {
        assert(seqs(ls@).take(i + 1).drop_last() == seqs(ls@).take(i as int));
        assert(seqs(ls@).take(i + 1).last() == ls@[i as int]@);
        let line = trim_vec(&ls[i]);
        if line.len() > 0 && line[0] != '#' && line[0] != '-' {
            if let Some((n, sp)) = pep508(&line) {
                let ghost before = dep_views(out@);
                let d = make_dep("pypi", &n, &sp, None);
                out.push(d);
                assert(dep_views(out@) == before.push(dep_view(d)));
            }
        }
        i = i + 1;
    }
    assert(seqs(ls@).take(ls@.len() as int) == seqs(ls@));
    out
}

/// What a `pyproject.toml` says about dependencies.
#[derive(Debug, Clone, Default)]
pub struct PyProject {
    /// `project.requires-python`.
    pub requires_python: Option<String>,
    /// `tool.poetry.dependencies.python`, when it is a string.
    pub poetry_python: Option<String>,
    /// `project.dependencies`, PEP 508 strings.
    pub dependencies: Vec<String>,
    /// `tool.poetry.dependencies`: name and version (the string, or the
    /// table's `version`).
    pub poetry: Vec<(String, Option<String>)>,
}

pub open spec fn or_else(a: Option<String>, b: Option<String>) -> Option<String> {
    match a {
        Some(x) => Some(x),
        None => b,
    }
}

pub open spec fn or_empty(a: Option<String>) -> Seq<char> {
    match a {
        Some(x) => x@,
        None => seq![],
    }
}

pub open spec fn pep_fold(reqs: Seq<String>) -> Seq<DepView>
    decreases reqs.len(),
{
    if reqs.len() == 0 {
        seq![]
    } else {
        let rest = pep_fold(reqs.drop_last());
        match pep508_spec(reqs.last()@) {
            Some((n, sp)) => rest.push(dep_spec("pypi"@, n, sp, None)),
            None => rest,
        }
    }
}

pub open spec fn poetry_fold(ps: Seq<(String, Option<String>)>) -> Seq<DepView>
    decreases ps.len(),
{
    if ps.len() == 0 {
        seq![]
    } else {
        let rest = poetry_fold(ps.drop_last());
        let (name, spec) = ps.last();
        if name@ == "python"@ {
            rest
        } else {
            rest.push(dep_spec("pypi"@, name@, or_empty(spec), None))
        }
    }
}

/// The dependencies a `pyproject.toml` declares: the Python version, then
/// `project.dependencies`, then Poetry's.
pub open spec fn pyproject_spec(p: PyProject) -> Seq<DepView> {
    seq![dep_spec("language"@, "python"@, or_empty(or_else(p.requires_python, p.poetry_python)), None)]
        + pep_fold(p.dependencies@) + poetry_fold(p.poetry@)
}

pub open spec fn names_python(ds: Seq<DepView>) -> bool {
    exists|i: int| 0 <= i < ds.len() && #[trigger] ds[i].1 == "python"@
}

/// Python dependencies from `pyproject.toml` and `requirements.txt` (each
/// when present): a `python` language entry comes first either way.
pub open spec fn python_spec(py: Option<PyProject>, req: Option<Seq<char>>) -> Seq<DepView> {
    let a = match py {
        Some(p) => pyproject_spec(p),
        None => seq![],
    };
    match req {
        Some(text) => {
            let b = if names_python(a) {
                a
            } else {
                a.push(dep_spec("language"@, "python"@, seq![], None))
            };
            b + requirements_spec(text)
        },
        None => a,
    }
}

fn opt_chars(o: &Option<String>) -> (r: Vec<char>)
    ensures
        r@ == or_empty(*o),
{
    match o {
        Some(s) => to_chars(s.as_str()),
        None => Vec::new(),
    }
}

fn append_deps(out: &mut Vec<Dependency>, more: Vec<Dependency>)
    ensures
        dep_views(final(out)@) == dep_views(old(out)@) + dep_views(more@),
{
    let ghost start = dep_views(out@);
    let mut i: usize = 0;
    let n = more.len();
    while i < n
        invariant
            n == more@.len(),
            i <= n,
            dep_views(out@) == start + dep_views(more@).take(i as int),
        decreases n - i,
    {
        let d = copy_dependency(&more[i]);
        let ghost before = dep_views(out@);
        out.push(d);
        assert(dep_views(more@)[i as int] == dep_view(d));
        assert(dep_views(more@).take(i + 1) == dep_views(more@).take(i as int).push(dep_view(d)));
        assert(dep_views(out@) == before.push(dep_view(d)));
        i = i + 1;
    }
    assert(dep_views(more@).take(n as int) == dep_views(more@));
}

/// Python dependencies from a `pyproject.toml` (read into `py`) and a
/// `requirements.txt` text, each when present.
pub fn python_dependencies(py: Option<&PyProject>, requirements: Option<&str>) -> (r: Vec<
    Dependency,
>)
    ensures
        dep_views(r@) == python_spec(
            match py {
                Some(p) => Some(*p),
                None => None,
            },
            match requirements {
                Some(t) => Some(t@),
                None => None,
            },
        ),
{
    let mut out: Vec<Dependency> = Vec::new();
    if let Some(p) = py {
        let version = match &p.requires_python {
            Some(v) => to_chars(v.as_str()),
            None => opt_chars(&p.poetry_python),
        };
        assert(version@ == or_empty(or_else(p.requires_python, p.poetry_python)));
        let d = make_dep("language", &to_chars("python"), &version, None);
        out.push(d);
        assert(dep_views(out@) == seq![dep_view(d)]);
        let mut i: usize = 0;
        while i < p.dependencies.len()
            invariant
                i <= p.dependencies@.len(),
                dep_views(out@) == seq![dep_view(d)] + pep_fold(p.dependencies@.take(i as int)),
            decreases p.dependencies@.len() - i,
        {
            assert(p.dependencies@.take(i + 1).drop_last() == p.dependencies@.take(i as int));
            assert(p.dependencies@.take(i + 1).last() == p.dependencies@[i as int]);
            let c = to_chars(p.dependencies[i].as_str());
            if let Some((n, sp)) = pep508(&c) {
                let ghost before = dep_views(out@);
                let e = make_dep("pypi", &n, &sp, None);
                out.push(e);
                assert(dep_views(out@) == before.push(dep_view(e)));
            }
            i = i + 1;
        }
        assert(p.dependencies@.take(p.dependencies@.len() as int) == p.dependencies@);
        let ghost mid = dep_views(out@);
        let mut k: usize = 0;
        while k < p.poetry.len()
            invariant
                k <= p.poetry@.len(),
                dep_views(out@) == mid + poetry_fold(p.poetry@.take(k as int)),
            decreases p.poetry@.len() - k,
        {
            assert(p.poetry@.take(k + 1).drop_last() == p.poetry@.take(k as int));
            assert(p.poetry@.take(k + 1).last() == p.poetry@[k as int]);
            let (name, spec) = &p.poetry[k];
            let nc = to_chars(name.as_str());
            if !eq_str(&nc, "python") {
                let sc = opt_chars(spec);
                let ghost before = dep_views(out@);
                let e = make_dep("pypi", &nc, &sc, None);
                out.push(e);
                assert(dep_views(out@) == before.push(dep_view(e)));
            }
            k = k + 1;
        }
        assert(p.poetry@.take(p.poetry@.len() as int) == p.poetry@);
    }
    if let Some(text) = requirements {
        let ghost a = dep_views(out@);
        let mut found = false;
        let mut j: usize = 0;
        while j < out.len()
            invariant
                j <= out@.len(),
                a == dep_views(out@),
                found == exists|k: int| 0 <= k < j && #[trigger] a[k].1 == "python"@,
            decreases out@.len() - j,
        {
            if eq_str(&to_chars(out[j].name.as_str()), "python") {
                assert(a[j as int].1 == "python"@);
                found = true;
            }
            j = j + 1;
        }
        if !found {
            let d = make_dep("language", &to_chars("python"), &Vec::new(), None);
            out.push(d);
            assert(dep_views(out@) == a.push(dep_view(d)));
        }
        let more = requirements_vec(text);
        append_deps(&mut out, more);
    }
    out
}

// ---------------------------------------------------------------------------
// npm and Cargo

/// What a `package.json` says about dependencies.
#[derive(Debug, Clone, Default)]
pub struct NpmManifest {
    /// `engines.node`, when it is a string.
    pub node: Option<String>,
    /// `dependencies`, then `devDependencies`: name and spec (when a string).
    pub dependencies: Vec<(String, Option<String>)>,
}

pub open spec fn npm_fold(ds: Seq<(String, Option<String>)>, resolved: Seq<Option<String>>) -> Seq<
    DepView,
>
    decreases ds.len(),
{
    if ds.len() == 0 {
        seq![]
    } else {
        let i = ds.len() - 1;
        npm_fold(ds.drop_last(), resolved).push(
            dep_spec("npm"@, ds[i].0@, or_empty(ds[i].1), opt_view(resolved[i])),
        )
    }
}

/// Node itself, then the npm dependencies, each with the version installed
/// under `node_modules` when known (`resolved`, one per dependency).
pub open spec fn npm_spec(m: NpmManifest, resolved: Seq<Option<String>>) -> Seq<DepView> {
    seq![dep_spec("language"@, "node"@, or_empty(m.node), None)] + npm_fold(
        m.dependencies@,
        resolved,
    )
}

/// Node itself, then the npm dependencies of a `package.json` (read into
/// `m`), with `resolved[i]` the installed version of the `i`th.
pub fn npm_dependencies(m: &NpmManifest, resolved: &Vec<Option<String>>) -> (r: Vec<Dependency>)
    requires
        resolved@.len() == m.dependencies@.len(),
    ensures
        dep_views(r@) == npm_spec(*m, resolved@),
{
    let mut out: Vec<Dependency> = Vec::new();
    let node = opt_chars(&m.node);
    let d = make_dep("language", &to_chars("node"), &node, None);
    out.push(d);
    assert(dep_views(out@) == seq![dep_view(d)]);
    let mut i: usize = 0;
    while i < m.dependencies.len()
        invariant
            i <= m.dependencies@.len(),
            resolved@.len() == m.dependencies@.len(),
            dep_views(out@) == seq![dep_view(d)] + npm_fold(
                m.dependencies@.take(i as int),
                resolved@,
            ),
        decreases m.dependencies@.len() - i,
    {
        assert(m.dependencies@.take(i + 1).drop_last() == m.dependencies@.take(i as int));
        assert(m.dependencies@.take(i + 1)[i as int] == m.dependencies@[i as int]);
        let (name, spec) = &m.dependencies[i];
        let sc = opt_chars(spec);
        let res = match &resolved[i] {
            Some(v) => Some(to_chars(v.as_str())),
            None => None,
        };
        let ghost before = dep_views(out@);
        let e = make_dep("npm", &to_chars(name.as_str()), &sc, res);
        out.push(e);
        assert(dep_views(out@) == before.push(dep_view(e)));
        i = i + 1;
    }
    assert(m.dependencies@.take(m.dependencies@.len() as int) == m.dependencies@);
    out
}

/// One entry of a Cargo dependency table.
#[derive(Debug, Clone, Default)]
pub struct CargoDep {
    /// The table key.
    pub key: String,
    /// Whether it is a local `path` dependency.
    pub is_path: bool,
    /// `package = "…"`, the real crate name, when renamed.
    pub package: Option<String>,
    /// The version: the entry itself when a string, else its `version`.
    pub version: Option<String>,
}

/// What a `Cargo.toml` says about dependencies.
#[derive(Debug, Clone, Default)]
pub struct CargoManifest {
    /// `package.rust-version`.
    pub rust_version: Option<String>,
    /// `workspace.package.rust-version`.
    pub workspace_rust_version: Option<String>,
    /// `workspace.members` patterns.
    pub members: Vec<String>,
    /// Entries of `dependencies`, `dev-dependencies`, `build-dependencies`,
    /// and `workspace.dependencies`, in that order.
    pub dependencies: Vec<CargoDep>,
}

/// The locked versions of crate `name`.
pub open spec fn locked_versions(lock: Seq<(String, String)>, name: Seq<char>) -> Seq<Seq<char>>
    decreases lock.len(),
{
    if lock.len() == 0 {
        seq![]
    } else {
        let rest = locked_versions(lock.drop_last(), name);
        if lock.last().0@ == name {
            rest.push(lock.last().1@)
        } else {
            rest
        }
    }
}

pub open spec fn cargo_fold(ds: Seq<CargoDep>, lock: Seq<(String, String)>) -> Seq<DepView>
    decreases ds.len(),
{
    if ds.len() == 0 {
        seq![]
    } else {
        let rest = cargo_fold(ds.drop_last(), lock);
        let d = ds.last();
        if d.is_path {
            rest
        } else {
            let name = match d.package {
                Some(p) => p@,
                None => d.key@,
            };
            let spec = or_empty(d.version);
            rest.push(
                dep_spec("cargo"@, name, spec, pick_locked_spec(locked_versions(lock, name), spec)),
            )
        }
    }
}

pub open spec fn members_fold(ms: Seq<CargoManifest>, lock: Seq<(String, String)>) -> Seq<DepView>
    decreases ms.len(),
{
    if ms.len() == 0 {
        seq![]
    } else {
        members_fold(ms.drop_last(), lock) + cargo_fold(ms.last().dependencies@, lock)
    }
}

/// Rust itself (the manifest's `rust-version`, else the toolchain's), then
/// the crates the root manifest and its workspace members depend on, local
/// path dependencies left out, each with its locked version when known.
pub open spec fn cargo_spec(
    root: CargoManifest,
    members: Seq<CargoManifest>,
    toolchain: Option<String>,
    lock: Seq<(String, String)>,
) -> Seq<DepView> {
    seq![
        dep_spec(
            "language"@,
            "rust"@,
            or_empty(or_else(root.rust_version, or_else(root.workspace_rust_version, toolchain))),
            None,
        ),
    ] + cargo_fold(root.dependencies@, lock) + members_fold(members, lock)
}

fn locked_versions_vec(lock: &Vec<(String, String)>, name: &[char]) -> (r: Vec<String>)
    ensures
        strs(r@) == locked_versions(lock@, name@),
{
    let mut out: Vec<String> = Vec::new();
    let mut i: usize = 0;
    while i < lock.len()
        invariant
            i <= lock@.len(),
            strs(out@) == locked_versions(lock@.take(i as int), name@),
        decreases lock@.len() - i,
    {
        assert(lock@.take(i + 1).drop_last() == lock@.take(i as int));
        assert(lock@.take(i + 1).last() == lock@[i as int]);
        if eq_chars(&to_chars(lock[i].0.as_str()), name) {
            let ghost before = strs(out@);
            out.push(copy_string(&lock[i].1));
            assert(strs(out@) == before.push(lock@[i as int].1@));
        }
        i = i + 1;
    }
    assert(lock@.take(lock@.len() as int) == lock@);
    out
}

fn cargo_table(out: &mut Vec<Dependency>, ds: &Vec<CargoDep>, lock: &Vec<(String, String)>)
    ensures
        dep_views(final(out)@) == dep_views(old(out)@) + cargo_fold(ds@, lock@),
{
    let ghost start = dep_views(out@);
    let mut i: usize = 0;
    while i < ds.len()
        invariant
            i <= ds@.len(),
            dep_views(out@) == start + cargo_fold(ds@.take(i as int), lock@),
        decreases ds@.len() - i,
    {
        assert(ds@.take(i + 1).drop_last() == ds@.take(i as int));
        assert(ds@.take(i + 1).last() == ds@[i as int]);
        let d = &ds[i];
        if !d.is_path {
            let name = match &d.package {
                Some(p) => to_chars(p.as_str()),
                None => to_chars(d.key.as_str()),
            };
            let spec = opt_chars(&d.version);
            let locked = locked_versions_vec(lock, &name);
            let sp = from_chars(&spec);
            let res = match pick_locked(&locked, sp.as_str()) {
                Some(v) => Some(to_chars(v.as_str())),
                None => None,
            };
            let ghost before = dep_views(out@);
            let e = make_dep("cargo", &name, &spec, res);
            out.push(e);
            assert(dep_views(out@) == before.push(dep_view(e)));
        }
        i = i + 1;
    }
    assert(ds@.take(ds@.len() as int) == ds@);
}

/// Rust itself, then the crates of a workspace (see `cargo_spec`); `lock`
/// holds the `(name, version)` packages of `Cargo.lock`.
pub fn cargo_dependencies(
    root: &CargoManifest,
    members: &Vec<CargoManifest>,
    toolchain: Option<String>,
    lock: &Vec<(String, String)>,
) -> (r: Vec<Dependency>)
    ensures
        dep_views(r@) == cargo_spec(*root, members@, toolchain, lock@),
{
    let mut out: Vec<Dependency> = Vec::new();
    let version = match &root.rust_version {
        Some(v) => to_chars(v.as_str()),
        None => match &root.workspace_rust_version {
            Some(v) => to_chars(v.as_str()),
            None => opt_chars(&toolchain),
        },
    };
    let d = make_dep("language", &to_chars("rust"), &version, None);
    out.push(d);
    assert(dep_views(out@) == seq![dep_view(d)]);
    cargo_table(&mut out, &root.dependencies, lock);
    let ghost mid = dep_views(out@);
    let mut i: usize = 0;
    while i < members.len()
        invariant
            i <= members@.len(),
            dep_views(out@) == mid + members_fold(members@.take(i as int), lock@),
        decreases members@.len() - i,
    {
        assert(members@.take(i + 1).drop_last() == members@.take(i as int));
        assert(members@.take(i + 1).last() == members@[i as int]);
        cargo_table(&mut out, &members[i].dependencies, lock);
        i = i + 1;
    }
    assert(members@.take(members@.len() as int) == members@);
    out
}

/// The Rust version a toolchain file pins: its `toolchain.channel` (when
/// the file is TOML with one), else the file's trimmed text, as long as it
/// holds a version number.
pub open spec fn toolchain_spec(text: Seq<char>, channel: Option<String>) -> Option<Seq<char>> {
    let c = match channel {
        Some(ch) => ch@,
        None => trim(text),
    };
    if parse_version_spec(c) is Some {
        Some(c)
    } else {
        None
    }
}

/// The Rust version a `rust-toolchain(.toml)` file pins (see `toolchain_spec`).
pub fn toolchain_version(text: &str, channel: Option<String>) -> (r: Option<String>)
    ensures
        opt_view(r) == toolchain_spec(text@, channel),
{
    let c = match &channel {
        Some(ch) => to_chars(ch.as_str()),
        None => trim_vec(&to_chars(text)),
    };
    if parse_version_chars(&c).is_some() {
        Some(from_chars(&c))
    } else {
        None
    }
}

// ---------------------------------------------------------------------------
// Dedup

/// Whether `ds` has a dependency with this ecosystem and name.
pub open spec fn has_key(ds: Seq<DepView>, eco: Seq<char>, name: Seq<char>) -> bool {
    exists|i: int| 0 <= i < ds.len() && #[trigger] ds[i].0 == eco && ds[i].1 == name
}

/// The first dependency of each (ecosystem, name), in order.
pub open spec fn dedup_spec(ds: Seq<DepView>) -> Seq<DepView>
    decreases ds.len(),
{
    if ds.len() == 0 {
        seq![]
    } else {
        let rest = dedup_spec(ds.drop_last());
        if has_key(rest, ds.last().0, ds.last().1) {
            rest
        } else {
            rest.push(ds.last())
        }
    }
}

/// The first dependency of each (ecosystem, name), in order: one broken or
/// repeated manifest entry doesn't list a dependency twice.
pub fn dedup_dependencies(deps: Vec<Dependency>) -> (r: Vec<Dependency>)
    ensures
        dep_views(r@) == dedup_spec(dep_views(deps@)),
{
    let mut out: Vec<Dependency> = Vec::new();
    let mut i: usize = 0;
    while i < deps.len()
        invariant
            i <= deps@.len(),
            dep_views(out@) == dedup_spec(dep_views(deps@).take(i as int)),
        decreases deps@.len() - i,
    {
        let d = &deps[i];
        assert(dep_views(deps@).take(i + 1).drop_last() == dep_views(deps@).take(i as int));
        assert(dep_views(deps@).take(i + 1).last() == dep_view(*d));
        let eco = to_chars(d.ecosystem.as_str());
        let name = to_chars(d.name.as_str());
        let ghost ov = dep_views(out@);
        let mut seen = false;
        let mut j: usize = 0;
        while j < out.len()
            invariant
                j <= out@.len(),
                ov == dep_views(out@),
                eco@ == d.ecosystem@,
                name@ == d.name@,
                seen == exists|k: int| 0 <= k < j && #[trigger] ov[k].0 == eco@ && ov[k].1 == name@,
            decreases out@.len() - j,
        {
            if eq_chars(&to_chars(out[j].ecosystem.as_str()), &eco) && eq_chars(
                &to_chars(out[j].name.as_str()),
                &name,
            ) {
                assert(ov[j as int].0 == eco@ && ov[j as int].1 == name@);
                seen = true;
            }
            j = j + 1;
        }
        if !seen {
            let e = copy_dependency(d);
            out.push(e);
            assert(dep_views(out@) == ov.push(dep_view(*d)));
        }
        i = i + 1;
    }
    assert(dep_views(deps@).take(deps@.len() as int) == dep_views(deps@));
    out
}

// ---------------------------------------------------------------------------
// Finding a project's dependencies

/// The manifests that mark a project's root.
pub open spec fn manifest_names() -> Seq<Seq<char>> {
    seq!["package.json"@, "Cargo.toml"@, "go.mod"@, "pyproject.toml"@, "requirements.txt"@]
}

/// Dependencies read from a project's manifests, one list per kind; `None`
/// for a manifest that is missing or could not be read (manifests are read
/// best-effort: one broken file shouldn't hide the rest).
pub struct Manifests {
    pub npm: Option<Vec<Dependency>>,
    pub cargo: Option<Vec<Dependency>>,
    pub go: Option<Vec<Dependency>>,
    pub python: Option<Vec<Dependency>>,
}

pub open spec fn listed(o: Option<Vec<Dependency>>) -> Seq<DepView> {
    match o {
        Some(v) => dep_views(v@),
        None => seq![],
    }
}

/// Everything the manifests list: npm, then Cargo, Go and Python.
pub open spec fn found_views(m: Manifests) -> Seq<DepView> {
    listed(m.npm) + listed(m.cargo) + listed(m.go) + listed(m.python)
}

fn append_listed(out: &mut Vec<Dependency>, o: Option<Vec<Dependency>>)
    ensures
        dep_views(final(out)@) == dep_views(old(out)@) + listed(o),
{
    match o {
        Some(v) => {
            let mut v = v;
            let ghost a = old(out)@;
            let ghost b = v@;
            out.append(&mut v);
            assert(dep_views(a + b) =~= dep_views(a) + dep_views(b));
        },
        None => {
            assert(dep_views(old(out)@) + Seq::<DepView>::empty() =~= dep_views(old(out)@));
        },
    }
}

/// A project's dependencies: what its manifests list, the first of each
/// (ecosystem, name) only.
pub fn find_dependencies(found: Manifests) -> (r: Vec<Dependency>)
    ensures
        dep_views(r@) == dedup_spec(found_views(found)),
{
    let ghost fv = found_views(found);
    let mut all: Vec<Dependency> = Vec::new();
    assert(dep_views(all@) =~= Seq::<DepView>::empty());
    append_listed(&mut all, found.npm);
    append_listed(&mut all, found.cargo);
    append_listed(&mut all, found.go);
    append_listed(&mut all, found.python);
    assert(dep_views(all@) =~= fv);
    dedup_dependencies(all)
}

/// How many leading components name the folder a project is looked for
/// from: all of them, or all but the last for a file (`/` is a folder).
pub open spec fn start_len(cs: Seq<Seq<char>>, path_is_file: bool) -> int {
    if cs.len() > 0 && path_is_file && cs.last() != seq!['/'] {
        cs.len() - 1
    } else {
        cs.len() as int
    }
}

/// The search goes up to `/` for an absolute path, else to the empty path.
pub open spec fn stop_len(cs: Seq<Seq<char>>) -> int {
    if cs.len() > 0 && cs[0] == seq!['/'] {
        1
    } else {
        0
    }
}

/// The folders searched for a manifest, nearest first: the starting folder,
/// then each of its ancestors.
pub open spec fn search_dirs(cs: Seq<Seq<char>>, path_is_file: bool) -> Seq<Seq<char>> {
    let a = start_len(cs, path_is_file);
    let b = stop_len(cs);
    Seq::new(
        if a >= b {
            (a - b + 1) as nat
        } else {
            0
        },
        |i: int| path_of(cs.take(a - i)),
    )
}

/// The manifest files looked for in folder `d`, in order.
pub open spec fn manifest_paths(d: Seq<char>) -> Seq<Seq<char>> {
    manifest_names().map_values(|m: Seq<char>| crate::paths::join_path(d, m))
}

/// The first of `dirs` that `found` marks as holding a manifest.
pub open spec fn first_root_spec(dirs: Seq<Seq<char>>, found: Seq<bool>) -> Option<Seq<char>>
    decreases dirs.len(),
{
    if dirs.len() == 0 || found.len() == 0 {
        None
    } else if found[0] {
        Some(dirs[0])
    } else {
        first_root_spec(dirs.drop_first(), found.drop_first())
    }
}

proof fn lemma_first_root_in(dirs: Seq<Seq<char>>, found: Seq<bool>)
    ensures
        first_root_spec(dirs, found) matches Some(x) ==> exists|i: int|
            0 <= i < dirs.len() && dirs[i] == x,
    decreases dirs.len(),
{
    if dirs.len() > 0 && found.len() > 0 && !found[0] {
        lemma_first_root_in(dirs.drop_first(), found.drop_first());
        if first_root_spec(dirs, found) is Some {
            let x = first_root_spec(dirs, found)->Some_0;
            let i = choose|i: int| 0 <= i < dirs.drop_first().len() && dirs.drop_first()[i] == x;
            assert(dirs[i + 1] == x);
        }
    } else if dirs.len() > 0 && found.len() > 0 {
        assert(dirs[0] == dirs[0]);
    }
}

/// The folders searched for the project that holds `path` (see
/// `search_dirs`), given whether `path` is a file.
pub fn root_search_dirs(path: &str, path_is_file: bool) -> (r: Vec<String>)
    ensures
        strs(r@) == search_dirs(components(path@), path_is_file),
{
    let cs = components_vec(to_chars(path).as_slice());
    let ghost c = components(path@);
    let n = cs.len();
    let last_is_root = n > 0 && cs[n - 1].len() == 1 && cs[n - 1][0] == '/';
    let first_is_root = n > 0 && cs[0].len() == 1 && cs[0][0] == '/';
    proof {
        if n > 0 {
            assert(c.last() == cs@[n - 1]@);
            assert(c[0] == cs@[0]@);
            assert(last_is_root == (c.last() == seq!['/'])) by {
                if c.last() == seq!['/'] {
                    assert(c.last().len() == 1 && c.last()[0] == '/');
                }
                if last_is_root {
                    assert(c.last() =~= seq!['/']);
                }
            }
            assert(first_is_root == (c[0] == seq!['/'])) by {
                if c[0] == seq!['/'] {
                    assert(c[0].len() == 1 && c[0][0] == '/');
                }
                if first_is_root {
                    assert(c[0] =~= seq!['/']);
                }
            }
        }
    }
    let a: usize = if n > 0 && path_is_file && !last_is_root {
        n - 1
    } else {
        n
    };
    let b: usize = if first_is_root {
        1
    } else {
        0
    };
    assert(a == start_len(c, path_is_file));
    assert(b == stop_len(c));
    let mut out: Vec<String> = Vec::new();
    if a >= b {
        let d = from_chars(&path_of_vec(&cs, a));
        out.push(d);
        assert(strs(out@) =~= Seq::new(1, |j: int| path_of(c.take(a - j))));
        let mut k: usize = a;
        while k > b
            invariant
                b <= k <= a <= n == cs@.len(),
                seqs(cs@) == c,
                strs(out@) == Seq::new((a - k + 1) as nat, |j: int| path_of(c.take(a - j))),
            decreases k,
        {
            k = k - 1;
            let d = from_chars(&path_of_vec(&cs, k));
            let ghost before = strs(out@);
            out.push(d);
            assert(strs(out@) == before.push(d@));
            assert(strs(out@) =~= Seq::new((a - k + 1) as nat, |j: int| path_of(c.take(a - j))));
        }
    }
    assert(strs(out@) =~= search_dirs(c, path_is_file));
    out
}

/// The manifest files looked for in folder `dir` (see `manifest_paths`).
pub fn manifest_files(dir: &str) -> (r: Vec<String>)
    ensures
        strs(r@) == manifest_paths(dir@),
{
    let d = to_chars(dir);
    let mut out: Vec<String> = Vec::new();
    out.push(from_chars(&join_path_vec(d.as_slice(), to_chars("package.json").as_slice())));
    out.push(from_chars(&join_path_vec(d.as_slice(), to_chars("Cargo.toml").as_slice())));
    out.push(from_chars(&join_path_vec(d.as_slice(), to_chars("go.mod").as_slice())));
    out.push(from_chars(&join_path_vec(d.as_slice(), to_chars("pyproject.toml").as_slice())));
    out.push(from_chars(&join_path_vec(d.as_slice(), to_chars("requirements.txt").as_slice())));
    assert(strs(out@) =~= manifest_paths(dir@));
    out
}

/// The first of `dirs` that `found` marks as holding a manifest (see
/// `first_root_spec`).
pub fn first_root(dirs: &Vec<String>, found: &Vec<bool>) -> (r: Option<String>)
    ensures
        opt_view(r) == first_root_spec(strs(dirs@), found@),
{
    let mut i: usize = 0;
    assert(strs(dirs@).skip(0) == strs(dirs@));
    assert(found@.skip(0) == found@);
    while i < dirs.len() && i < found.len()
        invariant
            i <= dirs@.len(),
            i <= found@.len(),
            first_root_spec(strs(dirs@), found@) == first_root_spec(
                strs(dirs@).skip(i as int),
                found@.skip(i as int),
            ),
        decreases dirs@.len() - i,
    {
        let ghost ds = strs(dirs@).skip(i as int);
        let ghost fs = found@.skip(i as int);
        assert(ds[0] == dirs@[i as int]@);
        assert(fs[0] == found@[i as int]);
        if found[i] {
            return Some(dirs[i].clone());
        }
        assert(ds.drop_first() == strs(dirs@).skip(i + 1));
        assert(fs.drop_first() == found@.skip(i + 1));
        i = i + 1;
    }
    None
}

/// The directory a project is found from: the folder itself, or the folder
/// of a file. Then up its ancestors to the first with a manifest. Whether
/// `path` is a file, and which manifests exist, is the disk's to say.
pub fn project_root(path: &str) -> (r: Option<String>)
    ensures
        exists|path_is_file: bool, found: Seq<bool>|
            opt_view(r) == first_root_spec(search_dirs(components(path@), path_is_file), found),
        match r {
            Some(root) => exists|k: int|
                0 <= k <= components(path@).len() && root@ == path_of(components(path@).take(k)),
            None => true,
        },
{
    let path_is_file = is_file(path);
    let dirs = root_search_dirs(path, path_is_file);
    let mut found: Vec<bool> = Vec::new();
    let mut i: usize = 0;
    while i < dirs.len()
        invariant
            i <= dirs@.len(),
        decreases dirs@.len() - i,
    {
        let files = manifest_files(dirs[i].as_str());
        let mut present = false;
        let mut m: usize = 0;
        while m < files.len() && !present
            invariant
                m <= files@.len(),
            decreases files@.len() - m,
        {
            present = is_file(files[m].as_str());
            m = m + 1;
        }
        found.push(present);
        if present {
            break;
        }
        i = i + 1;
    }
    let r = first_root(&dirs, &found);
    proof {
        let c = components(path@);
        let sd = search_dirs(c, path_is_file);
        lemma_first_root_in(sd, found@);
        if r is Some {
            let i = choose|i: int| 0 <= i < sd.len() && sd[i] == r->Some_0@;
            let a = start_len(c, path_is_file);
            assert(sd[i] == path_of(c.take(a - i)));
            assert(0 <= a - i <= c.len());
        }
    }
    r
}

// ---------------------------------------------------------------------------
// Laws

/// A project report accounts for every dependency exactly once: it is
/// covered when some installed docset matches it, and uncovered otherwise.
pub proof fn lemma_report_partitions_dependencies(deps: Seq<Dependency>, installed: Seq<Docset>)
    ensures
        covered_spec(deps, installed).len() + uncovered_spec(deps, installed).len() == deps.len(),
        forall|i: int|
            0 <= i < covered_spec(deps, installed).len() ==> matches_for(
                #[trigger] covered_spec(deps, installed)[i].0,
                installed,
            ).len() > 0,
        forall|i: int|
            0 <= i < uncovered_spec(deps, installed).len() ==> matches_for(
                #[trigger] uncovered_spec(deps, installed)[i],
                installed,
            ).len() == 0,
    decreases deps.len(),
{
    if deps.len() > 0 {
        lemma_report_partitions_dependencies(deps.drop_last(), installed);
    }
}

/// `suggest` gives one suggestion per dependency that needs docs and has a
/// catalog candidate, in the order of those dependencies, each naming its
/// dependency.
pub proof fn lemma_one_suggestion_per_needy_dependency(
    deps: Seq<Dependency>,
    catalog: Seq<CatalogEntry>,
)
    ensures
        suggestions_for(deps, catalog).map_values(|s: (Seq<char>, Seq<char>, Seq<char>)| s.0)
            == deps.filter(
            |d: Dependency| candidates(dependency_keys_spec(d), catalog).len() > 0,
        ).map_values(|d: Dependency| d.name@),
    decreases deps.len(),
{
    reveal(Seq::filter);
    if deps.len() > 0 {
        lemma_one_suggestion_per_needy_dependency(deps.drop_last(), catalog);
        let d = deps.last();
        let rest = suggestions_for(deps.drop_last(), catalog);
        let f = deps.drop_last().filter(
            |d: Dependency| candidates(dependency_keys_spec(d), catalog).len() > 0,
        );
        if candidates(dependency_keys_spec(d), catalog).len() > 0 {
            let sg = suggestion_for(d, catalog)->Some_0;
            assert(sg.0 == d.name@);
            assert(rest.push(sg).map_values(|s: (Seq<char>, Seq<char>, Seq<char>)| s.0)
                =~= rest.map_values(|s: (Seq<char>, Seq<char>, Seq<char>)| s.0).push(d.name@));
            assert(f.push(d).map_values(|d: Dependency| d.name@) =~= f.map_values(
                |d: Dependency| d.name@,
            ).push(d.name@));
        }
    }
}

/// Every docset installed for this covered dependency is another version
/// than the one the project uses.
pub open spec fn only_other_versions(c: DepReport) -> bool {
    forall|k: int| 0 <= k < c.installed@.len() ==> (#[trigger] c.installed@[k]).matches == Some(
        false,
    )
}

proof fn lemma_needing_filters(cov: Seq<DepReport>)
    ensures
        needing(report_views(cov)) == cov.filter(|c: DepReport| only_other_versions(c)).map_values(
            |c: DepReport| c.dependency,
        ),
    decreases cov.len(),
{
    reveal(Seq::filter);
    if cov.len() > 0 {
        lemma_needing_filters(cov.drop_last());
        let c = cov.last();
        let rv = report_views(cov);
        assert(rv.drop_last() == report_views(cov.drop_last()));
        assert(rv.last() == (c.dependency, match_views(c.installed@)));
        let ms = match_views(c.installed@);
        assert(all_other_versions(ms) == only_other_versions(c)) by {
            if all_other_versions(ms) {
                assert forall|k: int| 0 <= k < c.installed@.len() implies (
                #[trigger] c.installed@[k]).matches == Some(false) by {
                    assert(ms[k].2 == Some(false));
                }
            }
            if only_other_versions(c) {
                assert forall|i: int| 0 <= i < ms.len() implies #[trigger] ms[i].2 == Some(false) by {
                    assert(c.installed@[i].matches == Some(false));
                }
            }
        }
        let f = cov.drop_last().filter(|c: DepReport| only_other_versions(c));
        assert(f.push(c).map_values(|c: DepReport| c.dependency) =~= f.map_values(
            |c: DepReport| c.dependency,
        ).push(c.dependency));
    }
}

/// `suggest` names, in order, each covered dependency whose installed
/// docsets are all other versions, then each uncovered dependency, and of
/// these exactly the ones for which the catalog has a candidate, one
/// suggestion each.
pub proof fn lemma_suggestions_name_needy_dependencies(
    report: ProjectReport,
    catalog: Seq<CatalogEntry>,
)
    ensures
        suggest_spec(report, catalog).map_values(|s: (Seq<char>, Seq<char>, Seq<char>)| s.0) == (
        report.covered@.filter(|c: DepReport| only_other_versions(c)).map_values(
            |c: DepReport| c.dependency,
        ) + report.uncovered@).filter(
            |d: Dependency| candidates(dependency_keys_spec(d), catalog).len() > 0,
        ).map_values(|d: Dependency| d.name@),
{
    lemma_needing_filters(report.covered@);
    lemma_one_suggestion_per_needy_dependency(needs_docs(report), catalog);
}

/// A project report keeps the dependencies' order: the uncovered ones are
/// exactly the dependencies without an installed docset, in order, and the
/// covered ones exactly those with one, in order.
pub proof fn lemma_report_keeps_order(deps: Seq<Dependency>, installed: Seq<Docset>)
    ensures
        uncovered_spec(deps, installed) == deps.filter(
            |d: Dependency| matches_for(d, installed).len() == 0,
        ),
        covered_spec(deps, installed).map_values(|p: (Dependency, Seq<MatchView>)| p.0)
            == deps.filter(|d: Dependency| matches_for(d, installed).len() > 0),
    decreases deps.len(),
{
    reveal(Seq::filter);
    if deps.len() > 0 {
        lemma_report_keeps_order(deps.drop_last(), installed);
        let rest = covered_spec(deps.drop_last(), installed);
        let ms = matches_for(deps.last(), installed);
        if ms.len() > 0 {
            assert(rest.push((deps.last(), ranked(ms))).map_values(
                |p: (Dependency, Seq<MatchView>)| p.0,
            ) =~= rest.map_values(|p: (Dependency, Seq<MatchView>)| p.0).push(deps.last()));
        }
    }
}

/// Searches skip exactly the other versions of dependencies that have a
/// matching version installed: a docset is excluded if and only if it is a
/// non-matching match of such a dependency.
pub proof fn lemma_excluded_are_other_versions(covered: Seq<(Dependency, Seq<MatchView>)>)
    ensures
        forall|x: Seq<char>|
            #[trigger] excluded_spec(covered).contains(x) ==> exists|i: int|
                0 <= i < covered.len() && has_version_match(covered[i].1) && #[trigger] other_version_ids(
                    covered[i].1,
                ).contains(x),
        forall|x: Seq<char>, i: int|
            0 <= i < covered.len() && has_version_match(covered[i].1) && #[trigger] other_version_ids(
                covered[i].1,
            ).contains(x) ==> #[trigger] excluded_spec(covered).contains(x),
    decreases covered.len(),
{
    if covered.len() > 0 {
        let rest = covered.drop_last();
        lemma_excluded_are_other_versions(rest);
        let ms = covered.last().1;
        assert forall|x: Seq<char>| #[trigger] excluded_spec(covered).contains(x) implies exists|i: int|
            0 <= i < covered.len() && has_version_match(covered[i].1) && #[trigger] other_version_ids(
                covered[i].1,
            ).contains(x) by {
            if excluded_spec(rest).contains(x) {
                let i = choose|i: int|
                    0 <= i < rest.len() && has_version_match(rest[i].1) && #[trigger] other_version_ids(
                        rest[i].1,
                    ).contains(x);
                assert(covered[i] == rest[i]);
            } else {
                let k = choose|k: int| 0 <= k < excluded_spec(covered).len() && excluded_spec(covered)[k] == x;
                if !has_version_match(ms) {
                    assert(excluded_spec(covered) == excluded_spec(rest));
                }
                assert(has_version_match(ms));
                assert(excluded_spec(covered) == excluded_spec(rest) + other_version_ids(ms));
                assert(other_version_ids(ms)[k - excluded_spec(rest).len()] == x);
                assert(covered[covered.len() - 1] == covered.last());
                assert(other_version_ids(covered[covered.len() - 1].1).contains(x));
                assert(has_version_match(covered[covered.len() - 1].1));
            }
        }
        assert forall|x: Seq<char>, i: int|
            0 <= i < covered.len() && has_version_match(covered[i].1) && #[trigger] other_version_ids(
                covered[i].1,
            ).contains(x) implies #[trigger] excluded_spec(covered).contains(x) by {
            if i < covered.len() - 1 {
                assert(rest[i] == covered[i]);
                assert(excluded_spec(rest).contains(x));
                let k = choose|k: int| 0 <= k < excluded_spec(rest).len() && excluded_spec(rest)[k] == x;
                if has_version_match(ms) {
                    assert(excluded_spec(covered) == excluded_spec(rest) + other_version_ids(ms));
                    assert(excluded_spec(covered)[k] == x);
                } else {
                    assert(excluded_spec(covered) == excluded_spec(rest));
                }
            } else {
                assert(covered[i] == covered.last());
                assert(excluded_spec(covered) == excluded_spec(rest) + other_version_ids(ms));
                let k = choose|k: int| 0 <= k < other_version_ids(ms).len() && other_version_ids(ms)[k] == x;
                assert(excluded_spec(covered)[excluded_spec(rest).len() + k] == x);
            }
        }
    }
}

/// After dedup each (ecosystem, name) appears once, every one of the input
/// still appears, and what is kept came from the input.
pub proof fn lemma_dedup_keeps_one_of_each(ds: Seq<DepView>)
    ensures
        forall|i: int, j: int|
            0 <= i < j < dedup_spec(ds).len() ==> !(#[trigger] dedup_spec(ds)[i].0 == #[trigger] dedup_spec(ds)[j].0
                && dedup_spec(ds)[i].1 == dedup_spec(ds)[j].1),
        forall|i: int| 0 <= i < ds.len() ==> has_key(dedup_spec(ds), #[trigger] ds[i].0, ds[i].1),
        forall|i: int| 0 <= i < dedup_spec(ds).len() ==> ds.contains(#[trigger] dedup_spec(ds)[i]),
    decreases ds.len(),
{
    if ds.len() > 0 {
        let rest = ds.drop_last();
        lemma_dedup_keeps_one_of_each(rest);
        let r = dedup_spec(rest);
        let d = ds.last();
        if has_key(r, d.0, d.1) {
            assert forall|i: int| 0 <= i < ds.len() implies has_key(dedup_spec(ds), #[trigger] ds[i].0, ds[i].1) by {
                if i < rest.len() {
                    assert(ds[i] == rest[i]);
                }
            }
            assert forall|i: int| 0 <= i < dedup_spec(ds).len() implies ds.contains(#[trigger] dedup_spec(ds)[i]) by {
                assert(rest.contains(r[i]));
                let k = choose|k: int| 0 <= k < rest.len() && rest[k] == r[i];
                assert(ds[k] == rest[k]);
            }
        } else {
            let n = r.push(d);
            assert(dedup_spec(ds) == n);
            assert forall|i: int, j: int| 0 <= i < j < n.len() implies !(#[trigger] n[i].0 == #[trigger] n[j].0
                && n[i].1 == n[j].1) by {
                if j == n.len() - 1 {
                    if n[i].0 == n[j].0 && n[i].1 == n[j].1 {
                        assert(r[i].0 == d.0 && r[i].1 == d.1);
                    }
                }
            }
            assert forall|i: int| 0 <= i < ds.len() implies has_key(n, #[trigger] ds[i].0, ds[i].1) by {
                if i < rest.len() {
                    assert(ds[i] == rest[i]);
                    let k = choose|k: int| 0 <= k < r.len() && #[trigger] r[k].0 == rest[i].0 && r[k].1 == rest[i].1;
                    assert(n[k] == r[k]);
                } else {
                    assert(n[n.len() - 1] == d);
                }
            }
            assert forall|i: int| 0 <= i < n.len() implies ds.contains(#[trigger] n[i]) by {
                if i < r.len() {
                    assert(rest.contains(r[i]));
                    let k = choose|k: int| 0 <= k < rest.len() && rest[k] == r[i];
                    assert(ds[k] == rest[k]);
                } else {
                    assert(ds[ds.len() - 1] == d);
                }
            }
        }
    }
}

} // verus!
