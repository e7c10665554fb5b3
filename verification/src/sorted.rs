//! Strings kept in sorted order without repeats (the order of `str`'s `Ord`,
//! which for UTF-8 is the order of code points).

use vstd::prelude::*;
use crate::project::{chars_less, chars_lt, lemma_chars_lt_irreflexive, lemma_chars_lt_total, lemma_chars_lt_trans};
use crate::text::{eq_chars, strs, to_chars};

verus! {

/// Each text comes before every later one.
pub open spec fn sorted_strict(s: Seq<Seq<char>>) -> bool {
    forall|i: int, j: int| 0 <= i < j < s.len() ==> chars_lt(#[trigger] s[i], #[trigger] s[j])
}

/// Where `x` goes in the sorted `s`: after exactly those that come before it.
pub fn sorted_position(v: &Vec<String>, x: &str) -> (r: usize)
    requires
        sorted_strict(strs(v@)),
    ensures
        r <= v@.len(),
        forall|j: int| 0 <= j < r ==> chars_lt(#[trigger] v@[j]@, x@),
        forall|j: int| r <= j < v@.len() ==> !chars_lt(#[trigger] v@[j]@, x@),
{
    let xs = to_chars(x);
    let mut i: usize = 0;
    while i < v.len() && chars_less(to_chars(v[i].as_str()).as_slice(), xs.as_slice())
        invariant
            i <= v@.len(),
            xs@ == x@,
            sorted_strict(strs(v@)),
            forall|j: int| 0 <= j < i ==> chars_lt(#[trigger] v@[j]@, x@),
        decreases v@.len() - i,
    {
        i = i + 1;
    }
    proof {
        if i < v@.len() {
            assert forall|j: int| i <= j < v@.len() implies !chars_lt(#[trigger] v@[j]@, x@) by {
                if j > i {
                    assert(chars_lt(strs(v@)[i as int], strs(v@)[j]));
                    if chars_lt(v@[j]@, x@) {
                        lemma_chars_lt_trans(v@[i as int]@, v@[j]@, x@);
                    }
                }
            }
        }
    }
    i
}

/// Adds `x` to the sorted `v` unless it is there already.
pub fn insert_sorted(v: &mut Vec<String>, x: String)
    requires
        sorted_strict(strs(old(v)@)),
    ensures
        sorted_strict(strs(final(v)@)),
        forall|y: Seq<char>| #[trigger] strs(final(v)@).contains(y) <==> (strs(old(v)@).contains(y) || y == x@),
{
    let i = sorted_position(v, x.as_str());
    let ghost old_s = strs(v@);
    if i < v.len() && eq_chars(to_chars(v[i].as_str()).as_slice(), to_chars(x.as_str()).as_slice()) {
        assert(old_s.contains(x@)) by {
            assert(old_s[i as int] == x@);
        }
        return;
    }
    proof {
        if i < v@.len() {
            lemma_chars_lt_total(v@[i as int]@, x@);
        }
    }
    let ghost xv = x@;
    v.insert(i, x);
    let ghost new_s = strs(v@);
    assert(new_s == old_s.insert(i as int, xv));
    assert forall|a: int, b: int| 0 <= a < b < new_s.len() implies chars_lt(
        #[trigger] new_s[a],
        #[trigger] new_s[b],
    ) by {
        if b < i {
            assert(chars_lt(old_s[a], old_s[b]));
        } else if b == i {
            assert(chars_lt(old(v)@[a]@, xv));
        } else if a < i {
            assert(chars_lt(old(v)@[a]@, xv));
            assert(new_s[b] == old_s[b - 1]);
            assert(!chars_lt(old(v)@[b - 1]@, xv));
            if old_s[b - 1] == xv {
            } else {
                lemma_chars_lt_total(old_s[b - 1], xv);
            }
            if b - 1 > i {
                assert(chars_lt(old_s[i as int], old_s[b - 1]));
            }
            lemma_chars_lt_total(old_s[i as int], xv);
            if b - 1 == i {
                lemma_chars_lt_trans(old_s[a], xv, old_s[b - 1]);
            } else {
                lemma_chars_lt_trans(xv, old_s[i as int], old_s[b - 1]);
                lemma_chars_lt_trans(old_s[a], xv, old_s[b - 1]);
            }
        } else if a == i {
            assert(new_s[b] == old_s[b - 1]);
            lemma_chars_lt_total(old_s[i as int], xv);
            if b - 1 > i {
                assert(chars_lt(old_s[i as int], old_s[b - 1]));
                lemma_chars_lt_trans(xv, old_s[i as int], old_s[b - 1]);
            }
        } else {
            assert(chars_lt(old_s[a - 1], old_s[b - 1]));
        }
    }
    assert forall|y: Seq<char>| #[trigger] new_s.contains(y) <==> (old_s.contains(y) || y == xv) by {
        if new_s.contains(y) {
            let k = choose|k: int| 0 <= k < new_s.len() && new_s[k] == y;
            if k < i {
                assert(old_s[k] == y);
            } else if k > i {
                assert(old_s[k - 1] == y);
            }
        }
        if old_s.contains(y) {
            let k = choose|k: int| 0 <= k < old_s.len() && old_s[k] == y;
            if k < i {
                assert(new_s[k] == y);
            } else {
                assert(new_s[k + 1] == y);
            }
        }
        if y == xv {
            assert(new_s[i as int] == y);
        }
    }
}

} // verus!
