//! Prefix, suffix and substring helpers on character sequences.

use vstd::prelude::*;

use crate::text::{chars_eq, chars_of, ends_with_chars, slice_chars, starts_with_chars};

verus! {

pub open spec fn has_prefix(s: Seq<char>, p: Seq<char>) -> bool {
    p.len() <= s.len() && s.take(p.len() as int) == p
}

pub open spec fn has_suffix(s: Seq<char>, p: Seq<char>) -> bool {
    p.len() <= s.len() && s.skip(s.len() - p.len()) == p
}

/// `s` without its last `n` characters.
pub open spec fn drop_end(s: Seq<char>, n: int) -> Seq<char> {
    s.take(s.len() - n)
}

/// `p` occurs in `s` at `i`.
pub open spec fn sub_at(s: Seq<char>, p: Seq<char>, i: int) -> bool {
    0 <= i && i + p.len() <= s.len() && s.subrange(i, i + p.len()) == p
}

/// First position at or after `i` where `p` occurs in `s`, or -1.
pub open spec fn first_occ_from(s: Seq<char>, p: Seq<char>, i: int) -> int
    decreases s.len() + 1 - i,
{
    if i < 0 || i + p.len() > s.len() {
        -1
    } else if sub_at(s, p, i) {
        i
    } else {
        first_occ_from(s, p, i + 1)
    }
}

/// First position of `p` in `s`, or -1.
pub open spec fn first_occ(s: Seq<char>, p: Seq<char>) -> int {
    first_occ_from(s, p, 0)
}

/// `split_once(p)`: the text before and after the first occurrence of `p`.
pub open spec fn split_once(s: Seq<char>, p: Seq<char>) -> Option<(Seq<char>, Seq<char>)> {
    let i = first_occ(s, p);
    if i < 0 {
        None
    } else {
        Some((s.take(i), s.skip(i + p.len())))
    }
}

/// Whether `s` starts with the literal `lit`.
pub fn starts_lit(s: &[char], lit: &str) -> (r: bool)
    ensures
        r == has_prefix(s@, lit@),
{
    let p = chars_of(lit);
    starts_with_chars(s, &p)
}

/// Whether `s` ends with the literal `lit`.
pub fn ends_lit(s: &[char], lit: &str) -> (r: bool)
    ensures
        r == has_suffix(s@, lit@),
{
    let p = chars_of(lit);
    ends_with_chars(s, &p)
}

/// Whether `s` equals the literal `lit`.
pub fn eq_lit(s: &[char], lit: &str) -> (r: bool)
    ensures
        r == (s@ == lit@),
{
    let p = chars_of(lit);
    chars_eq(s, &p)
}

/// `s` without the literal prefix `lit` (which it must start with).
pub fn after_lit(s: &[char], lit: &str) -> (r: Vec<char>)
    requires
        has_prefix(s@, lit@),
    ensures
        r@ == s@.skip(lit@.len() as int),
{
    let n = chars_of(lit).len();
    slice_chars(s, n, s.len())
}

/// `s` without the literal suffix `lit` (which it must end with).
pub fn before_lit(s: &[char], lit: &str) -> (r: Vec<char>)
    requires
        has_suffix(s@, lit@),
    ensures
        r@ == drop_end(s@, lit@.len() as int),
{
    let n = chars_of(lit).len();
    slice_chars(s, 0, s.len() - n)
}

fn sub_at_exec(s: &[char], p: &[char], i: usize) -> (r: bool)
    requires
        i <= s.len(),
    ensures
        r == sub_at(s@, p@, i as int),
{
    if p.len() > s.len() - i {
        return false;
    }
    let w = slice_chars(s, i, i + p.len());
    chars_eq(&w, p)
}

/// First position of `p` in `s`.
pub fn find_first(s: &[char], p: &[char]) -> (r: Option<usize>)
    ensures
        match r {
            Some(i) => i == first_occ(s@, p@) && sub_at(s@, p@, i as int),
            None => first_occ(s@, p@) == -1,
        },
{
    let mut i: usize = 0;
    loop
        invariant
            i <= s.len(),
            first_occ_from(s@, p@, 0) == first_occ_from(s@, p@, i as int),
        decreases s.len() - i,
    {
        if sub_at_exec(s, p, i) {
            return Some(i);
        }
        if i == s.len() {
            proof {
                if p@.len() == 0 {
                    assert(s@.subrange(i as int, i as int) =~= p@);
                }
            }
            assert(first_occ_from(s@, p@, i as int) == -1);
            return None;
        }
        i += 1;
    }
}

/// `split_once` with a literal separator.
pub fn split_once_lit(s: &[char], lit: &str) -> (r: Option<(Vec<char>, Vec<char>)>)
    ensures
        match r {
            Some((a, b)) => split_once(s@, lit@) == Some((a@, b@)),
            None => split_once(s@, lit@) is None,
        },
{
    let p = chars_of(lit);
    match find_first(s, &p) {
        Some(i) => {
            assert(sub_at(s@, p@, i as int));
            assert(i + p@.len() <= s@.len());
            assert(p@.len() == p.len());
            assert(s@.len() == s.len());
            let e = i + p.len();
            Some((slice_chars(s, 0, i), slice_chars(s, e, s.len())))
        },
        None => None,
    }
}

} // verus!
