//! Case-insensitive wildcard matching does not see ASCII case in the text:
//! a pattern matches a text exactly when it matches the same text with its
//! ASCII letters in any other case.

use vstd::prelude::*;

use crate::wildcard::{
    byte_eq, class_hit_ci, eq_ci, is_alpha_byte, is_digit_byte, lower_byte, occurs,
    occurs_at, sm, spec_parse_pattern, spec_wildcard_match, upper_byte, wm, WcV,
};

verus! {

/// Two byte texts that differ at most in the case of ASCII letters.
pub open spec fn same_but_case(t: Seq<u8>, u: Seq<u8>) -> bool {
    &&& t.len() == u.len()
    &&& forall|i: int| 0 <= i < t.len() ==> lower_byte(#[trigger] t[i]) == lower_byte(u[i])
}

/// A byte's lowercase is a letter only for letters, and fixes every other
/// byte.
proof fn lemma_lower_byte(a: u8, b: u8)
    requires
        lower_byte(a) == lower_byte(b),
    ensures
        is_alpha_byte(a) == is_alpha_byte(b),
        !is_alpha_byte(a) ==> a == b,
        is_alpha_byte(a) ==> upper_byte(a) == upper_byte(b),
        is_digit_byte(a) == is_digit_byte(b),
        (a == 92) == (b == 92),
{
}

/// Case-insensitive byte tests give the same answer for two bytes that
/// differ only in case.
proof fn lemma_byte_tests(set: Seq<(u8, u8)>, c: u8, a: u8, b: u8)
    requires
        lower_byte(a) == lower_byte(b),
    ensures
        class_hit_ci(set, a) == class_hit_ci(set, b),
        eq_ci(c, a) == eq_ci(c, b),
        byte_eq(a, c, true) == byte_eq(b, c, true),
{
    lemma_lower_byte(a, b);
    if is_alpha_byte(a) {
        assert(lower_byte(lower_byte(a)) == lower_byte(a));
        assert(a == lower_byte(a) || a == upper_byte(a));
        assert(b == lower_byte(b) || b == upper_byte(b));
    }
}

proof fn lemma_wm_case(wcs: Seq<WcV>, t: Seq<u8>, u: Seq<u8>, wi: int, ti: int)
    requires
        same_but_case(t, u),
    ensures
        wm(wcs, t, wi, ti, true) == wm(wcs, u, wi, ti, true),
    decreases wcs.len() - wi, t.len() - ti, 1int,
{
    if wi < 0 || ti < 0 || ti > t.len() || wi >= wcs.len() {
    } else {
        match wcs[wi] {
            WcV::Star { cross_path } => {
                lemma_sm_case(wcs, t, u, wi, ti, cross_path);
            },
            WcV::OneOf { set, negate } => {
                if ti < t.len() {
                    lemma_byte_tests(set, 0, t[ti], u[ti]);
                    lemma_wm_case(wcs, t, u, wi + 1, ti + 1);
                }
            },
            WcV::Lit(c) => {
                if ti < t.len() {
                    lemma_byte_tests(Seq::empty(), c, t[ti], u[ti]);
                    lemma_wm_case(wcs, t, u, wi + 1, ti + 1);
                }
            },
            _ => {
                if ti < t.len() {
                    lemma_lower_byte(t[ti], u[ti]);
                    lemma_wm_case(wcs, t, u, wi + 1, ti + 1);
                }
            },
        }
    }
}

proof fn lemma_sm_case(wcs: Seq<WcV>, t: Seq<u8>, u: Seq<u8>, wi: int, k: int, cross: bool)
    requires
        same_but_case(t, u),
    ensures
        sm(wcs, t, wi, k, cross, true) == sm(wcs, u, wi, k, cross, true),
    decreases wcs.len() - wi, t.len() - k, 0int,
{
    if wi < 0 || wi >= wcs.len() || k < 0 || k > t.len() {
    } else {
        lemma_wm_case(wcs, t, u, wi + 1, k);
        if k < t.len() {
            lemma_lower_byte(t[k], u[k]);
            lemma_sm_case(wcs, t, u, wi, k + 1, cross);
        }
    }
}

proof fn lemma_occurs_case(t: Seq<u8>, u: Seq<u8>, p: Seq<u8>)
    requires
        same_but_case(t, u),
    ensures
        occurs(t, p, true) == occurs(u, p, true),
{
    assert forall|i: int| occurs_at(t, p, i, true) == occurs_at(u, p, i, true) by {
        if 0 <= i && i + p.len() <= t.len() {
            assert forall|j: int| 0 <= j < p.len() implies byte_eq(#[trigger] t[i + j], p[j], true)
                == byte_eq(u[i + j], p[j], true) by {
                lemma_byte_tests(Seq::empty(), p[j], t[i + j], u[i + j]);
            }
            if occurs_at(t, p, i, true) {
                assert forall|j: int| 0 <= j < p.len() implies byte_eq(#[trigger] u[i + j], p[j], true) by {
                    assert(byte_eq(t[i + j], p[j], true));
                }
            }
            if occurs_at(u, p, i, true) {
                assert forall|j: int| 0 <= j < p.len() implies byte_eq(#[trigger] t[i + j], p[j], true) by {
                    assert(byte_eq(u[i + j], p[j], true));
                }
            }
        }
    }
    if occurs(t, p, true) {
        let i = choose|i: int| occurs_at(t, p, i, true);
        assert(occurs_at(u, p, i, true));
    }
    if occurs(u, p, true) {
        let i = choose|i: int| occurs_at(u, p, i, true);
        assert(occurs_at(t, p, i, true));
    }
}

/// Without `match_case`, a pattern matches a text exactly when it matches
/// any text that differs from it only in the case of ASCII letters.
pub proof fn law_wildcard_ignores_case(p: Seq<u8>, t: Seq<u8>, u: Seq<u8>)
    requires
        same_but_case(t, u),
    ensures
        spec_wildcard_match(p, t, false) == spec_wildcard_match(p, u, false),
{
    lemma_occurs_case(t, u, p);
    lemma_wm_case(spec_parse_pattern(p), t, u, 0, 0);
}

} // verus!
