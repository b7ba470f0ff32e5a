//! Everything-style wildcard matching over UTF-8 bytes.
//!
//! `*` any run that does not cross `\`, `**` any run, `?` one byte other
//! than `\`, `[set]` / `[!set]` one byte in / not in a set with `a-z`
//! ranges, `#` one ASCII digit, `\x` escapes a wildcard character.
//! Patterns without wildcard characters match as substrings.

use vstd::prelude::*;
use vstd::string::StringSliceAdditionalSpecFns;

verus! {

// ---------------------------------------------------------------------------
// Bytes
// ---------------------------------------------------------------------------

pub open spec fn lower_byte(b: u8) -> u8 {
    if 65 <= b && b <= 90 {
        (b + 32) as u8
    } else {
        b
    }
}

pub open spec fn upper_byte(b: u8) -> u8 {
    if 97 <= b && b <= 122 {
        (b - 32) as u8
    } else {
        b
    }
}

pub open spec fn is_alpha_byte(b: u8) -> bool {
    (65 <= b && b <= 90) || (97 <= b && b <= 122)
}

pub open spec fn is_digit_byte(b: u8) -> bool {
    48 <= b && b <= 57
}

/// ASCII case-insensitive byte equality.
pub open spec fn eq_ci(a: u8, b: u8) -> bool {
    a == b || lower_byte(a) == lower_byte(b)
}

pub open spec fn byte_eq(a: u8, b: u8, ci: bool) -> bool {
    if ci {
        eq_ci(a, b)
    } else {
        a == b
    }
}

pub fn to_lower_byte(b: u8) -> (r: u8)
    ensures
        r == lower_byte(b),
{
    if 65 <= b && b <= 90 {
        b + 32
    } else {
        b
    }
}

pub fn to_upper_byte(b: u8) -> (r: u8)
    ensures
        r == upper_byte(b),
{
    if 97 <= b && b <= 122 {
        b - 32
    } else {
        b
    }
}

pub fn bytes_eq_ci(a: u8, b: u8) -> (r: bool)
    ensures
        r == eq_ci(a, b),
{
    a == b || to_lower_byte(a) == to_lower_byte(b)
}

// ---------------------------------------------------------------------------
// Substring search
// ---------------------------------------------------------------------------

/// `n` occurs in `h` at position `i`.
pub open spec fn occurs_at(h: Seq<u8>, n: Seq<u8>, i: int, ci: bool) -> bool {
    &&& 0 <= i
    &&& i + n.len() <= h.len()
    &&& forall|j: int| 0 <= j < n.len() ==> byte_eq(#[trigger] h[i + j], n[j], ci)
}

/// `n` occurs somewhere in `h` (the empty needle always does).
pub open spec fn occurs(h: Seq<u8>, n: Seq<u8>, ci: bool) -> bool {
    exists|i: int| occurs_at(h, n, i, ci)
}

fn occurs_at_exec(h: &[u8], n: &[u8], i: usize, ci: bool) -> (r: bool)
    requires
        i + n.len() <= h.len(),
    ensures
        r == occurs_at(h@, n@, i as int, ci),
{
    let mut j: usize = 0;
    while j < n.len()
        invariant
            i + n.len() <= h.len(),
            j <= n.len(),
            forall|k: int| 0 <= k < j ==> byte_eq(#[trigger] h@[i + k], n@[k], ci),
        decreases n.len() - j,
    {
        let same = if ci {
            bytes_eq_ci(h[i + j], n[j])
        } else {
            h[i + j] == n[j]
        };
        if !same {
            assert(!byte_eq(h@[i + j], n@[j as int], ci));
            return false;
        }
        j += 1;
    }
    true
}

/// Substring search, optionally ASCII case-insensitive.
pub fn bytes_occur(h: &[u8], n: &[u8], ci: bool) -> (r: bool)
    ensures
        r == occurs(h@, n@, ci),
{
    if n.len() > h.len() {
        return false;
    }
    let mut i: usize = 0;
    while i <= h.len() - n.len()
        invariant
            n.len() <= h.len(),
            i <= h.len() - n.len() + 1,
            forall|k: int| 0 <= k < i ==> !occurs_at(h@, n@, k, ci),
        decreases h.len() - n.len() + 1 - i,
    {
        if occurs_at_exec(h, n, i, ci) {
            return true;
        }
        i += 1;
    }
    false
}

/// Case-insensitive substring test on strings (Everything semantics for a
/// bare term).
pub fn contains_ci(haystack: &str, needle: &str) -> (r: bool)
    ensures
        r == occurs(haystack.spec_bytes(), needle.spec_bytes(), true),
{
    bytes_occur(haystack.as_bytes(), needle.as_bytes(), true)
}

/// Case-insensitive prefix test.
pub open spec fn starts_ci(s: Seq<u8>, p: Seq<u8>) -> bool {
    occurs_at(s, p, 0, true)
}

pub fn starts_with_ci(s: &[u8], p: &[u8]) -> (r: bool)
    ensures
        r == starts_ci(s@, p@),
{
    if p.len() > s.len() {
        return false;
    }
    occurs_at_exec(s, p, 0, true)
}

// ---------------------------------------------------------------------------
// Pattern tokens
// ---------------------------------------------------------------------------

#[derive(Clone, Debug)]
pub enum Wc {
    Star { cross_path: bool },
    Q,
    Digit,
    OneOf { set: Vec<(u8, u8)>, negate: bool },
    Lit(u8),
}

/// Model of a pattern token.
pub enum WcV {
    Star { cross_path: bool },
    Q,
    Digit,
    OneOf { set: Seq<(u8, u8)>, negate: bool },
    Lit(u8),
}

pub open spec fn wc_view(w: Wc) -> WcV {
    match w {
        Wc::Star { cross_path } => WcV::Star { cross_path },
        Wc::Q => WcV::Q,
        Wc::Digit => WcV::Digit,
        Wc::OneOf { set, negate } => WcV::OneOf { set: set@, negate },
        Wc::Lit(c) => WcV::Lit(c),
    }
}

pub open spec fn wcs_view(ws: Seq<Wc>) -> Seq<WcV> {
    Seq::new(ws.len(), |i: int| wc_view(ws[i]))
}

pub open spec fn is_wild_byte(b: u8) -> bool {
    b == 42 || b == 63 || b == 91 || b == 35
}

pub open spec fn min_u8(a: u8, b: u8) -> u8 {
    if a <= b {
        a
    } else {
        b
    }
}

pub open spec fn max_u8(a: u8, b: u8) -> u8 {
    if a <= b {
        b
    } else {
        a
    }
}

/// The members of a `[...]` class from `j` on, accumulated into `acc`;
/// yields the ranges and the index just past `]`, or None when unclosed.
pub open spec fn class_scan(b: Seq<u8>, j: int, first: bool, acc: Seq<(u8, u8)>) -> Option<
    (Seq<(u8, u8)>, int),
>
    decreases b.len() - j,
{
    if j < 0 || j >= b.len() {
        None
    } else if b[j] == 93 && !first {
        Some((acc, j + 1))
    } else if j + 2 < b.len() && b[j + 1] == 45 && b[j + 2] != 93 {
        class_scan(b, j + 3, false, acc.push((min_u8(b[j], b[j + 2]), max_u8(b[j], b[j + 2]))))
    } else {
        class_scan(b, j + 1, false, acc.push((b[j], b[j])))
    }
}

/// `[set]` / `[!set]` starting at `i` (which holds `[`).
pub open spec fn spec_char_class(b: Seq<u8>, i: int) -> Option<(Seq<(u8, u8)>, bool, int)> {
    let negate = i + 1 < b.len() && b[i + 1] == 33;
    let j = if negate {
        i + 2
    } else {
        i + 1
    };
    match class_scan(b, j, true, Seq::empty()) {
        Some((set, next)) => Some((set, negate, next)),
        None => None,
    }
}

pub proof fn lemma_class_scan_next(b: Seq<u8>, j: int, first: bool, acc: Seq<(u8, u8)>)
    ensures
        class_scan(b, j, first, acc) matches Some((_, next)) ==> j < next <= b.len(),
    decreases b.len() - j,
{
    if j < 0 || j >= b.len() {
    } else if b[j] == 93 && !first {
    } else if j + 2 < b.len() && b[j + 1] == 45 && b[j + 2] != 93 {
        lemma_class_scan_next(b, j + 3, false, acc.push((min_u8(b[j], b[j + 2]), max_u8(b[j], b[j + 2]))));
    } else {
        lemma_class_scan_next(b, j + 1, false, acc.push((b[j], b[j])));
    }
}

/// Pattern tokens of `b` from `i` on, appended to `acc`.
pub open spec fn wc_scan(b: Seq<u8>, i: int, acc: Seq<WcV>) -> Seq<WcV>
    decreases b.len() - i,
{
    if i < 0 || i >= b.len() {
        acc
    } else {
        let c = b[i];
        if c == 42 {
            let cross = i + 1 < b.len() && b[i + 1] == 42;
            proof {
                lemma_star_run(b, i);
            }
            wc_scan(b, i + star_run(b, i), acc.push(WcV::Star { cross_path: cross }))
        } else if c == 63 {
            wc_scan(b, i + 1, acc.push(WcV::Q))
        } else if c == 35 {
            wc_scan(b, i + 1, acc.push(WcV::Digit))
        } else if c == 91 {
            match spec_char_class(b, i) {
                Some((set, negate, next)) => if i < next <= b.len() {
                    wc_scan(b, next, acc.push(WcV::OneOf { set, negate }))
                } else {
                    acc
                },
                None => wc_scan(b, i + 1, acc.push(WcV::Lit(91))),
            }
        } else if c == 92 && i + 1 < b.len() && (b[i + 1] == 42 || b[i + 1] == 63 || b[i + 1]
            == 91 || b[i + 1] == 35 || b[i + 1] == 92) {
            wc_scan(b, i + 2, acc.push(WcV::Lit(b[i + 1])))
        } else {
            wc_scan(b, i + 1, acc.push(WcV::Lit(c)))
        }
    }
}

/// Length of the run of `*` starting at `i` (at least 1 when `b[i]` is `*`).
pub open spec fn star_run(b: Seq<u8>, i: int) -> int
    decreases b.len() - i,
{
    if i < 0 || i >= b.len() || b[i] != 42 {
        0
    } else {
        1 + star_run(b, i + 1)
    }
}

pub proof fn lemma_star_run(b: Seq<u8>, i: int)
    ensures
        0 <= star_run(b, i),
        0 <= i < b.len() && b[i] == 42 ==> star_run(b, i) >= 1,
        i >= 0 ==> i + star_run(b, i) <= b.len() || star_run(b, i) == 0,
    decreases b.len() - i,
{
    if i < 0 || i >= b.len() || b[i] != 42 {
    } else {
        lemma_star_run(b, i + 1);
    }
}

/// The token list of a pattern.
pub open spec fn spec_parse_pattern(b: Seq<u8>) -> Seq<WcV> {
    wc_scan(b, 0, Seq::empty())
}

pub open spec fn class_hit(set: Seq<(u8, u8)>, c: u8) -> bool {
    exists|k: int| 0 <= k < set.len() && set[k].0 <= c && c <= (#[trigger] set[k]).1
}

pub open spec fn class_hit_ci(set: Seq<(u8, u8)>, c: u8) -> bool {
    class_hit(set, c) || (is_alpha_byte(c) && class_hit(set, lower_byte(c))) || (is_alpha_byte(c)
        && class_hit(set, upper_byte(c)))
}

/// Whether `wcs[wi..]` matches `t[ti..]` exactly.
pub open spec fn wm(wcs: Seq<WcV>, t: Seq<u8>, wi: int, ti: int, ci: bool) -> bool
    decreases wcs.len() - wi, t.len() - ti, 1int,
{
    if wi < 0 || ti < 0 || ti > t.len() {
        false
    } else if wi >= wcs.len() {
        ti == t.len()
    } else {
        match wcs[wi] {
            WcV::Star { cross_path } => sm(wcs, t, wi, ti, cross_path, ci),
            WcV::Q => ti < t.len() && t[ti] != 92 && wm(wcs, t, wi + 1, ti + 1, ci),
            WcV::Digit => ti < t.len() && is_digit_byte(t[ti]) && wm(wcs, t, wi + 1, ti + 1, ci),
            WcV::OneOf { set, negate } => ti < t.len() && ((if ci {
                class_hit_ci(set, t[ti])
            } else {
                class_hit(set, t[ti])
            }) != negate) && wm(wcs, t, wi + 1, ti + 1, ci),
            WcV::Lit(c) => ti < t.len() && byte_eq(c, t[ti], ci) && wm(wcs, t, wi + 1, ti + 1, ci),
        }
    }
}

/// The star at `wi` consumes zero or more bytes starting at `k`; a single
/// star stops at `\`.
pub open spec fn sm(wcs: Seq<WcV>, t: Seq<u8>, wi: int, k: int, cross: bool, ci: bool) -> bool
    decreases wcs.len() - wi, t.len() - k, 0int,
{
    if wi < 0 || wi >= wcs.len() || k < 0 || k > t.len() {
        false
    } else {
        wm(wcs, t, wi + 1, k, ci) || (k < t.len() && (cross || t[k] != 92) && sm(
            wcs,
            t,
            wi,
            k + 1,
            cross,
            ci,
        ))
    }
}

/// Everything-style wildcard match of pattern bytes `p` against text bytes
/// `t` (`cs`: case-sensitive).
pub open spec fn spec_wildcard_match(p: Seq<u8>, t: Seq<u8>, cs: bool) -> bool {
    if !(exists|k: int| 0 <= k < p.len() && is_wild_byte(#[trigger] p[k])) {
        occurs(t, p, !cs)
    } else {
        wm(spec_parse_pattern(p), t, 0, 0, !cs)
    }
}

// ---------------------------------------------------------------------------
// Executable parsing
// ---------------------------------------------------------------------------

/// Parse `[set]` / `[!set]` starting at `i` (which points at `[`).
pub fn parse_char_class(b: &[u8], i: usize) -> (r: Option<(Vec<(u8, u8)>, bool, usize)>)
    requires
        i < b.len(),
    ensures
        match r {
            Some((set, negate, next)) => spec_char_class(b@, i as int) == Some(
                (set@, negate, next as int),
            ),
            None => spec_char_class(b@, i as int) is None,
        },
{
    let mut j = i + 1;
    let negate = j < b.len() && b[j] == 33;
    if negate {
        j += 1;
    }
    let mut ranges: Vec<(u8, u8)> = Vec::new();
    let mut first = true;
    while j < b.len()
        invariant
            i < b.len(),
            i + 1 <= j <= b.len(),
            class_scan(b@, j as int, first, ranges@) == class_scan(
                b@,
                (if negate {
                    i + 2
                } else {
                    i + 1
                }) as int,
                true,
                Seq::empty(),
            ),
            negate == (i + 1 < b.len() && b@[i + 1] == 33),
        decreases b.len() - j,
    {
        if b[j] == 93 && !first {
            j += 1;
            return Some((ranges, negate, j));
        }
        first = false;
        if b.len() - j > 2 && b[j + 1] == 45 && b[j + 2] != 93 {
            let lo = b[j];
            let hi = b[j + 2];
            let pair = if lo <= hi {
                (lo, hi)
            } else {
                (hi, lo)
            };
            ranges.push(pair);
            j += 3;
        } else {
            ranges.push((b[j], b[j]));
            j += 1;
        }
    }
    None
}

/// Split a wildcard pattern into tokens. `\` escapes only when it precedes a
/// wildcard character; otherwise it stays a literal `\`.
pub fn parse_wildcard_pattern(b: &[u8]) -> (out: Vec<Wc>)
    ensures
        wcs_view(out@) == spec_parse_pattern(b@),
{
    let mut out: Vec<Wc> = Vec::new();
    let mut i: usize = 0;
    assert(wcs_view(out@) =~= Seq::<WcV>::empty());
    while i < b.len()
        invariant
            i <= b.len(),
            wc_scan(b@, i as int, wcs_view(out@)) == spec_parse_pattern(b@),
        decreases b.len() - i,
    {
        let c = b[i];
        let ghost acc = wcs_view(out@);
        if c == 42 {
            let cross_path = i + 1 < b.len() && b[i + 1] == 42;
            let mut j = i;
            while j < b.len() && b[j] == 42
                invariant
                    i <= j <= b.len(),
                    star_run(b@, i as int) == (j - i) + star_run(b@, j as int),
                decreases b.len() - j,
            {
                j += 1;
            }
            proof {
                lemma_star_run(b@, i as int);
            }
            out.push(Wc::Star { cross_path });
            assert(wcs_view(out@) =~= acc.push(WcV::Star { cross_path }));
            i = j;
        } else if c == 63 {
            out.push(Wc::Q);
            assert(wcs_view(out@) =~= acc.push(WcV::Q));
            i += 1;
        } else if c == 35 {
            out.push(Wc::Digit);
            assert(wcs_view(out@) =~= acc.push(WcV::Digit));
            i += 1;
        } else if c == 91 {
            match parse_char_class(b, i) {
                Some((set, negate, next)) => {
                    proof {
                        let nj = if negate { i + 2 } else { i + 1 };
                        lemma_class_scan_next(b@, nj as int, true, Seq::empty());
                    }
                    let ghost sv = set@;
                    out.push(Wc::OneOf { set, negate });
                    assert(wcs_view(out@) =~= acc.push(WcV::OneOf { set: sv, negate }));
                    i = next;
                },
                None => {
                    out.push(Wc::Lit(91));
                    assert(wcs_view(out@) =~= acc.push(WcV::Lit(91)));
                    i += 1;
                },
            }
        } else if c == 92 && i + 1 < b.len() && (b[i + 1] == 42 || b[i + 1] == 63 || b[i + 1]
            == 91 || b[i + 1] == 35 || b[i + 1] == 92) {
            out.push(Wc::Lit(b[i + 1]));
            assert(wcs_view(out@) =~= acc.push(WcV::Lit(b@[i + 1])));
            i += 2;
        } else {
            out.push(Wc::Lit(c));
            assert(wcs_view(out@) =~= acc.push(WcV::Lit(c)));
            i += 1;
        }
    }
    out
}

pub fn class_hit_exec(ranges: &[(u8, u8)], c: u8) -> (r: bool)
    ensures
        r == class_hit(ranges@, c),
{
    let mut k: usize = 0;
    while k < ranges.len()
        invariant
            k <= ranges.len(),
            forall|j: int| 0 <= j < k ==> !(ranges@[j].0 <= c && c <= (#[trigger] ranges@[j]).1),
        decreases ranges.len() - k,
    {
        let (lo, hi) = ranges[k];
        if c >= lo && c <= hi {
            return true;
        }
        k += 1;
    }
    false
}

pub fn class_hit_ci_exec(ranges: &[(u8, u8)], c: u8) -> (r: bool)
    ensures
        r == class_hit_ci(ranges@, c),
{
    let alpha = (65 <= c && c <= 90) || (97 <= c && c <= 122);
    class_hit_exec(ranges, c) || (alpha && class_hit_exec(ranges, to_lower_byte(c))) || (alpha
        && class_hit_exec(ranges, to_upper_byte(c)))
}

/// Whether the single-byte token `w` accepts `c`.
fn single_ok(w: &Wc, c: u8, ci: bool) -> (r: bool)
    requires
        !(wc_view(*w) is Star),
    ensures
        r == (match wc_view(*w) {
            WcV::Q => c != 92,
            WcV::Digit => is_digit_byte(c),
            WcV::OneOf { set, negate } => (if ci {
                class_hit_ci(set, c)
            } else {
                class_hit(set, c)
            }) != negate,
            WcV::Lit(l) => byte_eq(l, c, ci),
            WcV::Star { .. } => false,
        }),
{
    match w {
        Wc::Star { .. } => false,
        Wc::Q => c != 92,
        Wc::Digit => 48 <= c && c <= 57,
        Wc::OneOf { set, negate } => {
            let hit = if ci {
                class_hit_ci_exec(set, c)
            } else {
                class_hit_exec(set, c)
            };
            hit != *negate
        },
        Wc::Lit(l) => if ci {
            bytes_eq_ci(*l, c)
        } else {
            *l == c
        },
    }
}

/// Direct top-down evaluation of the matcher, used only for a text of
/// `usize::MAX` bytes, where the table of `match_tokens` cannot be built.
fn wm_rec(wcs: &[Wc], t: &[u8], wi: usize, ti: usize, ci: bool) -> (r: bool)
    requires
        wi <= wcs.len(),
        ti <= t.len(),
    ensures
        r == wm(wcs_view(wcs@), t@, wi as int, ti as int, ci),
    decreases wcs.len() - wi, t.len() - ti, 1int,
{
    if wi == wcs.len() {
        return ti == t.len();
    }
    match &wcs[wi] {
        Wc::Star { cross_path } => sm_rec(wcs, t, wi, ti, *cross_path, ci),
        w => {
            if ti == t.len() {
                false
            } else {
                single_ok(w, t[ti], ci) && wm_rec(wcs, t, wi + 1, ti + 1, ci)
            }
        },
    }
}

fn sm_rec(wcs: &[Wc], t: &[u8], wi: usize, k: usize, cross: bool, ci: bool) -> (r: bool)
    requires
        wi < wcs.len(),
        k <= t.len(),
    ensures
        r == sm(wcs_view(wcs@), t@, wi as int, k as int, cross, ci),
    decreases wcs.len() - wi, t.len() - k, 0int,
{
    if wm_rec(wcs, t, wi + 1, k, ci) {
        return true;
    }
    k < t.len() && (cross || t[k] != 92) && sm_rec(wcs, t, wi, k + 1, cross, ci)
}

/// One step of the matcher for a non-star token at (`w`, `ti`), given the
/// results of the next row.
fn step_single(w: &Wc, t: &[u8], ti: usize, next: &Vec<bool>, ci: bool) -> (r: bool)
    requires
        ti <= t.len(),
        next.len() == t.len() + 1,
        !(wc_view(*w) is Star),
    ensures
        r == (ti < t.len() && (match wc_view(*w) {
            WcV::Q => t@[ti as int] != 92,
            WcV::Digit => is_digit_byte(t@[ti as int]),
            WcV::OneOf { set, negate } => (if ci {
                class_hit_ci(set, t@[ti as int])
            } else {
                class_hit(set, t@[ti as int])
            }) != negate,
            WcV::Lit(c) => byte_eq(c, t@[ti as int], ci),
            WcV::Star { .. } => false,
        }) && next@[ti + 1]),
{
    if ti >= t.len() {
        return false;
    }
    let ok = match w {
        Wc::Star { .. } => false,
        Wc::Q => t[ti] != 92,
        Wc::Digit => 48 <= t[ti] && t[ti] <= 57,
        Wc::OneOf { set, negate } => {
            let hit = if ci {
                class_hit_ci_exec(set, t[ti])
            } else {
                class_hit_exec(set, t[ti])
            };
            hit != *negate
        },
        Wc::Lit(c) => if ci {
            bytes_eq_ci(*c, t[ti])
        } else {
            *c == t[ti]
        },
    };
    ok && next[ti + 1]
}

/// Match a token list against text bytes, bottom-up over (token, position).
pub fn match_tokens(wcs: &[Wc], t: &[u8], ci: bool) -> (r: bool)
    requires
        t.len() < usize::MAX,
    ensures
        r == wm(wcs_view(wcs@), t@, 0, 0, ci),
{
    let ghost wv = wcs_view(wcs@);
    let n = t.len();
    // Row for wi == wcs.len(): only the end of the text matches.
    let mut next: Vec<bool> = Vec::new();
    let mut k: usize = 0;
    while k <= n
        invariant
            n == t.len(),
            n < usize::MAX,
            k <= n + 1,
            next.len() == k,
            forall|j: int| 0 <= j < k ==> next@[j] == wm(wv, t@, wv.len() as int, j, ci),
        decreases n + 1 - k,
    {
        next.push(k == n);
        k += 1;
    }
    let mut wi = wcs.len();
    while wi > 0
        invariant
            n == t.len(),
            n < usize::MAX,
            wv == wcs_view(wcs@),
            wi <= wcs.len(),
            next.len() == n + 1,
            forall|j: int| 0 <= j <= n ==> next@[j] == wm(wv, t@, wi as int, j, ci),
        decreases wi,
    {
        let w = &wcs[wi - 1];
        let mut cur: Vec<bool> = Vec::new();
        let mut z: usize = 0;
        while z <= n
            invariant
                n == t.len(),
                n < usize::MAX,
                z <= n + 1,
                cur.len() == z,
            decreases n + 1 - z,
        {
            cur.push(false);
            z += 1;
        }
        let mut ti = n + 1;
        match w {
            Wc::Star { cross_path } => {
                while ti > 0
                    invariant
                        n == t.len(),
                        n < usize::MAX,
                        wv == wcs_view(wcs@),
                        1 <= wi <= wcs.len(),
                        wv[wi - 1] == (WcV::Star { cross_path: *cross_path }),
                        ti <= n + 1,
                        cur.len() == n + 1,
                        next.len() == n + 1,
                        forall|j: int| 0 <= j <= n ==> next@[j] == wm(wv, t@, wi as int, j, ci),
                        forall|j: int|
                            ti <= j <= n ==> cur@[j] == sm(wv, t@, wi - 1, j, *cross_path, ci),
                    decreases ti,
                {
                    let p = ti - 1;
                    let later = if p < n {
                        cur[p + 1]
                    } else {
                        false
                    };
                    let v = next[p] || (p < n && (*cross_path || t[p] != 92) && later);
                    cur.set(p, v);
                    ti = p;
                }
                proof {
                    assert forall|j: int| 0 <= j <= n implies cur@[j] == wm(
                        wv,
                        t@,
                        wi - 1,
                        j,
                        ci,
                    ) by {
                        assert(wm(wv, t@, wi - 1, j, ci) == sm(wv, t@, wi - 1, j, *cross_path, ci));
                    }
                }
            },
            _ => {
                while ti > 0
                    invariant
                        n == t.len(),
                        n < usize::MAX,
                        wv == wcs_view(wcs@),
                        1 <= wi <= wcs.len(),
                        wv[wi - 1] == wc_view(*w),
                        !(wc_view(*w) is Star),
                        ti <= n + 1,
                        cur.len() == n + 1,
                        next.len() == n + 1,
                        forall|j: int| 0 <= j <= n ==> next@[j] == wm(wv, t@, wi as int, j, ci),
                        forall|j: int| ti <= j <= n ==> cur@[j] == wm(wv, t@, wi - 1, j, ci),
                    decreases ti,
                {
                    let p = ti - 1;
                    let v = step_single(w, t, p, &next, ci);
                    cur.set(p, v);
                    ti = p;
                }
            },
        }
        next = cur;
        wi -= 1;
    }
    next[0]
}

fn has_wild_byte(p: &[u8]) -> (r: bool)
    ensures
        r == exists|k: int| 0 <= k < p@.len() && is_wild_byte(#[trigger] p@[k]),
{
    let mut k: usize = 0;
    while k < p.len()
        invariant
            k <= p.len(),
            forall|j: int| 0 <= j < k ==> !is_wild_byte(#[trigger] p@[j]),
        decreases p.len() - k,
    {
        if p[k] == 42 || p[k] == 63 || p[k] == 91 || p[k] == 35 {
            assert(is_wild_byte(p@[k as int]));
            return true;
        }
        k += 1;
    }
    false
}

/// Everything-style wildcard match (`match_case`: case-sensitive).
pub fn wildcard_match(pattern: &str, text: &str, match_case: bool) -> (r: bool)
    ensures
        r == spec_wildcard_match(pattern.spec_bytes(), text.spec_bytes(), match_case),
{
    let p = pattern.as_bytes();
    let t = text.as_bytes();
    if !has_wild_byte(p) {
        return bytes_occur(t, p, !match_case);
    }
    let wcs = parse_wildcard_pattern(p);
    if t.len() == usize::MAX {
        return wm_rec(&wcs, t, 0, 0, !match_case);
    }
    match_tokens(&wcs, t, !match_case)
}

// ---------------------------------------------------------------------------
// Whole-word matching
// ---------------------------------------------------------------------------

/// Word bytes: ASCII alphanumerics, `_`, `.` and `-`.
pub open spec fn is_word_byte(b: u8) -> bool {
    is_alpha_byte(b) || is_digit_byte(b) || b == 95 || b == 46 || b == 45
}

/// `[a, e)` is one of the pieces `t` splits into at non-word bytes.
pub open spec fn is_segment(t: Seq<u8>, a: int, e: int) -> bool {
    &&& 0 <= a <= e <= t.len()
    &&& (a == 0 || !is_word_byte(t[a - 1]))
    &&& (e == t.len() || !is_word_byte(t[e]))
    &&& forall|k: int| a <= k < e ==> is_word_byte(#[trigger] t[k])
}

pub open spec fn word_equals(t: Seq<u8>, a: int, e: int, n: Seq<u8>, cs: bool) -> bool {
    e - a == n.len() && forall|j: int| 0 <= j < n.len() ==> byte_eq(
        #[trigger] t[a + j],
        n[j],
        !cs,
    )
}

/// Some piece of `t` equals `n` (ASCII case-insensitively unless `cs`).
pub open spec fn spec_whole_word(t: Seq<u8>, n: Seq<u8>, cs: bool) -> bool {
    exists|a: int, e: int| is_segment(t, a, e) && word_equals(t, a, e, n, cs)
}

fn is_word_byte_exec(b: u8) -> (r: bool)
    ensures
        r == is_word_byte(b),
{
    (65 <= b && b <= 90) || (97 <= b && b <= 122) || (48 <= b && b <= 57) || b == 95 || b == 46
        || b == 45
}

fn word_equals_exec(t: &[u8], a: usize, e: usize, n: &[u8], cs: bool) -> (r: bool)
    requires
        a <= e <= t.len(),
    ensures
        r == word_equals(t@, a as int, e as int, n@, cs),
{
    if e - a != n.len() {
        return false;
    }
    let r = occurs_at_exec(t, n, a, !cs);
    r
}

/// Whole-word match: `text` splits at non-word bytes and one piece equals
/// `needle`.
pub fn whole_word_match(text: &str, needle: &str, match_case: bool) -> (r: bool)
    ensures
        r == spec_whole_word(text.spec_bytes(), needle.spec_bytes(), match_case),
{
    let t = text.as_bytes();
    let n = needle.as_bytes();
    let mut start: usize = 0;
    let mut e: usize = 0;
    while e <= t.len()
        invariant
            t@ == text.spec_bytes(),
            n@ == needle.spec_bytes(),
            start <= e,
            e <= t.len() + 1,
            start <= t.len(),
            e <= t.len() ==> (start == 0 || !is_word_byte(t@[start - 1])),
            e <= t.len() ==> forall|k: int| start <= k < e ==> is_word_byte(#[trigger] t@[k]),
            forall|a: int, b: int|
                is_segment(t@, a, b) && b < e ==> !word_equals(t@, a, b, n@, match_case),
        decreases t.len() + 1 - e,
    {
        if e == t.len() || !is_word_byte_exec(t[e]) {
            assert(is_segment(t@, start as int, e as int));
            if word_equals_exec(t, start, e, n, match_case) {
                assert(is_segment(t@, start as int, e as int) && word_equals(
                    t@,
                    start as int,
                    e as int,
                    n@,
                    match_case,
                ));
                assert(spec_whole_word(t@, n@, match_case));
                return true;
            }
            proof {
                assert forall|a: int, b: int|
                    is_segment(t@, a, b) && b < e + 1 implies !word_equals(
                    t@,
                    a,
                    b,
                    n@,
                    match_case,
                ) by {
                    if b == e {
                        if a < start {
                            assert(is_word_byte(t@[start - 1]));
                        } else if a > start {
                            assert(is_word_byte(t@[a - 1]));
                        }
                    }
                }
            }
            if e == t.len() {
                proof {
                    assert forall|a: int, b: int| is_segment(t@, a, b) implies !word_equals(
                        t@,
                        a,
                        b,
                        n@,
                        match_case,
                    ) by {
                        assert(b < e + 1);
                    }
                    assert(!spec_whole_word(t@, n@, match_case));
                }
                return false;
            }
            start = e + 1;
        } else {
            proof {
                assert forall|a: int, b: int|
                    is_segment(t@, a, b) && b < e + 1 implies !word_equals(
                    t@,
                    a,
                    b,
                    n@,
                    match_case,
                ) by {
                    if b == e {
                        assert(!is_word_byte(t@[b]));
                    }
                }
            }
        }
        e += 1;
    }
    proof {
        assert forall|a: int, b: int| is_segment(t@, a, b) implies !word_equals(
            t@,
            a,
            b,
            n@,
            match_case,
        ) by {
            assert(b < e);
        }
    }
    false
}

} // verus!
