//! Parsers for the value part of query filters: `size:`, `dm:`/`dc:`/`da:`
//! and `attrib:`.

use vstd::prelude::*;

use crate::dates::{
    sane_time, spec_start_of_day, spec_unix_from_ymd, spec_unix_to_ymd, start_of_day,
    unix_from_ymd, unix_to_ymd,
};
use crate::numparse::{parse_i64, scaled_decimal, spec_parse_i64, spec_scaled_decimal};
use crate::seqs::{
    after_lit, before_lit, drop_end, ends_lit, eq_lit, has_prefix, has_suffix, split_once,
    split_once_lit, starts_lit,
};
use crate::text::{
    ascii_lower, is_white, lead_ws, lower_char, lower_seq, lower_vec, slice_chars, trail_ws, trim,
    trim_start, trim_vec,
};

verus! {

/// `size:` filter.
#[derive(Debug, Clone, Copy, PartialEq, Eq, Structural)]
pub enum SizeFilter {
    Greater(u64),
    GreaterOrEqual(u64),
    Less(u64),
    LessOrEqual(u64),
    Equal(u64),
    Range { min: u64, max: u64 },
}

/// Comparison of a date filter.
#[derive(Debug, Clone, Copy, PartialEq, Eq, Structural)]
pub enum DateOp {
    Before,
    After,
    On,
    Range { end: i64 },
    Span { start: i64, end: i64 },
}

// ---------------------------------------------------------------------------
// Sizes
// ---------------------------------------------------------------------------

pub open spec fn spec_size_unit(l: Seq<char>) -> (Seq<char>, u64) {
    if has_suffix(l, "kb"@) {
        (drop_end(l, "kb"@.len() as int), 1024)
    } else if has_suffix(l, "mb"@) {
        (drop_end(l, "mb"@.len() as int), 1048576)
    } else if has_suffix(l, "gb"@) {
        (drop_end(l, "gb"@.len() as int), 1073741824)
    } else if has_suffix(l, "kib"@) {
        (drop_end(l, "kib"@.len() as int), 1024)
    } else if has_suffix(l, "mib"@) {
        (drop_end(l, "mib"@.len() as int), 1048576)
    } else if has_suffix(l, "gib"@) {
        (drop_end(l, "gib"@.len() as int), 1073741824)
    } else if has_suffix(l, "b"@) {
        (drop_end(l, "b"@.len() as int), 1)
    } else {
        (l, 1)
    }
}

/// A size value and its unit multiplier (JEDEC: kb = 1024).
pub open spec fn spec_parse_size_parts(s: Seq<char>) -> Option<(u64, u64)> {
    let (num, mult) = spec_size_unit(lower_seq(trim(s)));
    match spec_scaled_decimal(trim(num), mult as int) {
        Some(v) => Some((v, mult)),
        None => None,
    }
}

pub open spec fn spec_parse_size(s: Seq<char>) -> Option<u64> {
    match spec_parse_size_parts(s) {
        Some((v, _)) => Some(v),
        None => None,
    }
}

fn size_unit(l: &[char]) -> (r: (Vec<char>, u64))
    ensures
        (r.0@, r.1) == spec_size_unit(l@),
{
    if ends_lit(l, "kb") {
        (before_lit(l, "kb"), 1024)
    } else if ends_lit(l, "mb") {
        (before_lit(l, "mb"), 1048576)
    } else if ends_lit(l, "gb") {
        (before_lit(l, "gb"), 1073741824)
    } else if ends_lit(l, "kib") {
        (before_lit(l, "kib"), 1024)
    } else if ends_lit(l, "mib") {
        (before_lit(l, "mib"), 1048576)
    } else if ends_lit(l, "gib") {
        (before_lit(l, "gib"), 1073741824)
    } else if ends_lit(l, "b") {
        (before_lit(l, "b"), 1)
    } else {
        (slice_chars(l, 0, l.len()), 1)
    }
}

/// Parse a size like `10mb`, `1.5kb` or `100`. Returns the byte value and
/// the unit multiplier (greater than 1 when a unit suffix was present).
pub fn parse_size_parts(s: &[char]) -> (r: Option<(u64, u64)>)
    ensures
        r == spec_parse_size_parts(s@),
{
    let l = lower_vec(&trim_vec(s));
    let (num, mult) = size_unit(&l);
    proof {
        assert(l@.subrange(0, l@.len() as int) =~= l@);
    }
    match scaled_decimal(&trim_vec(&num), mult) {
        Some(v) => Some((v, mult)),
        None => None,
    }
}

pub fn parse_size(s: &[char]) -> (r: Option<u64>)
    ensures
        r == spec_parse_size(s@),
{
    match parse_size_parts(s) {
        Some((v, _)) => Some(v),
        None => None,
    }
}

/// Everything's `size:` grammar: constants, `a..b`, `>=`, `<=`, `>`, `<`,
/// `=`, and a bare value (a range up to the next unit when it has a unit,
/// otherwise an exact size).
pub open spec fn spec_parse_size_filter(s0: Seq<char>) -> Option<SizeFilter> {
    let s = trim(s0);
    let l = lower_seq(s);
    if l == "tiny"@ {
        Some(SizeFilter::Less(1024))
    } else if l == "small"@ {
        Some(SizeFilter::Less(1048576))
    } else if l == "medium"@ {
        Some(SizeFilter::Less(1073741824))
    } else if l == "large"@ {
        Some(SizeFilter::Greater(1073741824))
    } else if l == "huge"@ {
        Some(SizeFilter::Greater(4294967296))
    } else if l == "gigantic"@ {
        Some(SizeFilter::Greater(17179869184))
    } else if l == "empty"@ {
        Some(SizeFilter::Equal(0))
    } else if split_once(s, ".."@) is Some {
        let (a, b) = split_once(s, ".."@).unwrap();
        match (spec_parse_size(a), spec_parse_size(b)) {
            (Some(min), Some(max)) => Some(SizeFilter::Range { min, max }),
            _ => None,
        }
    } else if has_prefix(s, ">="@) {
        match spec_parse_size(s.skip(">="@.len() as int)) {
            Some(v) => Some(SizeFilter::GreaterOrEqual(v)),
            None => None,
        }
    } else if has_prefix(s, "<="@) {
        match spec_parse_size(s.skip("<="@.len() as int)) {
            Some(v) => Some(SizeFilter::LessOrEqual(v)),
            None => None,
        }
    } else if has_prefix(s, ">"@) {
        match spec_parse_size(s.skip(">"@.len() as int)) {
            Some(v) => Some(SizeFilter::Greater(v)),
            None => None,
        }
    } else if has_prefix(s, "<"@) {
        match spec_parse_size(s.skip("<"@.len() as int)) {
            Some(v) => Some(SizeFilter::Less(v)),
            None => None,
        }
    } else if has_prefix(s, "="@) {
        match spec_parse_size(s.skip("="@.len() as int)) {
            Some(v) => Some(SizeFilter::Equal(v)),
            None => None,
        }
    } else {
        match spec_parse_size_parts(s) {
            Some((v, mult)) => if mult > 1 {
                Some(
                    SizeFilter::Range {
                        min: v,
                        max: if v + mult - 1 > u64::MAX {
                            u64::MAX
                        } else {
                            (v + mult - 1) as u64
                        },
                    },
                )
            } else {
                Some(SizeFilter::Equal(v))
            },
            None => None,
        }
    }
}

pub fn parse_size_filter(s0: &[char]) -> (r: Option<SizeFilter>)
    ensures
        r == spec_parse_size_filter(s0@),
{
    let s = trim_vec(s0);
    let l = lower_vec(&s);
    if eq_lit(&l, "tiny") {
        return Some(SizeFilter::Less(1024));
    }
    if eq_lit(&l, "small") {
        return Some(SizeFilter::Less(1048576));
    }
    if eq_lit(&l, "medium") {
        return Some(SizeFilter::Less(1073741824));
    }
    if eq_lit(&l, "large") {
        return Some(SizeFilter::Greater(1073741824));
    }
    if eq_lit(&l, "huge") {
        return Some(SizeFilter::Greater(4294967296));
    }
    if eq_lit(&l, "gigantic") {
        return Some(SizeFilter::Greater(17179869184));
    }
    if eq_lit(&l, "empty") {
        return Some(SizeFilter::Equal(0));
    }
    if let Some((a, b)) = split_once_lit(&s, "..") {
        let min = match parse_size(&a) {
            Some(v) => v,
            None => return None,
        };
        let max = match parse_size(&b) {
            Some(v) => v,
            None => return None,
        };
        return Some(SizeFilter::Range { min, max });
    }
    if starts_lit(&s, ">=") {
        return match parse_size(&after_lit(&s, ">=")) {
            Some(v) => Some(SizeFilter::GreaterOrEqual(v)),
            None => None,
        };
    }
    if starts_lit(&s, "<=") {
        return match parse_size(&after_lit(&s, "<=")) {
            Some(v) => Some(SizeFilter::LessOrEqual(v)),
            None => None,
        };
    }
    if starts_lit(&s, ">") {
        return match parse_size(&after_lit(&s, ">")) {
            Some(v) => Some(SizeFilter::Greater(v)),
            None => None,
        };
    }
    if starts_lit(&s, "<") {
        return match parse_size(&after_lit(&s, "<")) {
            Some(v) => Some(SizeFilter::Less(v)),
            None => None,
        };
    }
    if starts_lit(&s, "=") {
        return match parse_size(&after_lit(&s, "=")) {
            Some(v) => Some(SizeFilter::Equal(v)),
            None => None,
        };
    }
    match parse_size_parts(&s) {
        Some((v, mult)) => {
            if mult > 1 {
                let max = v.saturating_add(mult - 1);
                Some(SizeFilter::Range { min: v, max })
            } else {
                Some(SizeFilter::Equal(v))
            }
        },
        None => None,
    }
}

/// Whether a size passes a `size:` filter.
pub open spec fn spec_size_match(f: SizeFilter, size: u64) -> bool {
    match f {
        SizeFilter::Greater(v) => size > v,
        SizeFilter::GreaterOrEqual(v) => size >= v,
        SizeFilter::Less(v) => size < v,
        SizeFilter::LessOrEqual(v) => size <= v,
        SizeFilter::Equal(v) => size == v,
        SizeFilter::Range { min, max } => size >= min && size <= max,
    }
}

pub fn size_match(f: &SizeFilter, size: u64) -> (r: bool)
    ensures
        r == spec_size_match(*f, size),
{
    match f {
        SizeFilter::Greater(v) => size > *v,
        SizeFilter::GreaterOrEqual(v) => size >= *v,
        SizeFilter::Less(v) => size < *v,
        SizeFilter::LessOrEqual(v) => size <= *v,
        SizeFilter::Equal(v) => size == *v,
        SizeFilter::Range { min, max } => size >= *min && size <= *max,
    }
}

// ---------------------------------------------------------------------------
// Dates
// ---------------------------------------------------------------------------

/// Local midnight of an ISO `YYYY-MM-DD...` date, in wall-clock unix seconds.
pub open spec fn spec_iso_date(s: Seq<char>) -> Option<i64> {
    if s.len() >= 10 && s[4] == '-' && s[7] == '-' {
        match (
            spec_parse_i64(s.subrange(0, 4)),
            spec_parse_i64(s.subrange(5, 7)),
            spec_parse_i64(s.subrange(8, 10)),
        ) {
            (Some(y), Some(m), Some(d)) => Some(spec_unix_from_ymd(y as int, m as int, d as int) as i64),
            _ => None,
        }
    } else {
        None
    }
}

/// `today`, `yesterday`, `Ndays` (start of the day N days ago) or an ISO
/// date, relative to local time `now`. A day count whose offset leaves the
/// calendar range yields None.
pub open spec fn spec_parse_date(s0: Seq<char>, now: i64) -> Option<i64> {
    let s = lower_seq(trim(s0));
    if s == "today"@ {
        Some(spec_start_of_day(now as int) as i64)
    } else if s == "yesterday"@ {
        Some(spec_start_of_day(now - 86400) as i64)
    } else if has_suffix(s, "days"@) && spec_parse_i64(
        trim(drop_end(s, "days"@.len() as int)),
    ) is Some {
        let n = spec_parse_i64(trim(drop_end(s, "days"@.len() as int))).unwrap();
        if sane_time(now - n * 86400) {
            Some(spec_start_of_day(now - n * 86400) as i64)
        } else {
            None
        }
    } else {
        spec_iso_date(s)
    }
}

fn iso_date(s: &[char]) -> (r: Option<i64>)
    ensures
        r == spec_iso_date(s@),
{
    if s.len() >= 10 && s[4] == '-' && s[7] == '-' {
        let y = parse_i64(&slice_chars(s, 0, 4));
        let m = parse_i64(&slice_chars(s, 5, 7));
        let d = parse_i64(&slice_chars(s, 8, 10));
        match (y, m, d) {
            (Some(y), Some(m), Some(d)) => {
                proof {
                    lemma_small_parse(s@.subrange(0, 4));
                    lemma_small_parse(s@.subrange(5, 7));
                    lemma_small_parse(s@.subrange(8, 10));
                }
                Some(unix_from_ymd(y, m, d))
            },
            _ => None,
        }
    } else {
        None
    }
}

/// An integer parsed from at most four characters lies in -999..=9999.
pub proof fn lemma_small_parse(s: Seq<char>)
    requires
        s.len() <= 4,
        spec_parse_i64(s) is Some,
    ensures
        -999 <= spec_parse_i64(s).unwrap() <= 9999,
        s.len() <= 2 ==> -99 <= spec_parse_i64(s).unwrap() <= 99,
{
    let signed = s[0] == '+' || s[0] == '-';
    let body = if signed {
        s.skip(1)
    } else {
        s
    };
    crate::numparse::lemma_digits_value_nonneg(body);
    lemma_digits_value_small(body);
}

pub proof fn lemma_digits_value_small(s: Seq<char>)
    requires
        crate::numparse::all_digits(s),
    ensures
        crate::numparse::digits_value(s) < (if s.len() == 0 {
            1
        } else if s.len() == 1 {
            10
        } else if s.len() == 2 {
            100
        } else if s.len() == 3 {
            1000
        } else if s.len() == 4 {
            10000
        } else {
            crate::numparse::digits_value(s) + 1
        }),
    decreases s.len(),
{
    if s.len() > 0 {
        let t = s.drop_last();
        assert(crate::numparse::all_digits(t)) by {
            assert forall|k: int| 0 <= k < t.len() implies crate::text::is_ascii_digit_char(
                #[trigger] t[k],
            ) by {
                assert(t[k] == s[k]);
            }
        }
        assert(crate::text::is_ascii_digit_char(s[s.len() - 1]));
        lemma_digits_value_small(t);
        crate::numparse::lemma_digits_value_nonneg(t);
    }
}

/// Parse a date token relative to local time `now`.
pub fn parse_date(s0: &[char], now: i64) -> (r: Option<i64>)
    requires
        sane_time(now as int),
    ensures
        r == spec_parse_date(s0@, now),
{
    let s = lower_vec(&trim_vec(s0));
    if eq_lit(&s, "today") {
        return Some(start_of_day(now));
    }
    if eq_lit(&s, "yesterday") {
        return Some(start_of_day(now - 86400));
    }
    if ends_lit(&s, "days") {
        if let Some(n) = parse_i64(&trim_vec(&before_lit(&s, "days"))) {
            if n >= -23_148_148_148 && n <= 23_148_148_148 {
                let back: i64 = n * 86400;
                let t: i64 = now - back;
                if t >= -1_000_000_000_000_000 && t <= 1_000_000_000_000_000 {
                    return Some(start_of_day(t));
                }
            }
            proof {
                if sane_time(now - n * 86400) {
                    assert(-23_148_148_148 <= n <= 23_148_148_148) by (nonlinear_arith)
                        requires
                            -1_000_000_000_000_000 <= now - n * 86400 <= 1_000_000_000_000_000,
                            -1_000_000_000_000_000 <= now <= 1_000_000_000_000_000,
                    ;
                }
            }
            return None;
        }
    }
    iso_date(&s)
}

/// The length in seconds of `n` units (`days`, `weeks`, `months` = 31 days,
/// `years` = 365 days).
pub open spec fn unit_span(unit: int, n: int) -> int {
    if unit == 0 {
        n * 86400
    } else if unit == 1 {
        n * 7 * 86400
    } else if unit == 2 {
        n * 31 * 86400
    } else {
        n * 365 * 86400
    }
}

pub open spec fn unit_name(unit: int) -> Seq<char> {
    if unit == 0 {
        "days"@
    } else if unit == 1 {
        "weeks"@
    } else if unit == 2 {
        "months"@
    } else {
        "years"@
    }
}

pub open spec fn prefix_name(p: int) -> Seq<char> {
    if p == 0 {
        "last"@
    } else if p == 1 {
        "past"@
    } else if p == 2 {
        "previous"@
    } else {
        "prev"@
    }
}

/// `[now - span, now + 1 day)` or `[today - span, today)`, None when the
/// span leaves the calendar range.
pub open spec fn span_window(rolling: bool, span: int, now: int) -> Option<(i64, i64)> {
    if span > 1_000_000_000_000_000 {
        None
    } else if rolling {
        Some(((now - span) as i64, (now + 86400) as i64))
    } else {
        Some(((spec_start_of_day(now) - span) as i64, spec_start_of_day(now) as i64))
    }
}

/// The first unit (from `u` on) that `body` ends with: a positive count
/// gives the window, anything else gives None; no unit gives `fallback`.
pub open spec fn units_from(
    body: Seq<char>,
    u: int,
    rolling: bool,
    now: int,
    fallback: Option<Option<(i64, i64)>>,
) -> Option<Option<(i64, i64)>>
    decreases 4 - u,
{
    if u >= 4 || u < 0 {
        fallback
    } else if has_suffix(body, unit_name(u)) {
        match spec_parse_i64(trim(drop_end(body, unit_name(u).len() as int))) {
            Some(n) => if n > 0 {
                Some(span_window(rolling, unit_span(u, n as int), now))
            } else {
                Some(None)
            },
            None => Some(None),
        }
    } else {
        units_from(body, u + 1, rolling, now, fallback)
    }
}

/// Numeric spans after `last`/`past`/`previous`/`prev`, tried in that
/// order (the longer prefix before the shorter); `Some(x)` decides the answer `x`, `None` falls through.
pub open spec fn prefixes_from(s: Seq<char>, p: int, now: int) -> Option<Option<(i64, i64)>>
    decreases 4 - p,
{
    if p >= 4 || p < 0 {
        None
    } else if has_prefix(s, prefix_name(p)) {
        match units_from(s.skip(prefix_name(p).len() as int), 0, p < 2, now, None) {
            Some(x) => Some(x),
            None => prefixes_from(s, p + 1, now),
        }
    } else {
        prefixes_from(s, p + 1, now)
    }
}

/// Start of the (Sunday-start) week containing local day start `today`.
pub open spec fn spec_week_start(today: int) -> int {
    let q = crate::dates::trunc_rem(today / 86400 + 4, 7);
    today - q * 86400
}

pub open spec fn named_span(s: Seq<char>, now: int) -> Option<(i64, i64)> {
    let today = spec_start_of_day(now);
    let week_start = spec_week_start(today);
    let (y, m, _) = spec_unix_to_ymd(now);
    let month_start = spec_unix_from_ymd(y, m, 1);
    let prev_month_start = if m == 1 {
        spec_unix_from_ymd(y - 1, 12, 1)
    } else {
        spec_unix_from_ymd(y, m - 1, 1)
    };
    let year_start = spec_unix_from_ymd(y, 1, 1);
    if s == "thisweek"@ {
        Some((week_start as i64, (now + 86400) as i64))
    } else if s == "lastweek"@ || s == "pastweek"@ {
        span_window(true, 604800int, now)
    } else if s == "prevweek"@ || s == "previousweek"@ {
        Some(((week_start - 7 * 86400) as i64, week_start as i64))
    } else if s == "thismonth"@ {
        Some((month_start as i64, (now + 86400) as i64))
    } else if s == "lastmonth"@ || s == "pastmonth"@ {
        span_window(true, 2678400int, now)
    } else if s == "prevmonth"@ || s == "previousmonth"@ {
        Some((prev_month_start as i64, month_start as i64))
    } else if s == "thisyear"@ {
        Some((year_start as i64, (now + 86400) as i64))
    } else if s == "lastyear"@ || s == "pastyear"@ {
        span_window(true, 31536000int, now)
    } else if s == "prevyear"@ || s == "previousyear"@ {
        Some((spec_unix_from_ymd(y - 1, 1, 1) as i64, year_start as i64))
    } else {
        None
    }
}

/// Everything-style relative span (`last7days`, `prev7days`, `7days`,
/// `thisweek`, `prevmonth`, ...) evaluated at local time `now`.
pub open spec fn spec_relative_span(s0: Seq<char>, now: int) -> Option<(i64, i64)> {
    let s = lower_seq(trim(s0));
    match prefixes_from(s, 0, now) {
        Some(x) => x,
        None => match units_from(s, 0, true, now, None) {
            Some(x) => x,
            None => named_span(s, now),
        },
    }
}

fn unit_lit(u: usize) -> (r: &'static str)
    requires
        u < 4,
    ensures
        r@ == unit_name(u as int),
{
    if u == 0 {
        "days"
    } else if u == 1 {
        "weeks"
    } else if u == 2 {
        "months"
    } else {
        "years"
    }
}

fn prefix_lit(p: usize) -> (r: &'static str)
    requires
        p < 4,
    ensures
        r@ == prefix_name(p as int),
{
    if p == 0 {
        "last"
    } else if p == 1 {
        "past"
    } else if p == 2 {
        "previous"
    } else {
        "prev"
    }
}

fn window(rolling: bool, span: i128, now: i64) -> (r: Option<(i64, i64)>)
    requires
        sane_time(now as int),
        span >= 0,
    ensures
        r == span_window(rolling, span as int, now as int),
{
    if span > 1_000_000_000_000_000 {
        return None;
    }
    let sp: i64 = span as i64;
    if rolling {
        Some((now - sp, now + 86400))
    } else {
        let today = start_of_day(now);
        Some((today - sp, today))
    }
}

fn units_exec(body: &[char], rolling: bool, now: i64) -> (r: Option<Option<(i64, i64)>>)
    requires
        sane_time(now as int),
    ensures
        r == units_from(body@, 0, rolling, now as int, None),
{
    let mut u: usize = 0;
    while u < 4
        invariant
            u <= 4,
            sane_time(now as int),
            units_from(body@, u as int, rolling, now as int, None) == units_from(
                body@,
                0,
                rolling,
                now as int,
                None,
            ),
        decreases 4 - u,
    {
        let name = unit_lit(u);
        if ends_lit(body, name) {
            return match parse_i64(&trim_vec(&before_lit(body, name))) {
                Some(n) => {
                    if n > 0 {
                        let per: i128 = if u == 0 {
                            86400
                        } else if u == 1 {
                            7 * 86400
                        } else if u == 2 {
                            31 * 86400
                        } else {
                            365 * 86400
                        };
                        let span: i128 = (n as i128) * per;
                        proof {
                            assert(unit_span(u as int, n as int) == n * per);
                        }
                        Some(window(rolling, span, now))
                    } else {
                        Some(None)
                    }
                },
                None => Some(None),
            };
        }
        u += 1;
    }
    None
}

fn week_start_of(today: i64) -> (r: i64)
    requires
        sane_time(today as int),
    ensures
        r == spec_week_start(today as int),
{
    let d: i64 = today_div(today);
    let x: i64 = d + 4;
    let q: i64 = if x >= 0 {
        x % 7
    } else {
        let p: i64 = -x;
        -(p % 7)
    };
    today - q * 86400
}

/// Floor division by one day (`/` in the specification language).
fn today_div(today: i64) -> (r: i64)
    requires
        sane_time(today as int),
    ensures
        r == today as int / 86400,
        -12_000_000_000 <= r <= 12_000_000_000,
{
    if today >= 0 {
        today / 86400
    } else {
        let pos: i64 = -today;
        let q = pos / 86400;
        if pos % 86400 == 0 {
            -q
        } else {
            -q - 1
        }
    }
}

fn named_span_exec(s: &[char], now: i64) -> (r: Option<(i64, i64)>)
    requires
        sane_time(now as int),
    ensures
        r == named_span(s@, now as int),
{
    let today = start_of_day(now);
    proof {
        assert(sane_time(spec_start_of_day(now as int))) by {
            assert(0 <= crate::dates::trunc_rem(now as int, 86400) < 86400 || -86400 < crate::dates::trunc_rem(now as int, 86400) <= 0);
        }
    }
    let week_start = week_start_of(today);
    let (y, m, _) = unix_to_ymd(now);
    proof {
        let ymd = spec_unix_to_ymd(now as int);
        assert(1 <= m <= 13) by {
            crate::qparse::lemma_month_range(now as int);
        }
    }
    let month_start = unix_from_ymd(y, m, 1);
    let prev_month_start = if m == 1 {
        unix_from_ymd(y - 1, 12, 1)
    } else {
        unix_from_ymd(y, m - 1, 1)
    };
    let year_start = unix_from_ymd(y, 1, 1);
    if eq_lit(s, "thisweek") {
        Some((week_start, now + 86400))
    } else if eq_lit(s, "lastweek") || eq_lit(s, "pastweek") {
        window(true, 7 * 86400, now)
    } else if eq_lit(s, "prevweek") || eq_lit(s, "previousweek") {
        Some((week_start - 7 * 86400, week_start))
    } else if eq_lit(s, "thismonth") {
        Some((month_start, now + 86400))
    } else if eq_lit(s, "lastmonth") || eq_lit(s, "pastmonth") {
        window(true, 31 * 86400, now)
    } else if eq_lit(s, "prevmonth") || eq_lit(s, "previousmonth") {
        Some((prev_month_start, month_start))
    } else if eq_lit(s, "thisyear") {
        Some((year_start, now + 86400))
    } else if eq_lit(s, "lastyear") || eq_lit(s, "pastyear") {
        window(true, 365 * 86400, now)
    } else if eq_lit(s, "prevyear") || eq_lit(s, "previousyear") {
        Some((unix_from_ymd(y - 1, 1, 1), year_start))
    } else {
        None
    }
}

pub proof fn lemma_month_range(now: int)
    ensures
        1 <= spec_unix_to_ymd(now).1 <= 13,
{
    let days = now / 86400;
    let (y, rest) = crate::dates::year_split(days, 1970);
    lemma_month_split_range(rest, y, 1);
}

pub proof fn lemma_month_split_range(days: int, y: int, month: int)
    requires
        1 <= month <= 13,
    ensures
        month <= crate::dates::month_split(days, y, month).0 <= 13,
    decreases 13 - month,
{
    if month >= 13 || days < crate::dates::spec_days_in_month(y, month) {
    } else {
        lemma_month_split_range(days - crate::dates::spec_days_in_month(y, month), y, month + 1);
    }
}

/// Everything-style relative span evaluated at local time `now`.
pub fn parse_relative_span_at(s0: &[char], now: i64) -> (r: Option<(i64, i64)>)
    requires
        sane_time(now as int),
    ensures
        r == spec_relative_span(s0@, now as int),
{
    let s = lower_vec(&trim_vec(s0));
    let mut p: usize = 0;
    while p < 4
        invariant
            p <= 4,
            sane_time(now as int),
            prefixes_from(s@, p as int, now as int) == prefixes_from(s@, 0, now as int),
            s@ == lower_seq(trim(s0@)),
        decreases 4 - p,
    {
        let name = prefix_lit(p);
        if starts_lit(&s, name) {
            let body = after_lit(&s, name);
            if let Some(x) = units_exec(&body, p < 2, now) {
                proof {
                    assert(body@ == s@.skip(prefix_name(p as int).len() as int));
                    assert(prefixes_from(s@, p as int, now as int) == Some(x));
                }
                return x;
            }
        }
        p += 1;
    }
    if let Some(x) = units_exec(&s, true, now) {
        return x;
    }
    named_span_exec(&s, now)
}

/// A date filter value: `>d`, `<d`, `a..b`, a relative span or a single day.
/// Yields the comparison and its reference value.
pub open spec fn spec_parse_date_filter(s0: Seq<char>, now: i64) -> Option<(DateOp, i64)> {
    let s = trim(s0);
    if has_prefix(s, ">"@) {
        match spec_parse_date(s.skip(1), now) {
            Some(v) => Some((DateOp::After, v)),
            None => None,
        }
    } else if has_prefix(s, "<"@) {
        match spec_parse_date(s.skip(1), now) {
            Some(v) => Some((DateOp::Before, v)),
            None => None,
        }
    } else if split_once(s, ".."@) is Some {
        let (a, b) = split_once(s, ".."@).unwrap();
        match (spec_parse_date(b, now), spec_parse_date(a, now)) {
            (Some(end), Some(start)) => Some((DateOp::Range { end }, start)),
            _ => None,
        }
    } else if spec_relative_span(s, now as int) is Some {
        let (start, end) = spec_relative_span(s, now as int).unwrap();
        Some((DateOp::Span { start, end }, start))
    } else {
        match spec_parse_date(s, now) {
            Some(v) => Some((DateOp::On, v)),
            None => None,
        }
    }
}

pub fn parse_date_filter(s0: &[char], now: i64) -> (r: Option<(DateOp, i64)>)
    requires
        sane_time(now as int),
    ensures
        r == spec_parse_date_filter(s0@, now),
{
    let s = trim_vec(s0);
    if starts_lit(&s, ">") {
        proof {
            assert(">"@.len() == 1) by {
                reveal_strlit(">");
            }
        }
        return match parse_date(&slice_chars(&s, 1, s.len()), now) {
            Some(v) => Some((DateOp::After, v)),
            None => None,
        };
    }
    if starts_lit(&s, "<") {
        proof {
            assert("<"@.len() == 1) by {
                reveal_strlit("<");
            }
        }
        return match parse_date(&slice_chars(&s, 1, s.len()), now) {
            Some(v) => Some((DateOp::Before, v)),
            None => None,
        };
    }
    if let Some((a, b)) = split_once_lit(&s, "..") {
        let end = match parse_date(&b, now) {
            Some(v) => v,
            None => return None,
        };
        let start = match parse_date(&a, now) {
            Some(v) => v,
            None => return None,
        };
        return Some((DateOp::Range { end }, start));
    }
    if let Some((start, end)) = parse_relative_span_at(&s, now) {
        return Some((DateOp::Span { start, end }, start));
    }
    match parse_date(&s, now) {
        Some(v) => Some((DateOp::On, v)),
        None => None,
    }
}

/// Whether a wall-clock time `ts` passes a date filter with value `value`.
pub open spec fn spec_date_match(op: DateOp, value: int, ts: int) -> bool {
    match op {
        DateOp::Before => ts < value,
        DateOp::After => ts >= value + 86400,
        DateOp::On => ts >= value && ts < value + 86400,
        DateOp::Range { end } => ts >= value && ts < end,
        DateOp::Span { start, end } => ts >= start && ts < end,
    }
}

pub fn date_match(op: &DateOp, value: i64, ts: i64) -> (r: bool)
    ensures
        r == spec_date_match(*op, value as int, ts as int),
{
    let v: i128 = value as i128;
    let t: i128 = ts as i128;
    match op {
        DateOp::Before => t < v,
        DateOp::After => t >= v + 86400,
        DateOp::On => t >= v && t < v + 86400,
        DateOp::Range { end } => ts >= value && ts < *end,
        DateOp::Span { start, end } => ts >= *start && ts < *end,
    }
}

// ---------------------------------------------------------------------------
// Attributes
// ---------------------------------------------------------------------------

/// FILE_ATTRIBUTE_* bit of an Everything `attrib:` letter (any case).
pub open spec fn attrib_bit(c: char) -> Option<u32> {
    let l = lower_char(c);
    if l == 'a' {
        Some(0x20u32)
    } else if l == 'r' {
        Some(0x1u32)
    } else if l == 'h' {
        Some(0x2u32)
    } else if l == 's' {
        Some(0x4u32)
    } else if l == 'd' {
        Some(0x10u32)
    } else if l == 'n' {
        Some(0x80u32)
    } else if l == 't' {
        Some(0x100u32)
    } else if l == 'p' {
        Some(0x400u32)
    } else if l == 'c' {
        Some(0x800u32)
    } else if l == 'o' {
        Some(0x1000u32)
    } else if l == 'i' {
        Some(0x2000u32)
    } else if l == 'e' {
        Some(0x4000u32)
    } else {
        None
    }
}

/// Union of the bits of `s[i..]`, None at the first unknown letter.
pub open spec fn attrib_fold(s: Seq<char>, i: int, mask: u32) -> Option<u32>
    decreases s.len() - i,
{
    if i < 0 || i >= s.len() {
        Some(mask)
    } else {
        match attrib_bit(s[i]) {
            Some(b) => attrib_fold(s, i + 1, mask | b),
            None => None,
        }
    }
}

/// `s` without leading and trailing `"` characters.
pub open spec fn strip_quotes(s: Seq<char>) -> Seq<char> {
    let a = lead_count(s, '"');
    let t = s.skip(a);
    t.take(t.len() - trail_count(t, '"'))
}

pub open spec fn lead_count(s: Seq<char>, c: char) -> int
    decreases s.len(),
{
    if s.len() > 0 && s[0] == c {
        1 + lead_count(s.drop_first(), c)
    } else {
        0
    }
}

pub open spec fn trail_count(s: Seq<char>, c: char) -> int
    decreases s.len(),
{
    if s.len() > 0 && s.last() == c {
        1 + trail_count(s.drop_last(), c)
    } else {
        0
    }
}

/// Required FILE_ATTRIBUTE mask of `attrib:` letters (AND-ed); None for an
/// unknown letter or an empty list.
pub open spec fn spec_parse_attrib_mask(s: Seq<char>) -> Option<u32> {
    match attrib_fold(strip_quotes(trim(s)), 0, 0) {
        Some(m) => if m == 0 {
            None
        } else {
            Some(m)
        },
        None => None,
    }
}

pub proof fn lemma_lead_count(s: Seq<char>, c: char)
    ensures
        0 <= lead_count(s, c) <= s.len(),
        forall|k: int| 0 <= k < lead_count(s, c) ==> #[trigger] s[k] == c,
        lead_count(s, c) < s.len() ==> s[lead_count(s, c)] != c,
    decreases s.len(),
{
    if s.len() > 0 && s[0] == c {
        lemma_lead_count(s.drop_first(), c);
        assert forall|k: int| 0 <= k < lead_count(s, c) implies #[trigger] s[k] == c by {
            if k > 0 {
                assert(s[k] == s.drop_first()[k - 1]);
            }
        }
    }
}

pub proof fn lemma_lead_count_char(s: Seq<char>, c: char, n: int)
    requires
        0 <= n <= s.len(),
        forall|k: int| 0 <= k < n ==> #[trigger] s[k] == c,
        n < s.len() ==> s[n] != c,
    ensures
        lead_count(s, c) == n,
    decreases s.len(),
{
    if n > 0 {
        assert forall|k: int| 0 <= k < n - 1 implies #[trigger] s.drop_first()[k] == c by {
            assert(s.drop_first()[k] == s[k + 1]);
        }
        if n < s.len() {
            assert(s.drop_first()[n - 1] == s[n]);
        }
        lemma_lead_count_char(s.drop_first(), c, n - 1);
    } else if s.len() > 0 {
        assert(s[0] != c);
    }
}

pub proof fn lemma_trail_count_char(s: Seq<char>, c: char, n: int)
    requires
        0 <= n <= s.len(),
        forall|k: int| s.len() - n <= k < s.len() ==> #[trigger] s[k] == c,
        n < s.len() ==> s[s.len() - n - 1] != c,
    ensures
        trail_count(s, c) == n,
    decreases s.len(),
{
    if n > 0 {
        let t = s.drop_last();
        assert forall|k: int| t.len() - (n - 1) <= k < t.len() implies #[trigger] t[k] == c by {
            assert(t[k] == s[k]);
        }
        if n - 1 < t.len() {
            assert(t[t.len() - (n - 1) - 1] == s[s.len() - n - 1]);
        }
        lemma_trail_count_char(t, c, n - 1);
    } else if s.len() > 0 {
        assert(s[s.len() - 1] != c);
    }
}

/// `trim_matches(c)` on characters.
pub fn strip_char(v: &[char], c: char) -> (r: Vec<char>)
    ensures
        r@ == ({
            let t = v@.skip(lead_count(v@, c));
            t.take(t.len() - trail_count(t, c))
        }),
{
    let mut a: usize = 0;
    while a < v.len() && v[a] == c
        invariant
            a <= v.len(),
            forall|k: int| 0 <= k < a ==> #[trigger] v@[k] == c,
        decreases v.len() - a,
    {
        a += 1;
    }
    proof {
        lemma_lead_count_char(v@, c, a as int);
    }
    let mut e = v.len();
    while e > a && v[e - 1] == c
        invariant
            a <= e <= v.len(),
            forall|k: int| e <= k < v.len() ==> #[trigger] v@[k] == c,
        decreases e,
    {
        e -= 1;
    }
    proof {
        let t = v@.skip(a as int);
        let n = v.len() - e;
        assert forall|k: int| t.len() - n <= k < t.len() implies #[trigger] t[k] == c by {
            assert(t[k] == v@[k + a]);
        }
        if n < t.len() {
            assert(t[t.len() - n - 1] == v@[e - 1]);
        }
        lemma_trail_count_char(t, c, n);
        assert(t.take(t.len() - n) =~= v@.subrange(a as int, e as int));
    }
    slice_chars(v, a, e)
}

fn attrib_bit_exec(c: char) -> (r: Option<u32>)
    ensures
        r == attrib_bit(c),
{
    let l = ascii_lower(c);
    if l == 'a' {
        Some(0x20)
    } else if l == 'r' {
        Some(0x1)
    } else if l == 'h' {
        Some(0x2)
    } else if l == 's' {
        Some(0x4)
    } else if l == 'd' {
        Some(0x10)
    } else if l == 'n' {
        Some(0x80)
    } else if l == 't' {
        Some(0x100)
    } else if l == 'p' {
        Some(0x400)
    } else if l == 'c' {
        Some(0x800)
    } else if l == 'o' {
        Some(0x1000)
    } else if l == 'i' {
        Some(0x2000)
    } else if l == 'e' {
        Some(0x4000)
    } else {
        None
    }
}

/// Map `attrib:` letters to FILE_ATTRIBUTE bits. Multiple letters are
/// AND-ed (`attrib:hs` = hidden + system); `n` (normal, 0x80) is matched
/// specially. Unknown letters reject the token.
pub fn parse_attrib_mask(s: &[char]) -> (r: Option<u32>)
    ensures
        r == spec_parse_attrib_mask(s@),
{
    let v = strip_char(&trim_vec(s), '"');
    let mut mask: u32 = 0;
    let mut i: usize = 0;
    proof {
        assert(v@ == strip_quotes(trim(s@)));
    }
    while i < v.len()
        invariant
            i <= v.len(),
            attrib_fold(v@, i as int, mask) == attrib_fold(v@, 0, 0),
            v@ == strip_quotes(trim(s@)),
        decreases v.len() - i,
    {
        match attrib_bit_exec(v[i]) {
            Some(b) => {
                mask = mask | b;
            },
            None => {
                proof {
                    assert(attrib_fold(v@, i as int, mask) == None::<u32>);
                }
                return None;
            },
        }
        i += 1;
    }
    proof {
        assert(v@ == strip_quotes(trim(s@)));
    }
    if mask == 0 {
        return None;
    }
    Some(mask)
}

/// A body that ends with unit `u` is decided by the unit search.
proof fn lemma_units_decide(b: Seq<char>, k: int, u: int, rolling: bool, now: int)
    requires
        0 <= k <= u < 4,
        has_suffix(b, unit_name(u)),
    ensures
        units_from(b, k, rolling, now, None) is Some,
    decreases u - k,
{
    if k < u && !has_suffix(b, unit_name(k)) {
        lemma_units_decide(b, k + 1, u, rolling, now);
    }
}

/// A text that trimming and lowercasing leave as it is.
pub open spec fn normalized_text(b: Seq<char>) -> bool {
    forall|k: int| 0 <= k < b.len() ==> !is_white(#[trigger] b[k]) && lower_char(b[k]) == b[k]
}

proof fn lemma_normalized_fixed(s: Seq<char>)
    requires
        normalized_text(s),
    ensures
        lower_seq(trim(s)) == s,
{
    crate::text::lemma_lead_ws_bound(s);
    assert(lead_ws(s) == 0) by {
        if s.len() > 0 {
            assert(!is_white(s[0]));
        }
    }
    let t = trim_start(s);
    assert(t =~= s);
    crate::text::lemma_trail_ws_bound(s);
    assert(trail_ws(s) == 0) by {
        if s.len() > 0 {
            assert(!is_white(s[s.len() - 1]));
        }
    }
    assert(trim(s) =~= s);
    assert(lower_seq(s) =~= s);
}

/// `previous` and `prev` name the same window: for a count and unit such as
/// `7days`, `previous7days` and `prev7days` give the same span.
pub proof fn law_previous_is_prev(b: Seq<char>, u: int, now: int)
    requires
        0 <= u < 4,
        has_suffix(b, unit_name(u)),
        !has_prefix(b, "ious"@),
        normalized_text(b),
    ensures
        spec_relative_span("previous"@ + b, now) == spec_relative_span("prev"@ + b, now),
        spec_relative_span("prev"@ + b, now) == units_from(b, 0, false, now, None)->0,
{
    reveal_strlit("previous");
    reveal_strlit("prev");
    reveal_strlit("last");
    reveal_strlit("past");
    reveal_strlit("ious");
    reveal_strlit("days");
    reveal_strlit("weeks");
    reveal_strlit("months");
    reveal_strlit("years");
    let s1 = "previous"@ + b;
    let s2 = "prev"@ + b;
    assert(b.len() >= 4);
    assert(normalized_text(s1)) by {
        assert forall|k: int| 0 <= k < s1.len() implies !is_white(#[trigger] s1[k]) && lower_char(
            s1[k],
        ) == s1[k] by {
            if k >= 8 {
                assert(s1[k] == b[k - 8]);
            }
        }
    }
    assert(normalized_text(s2)) by {
        assert forall|k: int| 0 <= k < s2.len() implies !is_white(#[trigger] s2[k]) && lower_char(
            s2[k],
        ) == s2[k] by {
            if k >= 4 {
                assert(s2[k] == b[k - 4]);
            }
        }
    }
    lemma_normalized_fixed(s1);
    lemma_normalized_fixed(s2);
    lemma_units_decide(b, 0, u, false, now);
    // `previous` + b: not `last`, not `past`, then `previous`.
    assert(s1[0] == 'p' && s1[1] == 'r');
    assert(!has_prefix(s1, "last"@)) by {
        if has_prefix(s1, "last"@) {
            assert(s1.take(4)[0] == s1[0]);
        }
    }
    assert(!has_prefix(s1, "past"@)) by {
        if has_prefix(s1, "past"@) {
            assert(s1.take(4)[1] == s1[1]);
        }
    }
    assert(s1.take(8) =~= "previous"@);
    assert(s1.skip(8) =~= b);
    // `prev` + b: not `last`, not `past`, not `previous`, then `prev`.
    assert(s2[0] == 'p' && s2[1] == 'r');
    assert(!has_prefix(s2, "last"@)) by {
        if has_prefix(s2, "last"@) {
            assert(s2.take(4)[0] == s2[0]);
        }
    }
    assert(!has_prefix(s2, "past"@)) by {
        if has_prefix(s2, "past"@) {
            assert(s2.take(4)[1] == s2[1]);
        }
    }
    assert(!has_prefix(s2, "previous"@)) by {
        if has_prefix(s2, "previous"@) {
            assert forall|k: int| 0 <= k < 4 implies b.take(4)[k] == "ious"@[k] by {
                assert(s2.take(8)[k + 4] == "previous"@[k + 4]);
                assert(s2[k + 4] == b[k]);
            }
            assert(b.take(4) =~= "ious"@);
        }
    }
    assert(s2.take(4) =~= "prev"@);
    assert(s2.skip(4) =~= b);
    let x = units_from(b, 0, false, now, None);
    assert(prefixes_from(s1, 2, now) == x);
    assert(prefixes_from(s1, 1, now) == x);
    assert(prefixes_from(s1, 0, now) == x);
    assert(prefixes_from(s2, 3, now) == x);
    assert(prefixes_from(s2, 2, now) == x);
    assert(prefixes_from(s2, 1, now) == x);
    assert(prefixes_from(s2, 0, now) == x);
}

} // verus!
