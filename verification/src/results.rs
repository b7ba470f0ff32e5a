//! Result records shared by the search engines, and the formatting of
//! timestamps and attribute flags in them.
use vstd::prelude::*;
use crate::dates::{month_split, year_split};
use crate::fmt::{push_padded, zpad};

verus! {

/// A single search result item.
pub struct SearchResult {
    /// File name (always present).
    pub filename: String,
    /// Full path (excluding filename).
    pub path: Option<String>,
    /// File size in bytes.
    pub size: Option<u64>,
    /// Last modified date (ISO 8601 UTC).
    pub date_modified: Option<String>,
    /// Creation date (ISO 8601 UTC).
    pub date_created: Option<String>,
    /// Last accessed date (ISO 8601 UTC).
    pub date_accessed: Option<String>,
    /// File attributes string.
    pub attributes: Option<String>,
    /// File extension.
    pub extension: Option<String>,
    /// Number of times this file has been run (launched).
    pub run_count: Option<u32>,
    /// Last run date (ISO 8601 UTC).
    pub date_run: Option<String>,
}

/// A page of search results.
pub struct SearchResults {
    /// The result items in this page.
    pub results: Vec<SearchResult>,
    /// Total number of matching items (may be larger than `results.len()`).
    pub total: u64,
    /// Number of results returned in this page (equals `results.len()`).
    pub returned: usize,
    /// The offset used for this page (0 for the first page).
    pub offset: u32,
    /// Information about any automatic exclusions applied to the query.
    pub note: String,
}

/// FILETIME of the Unix epoch (100 ns intervals since 1601-01-01).
pub const FILETIME_EPOCH: u64 = 116_444_736_000_000_000;

/// `YYYY-MM-DDTHH:MM:SSZ` for Unix second `secs` (UTC).
pub open spec fn rfc3339(secs: nat) -> Seq<char> {
    let sod = secs % 86400;
    let ys = year_split((secs / 86400) as int, 1970);
    let ms = month_split(ys.1, ys.0, 1);
    zpad(ys.0 as nat, 4) + seq!['-'] + zpad(ms.0 as nat, 2) + seq!['-'] + zpad((ms.1 + 1) as nat, 2)
        + seq!['T'] + zpad(sod / 3600, 2) + seq![':'] + zpad((sod % 3600) / 60, 2) + seq![':']
        + zpad(sod % 60, 2) + seq!['Z']
}

fn leap(y: u64) -> (r: bool)
    ensures
        r == crate::dates::spec_is_leap(y as int),
{
    (y % 4 == 0 && y % 100 != 0) || y % 400 == 0
}

fn year_days(y: u64) -> (r: u64)
    ensures
        r == crate::dates::year_len(y as int),
{
    if leap(y) {
        366
    } else {
        365
    }
}

fn month_len(y: u64, m: u64) -> (r: u64)
    requires
        1 <= m <= 12,
    ensures
        r == crate::dates::spec_days_in_month(y as int, m as int),
{
    if m == 2 {
        if leap(y) {
            29
        } else {
            28
        }
    } else if m == 4 || m == 6 || m == 9 || m == 11 {
        30
    } else {
        31
    }
}

/// Format a Unix timestamp (whole seconds) as an RFC 3339 UTC string, such as
/// `2024-01-15T10:30:00Z`.
pub fn unix_timestamp_to_rfc3339(secs: u64) -> (r: String)
    ensures
        r@ == rfc3339(secs as nat),
{
    let sod = secs % 86400;
    let mut days = secs / 86400;
    let hour = sod / 3600;
    let min = (sod % 3600) / 60;
    let sec = sod % 60;
    let ghost d0 = days as int;
    let mut year: u64 = 1970;
    while days >= year_days(year)
        invariant
            year >= 1970,
            days + 365 * (year - 1970) <= d0,
            d0 == secs as int / 86400,
            d0 <= u64::MAX / 86400,
            year_split(days as int, year as int) == year_split(d0, 1970),
        decreases days,
    {
        days -= year_days(year);
        year += 1;
    }
    proof {
        assert(year_split(days as int, year as int) == (year as int, days as int));
    }
    let mut month: u64 = 1;
    while month < 13 && days >= month_len(year, month)
        invariant
            1 <= month <= 13,
            days < 366,
            month_split(days as int, year as int, month as int) == month_split(
                year_split(d0, 1970).1,
                year as int,
                1,
            ),
            year_split(d0, 1970) == (year as int, year_split(d0, 1970).1),
        decreases 13 - month,
    {
        days -= month_len(year, month);
        month += 1;
    }
    proof {
        assert(month_split(days as int, year as int, month as int) == (month as int, days as int));
    }
    let mut out: Vec<char> = Vec::new();
    push_padded(&mut out, year, 4);
    out.push('-');
    push_padded(&mut out, month, 2);
    out.push('-');
    push_padded(&mut out, days + 1, 2);
    out.push('T');
    push_padded(&mut out, hour, 2);
    out.push(':');
    push_padded(&mut out, min, 2);
    out.push(':');
    push_padded(&mut out, sec, 2);
    out.push('Z');
    proof {
        assert(out@ =~= rfc3339(secs as nat));
    }
    crate::text::string_from_chars(&out)
}

/// Convert a FILETIME (100 ns since 1601-01-01) to an RFC 3339 UTC string;
/// `None` for zero and for times before 1970.
pub fn ns100_to_iso_string(ns100: u64) -> (r: Option<String>)
    ensures
        match r {
            Some(s) => ns100 >= FILETIME_EPOCH && ns100 != 0 && s@ == rfc3339(
                ((ns100 - FILETIME_EPOCH) / 10_000_000) as nat,
            ),
            None => ns100 == 0 || ns100 < FILETIME_EPOCH,
        },
{
    if ns100 == 0 {
        return None;
    }
    if ns100 < FILETIME_EPOCH {
        return None;
    }
    let unix_secs = (ns100 - FILETIME_EPOCH) / 10_000_000;
    Some(unix_timestamp_to_rfc3339(unix_secs))
}

/// `c` when bit `m` of `a` is set.
pub open spec fn flag(a: u32, m: u32, c: char) -> Seq<char> {
    if (a / m) % 2 == 1 {
        seq![c]
    } else {
        Seq::empty()
    }
}

/// Letters of the set attribute flags in the order A R H S D T P C O I E, or
/// `-` when none is set.
pub open spec fn attr_letters(a: u32) -> Seq<char> {
    let s = flag(a, 0x20, 'A') + flag(a, 0x1, 'R') + flag(a, 0x2, 'H') + flag(a, 0x4, 'S') + flag(
        a,
        0x10,
        'D',
    ) + flag(a, 0x100, 'T') + flag(a, 0x400, 'P') + flag(a, 0x800, 'C') + flag(a, 0x1000, 'O')
        + flag(a, 0x2000, 'I') + flag(a, 0x4000, 'E');
    if s.len() == 0 {
        seq!['-']
    } else {
        s
    }
}

fn push_flag(out: &mut Vec<char>, a: u32, m: u32, c: char)
    requires
        m > 0,
    ensures
        final(out)@ == old(out)@ + flag(a, m, c),
{
    if (a / m) % 2 == 1 {
        out.push(c);
    }
    proof {
        assert(out@ =~= old(out)@ + flag(a, m, c));
    }
}

/// Format file attributes as letters (e.g. `"AR"`), `"-"` for none.
pub fn format_attributes(attrs: u32) -> (r: String)
    ensures
        r@ == attr_letters(attrs),
{
    let mut s: Vec<char> = Vec::new();
    push_flag(&mut s, attrs, 0x20, 'A');
    push_flag(&mut s, attrs, 0x1, 'R');
    push_flag(&mut s, attrs, 0x2, 'H');
    push_flag(&mut s, attrs, 0x4, 'S');
    push_flag(&mut s, attrs, 0x10, 'D');
    push_flag(&mut s, attrs, 0x100, 'T');
    push_flag(&mut s, attrs, 0x400, 'P');
    push_flag(&mut s, attrs, 0x800, 'C');
    push_flag(&mut s, attrs, 0x1000, 'O');
    push_flag(&mut s, attrs, 0x2000, 'I');
    push_flag(&mut s, attrs, 0x4000, 'E');
    proof {
        assert(s@ =~= attr_letters(attrs) || s@.len() == 0);
    }
    if s.len() == 0 {
        s.push('-');
    }
    proof {
        assert(s@ =~= attr_letters(attrs));
    }
    crate::text::string_from_chars(&s)
}

} // verus!
