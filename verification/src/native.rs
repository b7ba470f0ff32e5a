//! The MCP server's side of the native indexer protocol: the options sent for
//! each tool, and the results built from the indexer's answers. The pipe
//! exchange itself is the application's part.
use vstd::prelude::*;
use crate::everything::{attr_letters, format_attributes, iso_of};
use crate::index::ChangeEvent;
use crate::query::{AggregateOptions, QueryOptions};
use crate::results::{SearchResult, SearchResults, ns100_to_iso_string};
use crate::tools::{AggregateParams, CountParams, RecentChangesParams, SearchParams, sort_token};
use crate::types::{clone_opt_string, opt_view, rfind_char, rfind_char_exec};
use crate::text::{chars_of, slice_chars, string_from_chars};

verus! {

pub open spec fn or_false(o: Option<bool>) -> bool {
    match o {
        Some(b) => b,
        None => false,
    }
}

/// Page size sent for a search: 100 when unset or 0 (an unlimited answer may
/// not fit the pipe), else the requested size.
pub open spec fn page_size(m: Option<u32>) -> usize {
    match m {
        Some(n) => if n == 0 {
            100
        } else {
            n as usize
        },
        None => 100,
    }
}

/// The indexer options for a `find_files` call.
pub fn options_from_search(params: &SearchParams) -> (r: QueryOptions)
    ensures
        r.query@ == params.query@,
        opt_view(r.path) == opt_view(params.path),
        opt_view(r.exclude_path) == opt_view(params.exclude_path),
        r.include_all == or_false(params.include_all),
        r.regex == or_false(params.regex),
        r.match_case == or_false(params.match_case),
        r.match_whole_word == or_false(params.match_whole_word),
        r.match_path == or_false(params.match_path),
        r.max_results == page_size(params.max_results),
        r.offset == (match params.offset {
            Some(o) => o as usize,
            None => 0,
        }),
        opt_view(r.sort) == (match params.sort {
            Some(s) => Some(sort_token(s)),
            None => None,
        }),
        r.content_paths is None,
{
    let max_results: usize = match params.max_results {
        Some(n) => if n == 0 {
            100
        } else {
            n as usize
        },
        None => 100,
    };
    let sort = match params.sort {
        Some(s) => Some(s.as_str().to_owned()),
        None => None,
    };
    QueryOptions {
        query: params.query.clone(),
        path: clone_opt_string(&params.path),
        exclude_path: clone_opt_string(&params.exclude_path),
        include_all: or_false_exec(params.include_all),
        match_path: or_false_exec(params.match_path),
        regex: or_false_exec(params.regex),
        match_case: or_false_exec(params.match_case),
        match_whole_word: or_false_exec(params.match_whole_word),
        max_results,
        offset: match params.offset {
            Some(o) => o as usize,
            None => 0,
        },
        sort,
        content_paths: None,
    }
}

fn or_false_exec(o: Option<bool>) -> (r: bool)
    ensures
        r == or_false(o),
{
    match o {
        Some(b) => b,
        None => false,
    }
}

/// The indexer options for a `count_files` call: no page, no sort.
pub fn options_from_count(params: &CountParams) -> (r: QueryOptions)
    ensures
        r.query@ == params.query@,
        opt_view(r.path) == opt_view(params.path),
        opt_view(r.exclude_path) == opt_view(params.exclude_path),
        r.include_all == or_false(params.include_all),
        r.regex == or_false(params.regex),
        r.match_case == or_false(params.match_case),
        r.match_whole_word == or_false(params.match_whole_word),
        !r.match_path,
        r.max_results == 0,
        r.offset == 0,
        r.sort is None,
        r.content_paths is None,
{
    QueryOptions {
        query: params.query.clone(),
        path: clone_opt_string(&params.path),
        exclude_path: clone_opt_string(&params.exclude_path),
        include_all: or_false_exec(params.include_all),
        match_path: false,
        regex: or_false_exec(params.regex),
        match_case: or_false_exec(params.match_case),
        match_whole_word: or_false_exec(params.match_whole_word),
        max_results: 0,
        offset: 0,
        sort: None,
        content_paths: None,
    }
}

/// The indexer options for an `aggregate_files` call (20 largest by default).
pub fn options_from_aggregate(params: &AggregateParams) -> (r: AggregateOptions)
    ensures
        r.query@ == params.query@,
        opt_view(r.path) == opt_view(params.path),
        opt_view(r.exclude_path) == opt_view(params.exclude_path),
        r.include_all == or_false(params.include_all),
        r.regex == or_false(params.regex),
        r.match_case == or_false(params.match_case),
        r.match_whole_word == or_false(params.match_whole_word),
        !r.match_path,
        r.top == (match params.top {
            Some(t) => t as usize,
            None => 20,
        }),
        r.content_paths is None,
{
    AggregateOptions {
        query: params.query.clone(),
        path: clone_opt_string(&params.path),
        exclude_path: clone_opt_string(&params.exclude_path),
        include_all: or_false_exec(params.include_all),
        match_path: false,
        regex: or_false_exec(params.regex),
        match_case: or_false_exec(params.match_case),
        match_whole_word: or_false_exec(params.match_whole_word),
        top: match params.top {
            Some(t) => t as usize,
            None => 20,
        },
        content_paths: None,
    }
}

/// FILETIME ticks (100 ns) in an hour.
pub const FILETIME_HOUR: i64 = 36_000_000_000;

/// The `since` sent for a `recent_changes` call at FILETIME `now`: `hours`
/// before `now` when `hours` is given (not before 0), else `since`, else 0.
pub open spec fn recent_since(params: RecentChangesParams, now: i64) -> i64 {
    match params.hours {
        Some(h) => if now - h * 36_000_000_000 < 0 {
            0
        } else {
            (now - h * 36_000_000_000) as i64
        },
        None => match params.since {
            Some(s) => s,
            None => 0,
        },
    }
}

/// The `limit` sent for a `recent_changes` call: 100 when unset.
pub open spec fn recent_limit(params: RecentChangesParams) -> usize {
    match params.limit {
        Some(l) => l,
        None => 100,
    }
}

/// The `since` and `limit` sent for a `recent_changes` call made at FILETIME
/// `now`.
pub fn options_from_recent_at(params: &RecentChangesParams, now: i64) -> (r: (i64, usize))
    ensures
        r.0 == recent_since(*params, now),
        r.1 == recent_limit(*params),
{
    let since = match params.hours {
        Some(h) => {
            let back: i128 = h as i128 * FILETIME_HOUR as i128;
            let t: i128 = now as i128 - back;
            if t < 0 {
                0
            } else {
                t as i64
            }
        },
        None => match params.since {
            Some(s) => s,
            None => 0,
        },
    };
    let limit = match params.limit {
        Some(l) => l,
        None => 100,
    };
    (since, limit)
}

/// The current time as a FILETIME, held within the range of `i64`.
fn filetime_now() -> (r: i64) {
    let unix = crate::clock::unix_now();
    let t: i128 = (unix as i128 + 11_644_473_600) * 10_000_000;
    if t > i64::MAX as i128 {
        i64::MAX
    } else if t < i64::MIN as i128 {
        i64::MIN
    } else {
        t as i64
    }
}

/// The `since` and `limit` sent for a `recent_changes` call, at the current
/// time.
pub fn options_from_recent(params: &RecentChangesParams) -> (r: (i64, usize))
    ensures
        exists|now: i64| r.0 == recent_since(*params, now),
        r.1 == recent_limit(*params),
        params.hours is None ==> r.0 == (match params.since {
            Some(s) => s,
            None => 0i64,
        }),
{
    let now = filetime_now();
    options_from_recent_at(params, now)
}

/// File name and parent directory of a full path, split at the last
/// backslash; a path without one is all name.
pub open spec fn spec_split_path(full: Seq<char>) -> (Seq<char>, Option<Seq<char>>) {
    let k = rfind_char(full, '\\');
    if k < 0 {
        (full, None)
    } else {
        (full.skip(k + 1), Some(full.take(k)))
    }
}

pub fn split_path(full: &str) -> (r: (String, Option<String>))
    ensures
        r.0@ == spec_split_path(full@).0,
        opt_view(r.1) == spec_split_path(full@).1,
{
    let v = chars_of(full);
    match rfind_char_exec(&v, '\\') {
        Some(i) => {
            let name = slice_chars(&v, i + 1, v.len());
            let dir = slice_chars(&v, 0, i);
            proof {
                assert(name@ =~= v@.skip(i as int + 1));
                assert(dir@ =~= v@.take(i as int));
            }
            (string_from_chars(&name), Some(string_from_chars(&dir)))
        },
        None => (string_from_chars(&v), None),
    }
}

/// One entry of the indexer's `search` answer, as decoded.
pub struct NativeEntry {
    pub path: Option<String>,
    pub size: Option<u64>,
    pub created: Option<i64>,
    pub modified: Option<i64>,
    pub accessed: Option<i64>,
    pub is_dir: Option<bool>,
    pub extension: Option<String>,
}

pub open spec fn ts_iso(t: Option<i64>) -> Option<Seq<char>> {
    match t {
        Some(v) => iso_of(Some(v as u64)),
        None => None,
    }
}

fn ts_iso_exec(t: Option<i64>) -> (r: Option<String>)
    ensures
        opt_view(r) == ts_iso(t),
{
    match t {
        Some(v) => ns100_to_iso_string(v as u64),
        None => None,
    }
}

/// The result record for one indexer entry.
pub open spec fn entry_result_ok(e: NativeEntry, r: SearchResult) -> bool {
    let full = match e.path {
        Some(p) => p@,
        None => Seq::<char>::empty(),
    };
    &&& r.filename@ == spec_split_path(full).0
    &&& opt_view(r.path) == spec_split_path(full).1
    &&& r.size == e.size
    &&& opt_view(r.date_modified) == ts_iso(e.modified)
    &&& opt_view(r.date_created) == ts_iso(e.created)
    &&& opt_view(r.date_accessed) == ts_iso(e.accessed)
    &&& opt_view(r.attributes) == (if e.is_dir == Some(true) {
        Some(attr_letters(0x10))
    } else {
        None
    })
    &&& opt_view(r.extension) == opt_view(e.extension)
    &&& r.run_count is None
    &&& opt_view(r.date_run) == None::<Seq<char>>
}

fn entry_result(e: &NativeEntry) -> (r: SearchResult)
    ensures
        entry_result_ok(*e, r),
{
    let full = match &e.path {
        Some(p) => p.clone(),
        None => String::new(),
    };
    let (filename, path) = split_path(full.as_str());
    let attributes = match e.is_dir {
        Some(true) => Some(format_attributes(0x10)),
        _ => None,
    };
    SearchResult {
        filename,
        path,
        size: e.size,
        date_modified: ts_iso_exec(e.modified),
        date_created: ts_iso_exec(e.created),
        date_accessed: ts_iso_exec(e.accessed),
        attributes,
        extension: clone_opt_string(&e.extension),
        run_count: None,
        date_run: None,
    }
}

/// An indexer answer that lacks what the tool needs.
#[derive(Debug, Clone, Copy, PartialEq, Eq, Structural)]
pub enum NativeError {
    /// A `search` answer without its `total`.
    SearchMissingTotal,
    /// A `count` answer without its `total`.
    CountMissingTotal,
}

impl NativeError {
    pub fn message(&self) -> (r: &'static str)
        ensures
            r@ == (match *self {
                NativeError::SearchMissingTotal => "native search: missing total"@,
                NativeError::CountMissingTotal => "native count: missing total"@,
            }),
    {
        match self {
            NativeError::SearchMissingTotal => "native search: missing total",
            NativeError::CountMissingTotal => "native count: missing total",
        }
    }
}

/// The page of results built from a decoded `search` answer: its total, its
/// note (empty when absent) and its entries; `offset` is the caller's.
pub fn search(total: Option<u64>, note: Option<String>, entries: &Vec<NativeEntry>, offset: Option<u32>) -> (r:
    Result<SearchResults, NativeError>)
    ensures
        total is None <==> r is Err,
        r is Err ==> r == Err::<SearchResults, NativeError>(NativeError::SearchMissingTotal),
        r matches Ok(res) ==> {
            &&& res.total == total->0
            &&& res.note@ == (match note {
                Some(n) => n@,
                None => Seq::<char>::empty(),
            })
            &&& res.results@.len() == entries@.len()
            &&& forall|k: int|
                0 <= k < entries@.len() ==> entry_result_ok(entries@[k], #[trigger] res.results@[k])
            &&& res.returned == res.results@.len()
            &&& res.offset == (match offset {
                Some(o) => o,
                None => 0,
            })
        },
{
    let total = match total {
        Some(t) => t,
        None => {
            return Err(NativeError::SearchMissingTotal);
        },
    };
    let note = match note {
        Some(n) => n,
        None => String::new(),
    };
    let mut results: Vec<SearchResult> = Vec::new();
    let mut k: usize = 0;
    while k < entries.len()
        invariant
            k <= entries@.len(),
            results@.len() == k,
            forall|q: int| 0 <= q < k ==> entry_result_ok(entries@[q], #[trigger] results@[q]),
        decreases entries@.len() - k,
    {
        results.push(entry_result(&entries[k]));
        k += 1;
    }
    let returned = results.len();
    Ok(SearchResults {
        results,
        total,
        returned,
        offset: match offset {
            Some(o) => o,
            None => 0,
        },
        note,
    })
}

/// The count and note of a decoded `count` answer (empty note when absent).
pub fn count(total: Option<u64>, note: Option<String>) -> (r: Result<(u64, String), NativeError>)
    ensures
        match total {
            Some(t) => (r matches Ok(x) && x.0 == t && x.1@ == (match note {
                Some(n) => n@,
                None => Seq::<char>::empty(),
            })),
            None => r == Err::<(u64, String), NativeError>(NativeError::CountMissingTotal),
        },
{
    match total {
        Some(t) => Ok(
            (
                t,
                match note {
                    Some(n) => n,
                    None => String::new(),
                },
            ),
        ),
        None => Err(NativeError::CountMissingTotal),
    }
}

/// The change events of a `recent_changes` answer.
pub struct RecentChanges {
    pub changes: Vec<ChangeEvent>,
}

} // verus!
