//! Request handling for the indexer's IPC protocol.
//!
//! The transport (a Windows named pipe or a Unix socket) reads one JSON
//! request per connection and writes one JSON response. Decoding and encoding
//! happen at that edge; this module decides, for a decoded request, what the
//! answer is.
use vstd::prelude::*;
use crate::content::{ContentFile, ContentStore, matching_keys};
use crate::content_terms::{extract_content_terms, spec_extract_content_terms};
use crate::filter::{matched_indices, opt_text};
use crate::index::{ChangeEvent, FileIndex, by_reasons, cap, newer_than};
use crate::query::{AggregateOptions, AggregateResult, QueryOptions, QueryResult, strings_view};
use crate::search::search_result_ok;
use crate::aggregate::{aggregate_ok, agg_query_opts};
use crate::seqs::eq_lit;
use crate::text::chars_of;

verus! {

/// The methods a client may call.
#[derive(Debug, Clone, Copy, PartialEq, Eq, Structural)]
pub enum Method {
    Ping,
    Status,
    Count,
    Search,
    Aggregate,
    RecentChanges,
    Unknown,
}

/// The method a request names.
pub open spec fn spec_method(name: Seq<char>) -> Method {
    if name == "ping"@ {
        Method::Ping
    } else if name == "status"@ {
        Method::Status
    } else if name == "count"@ {
        Method::Count
    } else if name == "search"@ {
        Method::Search
    } else if name == "aggregate"@ {
        Method::Aggregate
    } else if name == "recent_changes"@ {
        Method::RecentChanges
    } else {
        Method::Unknown
    }
}

/// Map a request's method name to the method it calls.
pub fn parse_method(name: &str) -> (r: Method)
    ensures
        r == spec_method(name@),
{
    let s = chars_of(name);
    if eq_lit(&s, "ping") {
        Method::Ping
    } else if eq_lit(&s, "status") {
        Method::Status
    } else if eq_lit(&s, "count") {
        Method::Count
    } else if eq_lit(&s, "search") {
        Method::Search
    } else if eq_lit(&s, "aggregate") {
        Method::Aggregate
    } else if eq_lit(&s, "recent_changes") {
        Method::RecentChanges
    } else {
        Method::Unknown
    }
}

/// A decoded request.
pub enum Request {
    Ping,
    Status,
    Count(QueryOptions),
    Search(QueryOptions),
    Aggregate(AggregateOptions),
    /// Changes newer than `since`, at most `limit` (0: all), with the
    /// reasons the comma-separated `reasons` names (all where it names none).
    RecentChanges { since: i64, limit: usize, reasons: Option<String> },
    /// A known method whose parameters could not be decoded.
    BadParams,
    /// A method name that is not part of the protocol.
    Unknown,
}

/// Why a request was refused.
#[derive(Debug, Clone, Copy, PartialEq, Eq, Structural)]
pub enum ProtocolError {
    BadParams,
    UnknownMethod,
}

impl ProtocolError {
    /// The error text sent to the client.
    pub fn message(&self) -> (r: &'static str)
        ensures
            r@ == (match *self {
                ProtocolError::BadParams => "bad params"@,
                ProtocolError::UnknownMethod => "unknown method"@,
            }),
    {
        match self {
            ProtocolError::BadParams => "bad params",
            ProtocolError::UnknownMethod => "unknown method",
        }
    }
}

/// The answer to a request.
pub enum Response {
    Pong,
    Status { indexed: usize, volumes: Vec<String> },
    Count { total: usize },
    Search(QueryResult),
    Aggregate(AggregateResult),
    Changes(Vec<ChangeEvent>),
    Failed(ProtocolError),
}

impl Response {
    /// Whether the response reports success.
    pub fn is_ok(&self) -> (r: bool)
        ensures
            r == !(self is Failed),
    {
        match self {
            Response::Failed(_) => false,
            _ => true,
        }
    }
}

/// What the content filter makes of a query: the query without its
/// `content:` terms, and the lowercase paths allowed (none when the query
/// names no content term).
pub open spec fn content_filter(files: Seq<ContentFile>, query: Seq<char>) -> (
    Seq<char>,
    Option<Seq<Seq<char>>>,
) {
    let parts = spec_extract_content_terms(query);
    if parts.1.len() == 0 {
        (parts.0, None)
    } else {
        (parts.0, Some(matching_keys(files, parts.1)))
    }
}

pub open spec fn opt_strings_view(o: Option<Vec<String>>) -> Option<Seq<Seq<char>>> {
    match o {
        Some(v) => Some(strings_view(v@)),
        None => None,
    }
}

/// `new` is `old` with the content filter applied: the query and the allowed
/// paths replaced, every other option kept.
pub open spec fn content_filtered(files: Seq<ContentFile>, old: QueryOptions, new: QueryOptions) -> bool {
    &&& new.query@ == content_filter(files, old.query@).0
    &&& opt_strings_view(new.content_paths) == content_filter(files, old.query@).1
    &&& new.path == old.path
    &&& new.exclude_path == old.exclude_path
    &&& new.include_all == old.include_all
    &&& new.match_path == old.match_path
    &&& new.regex == old.regex
    &&& new.match_case == old.match_case
    &&& new.match_whole_word == old.match_whole_word
    &&& new.max_results == old.max_results
    &&& new.offset == old.offset
    &&& new.sort == old.sort
}

/// The aggregate counterpart of [`content_filtered`].
pub open spec fn content_filtered_agg(
    files: Seq<ContentFile>,
    old: AggregateOptions,
    new: AggregateOptions,
) -> bool {
    &&& new.query@ == content_filter(files, old.query@).0
    &&& opt_strings_view(new.content_paths) == content_filter(files, old.query@).1
    &&& new.path == old.path
    &&& new.exclude_path == old.exclude_path
    &&& new.include_all == old.include_all
    &&& new.match_path == old.match_path
    &&& new.regex == old.regex
    &&& new.match_case == old.match_case
    &&& new.match_whole_word == old.match_whole_word
    &&& new.top == old.top
}

/// Strip the `content:` terms from `opts.query` and restrict the search to
/// the paths whose stored content holds every needle.
pub fn apply_content_filter(store: &ContentStore, opts: &mut QueryOptions)
    requires
        store.wf(),
    ensures
        content_filtered(store.files_view(), *old(opts), *final(opts)),
{
    let parts = extract_content_terms(opts.query.as_str());
    let (query, needles) = parts;
    opts.query = query;
    if needles.len() == 0 {
        opts.content_paths = None;
        return;
    }
    let paths = store.matching_paths(needles.as_slice());
    opts.content_paths = Some(paths);
}

fn clone_strings(v: &Vec<String>) -> (r: Vec<String>)
    ensures
        strings_view(r@) == strings_view(v@),
{
    let mut out: Vec<String> = Vec::new();
    let mut i: usize = 0;
    while i < v.len()
        invariant
            i <= v@.len(),
            strings_view(out@) == strings_view(v@).take(i as int),
        decreases v@.len() - i,
    {
        let ghost before = strings_view(out@);
        out.push(v[i].clone());
        proof {
            assert(strings_view(out@) =~= before.push(v@[i as int]@));
            assert(strings_view(v@).take(i as int + 1) =~= strings_view(v@).take(i as int).push(
                v@[i as int]@,
            ));
        }
        i += 1;
    }
    proof {
        assert(strings_view(v@).take(v@.len() as int) =~= strings_view(v@));
    }
    out
}

/// Answer one request against the index and the content store.
///
/// Searches and counts see the query with its content terms resolved against
/// the content store; they are evaluated at the current time.
pub fn handle(index: &FileIndex, content: &ContentStore, volumes: &Vec<String>, req: Request) -> (r:
    Response)
    requires
        index.wf(),
        content.wf(),
    ensures
        req is Ping ==> r is Pong,
        req is Status ==> (r matches Response::Status { indexed, volumes: v } && indexed
            == index.entries_view().len() && strings_view(v@) == strings_view(volumes@)),
        req matches Request::Count(o) ==> (r matches Response::Count { total } && exists|
            f: QueryOptions,
            now: i64,
        |
            content_filtered(content.files_view(), o, f) && total == matched_indices(
                index.entries_view(),
                f,
                now,
                index.offset_view(),
            ).len()),
        req matches Request::Search(o) ==> (r matches Response::Search(qr) && exists|
            f: QueryOptions,
            now: i64,
        |
            #![trigger search_result_ok(index.entries_view(), f, now, index.offset_view(), qr)]
            content_filtered(content.files_view(), o, f) && search_result_ok(
                index.entries_view(),
                f,
                now,
                index.offset_view(),
                qr,
            )),
        req matches Request::Aggregate(o) ==> (r matches Response::Aggregate(ar) && exists|
            f: AggregateOptions,
            now: i64,
        |
            content_filtered_agg(content.files_view(), o, f) && aggregate_ok(
                index.entries_view(),
                f,
                matched_indices(index.entries_view(), agg_query_opts(f), now, index.offset_view()),
                ar,
            )),
        req matches Request::RecentChanges { since, limit, reasons } ==> (r matches Response::Changes(
            c,
        ) && c@ == cap(by_reasons(newer_than(index.changes_view(), since), opt_text(reasons)), limit)),
        req is BadParams ==> r == Response::Failed(ProtocolError::BadParams),
        req is Unknown ==> r == Response::Failed(ProtocolError::UnknownMethod),
{
    match req {
        Request::Ping => Response::Pong,
        Request::Status => Response::Status { indexed: index.len(), volumes: clone_strings(volumes) },
        Request::Count(o) => {
            let mut f = o;
            apply_content_filter(content, &mut f);
            let qr = index.search(&f);
            let total = qr.total;
            proof {
                let now = choose|now: i64| search_result_ok(index.entries_view(), f, now, index.offset_view(), qr);
                assert(content_filtered(content.files_view(), o, f) && total == matched_indices(
                    index.entries_view(),
                    f,
                    now,
                    index.offset_view(),
                ).len());
            }
            Response::Count { total }
        },
        Request::Search(o) => {
            let mut f = o;
            apply_content_filter(content, &mut f);
            let qr = index.search(&f);
            proof {
                let now = choose|now: i64| search_result_ok(index.entries_view(), f, now, index.offset_view(), qr);
                assert(content_filtered(content.files_view(), o, f) && search_result_ok(
                    index.entries_view(),
                    f,
                    now,
                    index.offset_view(),
                    qr,
                ));
                assert(exists|f2: QueryOptions, now2: i64|
                    #![trigger search_result_ok(index.entries_view(), f2, now2, index.offset_view(), qr)]
                    content_filtered(content.files_view(), o, f2) && search_result_ok(
                        index.entries_view(),
                        f2,
                        now2,
                        index.offset_view(),
                        qr,
                    ));
            }
            let r = Response::Search(qr);
            assert(r matches Response::Search(qr2) && qr2 == qr);
            r
        },
        Request::Aggregate(o) => {
            let mut a = o;
            let mut q = QueryOptions::default();
            q.query = a.query.clone();
            apply_content_filter(content, &mut q);
            a.query = q.query;
            a.content_paths = q.content_paths;
            let ar = index.aggregate(&a);
            proof {
                let now = choose|now: i64|
                    aggregate_ok(
                        index.entries_view(),
                        a,
                        matched_indices(index.entries_view(), agg_query_opts(a), now, index.offset_view()),
                        ar,
                    );
                assert(content_filtered_agg(content.files_view(), o, a) && aggregate_ok(
                    index.entries_view(),
                    a,
                    matched_indices(index.entries_view(), agg_query_opts(a), now, index.offset_view()),
                    ar,
                ));
            }
            Response::Aggregate(ar)
        },
        Request::RecentChanges { since, limit, reasons } => Response::Changes(
            index.recent_changes_filtered(since, limit, &reasons),
        ),
        Request::BadParams => Response::Failed(ProtocolError::BadParams),
        Request::Unknown => Response::Failed(ProtocolError::UnknownMethod),
    }
}

} // verus!
