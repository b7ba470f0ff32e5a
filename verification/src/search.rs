//! `search`: filter the entries, sort them by the requested order and cut
//! out the requested page.

use vstd::prelude::*;
use vstd::string::StringSliceAdditionalSpecFns;
use vstd::utf8::encode_utf8;

use crate::dates::sane_time;
use crate::filter::{filter_at, matched_indices, usizes_view};
use crate::query::{QueryOptions, QueryResult};
use crate::sort::{in_range, key_order, lex_order, merge_sort, sorted_by_keys, uniform_desc, KeyV, SortKey};
use crate::text::chars_of;
use crate::types::{opt_view, IndexedFile};
use crate::wildcard::{lower_byte, to_lower_byte};

verus! {

broadcast use vstd::seq_lib::group_seq_properties;

/// Result orders of `search`.
#[derive(Debug, Clone, Copy, PartialEq, Eq, Structural)]
pub enum SortKind {
    Name,
    NameDesc,
    Path,
    PathDesc,
    Size,
    SizeAsc,
    Modified,
    ModifiedAsc,
    Created,
    CreatedAsc,
    Accessed,
    AccessedAsc,
    Extension,
    ExtensionDesc,
}

/// The order a `sort` option names; name order when absent or unknown.
pub open spec fn spec_sort_kind(s: Option<Seq<char>>) -> SortKind {
    match s {
        None => SortKind::Name,
        Some(t) => if t == "name_desc"@ {
            SortKind::NameDesc
        } else if t == "path"@ {
            SortKind::Path
        } else if t == "path_desc"@ {
            SortKind::PathDesc
        } else if t == "size"@ {
            SortKind::Size
        } else if t == "size_asc"@ {
            SortKind::SizeAsc
        } else if t == "date_modified"@ {
            SortKind::Modified
        } else if t == "date_modified_asc"@ {
            SortKind::ModifiedAsc
        } else if t == "date_created"@ {
            SortKind::Created
        } else if t == "date_created_asc"@ {
            SortKind::CreatedAsc
        } else if t == "date_accessed"@ {
            SortKind::Accessed
        } else if t == "date_accessed_asc"@ {
            SortKind::AccessedAsc
        } else if t == "extension"@ {
            SortKind::Extension
        } else if t == "extension_desc"@ {
            SortKind::ExtensionDesc
        } else {
            SortKind::Name
        },
    }
}

pub fn sort_kind(s: &Option<String>) -> (r: SortKind)
    ensures
        r == spec_sort_kind(opt_view(*s)),
{
    match s {
        None => SortKind::Name,
        Some(t) => {
            let v = chars_of(t.as_str());
            if crate::seqs::eq_lit(&v, "name_desc") {
                SortKind::NameDesc
            } else if crate::seqs::eq_lit(&v, "path") {
                SortKind::Path
            } else if crate::seqs::eq_lit(&v, "path_desc") {
                SortKind::PathDesc
            } else if crate::seqs::eq_lit(&v, "size") {
                SortKind::Size
            } else if crate::seqs::eq_lit(&v, "size_asc") {
                SortKind::SizeAsc
            } else if crate::seqs::eq_lit(&v, "date_modified") {
                SortKind::Modified
            } else if crate::seqs::eq_lit(&v, "date_modified_asc") {
                SortKind::ModifiedAsc
            } else if crate::seqs::eq_lit(&v, "date_created") {
                SortKind::Created
            } else if crate::seqs::eq_lit(&v, "date_created_asc") {
                SortKind::CreatedAsc
            } else if crate::seqs::eq_lit(&v, "date_accessed") {
                SortKind::Accessed
            } else if crate::seqs::eq_lit(&v, "date_accessed_asc") {
                SortKind::AccessedAsc
            } else if crate::seqs::eq_lit(&v, "extension") {
                SortKind::Extension
            } else if crate::seqs::eq_lit(&v, "extension_desc") {
                SortKind::ExtensionDesc
            } else {
                SortKind::Name
            }
        },
    }
}

// ---------------------------------------------------------------------------
// Keys
// ---------------------------------------------------------------------------

/// ASCII-lowercased bytes (case-insensitive comparisons).
pub open spec fn lower_bytes(b: Seq<u8>) -> Seq<u8> {
    Seq::new(b.len(), |i: int| lower_byte(b[i]))
}

pub open spec fn ci_bytes(s: Seq<char>) -> Seq<u8> {
    lower_bytes(encode_utf8(s))
}

/// The extension as an ordering key: absent before present, present ones
/// by their bytes.
pub open spec fn ext_key(e: IndexedFile) -> Seq<u8> {
    match e.extension {
        None => Seq::empty(),
        Some(x) => seq![1u8] + encode_utf8(x@),
    }
}

/// The sort key of an entry: numbers descending unless `_asc`, ties by the
/// path (case-insensitively); names and paths case-insensitively, ties by
/// the path; extensions, ties by the name.
pub open spec fn entry_key(kind: SortKind, e: IndexedFile) -> KeyV {
    let name = ci_bytes(e.name@);
    let path = ci_bytes(e.path@);
    let none = Seq::<u8>::empty();
    match kind {
        SortKind::Name => KeyV { num: 0, first: name, first_desc: false, second: path },
        SortKind::NameDesc => KeyV { num: 0, first: name, first_desc: true, second: path },
        SortKind::Path => KeyV { num: 0, first: path, first_desc: false, second: none },
        SortKind::PathDesc => KeyV { num: 0, first: path, first_desc: true, second: none },
        SortKind::Size => KeyV { num: -(e.size as int), first: path, first_desc: false, second: none },
        SortKind::SizeAsc => KeyV { num: e.size as int, first: path, first_desc: false, second: none },
        SortKind::Modified => KeyV {
            num: -(e.modified as int),
            first: path,
            first_desc: false,
            second: none,
        },
        SortKind::ModifiedAsc => KeyV {
            num: e.modified as int,
            first: path,
            first_desc: false,
            second: none,
        },
        SortKind::Created => KeyV {
            num: -(e.created as int),
            first: path,
            first_desc: false,
            second: none,
        },
        SortKind::CreatedAsc => KeyV {
            num: e.created as int,
            first: path,
            first_desc: false,
            second: none,
        },
        SortKind::Accessed => KeyV {
            num: -(e.accessed as int),
            first: path,
            first_desc: false,
            second: none,
        },
        SortKind::AccessedAsc => KeyV {
            num: e.accessed as int,
            first: path,
            first_desc: false,
            second: none,
        },
        SortKind::Extension => KeyV { num: 0, first: ext_key(e), first_desc: false, second: name },
        SortKind::ExtensionDesc => KeyV { num: 0, first: ext_key(e), first_desc: true, second: name },
    }
}

pub open spec fn kind_desc(kind: SortKind) -> bool {
    kind == SortKind::NameDesc || kind == SortKind::PathDesc || kind == SortKind::ExtensionDesc
}

pub fn lower_bytes_exec(b: &[u8]) -> (r: Vec<u8>)
    ensures
        r@ == lower_bytes(b@),
{
    let mut r: Vec<u8> = Vec::new();
    let mut i: usize = 0;
    while i < b.len()
        invariant
            i <= b.len(),
            r@ =~= lower_bytes(b@.take(i as int)),
        decreases b.len() - i,
    {
        r.push(to_lower_byte(b[i]));
        i += 1;
        assert(r@ =~= lower_bytes(b@.take(i as int)));
    }
    assert(b@.take(b.len() as int) =~= b@);
    r
}

fn ext_key_exec(e: &IndexedFile) -> (r: Vec<u8>)
    ensures
        r@ == ext_key(*e),
{
    match &e.extension {
        None => Vec::new(),
        Some(x) => {
            let b = x.as_str().as_bytes();
            let mut r: Vec<u8> = Vec::new();
            r.push(1u8);
            let mut i: usize = 0;
            while i < b.len()
                invariant
                    i <= b.len(),
                    r@ =~= seq![1u8] + b@.take(i as int),
                decreases b.len() - i,
            {
                r.push(b[i]);
                i += 1;
                assert(r@ =~= seq![1u8] + b@.take(i as int));
            }
            assert(b@.take(b.len() as int) =~= b@);
            r
        },
    }
}

/// The sort key of one entry.
pub fn entry_key_exec(kind: SortKind, e: &IndexedFile) -> (r: SortKey)
    ensures
        r@ == entry_key(kind, *e),
{
    let name = lower_bytes_exec(e.name.as_str().as_bytes());
    let path = lower_bytes_exec(e.path.as_str().as_bytes());
    let size = e.size as i128;
    let m = e.modified as i128;
    let c = e.created as i128;
    let a = e.accessed as i128;
    match kind {
        SortKind::Name => SortKey { num: 0, first: name, first_desc: false, second: path },
        SortKind::NameDesc => SortKey { num: 0, first: name, first_desc: true, second: path },
        SortKind::Path => SortKey { num: 0, first: path, first_desc: false, second: Vec::new() },
        SortKind::PathDesc => SortKey { num: 0, first: path, first_desc: true, second: Vec::new() },
        SortKind::Size => SortKey { num: -size, first: path, first_desc: false, second: Vec::new() },
        SortKind::SizeAsc => SortKey { num: size, first: path, first_desc: false, second: Vec::new() },
        SortKind::Modified => SortKey { num: -m, first: path, first_desc: false, second: Vec::new() },
        SortKind::ModifiedAsc => SortKey { num: m, first: path, first_desc: false, second: Vec::new() },
        SortKind::Created => SortKey { num: -c, first: path, first_desc: false, second: Vec::new() },
        SortKind::CreatedAsc => SortKey { num: c, first: path, first_desc: false, second: Vec::new() },
        SortKind::Accessed => SortKey { num: -a, first: path, first_desc: false, second: Vec::new() },
        SortKind::AccessedAsc => SortKey {
            num: a,
            first: path,
            first_desc: false,
            second: Vec::new(),
        },
        SortKind::Extension => SortKey {
            num: 0,
            first: ext_key_exec(e),
            first_desc: false,
            second: name,
        },
        SortKind::ExtensionDesc => SortKey {
            num: 0,
            first: ext_key_exec(e),
            first_desc: true,
            second: name,
        },
    }
}

// ---------------------------------------------------------------------------
// Search
// ---------------------------------------------------------------------------

/// `[start, end)` of the page at `offset` holding at most `max` items
/// (0 = no limit) out of `n`.
pub open spec fn page_bounds(n: int, offset: int, max: int) -> (int, int) {
    let start = if offset < n {
        offset
    } else {
        n
    };
    let end = if max == 0 || start + max >= n {
        n
    } else {
        start + max
    };
    (start, end)
}

/// 0, 1, ..., n-1.
pub open spec fn positions(n: int) -> Seq<usize> {
    Seq::new(n as nat, |i: int| i as usize)
}

/// `order` arranges the `m` matches (positions into `entries`) by the keys
/// of `kind`.
pub open spec fn sorted_matches(
    entries: Seq<IndexedFile>,
    m: Seq<int>,
    order: Seq<usize>,
    kind: SortKind,
) -> bool {
    &&& order.to_multiset() == positions(m.len() as int).to_multiset()
    &&& forall|k: int| 0 <= k < order.len() ==> (#[trigger] order[k]) < m.len()
    &&& forall|p: int, q: int|
        0 <= p < q < order.len() ==> key_order(
            entry_key(kind, entries[m[#[trigger] order[p] as int]]),
            entry_key(kind, entries[m[#[trigger] order[q] as int]]),
        ) <= 0
}

/// The entries on the requested page of the sorted matches.
pub open spec fn page_of(
    entries: Seq<IndexedFile>,
    m: Seq<int>,
    order: Seq<usize>,
    offset: int,
    max: int,
) -> Seq<IndexedFile> {
    let (s, e) = page_bounds(order.len() as int, offset, max);
    Seq::new((e - s) as nat, |k: int| entries[m[order[s + k] as int]])
}

/// What `search` returns: the number of matches, and the requested page of
/// the matches sorted by the requested order (ties in any order).
pub open spec fn search_result_ok(
    entries: Seq<IndexedFile>,
    opts: QueryOptions,
    now: i64,
    offset: i64,
    r: QueryResult,
) -> bool {
    let m = matched_indices(entries, opts, now, offset);
    let kind = spec_sort_kind(opt_view(opts.sort));
    &&& r.total == m.len()
    &&& exists|order: Seq<usize>|
        sorted_matches(entries, m, order, kind) && r.entries@ == page_of(
            entries,
            m,
            order,
            opts.offset as int,
            opts.max_results as int,
        )
}

/// Search `entries` with the query evaluated at local time `now` and entry
/// times shifted by `offset` seconds.
pub fn search_at(entries: &[IndexedFile], opts: &QueryOptions, now: i64, offset: i64) -> (r:
    QueryResult)
    requires
        sane_time(offset as int),
    ensures
        search_result_ok(entries@, *opts, now, offset, r),
{
    let matched = filter_at(entries, opts, now, offset);
    let ghost m = matched_indices(entries@, *opts, now, offset);
    let kind = sort_kind(&opts.sort);
    let ghost desc = kind_desc(kind);
    let mut keys: Vec<SortKey> = Vec::new();
    let mut idx: Vec<usize> = Vec::new();
    let mut k: usize = 0;
    proof {
        assert(usizes_view(matched@).len() == matched.len());
    }
    while k < matched.len()
        invariant
            k <= matched.len(),
            usizes_view(matched@) == m,
            m.len() == matched.len(),
            forall|j: int| 0 <= j < matched.len() ==> #[trigger] matched@[j] < entries.len(),
            keys.len() == k,
            idx@ == positions(k as int),
            forall|j: int|
                0 <= j < k ==> (#[trigger] keys@[j])@ == entry_key(kind, entries@[m[j]]),
        decreases matched.len() - k,
    {
        proof {
            assert(m[k as int] == matched@[k as int] as int);
        }
        let key = entry_key_exec(kind, &entries[matched[k]]);
        keys.push(key);
        idx.push(k);
        k += 1;
        proof {
            assert(idx@ =~= positions(k as int));
        }
    }
    proof {
        assert(uniform_desc(keys@, desc)) by {
            assert forall|i: int| 0 <= i < keys.len() implies (#[trigger] keys@[i]).first_desc
                == desc by {
                assert(keys@[i]@ == entry_key(kind, entries@[m[i]]));
            }
        }
        assert(in_range(idx@, keys.len() as int));
    }
    let order = merge_sort(&keys, idx.as_slice(), Ghost(desc));
    let total = matched.len();
    let start = if opts.offset < total {
        opts.offset
    } else {
        total
    };
    let end = if opts.max_results == 0 || opts.max_results >= total - start {
        total
    } else {
        start + opts.max_results
    };
    let mut page: Vec<IndexedFile> = Vec::new();
    let mut p = start;
    proof {
        assert(order@.len() == total) by {
            assert(order@.to_multiset().len() == positions(total as int).to_multiset().len());
        }
    }
    while p < end
        invariant
            start <= p <= end <= total,
            order@.len() == total,
            m.len() == total,
            usizes_view(matched@) == m,
            forall|j: int| 0 <= j < matched.len() ==> #[trigger] matched@[j] < entries.len(),
            in_range(order@, total as int),
            page@ =~= Seq::new((p - start) as nat, |j: int| entries@[m[order@[start + j] as int]]),
        decreases end - p,
    {
        proof {
            assert(order@[p as int] < total);
            assert(m[order@[p as int] as int] == matched@[order@[p as int] as int] as int);
        }
        let e = entries[matched[order[p]]].duplicate();
        page.push(e);
        p += 1;
    }
    let r = QueryResult { total, entries: page };
    proof {
        let (s, e) = page_bounds(total as int, opts.offset as int, opts.max_results as int);
        assert(s == start && e == end);
        assert(sorted_matches(entries@, m, order@, kind)) by {
            assert forall|p: int, q: int| 0 <= p < q < order@.len() implies key_order(
                entry_key(kind, entries@[m[#[trigger] order@[p] as int]]),
                entry_key(kind, entries@[m[#[trigger] order@[q] as int]]),
            ) <= 0 by {
                assert(crate::sort::kle(keys@, order@[p], order@[q]));
                assert(keys@[order@[p] as int]@ == entry_key(kind, entries@[m[order@[p] as int]]));
                assert(keys@[order@[q] as int]@ == entry_key(kind, entries@[m[order@[q] as int]]));
            }
        }
        assert(r.entries@ == page_of(entries@, m, order@, opts.offset as int, opts.max_results as int));
    }
    r
}

/// Search `entries` at the current time (relative dates are evaluated in
/// UTC, entry times are taken as UTC).
pub fn search(entries: &[IndexedFile], opts: &QueryOptions) -> (r: QueryResult)
    ensures
        exists|now: i64| search_result_ok(entries@, *opts, now, 0, r),
{
    let now = crate::clock::unix_now();
    search_at(entries, opts, now, 0)
}

/// Search `entries` at the current time in a time zone `offset` seconds east
/// of UTC: relative dates and entry times are both read as local time.
pub fn search_local(entries: &[IndexedFile], opts: &QueryOptions, offset: i64) -> (r: QueryResult)
    requires
        sane_time(offset as int),
    ensures
        exists|now: i64| search_result_ok(entries@, *opts, now, offset, r),
{
    let now = crate::clock::local_now(offset);
    search_at(entries, opts, now, offset)
}

/// The sort tokens are distinct texts.
proof fn lemma_sort_tokens()
    ensures
        spec_sort_kind(Some("size"@)) == SortKind::Size,
        spec_sort_kind(Some("size_asc"@)) == SortKind::SizeAsc,
        spec_sort_kind(Some("date_modified"@)) == SortKind::Modified,
        spec_sort_kind(Some("date_modified_asc"@)) == SortKind::ModifiedAsc,
        spec_sort_kind(Some("date_created"@)) == SortKind::Created,
        spec_sort_kind(Some("date_created_asc"@)) == SortKind::CreatedAsc,
        spec_sort_kind(Some("date_accessed"@)) == SortKind::Accessed,
        spec_sort_kind(Some("date_accessed_asc"@)) == SortKind::AccessedAsc,
{
    broadcast use vstd::string::group_string_axioms;

    reveal_strlit("name_desc");
    reveal_strlit("path");
    reveal_strlit("path_desc");
    reveal_strlit("size");
    reveal_strlit("size_asc");
    reveal_strlit("date_modified");
    reveal_strlit("date_modified_asc");
    reveal_strlit("date_created");
    reveal_strlit("date_created_asc");
    reveal_strlit("date_accessed");
    reveal_strlit("date_accessed_asc");
    reveal_strlit("extension");
    reveal_strlit("extension_desc");
    assert(spec_sort_kind(Some("size"@)) == SortKind::Size) by {
        assert("size"@.len() != "name_desc"@.len());
        assert("size"@[0] != "path"@[0]);
        assert("size"@.len() != "path_desc"@.len());
    }
    assert(spec_sort_kind(Some("size_asc"@)) == SortKind::SizeAsc) by {
        assert("size_asc"@.len() != "name_desc"@.len());
        assert("size_asc"@.len() != "path"@.len());
        assert("size_asc"@.len() != "path_desc"@.len());
        assert("size_asc"@.len() != "size"@.len());
    }
    assert(spec_sort_kind(Some("date_modified"@)) == SortKind::Modified) by {
        assert("date_modified"@.len() != "name_desc"@.len());
        assert("date_modified"@.len() != "path"@.len());
        assert("date_modified"@.len() != "path_desc"@.len());
        assert("date_modified"@.len() != "size"@.len());
        assert("date_modified"@.len() != "size_asc"@.len());
    }
    assert(spec_sort_kind(Some("date_modified_asc"@)) == SortKind::ModifiedAsc) by {
        assert("date_modified_asc"@.len() != "name_desc"@.len());
        assert("date_modified_asc"@.len() != "path"@.len());
        assert("date_modified_asc"@.len() != "path_desc"@.len());
        assert("date_modified_asc"@.len() != "size"@.len());
        assert("date_modified_asc"@.len() != "size_asc"@.len());
        assert("date_modified_asc"@.len() != "date_modified"@.len());
    }
    assert(spec_sort_kind(Some("date_created"@)) == SortKind::Created) by {
        assert("date_created"@.len() != "name_desc"@.len());
        assert("date_created"@.len() != "path"@.len());
        assert("date_created"@.len() != "path_desc"@.len());
        assert("date_created"@.len() != "size"@.len());
        assert("date_created"@.len() != "size_asc"@.len());
        assert("date_created"@.len() != "date_modified"@.len());
        assert("date_created"@.len() != "date_modified_asc"@.len());
    }
    assert(spec_sort_kind(Some("date_created_asc"@)) == SortKind::CreatedAsc) by {
        assert("date_created_asc"@.len() != "name_desc"@.len());
        assert("date_created_asc"@.len() != "path"@.len());
        assert("date_created_asc"@.len() != "path_desc"@.len());
        assert("date_created_asc"@.len() != "size"@.len());
        assert("date_created_asc"@.len() != "size_asc"@.len());
        assert("date_created_asc"@.len() != "date_modified"@.len());
        assert("date_created_asc"@.len() != "date_modified_asc"@.len());
        assert("date_created_asc"@.len() != "date_created"@.len());
    }
    assert(spec_sort_kind(Some("date_accessed"@)) == SortKind::Accessed) by {
        assert("date_accessed"@.len() != "name_desc"@.len());
        assert("date_accessed"@.len() != "path"@.len());
        assert("date_accessed"@.len() != "path_desc"@.len());
        assert("date_accessed"@.len() != "size"@.len());
        assert("date_accessed"@.len() != "size_asc"@.len());
        assert("date_accessed"@[5] != "date_modified"@[5]);
        assert("date_accessed"@.len() != "date_modified_asc"@.len());
        assert("date_accessed"@.len() != "date_created"@.len());
        assert("date_accessed"@.len() != "date_created_asc"@.len());
    }
    assert(spec_sort_kind(Some("date_accessed_asc"@)) == SortKind::AccessedAsc) by {
        assert("date_accessed_asc"@.len() != "name_desc"@.len());
        assert("date_accessed_asc"@.len() != "path"@.len());
        assert("date_accessed_asc"@.len() != "path_desc"@.len());
        assert("date_accessed_asc"@.len() != "size"@.len());
        assert("date_accessed_asc"@.len() != "size_asc"@.len());
        assert("date_accessed_asc"@.len() != "date_modified"@.len());
        assert("date_accessed_asc"@[5] != "date_modified_asc"@[5]);
        assert("date_accessed_asc"@.len() != "date_created"@.len());
        assert("date_accessed_asc"@.len() != "date_created_asc"@.len());
        assert("date_accessed_asc"@.len() != "date_accessed"@.len());
    }
}

/// Two results of a page come in the order of their sort keys.
proof fn lemma_page_ordered(
    entries: Seq<IndexedFile>,
    opts: QueryOptions,
    now: i64,
    offset: i64,
    r: QueryResult,
    i: int,
    j: int,
)
    requires
        search_result_ok(entries, opts, now, offset, r),
        0 <= i < j < r.entries@.len(),
    ensures
        key_order(
            entry_key(spec_sort_kind(opt_view(opts.sort)), r.entries@[i]),
            entry_key(spec_sort_kind(opt_view(opts.sort)), r.entries@[j]),
        ) <= 0,
{
    let m = matched_indices(entries, opts, now, offset);
    let kind = spec_sort_kind(opt_view(opts.sort));
    let order = choose|order: Seq<usize>|
        sorted_matches(entries, m, order, kind) && r.entries@ == page_of(
            entries,
            m,
            order,
            opts.offset as int,
            opts.max_results as int,
        );
    let (st, en) = page_bounds(order.len() as int, opts.offset as int, opts.max_results as int);
    assert(r.entries@[i] == entries[m[order[st + i] as int]]);
    assert(r.entries@[j] == entries[m[order[st + j] as int]]);
    assert(0 <= st + i < st + j < order.len());
}

/// Sorted by size: `size` lists the results with the size never
/// increasing from one to the next, `size_asc` never decreasing.
pub proof fn law_sorted_by_size(
    entries: Seq<IndexedFile>,
    opts: QueryOptions,
    now: i64,
    offset: i64,
    r: QueryResult,
)
    requires
        search_result_ok(entries, opts, now, offset, r),
    ensures
        opt_view(opts.sort) == Some("size"@) ==> forall|i: int, j: int|
            0 <= i < j < r.entries@.len() ==> (#[trigger] r.entries@[i]).size >= (
            #[trigger] r.entries@[j]).size,
        opt_view(opts.sort) == Some("size_asc"@) ==> forall|i: int, j: int|
            0 <= i < j < r.entries@.len() ==> (#[trigger] r.entries@[i]).size <= (
            #[trigger] r.entries@[j]).size,
{
    lemma_sort_tokens();
    let kind = spec_sort_kind(opt_view(opts.sort));
    assert forall|i: int, j: int| 0 <= i < j < r.entries@.len() implies key_order(
        entry_key(kind, #[trigger] r.entries@[i]),
        entry_key(kind, #[trigger] r.entries@[j]),
    ) <= 0 by {
        lemma_page_ordered(entries, opts, now, offset, r, i, j);
    }
}

/// Sorted by modification time: `date_modified` lists the results with the modification time never
/// increasing from one to the next, `date_modified_asc` never decreasing.
pub proof fn law_sorted_by_modified(
    entries: Seq<IndexedFile>,
    opts: QueryOptions,
    now: i64,
    offset: i64,
    r: QueryResult,
)
    requires
        search_result_ok(entries, opts, now, offset, r),
    ensures
        opt_view(opts.sort) == Some("date_modified"@) ==> forall|i: int, j: int|
            0 <= i < j < r.entries@.len() ==> (#[trigger] r.entries@[i]).modified >= (
            #[trigger] r.entries@[j]).modified,
        opt_view(opts.sort) == Some("date_modified_asc"@) ==> forall|i: int, j: int|
            0 <= i < j < r.entries@.len() ==> (#[trigger] r.entries@[i]).modified <= (
            #[trigger] r.entries@[j]).modified,
{
    lemma_sort_tokens();
    let kind = spec_sort_kind(opt_view(opts.sort));
    assert forall|i: int, j: int| 0 <= i < j < r.entries@.len() implies key_order(
        entry_key(kind, #[trigger] r.entries@[i]),
        entry_key(kind, #[trigger] r.entries@[j]),
    ) <= 0 by {
        lemma_page_ordered(entries, opts, now, offset, r, i, j);
    }
}

/// Sorted by creation time: `date_created` lists the results with the creation time never
/// increasing from one to the next, `date_created_asc` never decreasing.
pub proof fn law_sorted_by_created(
    entries: Seq<IndexedFile>,
    opts: QueryOptions,
    now: i64,
    offset: i64,
    r: QueryResult,
)
    requires
        search_result_ok(entries, opts, now, offset, r),
    ensures
        opt_view(opts.sort) == Some("date_created"@) ==> forall|i: int, j: int|
            0 <= i < j < r.entries@.len() ==> (#[trigger] r.entries@[i]).created >= (
            #[trigger] r.entries@[j]).created,
        opt_view(opts.sort) == Some("date_created_asc"@) ==> forall|i: int, j: int|
            0 <= i < j < r.entries@.len() ==> (#[trigger] r.entries@[i]).created <= (
            #[trigger] r.entries@[j]).created,
{
    lemma_sort_tokens();
    let kind = spec_sort_kind(opt_view(opts.sort));
    assert forall|i: int, j: int| 0 <= i < j < r.entries@.len() implies key_order(
        entry_key(kind, #[trigger] r.entries@[i]),
        entry_key(kind, #[trigger] r.entries@[j]),
    ) <= 0 by {
        lemma_page_ordered(entries, opts, now, offset, r, i, j);
    }
}

/// Sorted by access time: `date_accessed` lists the results with the access time never
/// increasing from one to the next, `date_accessed_asc` never decreasing.
pub proof fn law_sorted_by_accessed(
    entries: Seq<IndexedFile>,
    opts: QueryOptions,
    now: i64,
    offset: i64,
    r: QueryResult,
)
    requires
        search_result_ok(entries, opts, now, offset, r),
    ensures
        opt_view(opts.sort) == Some("date_accessed"@) ==> forall|i: int, j: int|
            0 <= i < j < r.entries@.len() ==> (#[trigger] r.entries@[i]).accessed >= (
            #[trigger] r.entries@[j]).accessed,
        opt_view(opts.sort) == Some("date_accessed_asc"@) ==> forall|i: int, j: int|
            0 <= i < j < r.entries@.len() ==> (#[trigger] r.entries@[i]).accessed <= (
            #[trigger] r.entries@[j]).accessed,
{
    lemma_sort_tokens();
    let kind = spec_sort_kind(opt_view(opts.sort));
    assert forall|i: int, j: int| 0 <= i < j < r.entries@.len() implies key_order(
        entry_key(kind, #[trigger] r.entries@[i]),
        entry_key(kind, #[trigger] r.entries@[j]),
    ) <= 0 by {
        lemma_page_ordered(entries, opts, now, offset, r, i, j);
    }
}

/// Sorted by name or path: `name` (the default) and `path` list the results
/// in ascending case-insensitive byte order of their names / paths,
/// `name_desc` and `path_desc` in descending order.
pub proof fn law_sorted_by_name_or_path(
    entries: Seq<IndexedFile>,
    opts: QueryOptions,
    now: i64,
    offset: i64,
    r: QueryResult,
)
    requires
        search_result_ok(entries, opts, now, offset, r),
    ensures
        opts.sort is None ==> forall|i: int, j: int|
            0 <= i < j < r.entries@.len() ==> lex_order(
                ci_bytes((#[trigger] r.entries@[i]).name@),
                ci_bytes((#[trigger] r.entries@[j]).name@),
            ) <= 0,
        opt_view(opts.sort) == Some("name_desc"@) ==> forall|i: int, j: int|
            0 <= i < j < r.entries@.len() ==> lex_order(
                ci_bytes((#[trigger] r.entries@[i]).name@),
                ci_bytes((#[trigger] r.entries@[j]).name@),
            ) >= 0,
        opt_view(opts.sort) == Some("path"@) ==> forall|i: int, j: int|
            0 <= i < j < r.entries@.len() ==> lex_order(
                ci_bytes((#[trigger] r.entries@[i]).path@),
                ci_bytes((#[trigger] r.entries@[j]).path@),
            ) <= 0,
        opt_view(opts.sort) == Some("path_desc"@) ==> forall|i: int, j: int|
            0 <= i < j < r.entries@.len() ==> lex_order(
                ci_bytes((#[trigger] r.entries@[i]).path@),
                ci_bytes((#[trigger] r.entries@[j]).path@),
            ) >= 0,
{
    lemma_name_tokens();
    let kind = spec_sort_kind(opt_view(opts.sort));
    assert forall|i: int, j: int| 0 <= i < j < r.entries@.len() implies key_order(
        entry_key(kind, #[trigger] r.entries@[i]),
        entry_key(kind, #[trigger] r.entries@[j]),
    ) <= 0 by {
        lemma_page_ordered(entries, opts, now, offset, r, i, j);
    }
}

/// The name and path sort tokens.
proof fn lemma_name_tokens()
    ensures
        spec_sort_kind(None) == SortKind::Name,
        spec_sort_kind(Some("name_desc"@)) == SortKind::NameDesc,
        spec_sort_kind(Some("path"@)) == SortKind::Path,
        spec_sort_kind(Some("path_desc"@)) == SortKind::PathDesc,
{
    broadcast use vstd::string::group_string_axioms;

    reveal_strlit("name_desc");
    reveal_strlit("path");
    reveal_strlit("path_desc");
    assert("path"@.len() != "name_desc"@.len());
    assert("path_desc"@[0] != "name_desc"@[0]);
    assert("path_desc"@.len() != "path"@.len());
}

} // verus!
