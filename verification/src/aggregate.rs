//! `aggregate`: the same filter as `search`, summarised as counts, a
//! saturating size total, the largest entries and per-extension totals.

use vstd::prelude::*;
use vstd::string::StringSliceAdditionalSpecFns;
use vstd::utf8::encode_utf8;

use crate::dates::sane_time;
use crate::filter::{content_view, filter_at, lemma_matched_congruent, matched_indices, same_filter, usizes_view};
use crate::query::strings_view;
use crate::matcher::ext_or_empty;
use crate::query::{AggregateExt, AggregateLargest, AggregateOptions, AggregateResult, QueryOptions, QueryResult};
use crate::search::{positions, search_result_ok};
use crate::sort::{in_range, key_order, merge_sort, uniform_desc, KeyV, SortKey};
use crate::text::{chars_eq, chars_of, lower_seq, lower_vec, string_from_chars};
use crate::types::{clone_opt_string, IndexedFile};

verus! {

broadcast use vstd::seq_lib::group_seq_properties;

/// The search options an aggregate filters with, its content allow-list
/// included.
pub open spec fn agg_query_opts(o: AggregateOptions) -> QueryOptions {
    QueryOptions {
        query: o.query,
        path: o.path,
        exclude_path: o.exclude_path,
        include_all: o.include_all,
        match_path: o.match_path,
        regex: o.regex,
        match_case: o.match_case,
        match_whole_word: o.match_whole_word,
        max_results: 0,
        offset: 0,
        sort: None,
        content_paths: o.content_paths,
    }
}

pub open spec fn sat(x: int) -> u64 {
    if x > u64::MAX {
        u64::MAX
    } else {
        x as u64
    }
}

/// Number of files among the matches `m`.
pub open spec fn count_files(entries: Seq<IndexedFile>, m: Seq<int>) -> int
    decreases m.len(),
{
    if m.len() == 0 {
        0
    } else {
        count_files(entries, m.drop_last()) + if entries[m.last()].is_dir {
            0int
        } else {
            1int
        }
    }
}

/// Sum of the sizes of the matches.
pub open spec fn sum_sizes(entries: Seq<IndexedFile>, m: Seq<int>) -> int
    decreases m.len(),
{
    if m.len() == 0 {
        0
    } else {
        sum_sizes(entries, m.drop_last()) + entries[m.last()].size
    }
}

/// The lowercase extension an aggregate groups a file under.
pub open spec fn agg_ext(e: IndexedFile) -> Seq<char> {
    lower_seq(ext_or_empty(e))
}

/// Number of matched files grouped under `x`.
pub open spec fn count_ext(entries: Seq<IndexedFile>, m: Seq<int>, x: Seq<char>) -> int
    decreases m.len(),
{
    if m.len() == 0 {
        0
    } else {
        count_ext(entries, m.drop_last(), x) + if !entries[m.last()].is_dir && agg_ext(
            entries[m.last()],
        ) == x {
            1int
        } else {
            0int
        }
    }
}

/// Sum of the sizes of the matched files grouped under `x`.
pub open spec fn sum_ext(entries: Seq<IndexedFile>, m: Seq<int>, x: Seq<char>) -> int
    decreases m.len(),
{
    if m.len() == 0 {
        0
    } else {
        sum_ext(entries, m.drop_last(), x) + if !entries[m.last()].is_dir && agg_ext(
            entries[m.last()],
        ) == x {
            entries[m.last()].size as int
        } else {
            0int
        }
    }
}

/// Ordering key of the largest entries: size descending, then path bytes.
pub open spec fn largest_key(e: IndexedFile) -> KeyV {
    KeyV { num: -(e.size as int), first: encode_utf8(e.path@), first_desc: false, second: Seq::empty() }
}

/// Ordering key of the extension rows: count descending, then extension.
pub open spec fn ext_row_key(a: AggregateExt) -> KeyV {
    KeyV {
        num: -(a.count as int),
        first: encode_utf8(a.extension@),
        first_desc: false,
        second: Seq::empty(),
    }
}

/// One extension row per extension of the matched files, with its count and
/// saturating size total.
pub open spec fn ext_rows_ok(entries: Seq<IndexedFile>, m: Seq<int>, rows: Seq<AggregateExt>) -> bool {
    &&& forall|i: int|
        0 <= i < rows.len() ==> (#[trigger] rows[i]).count == count_ext(entries, m, rows[i].extension@)
            && rows[i].size == sat(sum_ext(entries, m, rows[i].extension@)) && rows[i].count > 0
    &&& forall|i: int, j: int|
        0 <= i < j < rows.len() ==> (#[trigger] rows[i]).extension@ != (#[trigger] rows[j]).extension@
    &&& forall|x: Seq<char>|
        #[trigger] count_ext(entries, m, x) > 0 ==> exists|i: int|
            0 <= i < rows.len() && (#[trigger] rows[i]).extension@ == x
}

/// The number of largest entries asked for (0 means 20).
pub open spec fn top_of(o: AggregateOptions) -> int {
    if o.top == 0 {
        20
    } else {
        o.top as int
    }
}

pub open spec fn describes(l: AggregateLargest, e: IndexedFile) -> bool {
    l.path@ == e.path@ && l.size == e.size && l.is_dir == e.is_dir
}

/// What `aggregate` returns for the matches `m`.
pub open spec fn aggregate_ok(
    entries: Seq<IndexedFile>,
    opts: AggregateOptions,
    m: Seq<int>,
    r: AggregateResult,
) -> bool {
    &&& r.total == m.len()
    &&& r.files == count_files(entries, m)
    &&& r.folders == m.len() - count_files(entries, m)
    &&& r.total_size == sat(sum_sizes(entries, m))
    &&& exists|order: Seq<usize>|
        #![trigger order.to_multiset()]
        {
            &&& order.to_multiset() == positions(m.len() as int).to_multiset()
            &&& forall|k: int| 0 <= k < order.len() ==> (#[trigger] order[k]) < m.len()
            &&& forall|p: int, q: int|
                0 <= p < q < order.len() ==> key_order(
                    largest_key(entries[m[#[trigger] order[p] as int]]),
                    largest_key(entries[m[#[trigger] order[q] as int]]),
                ) <= 0
            &&& r.largest@.len() == (if top_of(opts) < m.len() {
                top_of(opts)
            } else {
                m.len() as int
            })
            &&& forall|k: int|
                0 <= k < r.largest@.len() ==> describes(
                    #[trigger] r.largest@[k],
                    entries[m[order[k] as int]],
                )
        }
    &&& ext_rows_ok(entries, m, r.by_extension@)
    &&& forall|i: int, j: int|
        0 <= i < j < r.by_extension@.len() ==> key_order(
            ext_row_key(#[trigger] r.by_extension@[i]),
            ext_row_key(#[trigger] r.by_extension@[j]),
        ) <= 0
}

pub proof fn lemma_count_files_bound(entries: Seq<IndexedFile>, m: Seq<int>)
    ensures
        0 <= count_files(entries, m) <= m.len(),
    decreases m.len(),
{
    if m.len() > 0 {
        lemma_count_files_bound(entries, m.drop_last());
    }
}

pub proof fn lemma_count_ext_bound(entries: Seq<IndexedFile>, m: Seq<int>, x: Seq<char>)
    ensures
        0 <= count_ext(entries, m, x) <= m.len(),
        0 <= sum_ext(entries, m, x),
    decreases m.len(),
{
    if m.len() > 0 {
        lemma_count_ext_bound(entries, m.drop_last(), x);
    }
}

fn bytes_key(b: &[u8], num: i128) -> (r: SortKey)
    ensures
        r@ == (KeyV { num: num as int, first: b@, first_desc: false, second: Seq::empty() }),
{
    SortKey { num, first: vstd::slice::slice_to_vec(b), first_desc: false, second: Vec::new() }
}

fn agg_ext_exec(e: &IndexedFile) -> (r: Vec<char>)
    ensures
        r@ == agg_ext(*e),
{
    match &e.extension {
        Some(x) => lower_vec(&chars_of(x.as_str())),
        None => Vec::new(),
    }
}

/// The per-extension rows of the matched files, unordered.
fn ext_rows(entries: &[IndexedFile], matched: &Vec<usize>, Ghost(m): Ghost<Seq<int>>) -> (rows: Vec<
    AggregateExt,
>)
    requires
        usizes_view(matched@) == m,
        forall|j: int| 0 <= j < matched.len() ==> #[trigger] matched@[j] < entries.len(),
    ensures
        ext_rows_ok(entries@, m, rows@),
{
    let mut rows: Vec<AggregateExt> = Vec::new();
    let mut k: usize = 0;
    proof {
        assert(m.take(0) =~= Seq::<int>::empty());
    }
    while k < matched.len()
        invariant
            k <= matched.len(),
            usizes_view(matched@) == m,
            m.len() == matched.len(),
            forall|j: int| 0 <= j < matched.len() ==> #[trigger] matched@[j] < entries.len(),
            ext_rows_ok(entries@, m.take(k as int), rows@),
        decreases matched.len() - k,
    {
        let ghost mp = m.take(k as int);
        let ghost mq = m.take(k as int + 1);
        proof {
            assert(mq.drop_last() =~= mp);
            assert(mq.last() == matched@[k as int] as int);
        }
        let e = &entries[matched[k]];
        if e.is_dir {
            proof {
                assert forall|x: Seq<char>| count_ext(entries@, mq, x) == count_ext(entries@, mp, x)
                    && sum_ext(entries@, mq, x) == sum_ext(entries@, mp, x) by {}
            }
        } else {
            let x = agg_ext_exec(e);
            let mut j: usize = 0;
            let mut found = false;
            while j < rows.len() && !found
                invariant
                    j <= rows.len(),
                    found ==> j >= 1 && rows@[j - 1].extension@ == x@,
                    !found ==> forall|i: int| 0 <= i < j ==> (#[trigger] rows@[i]).extension@ != x@,
                decreases rows.len() - j,
            {
                if chars_eq(&chars_of(rows[j].extension.as_str()), &x) {
                    found = true;
                }
                j += 1;
            }
            proof {
                lemma_count_ext_bound(entries@, mp, x@);
            }
            if found {
                let j = j - 1;
                let old = &rows[j];
                assert(old.extension@ == x@);
                proof {
                    lemma_count_ext_bound(entries@, mp, old.extension@);
                }
                let row = AggregateExt {
                    extension: old.extension.clone(),
                    count: old.count + 1,
                    size: old.size.saturating_add(e.size),
                };
                let ghost before = rows@;
                rows.set(j, row);
                proof {
                    assert forall|y: Seq<char>| y != x@ implies count_ext(entries@, mq, y)
                        == count_ext(entries@, mp, y) && sum_ext(entries@, mq, y) == sum_ext(
                        entries@,
                        mp,
                        y,
                    ) by {}
                    assert forall|i: int| 0 <= i < rows@.len() implies (#[trigger] rows@[i]).count
                        == count_ext(entries@, mq, rows@[i].extension@) && rows@[i].size == sat(
                        sum_ext(entries@, mq, rows@[i].extension@),
                    ) && rows@[i].count > 0 by {
                        if i != j {
                            assert(before[i] == rows@[i]);
                            assert(before[i].extension@ != before[j as int].extension@);
                        }
                    }
                    assert forall|a: int, b: int| 0 <= a < b < rows@.len() implies (
                    #[trigger] rows@[a]).extension@ != (#[trigger] rows@[b]).extension@ by {
                        assert(before[a].extension@ != before[b].extension@);
                    }
                    assert forall|y: Seq<char>| #[trigger]
                        count_ext(entries@, mq, y) > 0 implies exists|i: int|
                        0 <= i < rows@.len() && (#[trigger] rows@[i]).extension@ == y by {
                        if y == x@ {
                            assert(rows@[j as int].extension@ == y);
                        } else {
                            assert(count_ext(entries@, mp, y) > 0);
                            let i = choose|i: int|
                                0 <= i < before.len() && (#[trigger] before[i]).extension@ == y;
                            assert(rows@[i].extension@ == y);
                        }
                    }
                }
            } else {
                let row = AggregateExt { extension: string_from_chars(&x), count: 1, size: e.size };
                let ghost before = rows@;
                rows.push(row);
                proof {
                    assert(count_ext(entries@, mp, x@) == 0) by {
                        if count_ext(entries@, mp, x@) > 0 {
                            let i = choose|i: int|
                                0 <= i < before.len() && (#[trigger] before[i]).extension@ == x@;
                            assert(before[i].extension@ != x@);
                        }
                    }
                    assert(sum_ext(entries@, mp, x@) == 0) by {
                        lemma_sum_ext_zero(entries@, mp, x@);
                    }
                    assert forall|y: Seq<char>| y != x@ implies count_ext(entries@, mq, y)
                        == count_ext(entries@, mp, y) && sum_ext(entries@, mq, y) == sum_ext(
                        entries@,
                        mp,
                        y,
                    ) by {}
                    assert forall|i: int| 0 <= i < rows@.len() implies (#[trigger] rows@[i]).count
                        == count_ext(entries@, mq, rows@[i].extension@) && rows@[i].size == sat(
                        sum_ext(entries@, mq, rows@[i].extension@),
                    ) && rows@[i].count > 0 by {
                        if i < before.len() {
                            assert(before[i] == rows@[i]);
                        }
                    }
                    assert forall|a: int, b: int| 0 <= a < b < rows@.len() implies (
                    #[trigger] rows@[a]).extension@ != (#[trigger] rows@[b]).extension@ by {
                        if b < before.len() {
                            assert(before[a].extension@ != before[b].extension@);
                        }
                    }
                    assert forall|y: Seq<char>| #[trigger]
                        count_ext(entries@, mq, y) > 0 implies exists|i: int|
                        0 <= i < rows@.len() && (#[trigger] rows@[i]).extension@ == y by {
                        if y == x@ {
                            assert(rows@[before.len() as int].extension@ == y);
                        } else {
                            assert(count_ext(entries@, mp, y) > 0);
                            let i = choose|i: int|
                                0 <= i < before.len() && (#[trigger] before[i]).extension@ == y;
                            assert(rows@[i].extension@ == y);
                        }
                    }
                }
            }
        }
        k += 1;
    }
    proof {
        assert(m.take(matched.len() as int) =~= m);
    }
    rows
}

pub proof fn lemma_sum_ext_zero(entries: Seq<IndexedFile>, m: Seq<int>, x: Seq<char>)
    requires
        count_ext(entries, m, x) == 0,
    ensures
        sum_ext(entries, m, x) == 0,
    decreases m.len(),
{
    if m.len() > 0 {
        lemma_count_ext_bound(entries, m.drop_last(), x);
        lemma_sum_ext_zero(entries, m.drop_last(), x);
    }
}

fn clone_allow_list(o: &Option<Vec<String>>) -> (r: Option<Vec<String>>)
    ensures
        content_view(r) == content_view(*o),
{
    match o {
        Some(v) => {
            let mut out: Vec<String> = Vec::new();
            let mut i: usize = 0;
            while i < v.len()
                invariant
                    i <= v@.len(),
                    strings_view(out@) == strings_view(v@).take(i as int),
                decreases v@.len() - i,
            {
                let ghost before = strings_view(out@);
                out.push(v[i].clone());
                proof {
                    assert(strings_view(out@) =~= before.push(v@[i as int]@));
                    assert(strings_view(v@).take(i as int + 1) =~= strings_view(v@).take(
                        i as int,
                    ).push(v@[i as int]@));
                }
                i += 1;
            }
            proof {
                assert(strings_view(v@).take(v@.len() as int) =~= strings_view(v@));
            }
            Some(out)
        },
        None => None,
    }
}

/// Aggregate the entries that pass the filter of `opts` (no content
/// constraint), with the query evaluated at local time `now` and entry times
/// shifted by `offset` seconds.
pub fn aggregate_at(entries: &[IndexedFile], opts: &AggregateOptions, now: i64, offset: i64) -> (r:
    AggregateResult)
    requires
        sane_time(offset as int),
    ensures
        aggregate_ok(
            entries@,
            *opts,
            matched_indices(entries@, agg_query_opts(*opts), now, offset),
            r,
        ),
{
    let qopts = QueryOptions {
        query: opts.query.clone(),
        path: clone_opt_string(&opts.path),
        exclude_path: clone_opt_string(&opts.exclude_path),
        include_all: opts.include_all,
        match_path: opts.match_path,
        regex: opts.regex,
        match_case: opts.match_case,
        match_whole_word: opts.match_whole_word,
        max_results: 0,
        offset: 0,
        sort: None,
        content_paths: clone_allow_list(&opts.content_paths),
    };
    proof {
        assert(same_filter(qopts, agg_query_opts(*opts)));
        lemma_matched_congruent(entries@, qopts, agg_query_opts(*opts), now, offset);
    }
    let matched = filter_at(entries, &qopts, now, offset);
    let ghost m = matched_indices(entries@, agg_query_opts(*opts), now, offset);
    proof {
        assert(usizes_view(matched@).len() == matched.len());
    }
    // Counts and the size total.
    let mut files: usize = 0;
    let mut folders: usize = 0;
    let mut total_size: u64 = 0;
    let mut keys: Vec<SortKey> = Vec::new();
    let mut idx: Vec<usize> = Vec::new();
    let mut k: usize = 0;
    proof {
        assert(m.take(0) =~= Seq::<int>::empty());
    }
    while k < matched.len()
        invariant
            k <= matched.len(),
            usizes_view(matched@) == m,
            m.len() == matched.len(),
            forall|j: int| 0 <= j < matched.len() ==> #[trigger] matched@[j] < entries.len(),
            files == count_files(entries@, m.take(k as int)),
            folders == k - count_files(entries@, m.take(k as int)),
            total_size == sat(sum_sizes(entries@, m.take(k as int))),
            keys.len() == k,
            idx@ == positions(k as int),
            forall|j: int|
                0 <= j < k ==> (#[trigger] keys@[j])@ == largest_key(entries@[m[j]]),
        decreases matched.len() - k,
    {
        proof {
            assert(m.take(k as int + 1).drop_last() =~= m.take(k as int));
            assert(m[k as int] == matched@[k as int] as int);
            lemma_count_files_bound(entries@, m.take(k as int));
            lemma_sum_nonneg(entries@, m.take(k as int));
        }
        let e = &entries[matched[k]];
        if e.is_dir {
            folders += 1;
        } else {
            files += 1;
        }
        total_size = total_size.saturating_add(e.size);
        let key = bytes_key(e.path.as_str().as_bytes(), -(e.size as i128));
        keys.push(key);
        idx.push(k);
        k += 1;
        proof {
            assert(idx@ =~= positions(k as int));
        }
    }
    proof {
        assert(m.take(matched.len() as int) =~= m);
        assert(uniform_desc(keys@, false));
        assert(in_range(idx@, keys.len() as int));
    }
    // The largest entries.
    let order = merge_sort(&keys, idx.as_slice(), Ghost(false));
    proof {
        assert(order@.len() == matched.len()) by {
            assert(order@.to_multiset().len() == positions(matched.len() as int).to_multiset().len());
        }
    }
    let top = if opts.top == 0 {
        20
    } else {
        opts.top
    };
    let n = if top < matched.len() {
        top
    } else {
        matched.len()
    };
    let mut largest: Vec<AggregateLargest> = Vec::new();
    let mut p: usize = 0;
    while p < n
        invariant
            p <= n <= matched.len(),
            order@.len() == matched.len(),
            usizes_view(matched@) == m,
            forall|j: int| 0 <= j < matched.len() ==> #[trigger] matched@[j] < entries.len(),
            in_range(order@, matched.len() as int),
            largest.len() == p,
            forall|j: int|
                0 <= j < p ==> describes(#[trigger] largest@[j], entries@[m[order@[j] as int]]),
        decreases n - p,
    {
        proof {
            assert(m[order@[p as int] as int] == matched@[order@[p as int] as int] as int);
        }
        let e = &entries[matched[order[p]]];
        largest.push(AggregateLargest { path: e.path.clone(), size: e.size, is_dir: e.is_dir });
        p += 1;
    }
    // The extension rows, by count descending then extension.
    let rows = ext_rows(entries, &matched, Ghost(m));
    let mut rkeys: Vec<SortKey> = Vec::new();
    let mut ridx: Vec<usize> = Vec::new();
    let mut q: usize = 0;
    while q < rows.len()
        invariant
            q <= rows.len(),
            rkeys.len() == q,
            ridx@ == positions(q as int),
            forall|j: int| 0 <= j < q ==> (#[trigger] rkeys@[j])@ == ext_row_key(rows@[j]),
        decreases rows.len() - q,
    {
        let key = bytes_key(rows[q].extension.as_str().as_bytes(), -(rows[q].count as i128));
        rkeys.push(key);
        ridx.push(q);
        q += 1;
        proof {
            assert(ridx@ =~= positions(q as int));
        }
    }
    proof {
        assert(uniform_desc(rkeys@, false));
        assert(in_range(ridx@, rkeys.len() as int));
    }
    let rorder = merge_sort(&rkeys, ridx.as_slice(), Ghost(false));
    let mut by_extension: Vec<AggregateExt> = Vec::new();
    let mut t: usize = 0;
    proof {
        assert(rorder@.len() == rows.len()) by {
            assert(rorder@.to_multiset().len() == positions(rows.len() as int).to_multiset().len());
        }
    }
    while t < rorder.len()
        invariant
            t <= rorder.len(),
            rorder@.len() == rows.len(),
            in_range(rorder@, rows.len() as int),
            by_extension.len() == t,
            forall|j: int| 0 <= j < t ==> #[trigger] by_extension@[j] == rows@[rorder@[j] as int],
        decreases rorder.len() - t,
    {
        let row = &rows[rorder[t]];
        by_extension.push(AggregateExt { extension: row.extension.clone(), count: row.count, size: row.size });
        t += 1;
    }
    let r = AggregateResult {
        total: matched.len(),
        files,
        folders,
        total_size,
        largest,
        by_extension,
    };
    proof {
        lemma_order_is_permutation(rorder@, rows.len() as int);
        assert(ext_rows_ok(entries@, m, r.by_extension@)) by {
            let be = r.by_extension@;
            assert forall|i: int, j: int| 0 <= i < j < be.len() implies (#[trigger] be[i]).extension@
                != (#[trigger] be[j]).extension@ by {
                assert(rorder@[i] != rorder@[j]);
                let a = rorder@[i] as int;
                let b = rorder@[j] as int;
                if a < b {
                    assert(rows@[a].extension@ != rows@[b].extension@);
                } else {
                    assert(rows@[b].extension@ != rows@[a].extension@);
                }
            }
            assert forall|x: Seq<char>| #[trigger] count_ext(entries@, m, x) > 0 implies exists|i: int|
                0 <= i < be.len() && (#[trigger] be[i]).extension@ == x by {
                let a = choose|a: int| 0 <= a < rows@.len() && (#[trigger] rows@[a]).extension@ == x;
                assert(rorder@.contains(a as usize));
                let i = choose|i: int| 0 <= i < rorder@.len() && rorder@[i] == a as usize;
                assert(be[i] == rows@[a]);
            }
        }
        assert forall|i: int, j: int| 0 <= i < j < r.by_extension@.len() implies key_order(
            ext_row_key(#[trigger] r.by_extension@[i]),
            ext_row_key(#[trigger] r.by_extension@[j]),
        ) <= 0 by {
            assert(crate::sort::kle(rkeys@, rorder@[i], rorder@[j]));
        }
        let o = order@;
        assert(forall|p: int, q: int|
            0 <= p < q < o.len() ==> key_order(
                largest_key(entries@[m[#[trigger] o[p] as int]]),
                largest_key(entries@[m[#[trigger] o[q] as int]]),
            ) <= 0) by {
            assert forall|p: int, q: int| 0 <= p < q < o.len() implies key_order(
                largest_key(entries@[m[#[trigger] o[p] as int]]),
                largest_key(entries@[m[#[trigger] o[q] as int]]),
            ) <= 0 by {
                assert(crate::sort::kle(keys@, o[p], o[q]));
            }
        }
    }
    r
}

pub proof fn lemma_sum_nonneg(entries: Seq<IndexedFile>, m: Seq<int>)
    ensures
        0 <= sum_sizes(entries, m),
    decreases m.len(),
{
    if m.len() > 0 {
        lemma_sum_nonneg(entries, m.drop_last());
    }
}

/// A reordering of `0..n` holds every position exactly once.
pub proof fn lemma_order_is_permutation(order: Seq<usize>, n: int)
    requires
        0 <= n <= usize::MAX,
        order.to_multiset() == positions(n).to_multiset(),
    ensures
        order.len() == n,
        forall|i: int, j: int| 0 <= i < j < order.len() ==> order[i] != order[j],
        forall|a: usize| (a as int) < n ==> #[trigger] order.contains(a),
        forall|i: int| 0 <= i < order.len() ==> order[i] < n,
{
    broadcast use vstd::seq_lib::group_to_multiset_ensures;

    let ps = positions(n);
    assert(order.len() == n) by {
        assert(order.to_multiset().len() == ps.to_multiset().len());
    }
    assert forall|i: int| 0 <= i < order.len() implies order[i] < n by {
        assert(order.contains(order[i]));
        assert(ps.to_multiset().count(order[i]) > 0);
        assert(ps.contains(order[i]));
    }
    assert(ps.no_duplicates()) by {
        assert forall|i: int, j: int| 0 <= i < ps.len() && 0 <= j < ps.len() && i != j implies ps[i]
            != ps[j] by {
            assert(ps[i] == i as usize);
            assert(ps[j] == j as usize);
        }
    }
    ps.lemma_multiset_has_no_duplicates();
    assert forall|x: usize| order.to_multiset().contains(x) implies order.to_multiset().count(x) == 1 by {}
    order.lemma_multiset_has_no_duplicates_conv();
    assert forall|a: usize| (a as int) < n implies #[trigger] order.contains(a) by {
        assert(ps[a as int] == a);
        assert(ps.contains(a));
        assert(ps.to_multiset().count(a) > 0);
        assert(order.to_multiset().count(a) > 0);
    }
}

/// Aggregate `entries` at the current time (relative dates are evaluated in
/// UTC, entry times are taken as UTC).
pub fn aggregate(entries: &[IndexedFile], opts: &AggregateOptions) -> (r: AggregateResult)
    ensures
        exists|now: i64|
            aggregate_ok(entries@, *opts, matched_indices(entries@, agg_query_opts(*opts), now, 0), r),
{
    let now = crate::clock::unix_now();
    aggregate_at(entries, opts, now, 0)
}

/// Aggregate at the current time in a time zone `offset` seconds east of UTC
/// (see [`crate::search::search_local`]).
pub fn aggregate_local(entries: &[IndexedFile], opts: &AggregateOptions, offset: i64) -> (r:
    AggregateResult)
    requires
        sane_time(offset as int),
    ensures
        exists|now: i64|
            aggregate_ok(entries@, *opts, matched_indices(entries@, agg_query_opts(*opts), now, offset), r),
{
    let now = crate::clock::local_now(offset);
    aggregate_at(entries, opts, now, offset)
}

/// An aggregate counts exactly the entries that a search with the same
/// query, flags, scope, excludes and allow-list finds at the same time and
/// offset, files and folders together.
pub proof fn law_aggregate_counts_search_matches(
    entries: Seq<IndexedFile>,
    o: AggregateOptions,
    q: QueryOptions,
    now: i64,
    offset: i64,
    a: AggregateResult,
    r: QueryResult,
)
    requires
        aggregate_ok(entries, o, matched_indices(entries, agg_query_opts(o), now, offset), a),
        search_result_ok(entries, q, now, offset, r),
        same_filter(q, agg_query_opts(o)),
    ensures
        a.total == r.total,
        a.files + a.folders == r.total,
{
    lemma_matched_congruent(entries, q, agg_query_opts(o), now, offset);
}

/// The total of the counts of `rows`.
pub open spec fn rows_count(rows: Seq<AggregateExt>) -> int
    decreases rows.len(),
{
    if rows.len() == 0 {
        0
    } else {
        rows_count(rows.drop_last()) + rows.last().count
    }
}

/// The matched files grouped under the extensions of `rows`, counted per row.
spec fn rows_ext_count(entries: Seq<IndexedFile>, m: Seq<int>, rows: Seq<AggregateExt>) -> int
    decreases rows.len(),
{
    if rows.len() == 0 {
        0
    } else {
        rows_ext_count(entries, m, rows.drop_last()) + count_ext(entries, m, rows.last().extension@)
    }
}

/// How many rows carry extension `x`.
spec fn rows_with(rows: Seq<AggregateExt>, x: Seq<char>) -> int
    decreases rows.len(),
{
    if rows.len() == 0 {
        0
    } else {
        rows_with(rows.drop_last(), x) + if rows.last().extension@ == x {
            1int
        } else {
            0int
        }
    }
}

proof fn lemma_rows_with_one(rows: Seq<AggregateExt>, x: Seq<char>)
    requires
        forall|i: int, j: int|
            0 <= i < j < rows.len() ==> (#[trigger] rows[i]).extension@ != (#[trigger] rows[j]).extension@,
    ensures
        rows_with(rows, x) == (if exists|i: int| 0 <= i < rows.len() && (#[trigger] rows[i]).extension@ == x {
            1int
        } else {
            0int
        }),
    decreases rows.len(),
{
    if rows.len() > 0 {
        let r1 = rows.drop_last();
        assert forall|i: int, j: int| 0 <= i < j < r1.len() implies (#[trigger] r1[i]).extension@
            != (#[trigger] r1[j]).extension@ by {
            assert(r1[i] == rows[i] && r1[j] == rows[j]);
        }
        lemma_rows_with_one(r1, x);
        if exists|i: int| 0 <= i < r1.len() && (#[trigger] r1[i]).extension@ == x {
            let i = choose|i: int| 0 <= i < r1.len() && (#[trigger] r1[i]).extension@ == x;
            assert(rows[i] == r1[i]);
            assert(rows[i].extension@ != rows[rows.len() - 1].extension@);
        } else {
            if exists|i: int| 0 <= i < rows.len() && (#[trigger] rows[i]).extension@ == x {
                let i = choose|i: int| 0 <= i < rows.len() && (#[trigger] rows[i]).extension@ == x;
                if i < r1.len() {
                    assert(r1[i] == rows[i]);
                }
            }
        }
    }
}

/// Adding one match adds, per row, one for each row carrying its extension.
proof fn lemma_rows_ext_step(entries: Seq<IndexedFile>, m: Seq<int>, rows: Seq<AggregateExt>)
    requires
        m.len() > 0,
    ensures
        rows_ext_count(entries, m, rows) == rows_ext_count(entries, m.drop_last(), rows) + (if entries[m.last()].is_dir {
            0int
        } else {
            rows_with(rows, agg_ext(entries[m.last()]))
        }),
    decreases rows.len(),
{
    if rows.len() > 0 {
        lemma_rows_ext_step(entries, m, rows.drop_last());
    }
}

/// The files among the matches are all grouped under some row.
proof fn lemma_rows_ext_files(entries: Seq<IndexedFile>, m: Seq<int>, rows: Seq<AggregateExt>)
    requires
        forall|i: int, j: int|
            0 <= i < j < rows.len() ==> (#[trigger] rows[i]).extension@ != (#[trigger] rows[j]).extension@,
        forall|k: int|
            0 <= k < m.len() && !entries[#[trigger] m[k]].is_dir ==> exists|i: int|
                0 <= i < rows.len() && (#[trigger] rows[i]).extension@ == agg_ext(entries[m[k]]),
    ensures
        rows_ext_count(entries, m, rows) == count_files(entries, m),
    decreases m.len(),
{
    if m.len() == 0 {
        lemma_rows_ext_zero(entries, m, rows);
    } else {
        let m1 = m.drop_last();
        assert forall|k: int|
            0 <= k < m1.len() && !entries[#[trigger] m1[k]].is_dir implies exists|i: int|
            0 <= i < rows.len() && (#[trigger] rows[i]).extension@ == agg_ext(entries[m1[k]]) by {
            assert(m1[k] == m[k]);
        }
        lemma_rows_ext_files(entries, m1, rows);
        lemma_rows_ext_step(entries, m, rows);
        lemma_rows_with_one(rows, agg_ext(entries[m.last()]));
        assert(m[m.len() - 1] == m.last());
    }
}

proof fn lemma_rows_ext_zero(entries: Seq<IndexedFile>, m: Seq<int>, rows: Seq<AggregateExt>)
    requires
        m.len() == 0,
    ensures
        rows_ext_count(entries, m, rows) == 0,
    decreases rows.len(),
{
    if rows.len() > 0 {
        lemma_rows_ext_zero(entries, m, rows.drop_last());
    }
}

/// A matched file makes its extension's count positive.
proof fn lemma_count_ext_pos(entries: Seq<IndexedFile>, m: Seq<int>, k: int)
    requires
        0 <= k < m.len(),
        !entries[m[k]].is_dir,
    ensures
        count_ext(entries, m, agg_ext(entries[m[k]])) > 0,
    decreases m.len(),
{
    let x = agg_ext(entries[m[k]]);
    lemma_count_ext_nonneg(entries, m.drop_last(), x);
    if k < m.len() - 1 {
        assert(m.drop_last()[k] == m[k]);
        lemma_count_ext_pos(entries, m.drop_last(), k);
    }
}

proof fn lemma_count_ext_nonneg(entries: Seq<IndexedFile>, m: Seq<int>, x: Seq<char>)
    ensures
        count_ext(entries, m, x) >= 0,
    decreases m.len(),
{
    if m.len() > 0 {
        lemma_count_ext_nonneg(entries, m.drop_last(), x);
    }
}

proof fn lemma_rows_count(entries: Seq<IndexedFile>, m: Seq<int>, rows: Seq<AggregateExt>)
    requires
        forall|i: int|
            0 <= i < rows.len() ==> (#[trigger] rows[i]).count == count_ext(entries, m, rows[i].extension@),
    ensures
        rows_count(rows) == rows_ext_count(entries, m, rows),
    decreases rows.len(),
{
    if rows.len() > 0 {
        let r1 = rows.drop_last();
        assert forall|i: int| 0 <= i < r1.len() implies (#[trigger] r1[i]).count == count_ext(
            entries,
            m,
            r1[i].extension@,
        ) by {
            assert(r1[i] == rows[i]);
        }
        lemma_rows_count(entries, m, r1);
        assert(rows[rows.len() - 1] == rows.last());
    }
}

/// The per-extension counts of an aggregate add up to its file count.
pub proof fn law_extension_counts_sum_to_files(
    entries: Seq<IndexedFile>,
    opts: AggregateOptions,
    m: Seq<int>,
    r: AggregateResult,
)
    requires
        aggregate_ok(entries, opts, m, r),
    ensures
        rows_count(r.by_extension@) == r.files,
{
    let rows = r.by_extension@;
    assert forall|k: int|
        0 <= k < m.len() && !entries[#[trigger] m[k]].is_dir implies exists|i: int|
        0 <= i < rows.len() && (#[trigger] rows[i]).extension@ == agg_ext(entries[m[k]]) by {
        lemma_count_ext_pos(entries, m, k);
    }
    lemma_rows_ext_files(entries, m, rows);
    lemma_rows_count(entries, m, rows);
}

} // verus!
