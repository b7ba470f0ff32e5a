//! The filter shared by `search` and `aggregate`: default excludes, the
//! `path` scope, `exclude_path`, the content constraint and the query.

use vstd::prelude::*;
use vstd::string::StringSliceAdditionalSpecFns;
use vstd::utf8::encode_utf8;

use crate::dates::sane_time;
use crate::matcher::{
    compile_regexes, file_matches, in_scope, lemma_file_matches_congruent, regex_table_ok,
    spec_file_matches, target_of,
};
use crate::query::{tokens_view, QueryOptions, TokenV};
use crate::text::{chars_eq, chars_of, lower_seq, lower_vec, string_from_chars};
use crate::tokenize::{
    clean_list, spec_clean_list, spec_tokenize, tokenize_at, trim_end_char, trim_end_char_exec,
    ListKind,
};
use crate::query::strings_view;
use crate::types::IndexedFile;
use crate::wildcard::{starts_ci, starts_with_ci};

verus! {

broadcast use vstd::seq_lib::group_seq_properties;

/// The text of an optional string, empty when absent.
pub open spec fn opt_text(o: Option<String>) -> Seq<char> {
    match o {
        Some(s) => s@,
        None => Seq::empty(),
    }
}

/// `p` names the directory segment of `lp` at byte `i`: it starts at the
/// path start, after `\` or after the drive colon, and ends at the path end
/// or at `\`.
pub open spec fn dir_name_at(lp: Seq<u8>, p: Seq<u8>, i: int) -> bool {
    &&& 0 <= i
    &&& i + p.len() <= lp.len()
    &&& (i == 0 || lp[i - 1] == 92 || lp[i - 1] == 58)
    &&& lp.subrange(i, i + p.len()) == p
    &&& (i + p.len() == lp.len() || lp[i + p.len()] == 92)
}

pub open spec fn spec_dir_name_match(lp: Seq<u8>, p: Seq<u8>) -> bool {
    exists|i: int| dir_name_at(lp, p, i)
}

/// An `exclude_path` item excludes `lp` (both lowercase): an item with a
/// `\` excludes that subtree, a bare name every directory of that name.
pub open spec fn spec_path_excluded(lp: Seq<u8>, p: Seq<u8>) -> bool {
    if p.contains(92u8) {
        starts_ci(lp, p) && (lp.len() == p.len() || lp[p.len() as int] == 92)
    } else {
        spec_dir_name_match(lp, p)
    }
}

pub open spec fn any_excluded(lp: Seq<u8>, excludes: Seq<Seq<char>>) -> bool {
    exists|k: int| 0 <= k < excludes.len() && spec_path_excluded(lp, encode_utf8(#[trigger] excludes[k]))
}

/// The content constraint admits the entry: none, or its lowercase path is
/// listed.
pub open spec fn content_ok(e: IndexedFile, cps: Option<Vec<String>>) -> bool {
    match cps {
        Some(v) => listed(v@, e.lower_path@),
        None => true,
    }
}

/// `p` is one of the strings of `v`.
pub open spec fn listed(v: Seq<String>, p: Seq<char>) -> bool {
    exists|k: int| 0 <= k < v.len() && (#[trigger] v[k])@ == p
}

/// The lowercase scope of the `path` option, without trailing `\`.
pub open spec fn scope_of(opts: QueryOptions) -> Seq<char> {
    lower_seq(trim_end_char(opt_text(opts.path), '\\'))
}

/// The cleaned items of the `exclude_path` option (`;` separated).
pub open spec fn excludes_of(opts: QueryOptions) -> Seq<Seq<char>> {
    spec_clean_list(opt_text(opts.exclude_path), ';', ListKind::ExcludePaths)
}

/// The query's tokens at local time `now`.
pub open spec fn query_tokens(opts: QueryOptions, now: i64) -> Seq<TokenV> {
    spec_tokenize(opts.query@, opts.regex, opts.match_whole_word, now)
}

/// Whether entry `e` passes every part of the filter.
pub open spec fn spec_passes(e: IndexedFile, opts: QueryOptions, now: i64, offset: i64) -> bool {
    let lp = encode_utf8(e.lower_path@);
    let scope = scope_of(opts);
    &&& (opts.include_all || !e.excluded)
    &&& (scope.len() == 0 || in_scope(lp, encode_utf8(scope)))
    &&& !any_excluded(lp, excludes_of(opts))
    &&& content_ok(e, opts.content_paths)
    &&& (opts.query@.len() == 0 || spec_file_matches(e, query_tokens(opts, now), opts, offset))
}

/// Positions of the entries that pass, in order.
pub open spec fn matched_indices(
    entries: Seq<IndexedFile>,
    opts: QueryOptions,
    now: i64,
    offset: i64,
) -> Seq<int>
    decreases entries.len(),
{
    if entries.len() == 0 {
        Seq::empty()
    } else {
        let r = matched_indices(entries.drop_last(), opts, now, offset);
        if spec_passes(entries.last(), opts, now, offset) {
            r.push(entries.len() - 1)
        } else {
            r
        }
    }
}

/// The allow-list of an options record, as text.
pub open spec fn content_view(o: Option<Vec<String>>) -> Option<Seq<Seq<char>>> {
    match o {
        Some(v) => Some(strings_view(v@)),
        None => None,
    }
}

/// Two option records that filter alike: the same query, flags, scope,
/// excludes and allow-list (paging and sort aside).
pub open spec fn same_filter(o1: QueryOptions, o2: QueryOptions) -> bool {
    &&& o1.query@ == o2.query@
    &&& opt_text(o1.path) == opt_text(o2.path)
    &&& opt_text(o1.exclude_path) == opt_text(o2.exclude_path)
    &&& o1.include_all == o2.include_all
    &&& o1.match_path == o2.match_path
    &&& o1.regex == o2.regex
    &&& o1.match_case == o2.match_case
    &&& o1.match_whole_word == o2.match_whole_word
    &&& content_view(o1.content_paths) == content_view(o2.content_paths)
}

pub proof fn lemma_passes_congruent(
    e: IndexedFile,
    o1: QueryOptions,
    o2: QueryOptions,
    now: i64,
    offset: i64,
)
    requires
        same_filter(o1, o2),
    ensures
        spec_passes(e, o1, now, offset) == spec_passes(e, o2, now, offset),
{
    assert(scope_of(o1) == scope_of(o2));
    assert(excludes_of(o1) == excludes_of(o2));
    assert(query_tokens(o1, now) == query_tokens(o2, now));
    lemma_file_matches_congruent(e, query_tokens(o1, now), o1, o2, offset);
    match (o1.content_paths, o2.content_paths) {
        (Some(v1), Some(v2)) => {
            assert(strings_view(v1@) == strings_view(v2@));
            if listed(v1@, e.lower_path@) {
                let k = choose|k: int| 0 <= k < v1@.len() && (#[trigger] v1@[k])@ == e.lower_path@;
                assert(strings_view(v1@)[k] == strings_view(v2@)[k]);
                assert(v2@[k]@ == e.lower_path@);
            }
            if listed(v2@, e.lower_path@) {
                let k = choose|k: int| 0 <= k < v2@.len() && (#[trigger] v2@[k])@ == e.lower_path@;
                assert(strings_view(v1@)[k] == strings_view(v2@)[k]);
                assert(v1@[k]@ == e.lower_path@);
            }
        },
        _ => {},
    }
}

/// Option records that filter alike match the same entries.
pub proof fn lemma_matched_congruent(
    entries: Seq<IndexedFile>,
    o1: QueryOptions,
    o2: QueryOptions,
    now: i64,
    offset: i64,
)
    requires
        same_filter(o1, o2),
    ensures
        matched_indices(entries, o1, now, offset) == matched_indices(entries, o2, now, offset),
    decreases entries.len(),
{
    if entries.len() > 0 {
        lemma_matched_congruent(entries.drop_last(), o1, o2, now, offset);
        lemma_passes_congruent(entries.last(), o1, o2, now, offset);
    }
}

pub proof fn lemma_encode_empty(s: Seq<char>)
    ensures
        (encode_utf8(s).len() == 0) == (s.len() == 0),
{
    if s.len() > 0 {
        vstd::utf8::encode_utf8_first_scalar(s);
    }
}

pub open spec fn usizes_view(v: Seq<usize>) -> Seq<int> {
    v.map_values(|i: usize| i as int)
}

fn dir_name_match(lp: &[u8], p: &[u8]) -> (r: bool)
    ensures
        r == spec_dir_name_match(lp@, p@),
{
    if p.len() > lp.len() {
        proof {
            assert forall|i: int| !dir_name_at(lp@, p@, i) by {}
        }
        return false;
    }
    let last = lp.len() - p.len();
    let mut i: usize = 0;
    loop
        invariant
            p.len() <= lp.len(),
            last == lp.len() - p.len(),
            i <= last,
            forall|k: int| 0 <= k < i ==> !dir_name_at(lp@, p@, k),
        ensures
            forall|k: int| 0 <= k <= last ==> !dir_name_at(lp@, p@, k),
        decreases last - i,
    {
        let seg_start = i == 0 || lp[i - 1] == 92 || lp[i - 1] == 58;
        if seg_start {
            let mut j: usize = 0;
            let mut same = true;
            while j < p.len()
                invariant
                    i + p.len() <= lp.len(),
                    j <= p.len(),
                    same == (forall|k: int| 0 <= k < j ==> lp@[i + k] == p@[k]),
                decreases p.len() - j,
            {
                if lp[i + j] != p[j] {
                    same = false;
                }
                j += 1;
            }
            proof {
                if same {
                    assert(lp@.subrange(i as int, i + p.len()) =~= p@);
                } else {
                    if lp@.subrange(i as int, i + p.len()) == p@ {
                        assert forall|k: int| 0 <= k < p.len() implies lp@[i + k] == p@[k] by {
                            assert(lp@.subrange(i as int, i + p.len())[k] == lp@[i + k]);
                        }
                    }
                }
            }
            if same {
                let after = i + p.len();
                if after == lp.len() || lp[after] == 92 {
                    proof {
                        assert(dir_name_at(lp@, p@, i as int));
                    }
                    return true;
                }
            }
        }
        if i == last {
            break;
        }
        i += 1;
    }
    proof {
        assert forall|k: int| !dir_name_at(lp@, p@, k) by {
            if 0 <= k && k + p.len() <= lp.len() {
                assert(k <= last);
            }
        }
    }
    false
}

fn path_excluded(lp: &[u8], p: &[u8]) -> (r: bool)
    ensures
        r == spec_path_excluded(lp@, p@),
{
    let mut k: usize = 0;
    let mut has_sep = false;
    while k < p.len()
        invariant
            k <= p.len(),
            has_sep == (exists|j: int| 0 <= j < k && p@[j] == 92u8),
        decreases p.len() - k,
    {
        if p[k] == 92 {
            has_sep = true;
        }
        k += 1;
    }
    proof {
        assert(has_sep == p@.contains(92u8));
    }
    if has_sep {
        starts_with_ci(lp, p) && (lp.len() == p.len() || lp[p.len()] == 92)
    } else {
        dir_name_match(lp, p)
    }
}

fn any_excluded_exec(lp: &[u8], excludes: &Vec<String>) -> (r: bool)
    ensures
        r == any_excluded(lp@, strings_view(excludes@)),
{
    let mut k: usize = 0;
    while k < excludes.len()
        invariant
            k <= excludes.len(),
            forall|j: int|
                0 <= j < k ==> !spec_path_excluded(lp@, encode_utf8(#[trigger] excludes@[j]@)),
        decreases excludes.len() - k,
    {
        if path_excluded(lp, excludes[k].as_str().as_bytes()) {
            proof {
                assert(strings_view(excludes@)[k as int] == excludes@[k as int]@);
            }
            return true;
        }
        k += 1;
    }
    proof {
        assert forall|j: int| 0 <= j < strings_view(excludes@).len() implies !spec_path_excluded(
            lp@,
            encode_utf8(#[trigger] strings_view(excludes@)[j]),
        ) by {
            assert(strings_view(excludes@)[j] == excludes@[j]@);
        }
    }
    false
}

fn content_ok_exec(e: &IndexedFile, cps: &Option<Vec<String>>) -> (r: bool)
    ensures
        r == content_ok(*e, *cps),
{
    match cps {
        None => true,
        Some(v) => {
            let lp = chars_of(e.lower_path.as_str());
            let mut k: usize = 0;
            while k < v.len()
                invariant
                    k <= v.len(),
                    lp@ == e.lower_path@,
                    *cps == Some(*v),
                    forall|j: int| 0 <= j < k ==> (#[trigger] v@[j])@ != e.lower_path@,
                decreases v.len() - k,
            {
                if chars_eq(&chars_of(v[k].as_str()), &lp) {
                    proof {
                        assert(v@[k as int]@ == e.lower_path@);
                    }
                    return true;
                }
                k += 1;
            }
            false
        },
    }
}

pub(crate) fn opt_chars(o: &Option<String>) -> (r: Vec<char>)
    ensures
        r@ == opt_text(*o),
{
    match o {
        Some(s) => chars_of(s.as_str()),
        None => Vec::new(),
    }
}

/// Positions of the entries that pass the filter, in order, with the query
/// evaluated at local time `now` and entry times shifted by `offset`.
pub fn filter_at(entries: &[IndexedFile], opts: &QueryOptions, now: i64, offset: i64) -> (r: Vec<
    usize,
>)
    requires
        sane_time(offset as int),
    ensures
        usizes_view(r@) == matched_indices(entries@, *opts, now, offset),
        forall|k: int| 0 <= k < r.len() ==> #[trigger] r@[k] < entries.len(),
{
    let tokens = tokenize_at(opts.query.as_str(), opts, now);
    let scope = string_from_chars(&lower_vec(&trim_end_char_exec(&opt_chars(&opts.path), '\\')));
    let excludes = clean_list(&opt_chars(&opts.exclude_path), ';', ListKind::ExcludePaths);
    let slots = compile_regexes(&tokens, !opts.match_case);
    let query_empty = opts.query.as_str().is_empty();
    let sb: &[u8] = scope.as_str().as_bytes();
    let mut out: Vec<usize> = Vec::new();
    let mut i: usize = 0;
    proof {
        assert(entries@.take(0) =~= Seq::<IndexedFile>::empty());
        assert(usizes_view(out@) =~= Seq::<int>::empty());
    }
    while i < entries.len()
        invariant
            i <= entries.len(),
            sane_time(offset as int),
            tokens_view(tokens@) == query_tokens(*opts, now),
            sb@ == encode_utf8(scope_of(*opts)),
            strings_view(excludes@) == excludes_of(*opts),
            regex_table_ok(slots@, tokens_view(tokens@), !opts.match_case),
            query_empty == (opts.query@.len() == 0),
            usizes_view(out@) == matched_indices(entries@.take(i as int), *opts, now, offset),
            forall|k: int| 0 <= k < out.len() ==> #[trigger] out@[k] < i,
        decreases entries.len() - i,
    {
        let e = &entries[i];
        proof {
            assert(entries@.take(i as int + 1).drop_last() =~= entries@.take(i as int));
            assert(entries@.take(i as int + 1).last() == entries@[i as int]);
        }
        let lp = e.lower_path.as_str().as_bytes();
        let pass = (opts.include_all || !e.excluded) && (sb.len() == 0 || (starts_with_ci(lp, sb) && (
        lp.len() <= sb.len() || lp[sb.len()] == 92 || lp[sb.len()] == 58)))
            && !any_excluded_exec(lp, &excludes) && content_ok_exec(e, &opts.content_paths) && (
        query_empty || file_matches(e, &tokens, &slots, opts, offset));
        proof {
            lemma_encode_empty(scope_of(*opts));
        }
        if pass {
            let ghost before = usizes_view(out@);
            out.push(i);
            proof {
                assert(usizes_view(out@) =~= before.push(i as int));
            }
        }
        i += 1;
    }
    proof {
        assert(entries@.take(entries.len() as int) =~= entries@);
    }
    out
}

} // verus!
