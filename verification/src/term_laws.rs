//! What query terms mean for the entries they admit: a negated term is the
//! complement of the plain one, `size:<V` / `size:>V` / `size:<=V` /
//! `size:>=V` admit the sizes below / above / at most / at least `V`, and
//! `dm:>D` / `dm:<D` (and `dc:`, `da:`) admit the times after day `D` /
//! before it.

use vstd::prelude::*;

use crate::matcher::{has_char, spec_token_matches};
use crate::query::{QueryOptions, TokenV};
use crate::seqs::has_prefix;
use crate::dates::sane_time;
use crate::matcher::spec_ts_to_unix;
use crate::qparse::{
    spec_parse_date, spec_parse_date_filter, spec_parse_size, spec_parse_size_filter,
    DateOp, SizeFilter,
};
use crate::seqs::split_once;
use crate::query::DateKind;
use crate::text::{
    is_white, lead_ws, lemma_lead_ws_bound, lemma_trail_ws_bound, lower_seq, trail_ws, trim,
    trim_start,
};
use crate::tokenize::{date_term, filter_term, spec_term};
use crate::types::IndexedFile;

verus! {

/// A text that does not start with `lit` when their first characters differ.
proof fn lemma_first_differs(s: Seq<char>, lit: Seq<char>)
    requires
        s.len() > 0,
        lit.len() > 0,
        s[0] != lit[0],
    ensures
        !has_prefix(s, lit),
{
    if has_prefix(s, lit) {
        assert(s.take(lit.len() as int)[0] == s[0]);
    }
}

/// Negating a plain term keeps its pattern and flags and turns the
/// inclusion into an exclusion.
#[verifier::spinoff_prover]
proof fn lemma_negated_term(w: Seq<char>, mww: bool, now: i64)
    requires
        w.len() > 0,
        w[0] != '!',
        w[0] != '<',
    ensures
        spec_term(w, mww, now) matches Some(TokenV::Include { pattern, whole_word, case_sensitive })
            ==> spec_term(seq!['!'] + w, mww, now) == Some(
            TokenV::Exclude { pattern, whole_word, case_sensitive },
        ),
{
    reveal_strlit("!");
    reveal_strlit("!<");
    let raw = seq!['!'] + w;
    assert(raw.take(1) =~= "!"@);
    assert(has_prefix(raw, "!"@));
    assert(!has_prefix(raw, "!<"@)) by {
        if has_prefix(raw, "!<"@) {
            assert(raw.take(2)[1] == raw[1]);
            assert(raw[1] == w[0]);
        }
    }
    assert(raw.skip(1) =~= w);
    lemma_first_differs(w, "!"@);
}

/// `!p` admits exactly the entries that the plain term `p` does not, for a
/// name pattern (one without `\` or `/`), whatever the options.
#[verifier::spinoff_prover]
pub proof fn law_negated_term_is_complement(
    w: Seq<char>,
    mww: bool,
    now: i64,
    e: IndexedFile,
    opts: QueryOptions,
    top: Seq<TokenV>,
    offset: i64,
)
    requires
        w.len() > 0,
        w[0] != '!',
        w[0] != '<',
        spec_term(w, mww, now) matches Some(TokenV::Include { pattern, .. }) && !has_char(
            pattern,
            '\\',
        ) && !has_char(pattern, '/'),
    ensures
        spec_term(seq!['!'] + w, mww, now) matches Some(t) && spec_token_matches(
            e,
            t,
            opts,
            top,
            offset,
        ) == !spec_token_matches(e, spec_term(w, mww, now)->0, opts, top, offset),
{
    lemma_negated_term(w, mww, now);
}

/// Trimming leaves a text alone whose ends are not whitespace.
proof fn lemma_trim_fixed(s: Seq<char>)
    requires
        s.len() > 0,
        !is_white(s[0]),
        !is_white(s[s.len() - 1]),
    ensures
        trim(s) == s,
{
    lemma_lead_ws_bound(s);
    assert(lead_ws(s) == 0);
    assert(trim_start(s) =~= s);
    lemma_trail_ws_bound(s);
    assert(trail_ws(s) == 0);
    assert(trim(s) =~= s);
}

/// A text equal to `lit` has `lit`'s first character.
proof fn lemma_not_lit(s: Seq<char>, lit: Seq<char>)
    requires
        s.len() > 0,
        lit.len() > 0,
        s[0] != lit[0],
    ensures
        s != lit,
{
}

/// The prefix of the date filter on `k`: `dm:`, `dc:` or `da:`.
pub open spec fn date_prefix(k: DateKind) -> Seq<char> {
    match k {
        DateKind::Modified => "dm:"@,
        DateKind::Created => "dc:"@,
        DateKind::Accessed => "da:"@,
    }
}

/// The time of `e` that the date filter on `k` reads.
pub open spec fn filtered_time(e: IndexedFile, k: DateKind) -> i64 {
    match k {
        DateKind::Modified => e.modified,
        DateKind::Created => e.created,
        DateKind::Accessed => e.accessed,
    }
}

/// A text whose second character differs from `lit`'s does not start with
/// `lit`.
proof fn lemma_second_differs(s: Seq<char>, lit: Seq<char>)
    requires
        s.len() > 1,
        lit.len() > 1,
        s[1] != lit[1],
    ensures
        !has_prefix(s, lit),
{
    if has_prefix(s, lit) {
        assert(s.take(lit.len() as int)[1] == s[1]);
    }
}

/// `size:X`, `dm:X`, `dc:X` and `da:X` are read as filters on `X`: no
/// modifier prefix applies, and the filter prefix is recognised.
#[verifier::spinoff_prover]
proof fn lemma_filter_prefix(raw: Seq<char>, k: DateKind, mww: bool, now: i64)
    requires
        raw.len() >= 5,
        raw.take(5) == "size:"@ || raw.take(3) == date_prefix(k),
        !is_white(raw[raw.len() - 1]),
    ensures
        spec_term(raw, mww, now) == filter_term(raw, false, now)->0,
        filter_term(raw, false, now) is Some,
        raw.take(5) == "size:"@ ==> filter_term(raw, false, now) == Some(
            match spec_parse_size_filter(raw.skip(5)) {
                Some(f) => Some(TokenV::Size(f)),
                None => Some(TokenV::Never),
            },
        ),
        raw.take(3) == date_prefix(k) ==> filter_term(raw, false, now) == Some(
            date_term(k, raw.skip(3), now),
        ),
{
    reveal_strlit("!");
    reveal_strlit("regex:");
    reveal_strlit("case:");
    reveal_strlit("ww:");
    reveal_strlit("wholeword:");
    reveal_strlit("path:");
    reveal_strlit("ext:");
    reveal_strlit("attrib:");
    reveal_strlit("folder:");
    reveal_strlit("file:");
    reveal_strlit("size:");
    reveal_strlit("dm:");
    reveal_strlit("dc:");
    reveal_strlit("da:");
    let lower = lower_seq(raw);
    if raw.take(5) == "size:"@ {
        assert(raw[0] == raw.take(5)[0]);
        assert forall|i: int| 0 <= i < 5 implies lower[i] == "size:"@[i] by {
            assert(raw.take(5)[i] == raw[i]);
        }
        assert(lower.take(5) =~= "size:"@);
    } else {
        let p = date_prefix(k);
        assert(raw[0] == raw.take(3)[0]);
        assert forall|i: int| 0 <= i < 3 implies lower[i] == p[i] by {
            assert(raw.take(3)[i] == raw[i]);
        }
        assert(lower.take(3) =~= p);
        lemma_first_differs(lower, "size:"@);
        if k != DateKind::Modified {
            lemma_second_differs(lower, "dm:"@);
        }
        if k == DateKind::Accessed {
            lemma_second_differs(lower, "dc:"@);
        }
    }
    assert(!is_white(raw[0]));
    lemma_trim_fixed(raw);
    lemma_first_differs(raw, "!"@);
    lemma_first_differs(raw, "regex:"@);
    lemma_first_differs(raw, "case:"@);
    lemma_first_differs(raw, "ww:"@);
    lemma_first_differs(raw, "wholeword:"@);
    lemma_first_differs(raw, "path:"@);
    lemma_first_differs(raw, "ext:"@);
    assert(lower[0] == raw[0]);
    lemma_first_differs(lower, "attrib:"@);
    lemma_first_differs(raw, "folder:"@);
    lemma_first_differs(raw, "file:"@);
}

/// `<V` is read as "below the size `V` names".
#[verifier::spinoff_prover]
proof fn lemma_size_filter_below(v: Seq<char>, n: u64)
    requires
        v.len() > 0,
        v[0] != '=',
        !is_white(v[v.len() - 1]),
        split_once(seq!['<'] + v, ".."@) is None,
        spec_parse_size(v) == Some(n),
    ensures
        spec_parse_size_filter(seq!['<'] + v) == Some(SizeFilter::Less(n)),
{
    reveal_strlit(">=");
    reveal_strlit("<=");
    reveal_strlit(">");
    reveal_strlit("<");
    let x = seq!['<'] + v;
    assert(x[x.len() - 1] == v[v.len() - 1]);
    lemma_trim_fixed(x);
    lemma_no_size_name(x);
    lemma_first_differs(x, ">="@);
    lemma_second_differs(x, "<="@);
    lemma_first_differs(x, ">"@);
    assert(x.take(1) =~= "<"@);
    assert(x.skip(1) =~= v);
}

/// `>V` is read as "above the size `V` names".
#[verifier::spinoff_prover]
proof fn lemma_size_filter_above(v: Seq<char>, n: u64)
    requires
        v.len() > 0,
        v[0] != '=',
        !is_white(v[v.len() - 1]),
        split_once(seq!['>'] + v, ".."@) is None,
        spec_parse_size(v) == Some(n),
    ensures
        spec_parse_size_filter(seq!['>'] + v) == Some(SizeFilter::Greater(n)),
{
    reveal_strlit(">=");
    reveal_strlit("<=");
    reveal_strlit(">");
    reveal_strlit("<");
    let x = seq!['>'] + v;
    assert(x[x.len() - 1] == v[v.len() - 1]);
    lemma_trim_fixed(x);
    lemma_no_size_name(x);
    lemma_second_differs(x, ">="@);
    lemma_first_differs(x, "<="@);
    assert(x.take(1) =~= ">"@);
    assert(x.skip(1) =~= v);
}

/// `<=V` is read as "at most the size `V` names".
#[verifier::spinoff_prover]
proof fn lemma_size_filter_at_most(v: Seq<char>, n: u64)
    requires
        v.len() > 0,
        v[0] != '=',
        !is_white(v[v.len() - 1]),
        split_once(seq!['<', '='] + v, ".."@) is None,
        spec_parse_size(v) == Some(n),
    ensures
        spec_parse_size_filter(seq!['<', '='] + v) == Some(SizeFilter::LessOrEqual(n)),
{
    reveal_strlit(">=");
    reveal_strlit("<=");
    reveal_strlit(">");
    reveal_strlit("<");
    let x = seq!['<', '='] + v;
    assert(x[x.len() - 1] == v[v.len() - 1]);
    lemma_trim_fixed(x);
    lemma_no_size_name(x);
    lemma_first_differs(x, ">="@);
    assert(x.take(2) =~= "<="@);
    assert(x.skip(2) =~= v);
}

/// `>=V` is read as "at least the size `V` names".
#[verifier::spinoff_prover]
proof fn lemma_size_filter_at_least(v: Seq<char>, n: u64)
    requires
        v.len() > 0,
        v[0] != '=',
        !is_white(v[v.len() - 1]),
        split_once(seq!['>', '='] + v, ".."@) is None,
        spec_parse_size(v) == Some(n),
    ensures
        spec_parse_size_filter(seq!['>', '='] + v) == Some(SizeFilter::GreaterOrEqual(n)),
{
    reveal_strlit(">=");
    reveal_strlit("<=");
    reveal_strlit(">");
    reveal_strlit("<");
    let x = seq!['>', '='] + v;
    assert(x[x.len() - 1] == v[v.len() - 1]);
    lemma_trim_fixed(x);
    lemma_no_size_name(x);
    assert(x.take(2) =~= ">="@);
    assert(x.skip(2) =~= v);
}

/// A value starting with `<` or `>` names none of the size classes.
proof fn lemma_no_size_name(s0: Seq<char>)
    requires
        s0.len() > 0,
        s0[0] == '<' || s0[0] == '>',
    ensures
        lower_seq(s0) != "tiny"@,
        lower_seq(s0) != "small"@,
        lower_seq(s0) != "medium"@,
        lower_seq(s0) != "large"@,
        lower_seq(s0) != "huge"@,
        lower_seq(s0) != "gigantic"@,
        lower_seq(s0) != "empty"@,
{
    reveal_strlit("tiny");
    reveal_strlit("small");
    reveal_strlit("medium");
    reveal_strlit("large");
    reveal_strlit("huge");
    reveal_strlit("gigantic");
    reveal_strlit("empty");
    let l = lower_seq(s0);
    assert(l[0] == s0[0]);
    lemma_not_lit(l, "tiny"@);
    lemma_not_lit(l, "small"@);
    lemma_not_lit(l, "medium"@);
    lemma_not_lit(l, "large"@);
    lemma_not_lit(l, "huge"@);
    lemma_not_lit(l, "gigantic"@);
    lemma_not_lit(l, "empty"@);
}

/// `size:X` is the size filter `X` reads as (one matching nothing where `X`
/// does not read).
#[verifier::spinoff_prover]
proof fn lemma_size_term(x: Seq<char>, mww: bool, now: i64)
    requires
        x.len() > 0,
        !is_white(x[x.len() - 1]),
    ensures
        spec_term("size:"@ + x, mww, now) == match spec_parse_size_filter(x) {
            Some(f) => Some(TokenV::Size(f)),
            None => Some(TokenV::Never),
        },
{
    reveal_strlit("size:");
    let raw = "size:"@ + x;
    assert(raw.take(5) =~= "size:"@);
    assert(raw[raw.len() - 1] == x[x.len() - 1]);
    lemma_filter_prefix(raw, DateKind::Modified, mww, now);
    assert(raw.skip(5) =~= x);
}

/// `size:X` is the size filter `X` reads as.
#[verifier::spinoff_prover]
proof fn lemma_size_term_is(x: Seq<char>, f: SizeFilter, mww: bool, now: i64)
    requires
        x.len() > 0,
        !is_white(x[x.len() - 1]),
        spec_parse_size_filter(x) == Some(f),
    ensures
        spec_term("size:"@ + x, mww, now) == Some(TokenV::Size(f)),
{
    lemma_size_term(x, mww, now);
}

/// `size:<V` admits exactly the entries smaller than the size `V` names
/// (for a value that is not a range).
#[verifier::spinoff_prover]
pub proof fn law_size_below(
    v: Seq<char>,
    n: u64,
    mww: bool,
    now: i64,
    e: IndexedFile,
    opts: QueryOptions,
    top: Seq<TokenV>,
    offset: i64,
)
    requires
        v.len() > 0,
        v[0] != '=',
        !is_white(v[v.len() - 1]),
        split_once(seq!['<'] + v, ".."@) is None,
        spec_parse_size(v) == Some(n),
    ensures
        spec_term("size:"@ + seq!['<'] + v, mww, now) matches Some(t) && (spec_token_matches(
            e,
            t,
            opts,
            top,
            offset,
        ) <==> e.size < n),
{
    let x = seq!['<'] + v;
    assert(x[x.len() - 1] == v[v.len() - 1]);
    lemma_size_filter_below(v, n);
    lemma_size_term_is(x, SizeFilter::Less(n), mww, now);
    assert("size:"@ + x == "size:"@ + seq!['<'] + v);
}

/// `size:>V` admits exactly the entries larger than the size `V` names
/// (for a value that is not a range).
#[verifier::spinoff_prover]
pub proof fn law_size_above(
    v: Seq<char>,
    n: u64,
    mww: bool,
    now: i64,
    e: IndexedFile,
    opts: QueryOptions,
    top: Seq<TokenV>,
    offset: i64,
)
    requires
        v.len() > 0,
        v[0] != '=',
        !is_white(v[v.len() - 1]),
        split_once(seq!['>'] + v, ".."@) is None,
        spec_parse_size(v) == Some(n),
    ensures
        spec_term("size:"@ + seq!['>'] + v, mww, now) matches Some(t) && (spec_token_matches(
            e,
            t,
            opts,
            top,
            offset,
        ) <==> e.size > n),
{
    let x = seq!['>'] + v;
    assert(x[x.len() - 1] == v[v.len() - 1]);
    lemma_size_filter_above(v, n);
    lemma_size_term_is(x, SizeFilter::Greater(n), mww, now);
    assert("size:"@ + x == "size:"@ + seq!['>'] + v);
}

/// `size:<=V` admits exactly the entries no larger than the size `V`
/// names (for a value that is not a range).
#[verifier::spinoff_prover]
pub proof fn law_size_at_most(
    v: Seq<char>,
    n: u64,
    mww: bool,
    now: i64,
    e: IndexedFile,
    opts: QueryOptions,
    top: Seq<TokenV>,
    offset: i64,
)
    requires
        v.len() > 0,
        v[0] != '=',
        !is_white(v[v.len() - 1]),
        split_once(seq!['<', '='] + v, ".."@) is None,
        spec_parse_size(v) == Some(n),
    ensures
        spec_term("size:"@ + seq!['<', '='] + v, mww, now) matches Some(t) && (spec_token_matches(
            e,
            t,
            opts,
            top,
            offset,
        ) <==> e.size <= n),
{
    let x = seq!['<', '='] + v;
    assert(x[x.len() - 1] == v[v.len() - 1]);
    lemma_size_filter_at_most(v, n);
    lemma_size_term_is(x, SizeFilter::LessOrEqual(n), mww, now);
    assert("size:"@ + x == "size:"@ + seq!['<', '='] + v);
}

/// `size:>=V` admits exactly the entries no smaller than the size `V`
/// names (for a value that is not a range).
#[verifier::spinoff_prover]
pub proof fn law_size_at_least(
    v: Seq<char>,
    n: u64,
    mww: bool,
    now: i64,
    e: IndexedFile,
    opts: QueryOptions,
    top: Seq<TokenV>,
    offset: i64,
)
    requires
        v.len() > 0,
        v[0] != '=',
        !is_white(v[v.len() - 1]),
        split_once(seq!['>', '='] + v, ".."@) is None,
        spec_parse_size(v) == Some(n),
    ensures
        spec_term("size:"@ + seq!['>', '='] + v, mww, now) matches Some(t) && (spec_token_matches(
            e,
            t,
            opts,
            top,
            offset,
        ) <==> e.size >= n),
{
    let x = seq!['>', '='] + v;
    assert(x[x.len() - 1] == v[v.len() - 1]);
    lemma_size_filter_at_least(v, n);
    lemma_size_term_is(x, SizeFilter::GreaterOrEqual(n), mww, now);
    assert("size:"@ + x == "size:"@ + seq!['>', '='] + v);
}

/// `>D` and `<D` are read as comparisons with the day `D`.
#[verifier::spinoff_prover]
proof fn lemma_date_filter_bound(v: Seq<char>, c: char, now: i64)
    requires
        v.len() > 0,
        !is_white(v[v.len() - 1]),
        c == '>' || c == '<',
    ensures
        spec_parse_date_filter(seq![c] + v, now) == match spec_parse_date(v, now) {
            Some(d) => Some((if c == '>' {
                DateOp::After
            } else {
                DateOp::Before
            }, d)),
            None => None,
        },
{
    reveal_strlit(">");
    reveal_strlit("<");
    let s = seq![c] + v;
    assert(s[s.len() - 1] == v[v.len() - 1]);
    lemma_trim_fixed(s);
    assert(s.skip(1) =~= v);
    if c == '>' {
        assert(s.take(1) =~= ">"@);
    } else {
        lemma_first_differs(s, ">"@);
        assert(s.take(1) =~= "<"@);
    }
}

/// `dm:>D` and `dm:<D` (and the `dc:`, `da:` forms) are the date filters
/// after and before the day `D` on the matching time.
#[verifier::spinoff_prover]
proof fn lemma_date_term(k: DateKind, v: Seq<char>, c: char, d: i64, mww: bool, now: i64)
    requires
        v.len() > 0,
        !is_white(v[v.len() - 1]),
        c == '>' || c == '<',
        sane_time(now as int),
        spec_parse_date(v, now) == Some(d),
    ensures
        spec_term(date_prefix(k) + seq![c] + v, mww, now) == Some(
            TokenV::Date {
                kind: k,
                op: if c == '>' {
                    DateOp::After
                } else {
                    DateOp::Before
                },
                value: d,
            },
        ),
{
    reveal_strlit("dm:");
    reveal_strlit("dc:");
    reveal_strlit("da:");
    let a = date_prefix(k) + seq![c] + v;
    assert(a.take(3) =~= date_prefix(k));
    assert(a[a.len() - 1] == v[v.len() - 1]);
    lemma_filter_prefix(a, k, mww, now);
    let rest = seq![c] + v;
    assert(a.skip(3) =~= rest);
    lemma_date_filter_bound(v, c, now);
    let op = if c == '>' {
        DateOp::After
    } else {
        DateOp::Before
    };
    assert(spec_parse_date_filter(rest, now) == Some((op, d)));
    assert(date_term(k, rest, now) == Some(TokenV::Date { kind: k, op, value: d }));
}

/// `dm:>D` (`dc:>D`, `da:>D`) admits exactly the entries whose modification
/// (creation, access) time comes once day `D` has ended, entry times
/// shifted by the offset.
#[verifier::spinoff_prover]
pub proof fn law_date_after(
    k: DateKind,
    v: Seq<char>,
    d: i64,
    mww: bool,
    now: i64,
    e: IndexedFile,
    opts: QueryOptions,
    top: Seq<TokenV>,
    offset: i64,
)
    requires
        v.len() > 0,
        !is_white(v[v.len() - 1]),
        sane_time(now as int),
        spec_parse_date(v, now) == Some(d),
    ensures
        spec_term(date_prefix(k) + seq!['>'] + v, mww, now) matches Some(t) && (
        spec_token_matches(e, t, opts, top, offset) <==> spec_ts_to_unix(filtered_time(e, k)) + offset >= d + 86400),
{
    lemma_date_term(k, v, '>', d, mww, now);
}

/// `dm:<D` (`dc:<D`, `da:<D`) admits exactly the entries whose modification
/// (creation, access) time comes before day `D` starts, entry times
/// shifted by the offset.
#[verifier::spinoff_prover]
pub proof fn law_date_before(
    k: DateKind,
    v: Seq<char>,
    d: i64,
    mww: bool,
    now: i64,
    e: IndexedFile,
    opts: QueryOptions,
    top: Seq<TokenV>,
    offset: i64,
)
    requires
        v.len() > 0,
        !is_white(v[v.len() - 1]),
        sane_time(now as int),
        spec_parse_date(v, now) == Some(d),
    ensures
        spec_term(date_prefix(k) + seq!['<'] + v, mww, now) matches Some(t) && (
        spec_token_matches(e, t, opts, top, offset) <==> spec_ts_to_unix(filtered_time(e, k)) + offset < d),
{
    lemma_date_term(k, v, '<', d, mww, now);
}

} // verus!
