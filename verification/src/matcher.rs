//! Matching index entries against parsed query tokens, and the shared
//! filter of `search` and `aggregate` (default excludes, path scope,
//! excluded paths, content constraint, query).

use vstd::prelude::*;
use vstd::utf8::encode_utf8;

use crate::dates::{sane_time, windows_ts_to_unix, FILETIME_UNIX_EPOCH};
use crate::qparse::{date_match, size_match, spec_date_match, spec_size_match};
use crate::query::{
    lemma_tokens_view_index, lemma_tokens_view_len, lemma_tokens_view_push, token_view, DateKind,
    QueryOptions, Token, TokenV, TypeFilter,
};
use crate::re::{regex_builds, regex_matches, CompiledRegex};
use crate::text::{chars_eq, chars_of, contains_char, lower_seq, lower_vec, string_from_chars};
use crate::tokenize::{
    clean_list, spec_clean_list, spec_tokenize, tokenize_at, trim_end_char, trim_end_char_exec,
    ListKind,
};
use crate::query::{strings_view, tokens_view};
use crate::types::IndexedFile;
use crate::wildcard::{
    bytes_occur, occurs, spec_whole_word, spec_wildcard_match, starts_ci, starts_with_ci,
    whole_word_match, wildcard_match,
};

verus! {

broadcast use vstd::seq_lib::group_seq_properties;

// ---------------------------------------------------------------------------
// Specification
// ---------------------------------------------------------------------------

/// The text name terms match against: the lowercase path with `match_path`,
/// else the name.
pub open spec fn target_of(e: IndexedFile, match_path: bool) -> Seq<char> {
    if match_path {
        e.lower_path@
    } else {
        e.name@
    }
}

/// `lp` lies in the scope `s`: it starts with `s` (ASCII case-insensitively)
/// and, where longer, continues with `\` or `:`.
pub open spec fn in_scope(lp: Seq<u8>, s: Seq<u8>) -> bool {
    starts_ci(lp, s) && (lp.len() > s.len() ==> (lp[s.len() as int] == 92 || lp[s.len() as int]
        == 58))
}

pub open spec fn has_char(s: Seq<char>, c: char) -> bool {
    exists|i: int| 0 <= i < s.len() && s[i] == c
}

/// A name term hits: whole-word comparison or wildcard match.
pub open spec fn name_term_hit(
    pattern: Seq<char>,
    target: Seq<char>,
    whole_word: bool,
    cs: bool,
) -> bool {
    if whole_word {
        spec_whole_word(encode_utf8(target), encode_utf8(pattern), cs)
    } else {
        spec_wildcard_match(encode_utf8(pattern), encode_utf8(target), cs)
    }
}

/// `attrib:` test; the NORMAL bit (0x80) alone means "no other flag set".
pub open spec fn attrib_hit(attrs: u32, mask: u32) -> bool {
    if mask == 0x80 {
        attrs == 0 || attrs == 0x80
    } else {
        attrs & mask == mask
    }
}

pub open spec fn entry_time(e: IndexedFile, kind: DateKind) -> i64 {
    match kind {
        DateKind::Modified => e.modified,
        DateKind::Created => e.created,
        DateKind::Accessed => e.accessed,
    }
}

/// FILETIME to unix seconds (0 before 1970).
pub open spec fn spec_ts_to_unix(ts: i64) -> int {
    if ts < FILETIME_UNIX_EPOCH {
        0
    } else {
        (ts - FILETIME_UNIX_EPOCH) / 10_000_000
    }
}

/// The lowercase extension, or the empty text.
pub open spec fn ext_or_empty(e: IndexedFile) -> Seq<char> {
    match e.extension {
        Some(x) => x@,
        None => Seq::empty(),
    }
}

/// `ext` is one of `exts`.
pub open spec fn ext_hit(exts: Seq<Seq<char>>, ext: Seq<char>) -> bool {
    exists|i: int| 0 <= i < exts.len() && #[trigger] exts[i] == ext
}

pub open spec fn regex_pattern_of(t: TokenV) -> Option<Seq<char>> {
    match t {
        TokenV::Regex { pattern, .. } => Some(pattern),
        _ => None,
    }
}

/// The patterns of the regex terms at the top level of `top`, in order
/// (regexes are compiled from top-level terms only).
pub open spec fn regex_patterns(top: Seq<TokenV>) -> Seq<Seq<char>>
    decreases top.len(),
{
    if top.len() == 0 {
        Seq::empty()
    } else {
        let r = regex_patterns(top.drop_last());
        match regex_pattern_of(top.last()) {
            Some(p) => r.push(p),
            None => r,
        }
    }
}

/// A regex term hits when its pattern was compiled and matches the target.
pub open spec fn regex_hit(top: Seq<TokenV>, pattern: Seq<char>, ci: bool, target: Seq<char>) -> bool {
    regex_patterns(top).contains(pattern) && regex_builds(pattern, ci) && regex_matches(
        pattern,
        ci,
        target,
    )
}

/// Whether entry `e` satisfies token `t`. `top` are the query's top-level
/// tokens, `offset` the local time offset added to entry times.
pub open spec fn spec_token_matches(
    e: IndexedFile,
    t: TokenV,
    opts: QueryOptions,
    top: Seq<TokenV>,
    offset: i64,
) -> bool
    decreases t,
{
    let target = target_of(e, opts.match_path);
    match t {
        TokenV::Include { pattern, whole_word, case_sensitive } => name_term_hit(
            pattern,
            target,
            whole_word,
            opts.match_case || case_sensitive,
        ),
        TokenV::Exclude { pattern, whole_word, case_sensitive } => {
            let cs = opts.match_case || case_sensitive;
            !(if has_char(pattern, '\\') || has_char(pattern, '/') {
                occurs(encode_utf8(e.path@), encode_utf8(pattern), !cs)
            } else {
                name_term_hit(pattern, target, whole_word, cs)
            })
        },
        TokenV::Regex { pattern, negate } => negate != regex_hit(
            top,
            pattern,
            !opts.match_case,
            target,
        ),
        TokenV::Or(g) => group_matches(e, g, opts, top, offset),
        TokenV::Path(p) => in_scope(encode_utf8(e.lower_path@), encode_utf8(trim_end_char(p, '\\'))),
        TokenV::BarePath(p) => in_scope(
            encode_utf8(e.lower_path@),
            encode_utf8(trim_end_char(p, '\\')),
        ),
        TokenV::Ext(exts) => ext_hit(exts, ext_or_empty(e)),
        TokenV::Size(f) => spec_size_match(f, e.size),
        TokenV::Date { kind, op, value } => spec_date_match(
            op,
            value as int,
            spec_ts_to_unix(entry_time(e, kind)) + offset,
        ),
        TokenV::TypeFilter(f) => match f {
            TypeFilter::Files => !e.is_dir,
            TypeFilter::Folders => e.is_dir,
        },
        TokenV::Attrib { mask, negate } => negate != attrib_hit(e.attributes, mask),
        TokenV::Never => false,
    }
}

/// Every token of a group matches.
pub open spec fn group_matches(
    e: IndexedFile,
    g: Seq<TokenV>,
    opts: QueryOptions,
    top: Seq<TokenV>,
    offset: i64,
) -> bool
    decreases g,
{
    if g.len() == 0 {
        true
    } else {
        group_matches(e, g.drop_last(), opts, top, offset) && spec_token_matches(
            e,
            g.last(),
            opts,
            top,
            offset,
        )
    }
}

/// The query matches: no tokens, or some top-level token (groups joined by
/// `|`) matches.
pub open spec fn spec_file_matches(
    e: IndexedFile,
    tokens: Seq<TokenV>,
    opts: QueryOptions,
    offset: i64,
) -> bool {
    tokens.len() == 0 || exists|i: int|
        0 <= i < tokens.len() && spec_token_matches(e, #[trigger] tokens[i], opts, tokens, offset)
}

/// A token's match reads only the `match_path` and `match_case` options.
pub proof fn lemma_token_matches_congruent(
    e: IndexedFile,
    t: TokenV,
    o1: QueryOptions,
    o2: QueryOptions,
    top: Seq<TokenV>,
    offset: i64,
)
    requires
        o1.match_path == o2.match_path,
        o1.match_case == o2.match_case,
    ensures
        spec_token_matches(e, t, o1, top, offset) == spec_token_matches(e, t, o2, top, offset),
    decreases t,
{
    match t {
        TokenV::Or(g) => lemma_group_matches_congruent(e, g, o1, o2, top, offset),
        _ => {},
    }
}

pub proof fn lemma_group_matches_congruent(
    e: IndexedFile,
    g: Seq<TokenV>,
    o1: QueryOptions,
    o2: QueryOptions,
    top: Seq<TokenV>,
    offset: i64,
)
    requires
        o1.match_path == o2.match_path,
        o1.match_case == o2.match_case,
    ensures
        group_matches(e, g, o1, top, offset) == group_matches(e, g, o2, top, offset),
    decreases g,
{
    if g.len() > 0 {
        lemma_group_matches_congruent(e, g.drop_last(), o1, o2, top, offset);
        lemma_token_matches_congruent(e, g.last(), o1, o2, top, offset);
    }
}

pub proof fn lemma_file_matches_congruent(
    e: IndexedFile,
    tokens: Seq<TokenV>,
    o1: QueryOptions,
    o2: QueryOptions,
    offset: i64,
)
    requires
        o1.match_path == o2.match_path,
        o1.match_case == o2.match_case,
    ensures
        spec_file_matches(e, tokens, o1, offset) == spec_file_matches(e, tokens, o2, offset),
{
    assert forall|i: int| 0 <= i < tokens.len() implies spec_token_matches(
        e,
        #[trigger] tokens[i],
        o1,
        tokens,
        offset,
    ) == spec_token_matches(e, tokens[i], o2, tokens, offset) by {
        lemma_token_matches_congruent(e, tokens[i], o1, o2, tokens, offset);
    }
}

// ---------------------------------------------------------------------------
// Regex table
// ---------------------------------------------------------------------------

/// Regexes compiled from the top-level regex terms, with the case mode `ci`.
pub open spec fn regex_table_ok(
    slots: Seq<(String, Option<CompiledRegex>)>,
    top: Seq<TokenV>,
    ci: bool,
) -> bool {
    &&& slots.len() == regex_patterns(top).len()
    &&& forall|i: int| 0 <= i < slots.len() ==> (#[trigger] slots[i]).0@ == regex_patterns(top)[i]
    &&& forall|i: int|
        0 <= i < slots.len() ==> ((#[trigger] slots[i]).1 is Some == regex_builds(
            slots[i].0@,
            ci,
        ))
    &&& forall|i: int|
        0 <= i < slots.len() ==> ((#[trigger] slots[i]).1 matches Some(c) ==> c.pattern_view()
            == slots[i].0@ && c.is_case_insensitive() == ci)
}

/// Compile the regex terms among `tokens` (top level only).
pub fn compile_regexes(tokens: &Vec<Token>, ci: bool) -> (r: Vec<(String, Option<CompiledRegex>)>)
    ensures
        regex_table_ok(r@, tokens_view(tokens@), ci),
{
    let mut slots: Vec<(String, Option<CompiledRegex>)> = Vec::new();
    let mut i: usize = 0;
    proof {
        assert(tokens@.take(0) =~= Seq::<Token>::empty());
    }
    while i < tokens.len()
        invariant
            i <= tokens.len(),
            regex_table_ok(slots@, tokens_view(tokens@.take(i as int)), ci),
        decreases tokens.len() - i,
    {
        proof {
            assert(tokens@.take(i as int + 1) =~= tokens@.take(i as int).push(tokens@[i as int]));
            lemma_tokens_view_push(tokens@.take(i as int), tokens@[i as int]);
            let tv1 = tokens_view(tokens@.take(i as int + 1));
            assert(tv1.drop_last() =~= tokens_view(tokens@.take(i as int)));
            assert(tv1.last() == token_view(tokens@[i as int]));
        }
        match &tokens[i] {
            Token::Regex { pattern, .. } => {
                let c = CompiledRegex::compile(pattern.as_str(), ci);
                let p = pattern.clone();
                slots.push((p, c));
            },
            _ => {},
        }
        i += 1;
    }
    proof {
        assert(tokens@.take(tokens.len() as int) =~= tokens@);
    }
    slots
}

fn regex_lookup(
    slots: &Vec<(String, Option<CompiledRegex>)>,
    pattern: &String,
    target: &str,
    Ghost(top): Ghost<Seq<TokenV>>,
    ci: bool,
) -> (r: bool)
    requires
        regex_table_ok(slots@, top, ci),
    ensures
        r == regex_hit(top, pattern@, ci, target@),
{
    let mut i: usize = 0;
    while i < slots.len()
        invariant
            i <= slots.len(),
            regex_table_ok(slots@, top, ci),
            forall|k: int| 0 <= k < i ==> (#[trigger] slots@[k]).0@ != pattern@,
        decreases slots.len() - i,
    {
        if slots[i].0 == *pattern {
            proof {
                assert(regex_patterns(top)[i as int] == pattern@);
            }
            return match &slots[i].1 {
                Some(re) => re.is_match(target),
                None => false,
            };
        }
        i += 1;
    }
    proof {
        if regex_patterns(top).contains(pattern@) {
            let k = choose|k: int| 0 <= k < regex_patterns(top).len() && regex_patterns(top)[k] == pattern@;
            assert(slots@[k].0@ == pattern@);
        }
    }
    false
}

// ---------------------------------------------------------------------------
// Matching
// ---------------------------------------------------------------------------

fn trimmed_scope(p: &str) -> (r: String)
    ensures
        r@ == trim_end_char(p@, '\\'),
{
    string_from_chars(&trim_end_char_exec(&chars_of(p), '\\'))
}

fn in_scope_exec(lp: &[u8], s: &[u8]) -> (r: bool)
    ensures
        r == in_scope(lp@, s@),
{
    starts_with_ci(lp, s) && (lp.len() <= s.len() || lp[s.len()] == 92 || lp[s.len()] == 58)
}

fn name_term_exec(pattern: &str, target: &str, whole_word: bool, cs: bool) -> (r: bool)
    ensures
        r == name_term_hit(pattern@, target@, whole_word, cs),
{
    if whole_word {
        whole_word_match(target, pattern, cs)
    } else {
        wildcard_match(pattern, target, cs)
    }
}

fn has_char_exec(s: &str, c: char) -> (r: bool)
    ensures
        r == has_char(s@, c),
{
    contains_char(&chars_of(s), c)
}

fn ext_matches(exts: &Vec<String>, e: &IndexedFile) -> (r: bool)
    ensures
        r == exists|i: int| 0 <= i < exts.len() && (#[trigger] exts@[i])@ == ext_or_empty(*e),
{
    let ext: Vec<char> = match &e.extension {
        Some(x) => chars_of(x.as_str()),
        None => Vec::new(),
    };
    let mut i: usize = 0;
    while i < exts.len()
        invariant
            i <= exts.len(),
            ext@ == ext_or_empty(*e),
            forall|k: int| 0 <= k < i ==> (#[trigger] exts@[k])@ != ext_or_empty(*e),
        decreases exts.len() - i,
    {
        if chars_eq(&chars_of(exts[i].as_str()), &ext) {
            return true;
        }
        i += 1;
    }
    false
}

fn entry_time_exec(e: &IndexedFile, kind: DateKind) -> (r: i64)
    ensures
        r == entry_time(*e, kind),
{
    match kind {
        DateKind::Modified => e.modified,
        DateKind::Created => e.created,
        DateKind::Accessed => e.accessed,
    }
}

/// Whether `entry` satisfies `token`.
pub fn token_matches(
    entry: &IndexedFile,
    token: &Token,
    slots: &Vec<(String, Option<CompiledRegex>)>,
    opts: &QueryOptions,
    Ghost(top): Ghost<Seq<TokenV>>,
    offset: i64,
) -> (r: bool)
    requires
        regex_table_ok(slots@, top, !opts.match_case),
        sane_time(offset as int),
    ensures
        r == spec_token_matches(*entry, token_view(*token), *opts, top, offset),
    decreases token,
{
    let target: &str = if opts.match_path {
        entry.lower_path.as_str()
    } else {
        entry.name.as_str()
    };
    match token {
        Token::Include { pattern, whole_word, case_sensitive } => {
            let cs = opts.match_case || *case_sensitive;
            let r = name_term_exec(pattern.as_str(), target, *whole_word, cs);
            proof {
                assert(token_view(*token) == (TokenV::Include {
                    pattern: pattern@,
                    whole_word: *whole_word,
                    case_sensitive: *case_sensitive,
                }));
                assert(target@ == target_of(*entry, opts.match_path));
            }
            r
        },
        Token::Exclude { pattern, whole_word, case_sensitive } => {
            let cs = opts.match_case || *case_sensitive;
            let hit = if has_char_exec(pattern.as_str(), '\\') || has_char_exec(
                pattern.as_str(),
                '/',
            ) {
                bytes_occur(entry.path.as_str().as_bytes(), pattern.as_str().as_bytes(), !cs)
            } else {
                name_term_exec(pattern.as_str(), target, *whole_word, cs)
            };
            !hit
        },
        Token::Regex { pattern, negate } => {
            let hit = regex_lookup(slots, pattern, target, Ghost(top), !opts.match_case);
            *negate != hit
        },
        Token::Or(group) => {
            let mut i: usize = 0;
            let mut ok = true;
            while i < group.len()
                invariant
                    i <= group.len(),
                    *token == Token::Or(*group),
                    regex_table_ok(slots@, top, !opts.match_case),
                    sane_time(offset as int),
                    ok == group_matches(*entry, tokens_view(group@.take(i as int)), *opts, top, offset),
                decreases group.len() - i,
            {
                proof {
                    assert(group@.take(i as int + 1) =~= group@.take(i as int).push(group@[i as int]));
                    lemma_tokens_view_push(group@.take(i as int), group@[i as int]);
                    let gv1 = tokens_view(group@.take(i as int + 1));
                    assert(gv1.drop_last() =~= tokens_view(group@.take(i as int)));
                    assert(gv1.last() == token_view(group@[i as int]));
                    assert(decreases_to!(*token => (*token)->Or_0));
                    assert(decreases_to!(*group => group@));
                    assert(decreases_to!(group@ => group@[i as int]));
                }
                let b = token_matches(entry, &group[i], slots, opts, Ghost(top), offset);
                ok = ok && b;
                i += 1;
            }
            proof {
                assert(group@.take(group.len() as int) =~= group@);
            }
            ok
        },
        Token::Path(p) => {
            let s = trimmed_scope(p.as_str());
            in_scope_exec(entry.lower_path.as_str().as_bytes(), s.as_str().as_bytes())
        },
        Token::BarePath(p) => {
            let s = trimmed_scope(p.as_str());
            in_scope_exec(entry.lower_path.as_str().as_bytes(), s.as_str().as_bytes())
        },
        Token::Ext(exts) => {
            let r = ext_matches(exts, entry);
            proof {
                let sv = strings_view(exts@);
                assert(token_view(*token) == TokenV::Ext(sv));
                assert(sv.len() == exts@.len());
                assert forall|i: int| 0 <= i < exts@.len() implies sv[i] == (#[trigger] exts@[i])@ by {}
                if r {
                    let i = choose|i: int| 0 <= i < exts.len() && (#[trigger] exts@[i])@ == ext_or_empty(*entry);
                    assert(sv[i] == ext_or_empty(*entry));
                } else {
                    assert forall|i: int| 0 <= i < sv.len() implies #[trigger] sv[i] != ext_or_empty(*entry) by {
                        assert(sv[i] == exts@[i]@);
                    }
                }
            }
            r
        },
        Token::Size(f) => size_match(f, entry.size),
        Token::Date { kind, op, value } => {
            let unix: i64 = windows_ts_to_unix(entry_time_exec(entry, *kind));
            proof {
                assert(unix <= 922_337_203_686) by (nonlinear_arith)
                    requires
                        unix == spec_ts_to_unix(entry_time(*entry, *kind)),
                ;
            }
            date_match(op, *value, unix + offset)
        },
        Token::TypeFilter(f) => match f {
            TypeFilter::Files => !entry.is_dir,
            TypeFilter::Folders => entry.is_dir,
        },
        Token::Attrib { mask, negate } => {
            let hit = if *mask == 0x80 {
                entry.attributes == 0 || entry.attributes == 0x80
            } else {
                entry.attributes & *mask == *mask
            };
            *negate != hit
        },
        Token::Never => false,
    }
}

/// Whether `entry` satisfies the query: groups joined by `|` are OR-ed.
pub fn file_matches(
    entry: &IndexedFile,
    tokens: &Vec<Token>,
    slots: &Vec<(String, Option<CompiledRegex>)>,
    opts: &QueryOptions,
    offset: i64,
) -> (r: bool)
    requires
        regex_table_ok(slots@, tokens_view(tokens@), !opts.match_case),
        sane_time(offset as int),
    ensures
        r == spec_file_matches(*entry, tokens_view(tokens@), *opts, offset),
{
    proof {
        lemma_tokens_view_len(tokens@);
    }
    if tokens.len() == 0 {
        return true;
    }
    let mut i: usize = 0;
    while i < tokens.len()
        invariant
            i <= tokens.len(),
            regex_table_ok(slots@, tokens_view(tokens@), !opts.match_case),
            sane_time(offset as int),
            tokens_view(tokens@).len() == tokens@.len(),
            forall|k: int|
                0 <= k < i ==> !spec_token_matches(
                    *entry,
                    #[trigger] tokens_view(tokens@)[k],
                    *opts,
                    tokens_view(tokens@),
                    offset,
                ),
        decreases tokens.len() - i,
    {
        proof {
            lemma_tokens_view_index(tokens@, i as int);
        }
        if token_matches(entry, &tokens[i], slots, opts, Ghost(tokens_view(tokens@)), offset) {
            return true;
        }
        i += 1;
    }
    false
}

} // verus!
