//! The query tokenizer: a query string is split on whitespace and `|`
//! (quotes keep text together), each part is classified into a [`Token`],
//! and parts between two `|` form one group whose terms must all match.

use vstd::prelude::*;

use crate::dates::sane_time;
use crate::qparse::{
    lead_count, parse_attrib_mask, parse_date_filter, parse_size_filter, spec_parse_attrib_mask,
    spec_parse_date_filter, spec_parse_size_filter, strip_char, strip_quotes, trail_count,
};
use crate::query::{
    lemma_tokens_view_len, lemma_tokens_view_push, strings_view, token_view, tokens_view,
    DateKind, QueryOptions, Token, TokenV, TypeFilter,
};
use crate::seqs::{after_lit, ends_lit, has_prefix, has_suffix, starts_lit};
use crate::text::{
    chars_of, is_ascii_alpha, is_white, is_whitespace, lower_seq, lower_vec, slice_chars,
    string_from_chars, trim, trim_vec,
};

verus! {

broadcast use vstd::seq_lib::group_seq_properties;

// ---------------------------------------------------------------------------
// Splitting
// ---------------------------------------------------------------------------

/// `parts` with `trim(cur)` appended unless it is empty.
pub open spec fn push_trimmed(parts: Seq<Seq<char>>, cur: Seq<char>) -> Seq<Seq<char>> {
    if trim(cur).len() > 0 {
        parts.push(trim(cur))
    } else {
        parts
    }
}

/// One character of the splitter: (parts so far, current part, inside quotes).
pub open spec fn split_step(st: (Seq<Seq<char>>, Seq<char>, bool), c: char) -> (
    Seq<Seq<char>>,
    Seq<char>,
    bool,
) {
    let (parts, cur, q) = st;
    if c == '"' {
        (parts, cur.push(c), !q)
    } else if c == '|' && !q {
        (push_trimmed(parts, cur).push("|"@), Seq::empty(), q)
    } else if is_white(c) && !q {
        (push_trimmed(parts, cur), Seq::empty(), q)
    } else {
        (parts, cur.push(c), q)
    }
}

pub open spec fn split_state(s: Seq<char>) -> (Seq<Seq<char>>, Seq<char>, bool)
    decreases s.len(),
{
    if s.len() == 0 {
        (Seq::empty(), Seq::empty(), false)
    } else {
        split_step(split_state(s.drop_last()), s.last())
    }
}

/// The parts of a query: whitespace separates them outside quotes, `|` is a
/// part of its own, and every part is trimmed and non-empty.
pub open spec fn spec_split_query(s: Seq<char>) -> Seq<Seq<char>> {
    let (parts, cur, _) = split_state(s);
    push_trimmed(parts, cur)
}

fn push_trimmed_exec(parts: &mut Vec<String>, cur: &[char])
    ensures
        strings_view(final(parts)@) == push_trimmed(strings_view(old(parts)@), cur@),
{
    let t = trim_vec(cur);
    if t.len() > 0 {
        let s = string_from_chars(&t);
        parts.push(s);
        proof {
            assert(strings_view(parts@) =~= strings_view(old(parts)@).push(trim(cur@)));
        }
    }
}

/// Split a query on whitespace, keeping `|` as a part of its own; quoted
/// text stays together.
pub fn split_query(query: &str) -> (r: Vec<String>)
    ensures
        strings_view(r@) == spec_split_query(query@),
{
    let q = chars_of(query);
    let mut parts: Vec<String> = Vec::new();
    let mut cur: Vec<char> = Vec::new();
    let mut in_quote = false;
    let mut i: usize = 0;
    proof {
        assert(q@.take(0) =~= Seq::<char>::empty());
        assert(strings_view(parts@) =~= Seq::<Seq<char>>::empty());
    }
    while i < q.len()
        invariant
            i <= q.len(),
            (strings_view(parts@), cur@, in_quote) == split_state(q@.take(i as int)),
        decreases q.len() - i,
    {
        let c = q[i];
        proof {
            assert(q@.take(i as int + 1).drop_last() =~= q@.take(i as int));
        }
        if c == '"' {
            in_quote = !in_quote;
            cur.push(c);
        } else if c == '|' && !in_quote {
            push_trimmed_exec(&mut parts, &cur);
            let bar = "|".to_owned();
            let ghost before = strings_view(parts@);
            parts.push(bar);
            proof {
                assert(strings_view(parts@) =~= before.push("|"@));
            }
            cur = Vec::new();
        } else if is_whitespace(c) && !in_quote {
            push_trimmed_exec(&mut parts, &cur);
            cur = Vec::new();
        } else {
            cur.push(c);
        }
        i += 1;
    }
    proof {
        assert(q@.take(q.len() as int) =~= q@);
    }
    push_trimmed_exec(&mut parts, &cur);
    parts
}

// ---------------------------------------------------------------------------
// Extension lists
// ---------------------------------------------------------------------------

/// `str::split(c)`: the pieces between occurrences of `c` (empty ones too).
pub open spec fn split_char(s: Seq<char>, c: char) -> Seq<Seq<char>>
    decreases s.len(),
{
    if s.len() == 0 {
        seq![Seq::empty()]
    } else {
        let pre = split_char(s.drop_last(), c);
        if s.last() == c {
            pre.push(Seq::empty())
        } else {
            pre.update(pre.len() - 1, pre.last().push(s.last()))
        }
    }
}

pub proof fn lemma_split_char_nonempty(s: Seq<char>, c: char)
    ensures
        split_char(s, c).len() >= 1,
    decreases s.len(),
{
    if s.len() > 0 {
        lemma_split_char_nonempty(s.drop_last(), c);
    }
}

/// `s` without leading `c` characters (`trim_start_matches`).
pub open spec fn trim_start_char(s: Seq<char>, c: char) -> Seq<char> {
    s.skip(lead_count(s, c))
}

/// `s` without trailing `c` characters (`trim_end_matches`).
pub open spec fn trim_end_char(s: Seq<char>, c: char) -> Seq<char> {
    s.take(s.len() - trail_count(s, c))
}

/// The comma/semicolon lists of the query language and the protocol.
#[derive(Debug, Clone, Copy, PartialEq, Eq, Structural)]
pub enum ListKind {
    /// `ext:` items: trimmed, leading dots removed, lowercased.
    Extensions,
    /// `exclude_path` items: trimmed, trailing `\` removed, lowercased.
    ExcludePaths,
    /// Folder names: trimmed, trailing `\` removed, case kept.
    Folders,
    /// Plain words: trimmed, lowercased.
    Words,
}

pub open spec fn clean_item(kind: ListKind, e: Seq<char>) -> Seq<char> {
    match kind {
        ListKind::Extensions => lower_seq(trim_start_char(trim(e), '.')),
        ListKind::ExcludePaths => lower_seq(trim_end_char(trim(e), '\\')),
        ListKind::Folders => trim_end_char(trim(e), '\\'),
        ListKind::Words => lower_seq(trim(e)),
    }
}

/// The non-empty cleaned items of a list.
pub open spec fn clean_items(kind: ListKind, pieces: Seq<Seq<char>>) -> Seq<Seq<char>>
    decreases pieces.len(),
{
    if pieces.len() == 0 {
        Seq::empty()
    } else {
        let r = clean_items(kind, pieces.drop_last());
        if clean_item(kind, pieces.last()).len() > 0 {
            r.push(clean_item(kind, pieces.last()))
        } else {
            r
        }
    }
}

/// The cleaned, non-empty items of `s` split at `sep`.
pub open spec fn spec_clean_list(s: Seq<char>, sep: char, kind: ListKind) -> Seq<Seq<char>> {
    clean_items(kind, split_char(s, sep))
}

/// The extensions of an `ext:` value (comma separated).
pub open spec fn spec_ext_list(s: Seq<char>) -> Seq<Seq<char>> {
    spec_clean_list(s, ',', ListKind::Extensions)
}

pub fn trim_start_char_exec(v: &[char], c: char) -> (r: Vec<char>)
    ensures
        r@ == trim_start_char(v@, c),
{
    let mut a: usize = 0;
    while a < v.len() && v[a] == c
        invariant
            a <= v.len(),
            forall|k: int| 0 <= k < a ==> #[trigger] v@[k] == c,
        decreases v.len() - a,
    {
        a += 1;
    }
    proof {
        crate::qparse::lemma_lead_count_char(v@, c, a as int);
    }
    slice_chars(v, a, v.len())
}

pub fn trim_end_char_exec(v: &[char], c: char) -> (r: Vec<char>)
    ensures
        r@ == trim_end_char(v@, c),
{
    let mut e = v.len();
    while e > 0 && v[e - 1] == c
        invariant
            e <= v.len(),
            forall|k: int| e <= k < v.len() ==> #[trigger] v@[k] == c,
        decreases e,
    {
        e -= 1;
    }
    proof {
        crate::qparse::lemma_trail_count_char(v@, c, (v.len() - e) as int);
    }
    slice_chars(v, 0, e)
}

fn clean_item_exec(kind: ListKind, e: &[char]) -> (r: Vec<char>)
    ensures
        r@ == clean_item(kind, e@),
{
    match kind {
        ListKind::Extensions => lower_vec(&trim_start_char_exec(&trim_vec(e), '.')),
        ListKind::ExcludePaths => lower_vec(&trim_end_char_exec(&trim_vec(e), '\\')),
        ListKind::Folders => trim_end_char_exec(&trim_vec(e), '\\'),
        ListKind::Words => lower_vec(&trim_vec(e)),
    }
}

/// Split `s` at `sep`, clean every item and drop the empty ones.
pub fn clean_list(s: &[char], sep: char, kind: ListKind) -> (r: Vec<String>)
    ensures
        strings_view(r@) == spec_clean_list(s@, sep, kind),
{
    let mut out: Vec<String> = Vec::new();
    let mut cur: Vec<char> = Vec::new();
    let mut i: usize = 0;
    // `done` holds the pieces before the current one.
    let ghost mut done: Seq<Seq<char>> = Seq::empty();
    proof {
        assert(s@.take(0) =~= Seq::<char>::empty());
        assert(strings_view(out@) =~= Seq::<Seq<char>>::empty());
    }
    while i < s.len()
        invariant
            i <= s.len(),
            split_char(s@.take(i as int), sep) == done.push(cur@),
            strings_view(out@) == clean_items(kind, done),
        decreases s.len() - i,
    {
        proof {
            assert(s@.take(i as int + 1).drop_last() =~= s@.take(i as int));
        }
        if s[i] == sep {
            let c = clean_item_exec(kind, &cur);
            proof {
                assert(done.push(cur@).drop_last() =~= done);
            }
            if c.len() > 0 {
                let item = string_from_chars(&c);
                let ghost before = strings_view(out@);
                out.push(item);
                proof {
                    assert(strings_view(out@) =~= before.push(clean_item(kind, cur@)));
                }
            }
            proof {
                done = done.push(cur@);
            }
            cur = Vec::new();
            proof {
                assert(split_char(s@.take(i as int + 1), sep) =~= done.push(cur@));
            }
        } else {
            let ghost old_cur = cur@;
            cur.push(s[i]);
            proof {
                assert(done.push(old_cur).update(done.len() as int, old_cur.push(s@[i as int]))
                    =~= done.push(cur@));
            }
        }
        i += 1;
    }
    proof {
        assert(s@.take(s.len() as int) =~= s@);
        assert(done.push(cur@).drop_last() =~= done);
    }
    let c = clean_item_exec(kind, &cur);
    if c.len() > 0 {
        let item = string_from_chars(&c);
        let ghost before = strings_view(out@);
        out.push(item);
        proof {
            assert(strings_view(out@) =~= before.push(clean_item(kind, cur@)));
        }
    }
    out
}

// ---------------------------------------------------------------------------
// Terms
// ---------------------------------------------------------------------------

/// `C:\...`: a drive letter, a colon and a backslash.
pub open spec fn spec_is_windows_path(s: Seq<char>) -> bool {
    s.len() >= 3 && is_ascii_alpha(s[0]) && s[1] == ':' && s[2] == '\\'
}

pub fn is_windows_path(s: &[char]) -> (r: bool)
    ensures
        r == spec_is_windows_path(s@),
{
    s.len() >= 3 && (('a' <= s[0] && s[0] <= 'z') || ('A' <= s[0] && s[0] <= 'Z')) && s[1] == ':'
        && s[2] == '\\'
}

pub open spec fn include_or_exclude(
    negate: bool,
    pattern: Seq<char>,
    whole_word: bool,
    case_sensitive: bool,
) -> TokenV {
    if negate {
        TokenV::Exclude { pattern, whole_word, case_sensitive }
    } else {
        TokenV::Include { pattern, whole_word, case_sensitive }
    }
}

/// The date filter of `dm:`/`dc:`/`da:`: a filter that does not parse
/// matches nothing; dropped when the clock lies outside the calendar range.
pub open spec fn date_term(kind: DateKind, v: Seq<char>, now: i64) -> Option<TokenV> {
    if !sane_time(now as int) {
        None
    } else {
        match spec_parse_date_filter(v, now) {
            Some((op, value)) => Some(TokenV::Date { kind, op, value }),
            None => Some(TokenV::Never),
        }
    }
}

/// Modifier prefixes: `regex:`, `case:`, `ww:`, `wholeword:`, `path:`,
/// `ext:`. `Some(x)`: the prefix decided the answer `x`.
pub open spec fn modifier_term(term: Seq<char>, negate: bool, mww: bool) -> Option<Option<TokenV>> {
    if has_prefix(term, "regex:"@) {
        Some(Some(TokenV::Regex { pattern: trim(term.skip(6)), negate }))
    } else if has_prefix(term, "case:"@) {
        Some(Some(include_or_exclude(negate, trim(term.skip(5)), mww, true)))
    } else if has_prefix(term, "ww:"@) {
        Some(Some(include_or_exclude(negate, trim(term.skip(3)), true, false)))
    } else if has_prefix(term, "wholeword:"@) {
        Some(Some(include_or_exclude(negate, trim(term.skip(10)), true, false)))
    } else if has_prefix(term, "path:"@) {
        Some(Some(TokenV::Path(strip_quotes(trim(term.skip(5))))))
    } else if has_prefix(term, "ext:"@) {
        if spec_ext_list(term.skip(4)).len() > 0 {
            Some(Some(TokenV::Ext(spec_ext_list(term.skip(4)))))
        } else {
            Some(Some(TokenV::Never))
        }
    } else {
        None
    }
}

/// Filters: `attrib:`, `folder:`, `file:`, `size:`, `dm:`, `dc:`, `da:`
/// (the prefixes of `attrib:`, `size:` and the dates in any case).
pub open spec fn filter_term(term: Seq<char>, negate: bool, now: i64) -> Option<Option<TokenV>> {
    let lower = lower_seq(term);
    if has_prefix(lower, "attrib:"@) {
        let rest = term.skip(7);
        let inner = has_prefix(rest, "!"@);
        let letters = if inner {
            rest.skip(1)
        } else {
            rest
        };
        Some(
            match spec_parse_attrib_mask(letters) {
                Some(mask) => Some(TokenV::Attrib { mask, negate: negate != inner }),
                None => Some(TokenV::Never),
            },
        )
    } else if has_prefix(term, "folder:"@) {
        Some(Some(TokenV::TypeFilter(TypeFilter::Folders)))
    } else if has_prefix(term, "file:"@) {
        Some(Some(TokenV::TypeFilter(TypeFilter::Files)))
    } else if has_prefix(lower, "size:"@) {
        Some(
            match spec_parse_size_filter(term.skip(5)) {
                Some(f) => Some(TokenV::Size(f)),
                None => Some(TokenV::Never),
            },
        )
    } else if has_prefix(lower, "dm:"@) {
        Some(date_term(DateKind::Modified, term.skip(3), now))
    } else if has_prefix(lower, "dc:"@) {
        Some(date_term(DateKind::Created, term.skip(3), now))
    } else if has_prefix(lower, "da:"@) {
        Some(date_term(DateKind::Accessed, term.skip(3), now))
    } else {
        None
    }
}

/// Everything else: `!<text>` excludes by path text, `C:\...` scopes by
/// path, and a plain term includes (or, negated, excludes) by name.
pub open spec fn plain_term(term: Seq<char>, negate: bool, mww: bool) -> TokenV {
    if has_prefix(term, "!<"@) && has_suffix(term, ">"@) {
        TokenV::Exclude {
            pattern: term.subrange(2, term.len() - 1),
            whole_word: false,
            case_sensitive: false,
        }
    } else if spec_is_windows_path(term) {
        TokenV::BarePath(term)
    } else {
        include_or_exclude(negate, term, mww, false)
    }
}

/// The token of one query part (`None`: the part is dropped). `mww` is the
/// global whole-word flag, `now` the local wall-clock time in unix seconds.
pub open spec fn spec_term(raw: Seq<char>, mww: bool, now: i64) -> Option<TokenV> {
    let negate = has_prefix(raw, "!"@) && !has_prefix(raw, "!<"@);
    let term = trim(
        if negate {
            raw.skip(1)
        } else {
            raw
        },
    );
    if term.len() == 0 {
        None
    } else {
        match modifier_term(term, negate, mww) {
            Some(x) => x,
            None => match filter_term(term, negate, now) {
                Some(x) => x,
                None => Some(plain_term(term, negate, mww)),
            },
        }
    }
}

fn make_include_or_exclude(negate: bool, pattern: &[char], whole_word: bool, case_sensitive: bool) -> (r: Token)
    ensures
        token_view(r) == include_or_exclude(negate, pattern@, whole_word, case_sensitive),
{
    let p = string_from_chars(pattern);
    if negate {
        Token::Exclude { pattern: p, whole_word, case_sensitive }
    } else {
        Token::Include { pattern: p, whole_word, case_sensitive }
    }
}

fn date_term_exec(kind: DateKind, v: &[char], now: i64) -> (r: Option<Token>)
    ensures
        match r {
            Some(t) => date_term(kind, v@, now) == Some(token_view(t)),
            None => date_term(kind, v@, now) is None,
        },
{
    if !(-1_000_000_000_000_000 <= now && now <= 1_000_000_000_000_000) {
        return None;
    }
    match parse_date_filter(v, now) {
        Some((op, value)) => Some(Token::Date { kind, op, value }),
        None => Some(Token::Never),
    }
}

pub open spec fn decided_as(r: Option<Option<Token>>, spec: Option<Option<TokenV>>) -> bool {
    match r {
        Some(Some(t)) => spec == Some(Some(token_view(t))),
        Some(None) => spec == Some(None::<TokenV>),
        None => spec is None,
    }
}

fn modifier_term_exec(term: &[char], negate: bool, mww: bool) -> (r: Option<Option<Token>>)
    ensures
        decided_as(r, modifier_term(term@, negate, mww)),
{
    if starts_lit(term, "regex:") {
        let pat = trim_vec(&after_lit(term, "regex:"));
        proof {
            reveal_strlit("regex:");
        }
        return Some(Some(Token::Regex { pattern: string_from_chars(&pat), negate }));
    }
    if starts_lit(term, "case:") {
        let pat = trim_vec(&after_lit(term, "case:"));
        proof {
            reveal_strlit("case:");
        }
        return Some(Some(make_include_or_exclude(negate, &pat, mww, true)));
    }
    if starts_lit(term, "ww:") {
        let pat = trim_vec(&after_lit(term, "ww:"));
        proof {
            reveal_strlit("ww:");
        }
        return Some(Some(make_include_or_exclude(negate, &pat, true, false)));
    }
    if starts_lit(term, "wholeword:") {
        let pat = trim_vec(&after_lit(term, "wholeword:"));
        proof {
            reveal_strlit("wholeword:");
        }
        return Some(Some(make_include_or_exclude(negate, &pat, true, false)));
    }
    if starts_lit(term, "path:") {
        let p = strip_char(&trim_vec(&after_lit(term, "path:")), '"');
        proof {
            reveal_strlit("path:");
        }
        return Some(Some(Token::Path(string_from_chars(&p))));
    }
    if starts_lit(term, "ext:") {
        let exts = clean_list(&after_lit(term, "ext:"), ',', ListKind::Extensions);
        proof {
            reveal_strlit("ext:");
            assert(strings_view(exts@).len() == exts@.len());
        }
        if exts.len() > 0 {
            return Some(Some(Token::Ext(exts)));
        }
        return Some(Some(Token::Never));
    }
    None
}

fn filter_term_exec(term: &[char], negate: bool, now: i64) -> (r: Option<Option<Token>>)
    ensures
        decided_as(r, filter_term(term@, negate, now)),
{
    let lower = lower_vec(term);
    proof {
        assert(lower@.len() == term@.len());
    }
    if starts_lit(&lower, "attrib:") {
        proof {
            reveal_strlit("attrib:");
        }
        let rest = slice_chars(term, 7, term.len());
        let inner = starts_lit(&rest, "!");
        let letters = if inner {
            proof {
                reveal_strlit("!");
            }
            slice_chars(&rest, 1, rest.len())
        } else {
            slice_chars(&rest, 0, rest.len())
        };
        proof {
            assert(rest@ =~= term@.skip(7));
            if inner {
                assert(letters@ =~= rest@.skip(1));
            } else {
                assert(letters@ =~= rest@);
            }
        }
        return Some(
            match parse_attrib_mask(&letters) {
                Some(mask) => Some(Token::Attrib { mask, negate: negate != inner }),
                None => Some(Token::Never),
            },
        );
    }
    if starts_lit(term, "folder:") {
        return Some(Some(Token::TypeFilter(TypeFilter::Folders)));
    }
    if starts_lit(term, "file:") {
        return Some(Some(Token::TypeFilter(TypeFilter::Files)));
    }
    if starts_lit(&lower, "size:") {
        proof {
            reveal_strlit("size:");
        }
        let v = slice_chars(term, 5, term.len());
        proof {
            assert(v@ =~= term@.skip(5));
        }
        return Some(
            match parse_size_filter(&v) {
                Some(f) => Some(Token::Size(f)),
                None => Some(Token::Never),
            },
        );
    }
    let is_dm = starts_lit(&lower, "dm:");
    let is_dc = starts_lit(&lower, "dc:");
    let is_da = starts_lit(&lower, "da:");
    if is_dm || is_dc || is_da {
        proof {
            reveal_strlit("dm:");
            reveal_strlit("dc:");
            reveal_strlit("da:");
        }
        let v = slice_chars(term, 3, term.len());
        proof {
            assert(v@ =~= term@.skip(3));
        }
        let kind = if is_dm {
            DateKind::Modified
        } else if is_dc {
            DateKind::Created
        } else {
            DateKind::Accessed
        };
        return Some(date_term_exec(kind, &v, now));
    }
    None
}

fn plain_term_exec(term: &[char], negate: bool, mww: bool) -> (r: Token)
    ensures
        token_view(r) == plain_term(term@, negate, mww),
{
    if starts_lit(term, "!<") && ends_lit(term, ">") {
        proof {
            reveal_strlit("!<");
            reveal_strlit(">");
            assert(term@.take(2)[1] == '<');
            assert(term@.skip(term@.len() - 1)[0] == '>');
            if term@.len() == 2 {
                assert(term@[1] == '<');
                assert(term@[1] == '>');
            }
        }
        let p = slice_chars(term, 2, term.len() - 1);
        return Token::Exclude {
            pattern: string_from_chars(&p),
            whole_word: false,
            case_sensitive: false,
        };
    }
    if is_windows_path(term) {
        return Token::BarePath(string_from_chars(term));
    }
    make_include_or_exclude(negate, term, mww, false)
}

/// Classify one query part into its token; `None` drops the part.
pub fn classify_term(raw: &[char], mww: bool, now: i64) -> (r: Option<Token>)
    ensures
        match r {
            Some(t) => spec_term(raw@, mww, now) == Some(token_view(t)),
            None => spec_term(raw@, mww, now) is None,
        },
{
    let negate = starts_lit(raw, "!") && !starts_lit(raw, "!<");
    let term = if negate {
        proof {
            reveal_strlit("!");
        }
        trim_vec(&slice_chars(raw, 1, raw.len()))
    } else {
        trim_vec(raw)
    };
    proof {
        if negate {
            assert(raw@.subrange(1, raw@.len() as int) =~= raw@.skip(1));
        }
    }
    if term.len() == 0 {
        return None;
    }
    match modifier_term_exec(&term, negate, mww) {
        Some(x) => {
            return x;
        },
        None => {},
    }
    match filter_term_exec(&term, negate, now) {
        Some(x) => {
            return x;
        },
        None => {},
    }
    Some(plain_term_exec(&term, negate, mww))
}

// ---------------------------------------------------------------------------
// Tokenizing
// ---------------------------------------------------------------------------

/// A finished group: one term stands alone, several form an `Or` group.
pub open spec fn flush(tokens: Seq<TokenV>, group: Seq<TokenV>) -> Seq<TokenV> {
    if group.len() == 1 {
        tokens.push(group[0])
    } else if group.len() > 1 {
        tokens.push(TokenV::Or(group))
    } else {
        tokens
    }
}

/// (finished tokens, current group) after the given parts.
pub open spec fn tok_state(parts: Seq<Seq<char>>, mww: bool, now: i64) -> (
    Seq<TokenV>,
    Seq<TokenV>,
)
    decreases parts.len(),
{
    if parts.len() == 0 {
        (Seq::empty(), Seq::empty())
    } else {
        let (tokens, group) = tok_state(parts.drop_last(), mww, now);
        let raw = parts.last();
        if raw == "|"@ {
            (flush(tokens, group), Seq::empty())
        } else {
            match spec_term(raw, mww, now) {
                Some(t) => (tokens, group.push(t)),
                None => (tokens, group),
            }
        }
    }
}

/// The tokens of a query. In regex mode the whole query is one regex.
pub open spec fn spec_tokenize(q: Seq<char>, regex: bool, mww: bool, now: i64) -> Seq<TokenV> {
    if regex && q.len() > 0 {
        seq![TokenV::Regex { pattern: q, negate: false }]
    } else {
        let (tokens, group) = tok_state(spec_split_query(q), mww, now);
        flush(tokens, group)
    }
}

fn flush_exec(tokens: &mut Vec<Token>, group: Vec<Token>)
    ensures
        tokens_view(final(tokens)@) == flush(tokens_view(old(tokens)@), tokens_view(group@)),
{
    let mut group = group;
    proof {
        lemma_tokens_view_len(group@);
    }
    if group.len() == 1 {
        let ghost g = group@;
        let t = group.pop().unwrap();
        proof {
            crate::query::lemma_tokens_view_index(g, 0);
            lemma_tokens_view_push(old(tokens)@, t);
        }
        tokens.push(t);
    } else if group.len() > 1 {
        let ghost g = group@;
        let t = Token::Or(group);
        proof {
            lemma_tokens_view_push(old(tokens)@, t);
        }
        tokens.push(t);
    }
}

/// Tokenize a query at local wall-clock time `now` (unix seconds).
pub fn tokenize_at(query: &str, opts: &QueryOptions, now: i64) -> (r: Vec<Token>)
    ensures
        tokens_view(r@) == spec_tokenize(query@, opts.regex, opts.match_whole_word, now),
{
    if opts.regex && !query.is_empty() {
        let pattern = string_from_chars(&chars_of(query));
        let t = Token::Regex { pattern, negate: false };
        let mut v: Vec<Token> = Vec::new();
        v.push(t);
        proof {
            lemma_tokens_view_push(Seq::empty(), t);
            assert(tokens_view(Seq::<Token>::empty()) =~= Seq::<TokenV>::empty());
            assert(v@ =~= seq![t]);
            assert(seq![t] =~= Seq::<Token>::empty().push(t));
        }
        return v;
    }
    let parts = split_query(query);
    let mut tokens: Vec<Token> = Vec::new();
    let mut group: Vec<Token> = Vec::new();
    let mww = opts.match_whole_word;
    let mut i: usize = 0;
    proof {
        assert(strings_view(parts@).take(0) =~= Seq::<Seq<char>>::empty());
        assert(tokens_view(tokens@) =~= Seq::<TokenV>::empty());
    }
    while i < parts.len()
        invariant
            i <= parts.len(),
            strings_view(parts@).len() == parts.len(),
            (tokens_view(tokens@), tokens_view(group@)) == tok_state(
                strings_view(parts@).take(i as int),
                mww,
                now,
            ),
        decreases parts.len() - i,
    {
        let raw = chars_of(parts[i].as_str());
        proof {
            let sv = strings_view(parts@);
            assert(sv.take(i as int + 1).drop_last() =~= sv.take(i as int));
            assert(sv.take(i as int + 1).last() == raw@);
        }
        if raw.len() == 1 && raw[0] == '|' {
            proof {
                reveal_strlit("|");
                assert(raw@ =~= "|"@);
            }
            let g = group;
            group = Vec::new();
            flush_exec(&mut tokens, g);
            proof {
                assert(tokens_view(group@) =~= Seq::<TokenV>::empty());
            }
        } else {
            proof {
                reveal_strlit("|");
                assert(raw@ != "|"@) by {
                    if raw@ == "|"@ {
                        assert(raw@.len() == 1 && raw@[0] == '|');
                    }
                }
            }
            match classify_term(&raw, mww, now) {
                Some(t) => {
                    proof {
                        lemma_tokens_view_push(group@, t);
                    }
                    group.push(t);
                },
                None => {},
            }
        }
        i += 1;
    }
    proof {
        assert(strings_view(parts@).take(parts.len() as int) =~= strings_view(parts@));
    }
    flush_exec(&mut tokens, group);
    tokens
}

/// Tokenize a query at the current time (relative dates are evaluated in
/// UTC).
pub fn tokenize(query: &str, opts: &QueryOptions) -> (r: Vec<Token>)
    ensures
        exists|now: i64| tokens_view(r@) == spec_tokenize(query@, opts.regex, opts.match_whole_word, now),
{
    let now = crate::clock::unix_now();
    tokenize_at(query, opts, now)
}

} // verus!
