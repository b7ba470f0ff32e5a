//! Extraction of `content:` terms from a query: `content:word`,
//! `content:"a phrase"` and `"content:a phrase"` become needles, the rest of
//! the query is kept.

use vstd::prelude::*;

use crate::query::strings_view;
use crate::seqs::has_prefix;
use crate::text::{chars_of, is_white, slice_chars, string_from_chars, trim, trim_vec};

verus! {

broadcast use vstd::seq_lib::group_seq_properties;

/// ASCII whitespace (tab, line feed, vertical tab, form feed, carriage
/// return, space).
pub open spec fn ascii_ws(c: char) -> bool {
    is_white(c) && (c as u32) < 0x80
}

/// First position at or after `i` that is not ASCII whitespace.
pub open spec fn skip_ws(q: Seq<char>, i: int) -> int
    decreases q.len() - i,
{
    if i >= q.len() || i < 0 || !ascii_ws(q[i]) {
        i
    } else {
        skip_ws(q, i + 1)
    }
}

/// First position at or after `i` holding ASCII whitespace (or the end).
pub open spec fn token_end(q: Seq<char>, i: int) -> int
    decreases q.len() - i,
{
    if i >= q.len() || i < 0 || ascii_ws(q[i]) {
        i
    } else {
        token_end(q, i + 1)
    }
}

/// First position at or after `i` holding `"` (or the end).
pub open spec fn quote_at(q: Seq<char>, i: int) -> int
    decreases q.len() - i,
{
    if i >= q.len() || i < 0 || q[i] == '"' {
        i
    } else {
        quote_at(q, i + 1)
    }
}

/// One step of the extraction from position `i`: the next position, the
/// text to append to the rest of the query, and the needle found (if any).
/// `None` when only whitespace is left.
pub open spec fn extract_step(q: Seq<char>, i: int) -> Option<(int, Seq<char>, Option<Seq<char>>)> {
    let t = skip_ws(q, i);
    if t >= q.len() {
        None
    } else if q[t] == '"' {
        let e = quote_at(q, t + 1);
        let content = q.subrange(t + 1, e);
        let next = if e < q.len() {
            e + 1
        } else {
            e
        };
        if has_prefix(content, "content:"@) && content.len() > 8 {
            Some((next, Seq::empty(), Some(content.skip(8))))
        } else {
            let text = q.subrange(i, t) + content + seq!['"'];
            Some((next, text + space_after(q, next), None))
        }
    } else {
        let e = token_end(q, t);
        let token = q.subrange(t, e);
        if has_prefix(token, "content:\""@) {
            let qe = quote_at(q, e);
            let inner = q.subrange(t + 9, qe);
            if inner.len() > 0 {
                Some((
                    if qe < q.len() {
                        qe + 1
                    } else {
                        qe
                    },
                    Seq::empty(),
                    Some(inner),
                ))
            } else {
                Some((e, q.subrange(i, e) + space_after(q, e), None))
            }
        } else if has_prefix(token, "content:"@) && token.len() > 8 {
            Some((e, Seq::empty(), Some(token.skip(8))))
        } else {
            Some((e, q.subrange(i, e) + space_after(q, e), None))
        }
    }
}

/// A single space when the kept text at `i` is followed by whitespace.
pub open spec fn space_after(q: Seq<char>, i: int) -> Seq<char> {
    if 0 <= i < q.len() && ascii_ws(q[i]) {
        seq![' ']
    } else {
        Seq::empty()
    }
}

/// (kept text, needles) of the query from position `i` on.
pub open spec fn extract_from(q: Seq<char>, i: int) -> (Seq<char>, Seq<Seq<char>>)
    decreases q.len() - i,
{
    if i < 0 || i >= q.len() {
        (Seq::empty(), Seq::empty())
    } else {
        match extract_step(q, i) {
            None => (Seq::empty(), Seq::empty()),
            Some((next, text, needle)) => if next <= i || next > q.len() {
                (Seq::empty(), Seq::empty())
            } else {
                let (rest, needles) = extract_from(q, next);
                (text + rest, needle_list(needle) + needles)
            },
        }
    }
}

/// The query without its `content:` terms (trimmed), and the needles in
/// order.
pub open spec fn spec_extract_content_terms(q: Seq<char>) -> (Seq<char>, Seq<Seq<char>>) {
    let (rest, needles) = extract_from(q, 0);
    (trim(rest), needles)
}

pub proof fn lemma_scan_bounds(q: Seq<char>, i: int)
    requires
        0 <= i <= q.len(),
    ensures
        i <= skip_ws(q, i) <= q.len(),
        i <= token_end(q, i) <= q.len(),
        i <= quote_at(q, i) <= q.len(),
        skip_ws(q, i) < q.len() ==> !ascii_ws(q[skip_ws(q, i)]),
        token_end(q, i) < q.len() ==> ascii_ws(q[token_end(q, i)]),
        quote_at(q, i) < q.len() ==> q[quote_at(q, i)] == '"',
    decreases q.len() - i,
{
    if i < q.len() {
        lemma_scan_bounds(q, i + 1);
    }
}

/// The next step always moves forward.
pub proof fn lemma_step_advances(q: Seq<char>, i: int)
    requires
        0 <= i < q.len(),
    ensures
        extract_step(q, i) matches Some((next, _, _)) ==> i < next <= q.len(),
{
    lemma_scan_bounds(q, i);
    let t = skip_ws(q, i);
    if t < q.len() {
        lemma_scan_bounds(q, t + 1);
        lemma_scan_bounds(q, t);
        let e = token_end(q, t);
        if q[t] != '"' {
            assert(e > t);
            lemma_scan_bounds(q, e);
        }
    }
}

fn is_ascii_ws(c: char) -> (r: bool)
    ensures
        r == ascii_ws(c),
{
    c == ' ' || c == '\t' || c == '\n' || c == '\x0B' || c == '\x0C' || c == '\r'
}

fn skip_ws_exec(q: &[char], i: usize) -> (r: usize)
    requires
        i <= q.len(),
    ensures
        r == skip_ws(q@, i as int),
{
    let mut j = i;
    while j < q.len() && is_ascii_ws(q[j])
        invariant
            i <= j <= q.len(),
            skip_ws(q@, j as int) == skip_ws(q@, i as int),
        decreases q.len() - j,
    {
        j += 1;
    }
    j
}

fn token_end_exec(q: &[char], i: usize) -> (r: usize)
    requires
        i <= q.len(),
    ensures
        r == token_end(q@, i as int),
{
    let mut j = i;
    while j < q.len() && !is_ascii_ws(q[j])
        invariant
            i <= j <= q.len(),
            token_end(q@, j as int) == token_end(q@, i as int),
        decreases q.len() - j,
    {
        j += 1;
    }
    j
}

fn quote_at_exec(q: &[char], i: usize) -> (r: usize)
    requires
        i <= q.len(),
    ensures
        r == quote_at(q@, i as int),
{
    let mut j = i;
    while j < q.len() && q[j] != '"'
        invariant
            i <= j <= q.len(),
            quote_at(q@, j as int) == quote_at(q@, i as int),
        decreases q.len() - j,
    {
        j += 1;
    }
    j
}

fn push_all(out: &mut Vec<char>, q: &[char], from: usize, to: usize)
    requires
        from <= to <= q.len(),
    ensures
        final(out)@ == old(out)@ + q@.subrange(from as int, to as int),
{
    let mut k = from;
    while k < to
        invariant
            from <= k <= to <= q.len(),
            out@ == old(out)@ + q@.subrange(from as int, k as int),
        decreases to - k,
    {
        out.push(q[k]);
        k += 1;
        proof {
            assert(out@ =~= old(out)@ + q@.subrange(from as int, k as int));
        }
    }
}

fn push_space_after(out: &mut Vec<char>, q: &[char], i: usize)
    ensures
        final(out)@ == old(out)@ + space_after(q@, i as int),
{
    if i < q.len() && is_ascii_ws(q[i]) {
        out.push(' ');
        proof {
            assert(final(out)@ =~= old(out)@ + seq![' ']);
        }
    } else {
        proof {
            assert(old(out)@ + space_after(q@, i as int) =~= old(out)@);
        }
    }
}

pub open spec fn needle_list(needle: Option<Seq<char>>) -> Seq<Seq<char>> {
    match needle {
        Some(n) => seq![n],
        None => Seq::empty(),
    }
}

/// Perform one step of the extraction at `i` (see [`extract_step`]).
fn extract_one(q: &[char], i: usize, rest: &mut Vec<char>, needles: &mut Vec<String>) -> (r: usize)
    requires
        i < q.len(),
    ensures
        match extract_step(q@, i as int) {
            None => r == q.len() && final(rest)@ == old(rest)@ && final(needles)@ == old(needles)@,
            Some((next, text, needle)) => r == next && final(rest)@ == old(rest)@ + text
                && strings_view(final(needles)@) == strings_view(old(needles)@) + needle_list(needle),
        },
        i < r <= q.len(),
{
    let n = q.len();
    let ghost r0 = rest@;
    let ghost n0 = strings_view(needles@);
    proof {
        lemma_step_advances(q@, i as int);
        lemma_scan_bounds(q@, i as int);
    }
    let t = skip_ws_exec(q, i);
    if t >= n {
        return n;
    }
    proof {
        lemma_scan_bounds(q@, t as int);
        lemma_scan_bounds(q@, t as int + 1);
        reveal_strlit("content:");
        reveal_strlit("content:\"");
    }
    if q[t] == '"' {
        let e = quote_at_exec(q, t + 1);
        let content = slice_chars(q, t + 1, e);
        let next = if e < n {
            e + 1
        } else {
            e
        };
        if crate::seqs::starts_lit(&content, "content:") && content.len() > 8 {
            let v = slice_chars(&content, 8, content.len());
            needles.push(string_from_chars(&v));
            proof {
                assert(v@ =~= content@.skip(8));
                assert(strings_view(needles@) =~= n0 + seq![v@]);
                assert(rest@ =~= r0 + Seq::<char>::empty());
            }
        } else {
            push_all(rest, q, i, t);
            push_all(rest, q, t + 1, e);
            rest.push('"');
            push_space_after(rest, q, next);
            proof {
                let text = q@.subrange(i as int, t as int) + content@ + seq!['"'];
                assert(rest@ =~= r0 + (text + space_after(q@, next as int)));
                assert(strings_view(needles@) =~= n0 + Seq::<Seq<char>>::empty());
            }
        }
        return next;
    }
    let e = token_end_exec(q, t);
    proof {
        lemma_scan_bounds(q@, e as int);
    }
    let token = slice_chars(q, t, e);
    if crate::seqs::starts_lit(&token, "content:\"") {
        let qe = quote_at_exec(q, e);
        let inner = slice_chars(q, t + 9, qe);
        if inner.len() > 0 {
            needles.push(string_from_chars(&inner));
            proof {
                assert(strings_view(needles@) =~= n0 + seq![inner@]);
                assert(rest@ =~= r0 + Seq::<char>::empty());
            }
            return if qe < n {
                qe + 1
            } else {
                qe
            };
        }
        push_all(rest, q, i, e);
        push_space_after(rest, q, e);
        proof {
            assert(strings_view(needles@) =~= n0 + Seq::<Seq<char>>::empty());
        }
        return e;
    }
    if crate::seqs::starts_lit(&token, "content:") && token.len() > 8 {
        let v = slice_chars(&token, 8, token.len());
        needles.push(string_from_chars(&v));
        proof {
            assert(v@ =~= token@.skip(8));
            assert(strings_view(needles@) =~= n0 + seq![v@]);
            assert(rest@ =~= r0 + Seq::<char>::empty());
        }
        return e;
    }
    push_all(rest, q, i, e);
    push_space_after(rest, q, e);
    proof {
        assert(strings_view(needles@) =~= n0 + Seq::<Seq<char>>::empty());
    }
    e
}

/// Pull every `content:"..."` (or `content:word`) term out of a query,
/// returning the remaining query (trimmed) and the needles. Quotes keep
/// spaces inside a needle.
pub fn extract_content_terms(query: &str) -> (r: (String, Vec<String>))
    ensures
        r.0@ == spec_extract_content_terms(query@).0,
        strings_view(r.1@) == spec_extract_content_terms(query@).1,
{
    let q = chars_of(query);
    let n = q.len();
    let mut rest: Vec<char> = Vec::new();
    let mut needles: Vec<String> = Vec::new();
    let mut i: usize = 0;
    proof {
        assert(strings_view(needles@) =~= Seq::<Seq<char>>::empty());
    }
    while i < n
        invariant
            n == q@.len(),
            i <= n,
            extract_from(q@, 0).0 == rest@ + extract_from(q@, i as int).0,
            extract_from(q@, 0).1 == strings_view(needles@) + extract_from(q@, i as int).1,
        decreases n - i,
    {
        let ghost r0 = rest@;
        let ghost n0 = strings_view(needles@);
        let ghost step = extract_step(q@, i as int);
        let next = extract_one(&q, i, &mut rest, &mut needles);
        proof {
            match step {
                None => {
                    assert(rest@ + extract_from(q@, next as int).0 =~= r0 + extract_from(q@, i as int).0);
                    assert(strings_view(needles@) + extract_from(q@, next as int).1 =~= n0
                        + extract_from(q@, i as int).1);
                },
                Some((nx, text, needle)) => {
                    assert(r0 + extract_from(q@, i as int).0 =~= rest@ + extract_from(q@, next as int).0);
                    assert(n0 + extract_from(q@, i as int).1 =~= strings_view(needles@)
                        + extract_from(q@, next as int).1);
                },
            }
        }
        i = next;
    }
    proof {
        assert(rest@ + Seq::<char>::empty() =~= rest@);
        assert(strings_view(needles@) + Seq::<Seq<char>>::empty() =~= strings_view(needles@));
    }
    let kept = string_from_chars(&trim_vec(&rest));
    (kept, needles)
}

} // verus!
