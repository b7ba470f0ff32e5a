//! Path conventions of the two backends: Windows paths (`C:\...`, backslash
//! separated) and Unix paths (`/usr/...`, slash separated).
use vstd::prelude::*;

pub mod unix;
pub mod windows;

verus! {

/// `s` with every `from` replaced by `to`.
pub open spec fn replace_char(s: Seq<char>, from: char, to: char) -> Seq<char> {
    s.map_values(|c: char| if c == from { to } else { c })
}

/// `s` without one trailing `sep`, unless `s` is that separator alone.
pub open spec fn trim_sep(s: Seq<char>, sep: char) -> Seq<char> {
    if s.len() > 1 && s.last() == sep {
        s.drop_last()
    } else {
        s
    }
}

/// Everything before the last `sep`, unless that is empty or there is none.
pub open spec fn parent_by(s: Seq<char>, sep: char) -> Option<Seq<char>> {
    let k = crate::types::rfind_char(s, sep);
    if k <= 0 {
        None
    } else {
        Some(s.take(k))
    }
}

pub fn replace_chars(p: &str, from: char, to: char) -> (r: String)
    ensures
        r@ == replace_char(p@, from, to),
{
    let v = crate::text::chars_of(p);
    let mut out: Vec<char> = Vec::new();
    let mut i: usize = 0;
    while i < v.len()
        invariant
            i <= v@.len(),
            out@ == replace_char(v@.take(i as int), from, to),
        decreases v@.len() - i,
    {
        let c = v[i];
        out.push(if c == from { to } else { c });
        i += 1;
        proof {
            assert(out@ =~= replace_char(v@.take(i as int), from, to));
        }
    }
    proof {
        assert(v@.take(v@.len() as int) =~= v@);
    }
    crate::text::string_from_chars(&out)
}

pub fn trim_sep_exec(p: &str, sep: char) -> (r: String)
    ensures
        r@ == trim_sep(p@, sep),
{
    let v = crate::text::chars_of(p);
    if v.len() > 1 && v[v.len() - 1] == sep {
        let head = crate::text::slice_chars(&v, 0, v.len() - 1);
        proof {
            assert(head@ =~= v@.drop_last());
        }
        crate::text::string_from_chars(&head)
    } else {
        crate::text::string_from_chars(&v)
    }
}

pub fn parent_by_exec(p: &str, sep: char) -> (r: Option<String>)
    ensures
        match parent_by(p@, sep) {
            Some(q) => (r matches Some(s) && s@ == q),
            None => r is None,
        },
{
    let v = crate::text::chars_of(p);
    match crate::types::rfind_char_exec(&v, sep) {
        Some(k) => {
            if k == 0 {
                None
            } else {
                let head = crate::text::slice_chars(&v, 0, k);
                proof {
                    assert(head@ =~= v@.take(k as int));
                }
                Some(crate::text::string_from_chars(&head))
            }
        },
        None => None,
    }
}

} // verus!
