//! Windows path conventions: drive-rooted, backslash separated.
use vstd::prelude::*;
use vstd::string::StringSliceAdditionalSpecFns;
use crate::platform::{
    parent_by,
    parent_by_exec,
    replace_char,
    replace_chars,
    trim_sep,
    trim_sep_exec,
};

verus! {

/// The separator of stored paths.
pub const SEP: char = '\\';

/// Convert forward slashes to backslashes.
pub fn normalize_path(p: &str) -> (r: String)
    ensures
        r@ == replace_char(p@, '/', '\\'),
{
    replace_chars(p, '/', '\\')
}

/// Drop one trailing backslash, except from a lone `\`.
pub fn trim_trailing_sep(p: &str) -> (r: String)
    ensures
        r@ == trim_sep(p@, '\\'),
{
    trim_sep_exec(p, '\\')
}

/// Drive-rooted: a second byte `:` and a separator third.
pub open spec fn spec_is_absolute(p: &str) -> bool {
    let b = p.spec_bytes();
    b.len() >= 3 && b[1] == 0x3Au8 && (b[2] == 0x5Cu8 || b[2] == 0x2Fu8)
}

pub fn is_absolute_path(p: &str) -> (r: bool)
    ensures
        r == spec_is_absolute(p),
{
    let b = p.as_bytes();
    b.len() >= 3 && b[1] == 0x3Au8 && (b[2] == 0x5Cu8 || b[2] == 0x2Fu8)
}

/// Position of the first `c`, or the length.
pub open spec fn first_or_len(s: Seq<char>, c: char) -> int
    decreases s.len(),
{
    if s.len() == 0 {
        0
    } else if s[0] == c {
        0
    } else {
        1 + first_or_len(s.skip(1), c)
    }
}

/// The drive of a path (`C:\Windows\x` gives `C:`); a path without a
/// backslash is returned whole.
pub fn volume_of(path: &str) -> (r: String)
    ensures
        r@ == path@.take(first_or_len(path@, '\\')),
{
    let v = crate::text::chars_of(path);
    let mut i: usize = 0;
    proof {
        assert(v@.skip(0) =~= v@);
    }
    while i < v.len() && v[i] != '\\'
        invariant
            i <= v@.len(),
            first_or_len(v@, '\\') == i + first_or_len(v@.skip(i as int), '\\'),
        decreases v@.len() - i,
    {
        proof {
            assert(v@.skip(i as int).skip(1) =~= v@.skip(i as int + 1));
        }
        i += 1;
    }
    proof {
        assert(first_or_len(v@.skip(i as int), '\\') == 0);
    }
    let head = crate::text::slice_chars(&v, 0, i);
    proof {
        assert(head@ =~= v@.take(i as int));
    }
    crate::text::string_from_chars(&head)
}

/// A drive root such as `C:\\` (slashes read as backslashes).
pub open spec fn is_drive_root(n: Seq<char>) -> bool {
    n.len() == 3 && n[1] == ':' && n[2] == '\\'
}

/// The directory containing `path` (slashes read as backslashes); `None`
/// for a drive root such as `C:\\`, and for a path without separator.
pub open spec fn spec_parent_of(path: Seq<char>) -> Option<Seq<char>> {
    let n = replace_char(path, '/', '\\');
    if is_drive_root(n) {
        None
    } else {
        parent_by(n, '\\')
    }
}

pub fn parent_of(path: &str) -> (r: Option<String>)
    ensures
        match spec_parent_of(path@) {
            Some(q) => (r matches Some(s) && s@ == q),
            None => r is None,
        },
{
    let norm = normalize_path(path);
    let v = crate::text::chars_of(norm.as_str());
    if v.len() == 3 && v[1] == ':' && v[2] == '\\' {
        return None;
    }
    parent_by_exec(norm.as_str(), '\\')
}

} // verus!
