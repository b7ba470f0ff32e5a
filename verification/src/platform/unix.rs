//! Unix path conventions: rooted at `/`, slash separated.
use vstd::prelude::*;
use crate::platform::{
    parent_by,
    parent_by_exec,
    replace_char,
    replace_chars,
    trim_sep,
    trim_sep_exec,
};

verus! {

/// The separator of stored paths.
pub const SEP: char = '/';

/// Convert backslashes to forward slashes.
pub fn normalize_path(p: &str) -> (r: String)
    ensures
        r@ == replace_char(p@, '\\', '/'),
{
    replace_chars(p, '\\', '/')
}

/// Drop one trailing slash, except from a lone `/`.
pub fn trim_trailing_sep(p: &str) -> (r: String)
    ensures
        r@ == trim_sep(p@, '/'),
{
    trim_sep_exec(p, '/')
}

/// Rooted at `/`.
pub fn is_absolute_path(p: &str) -> (r: bool)
    ensures
        r == (p@.len() > 0 && p@[0] == '/'),
{
    let v = crate::text::chars_of(p);
    v.len() > 0 && v[0] == '/'
}

/// The directory containing `path`: everything before its last slash, or
/// `None` where that is empty (`/` and `/usr`) or there is no slash.
pub fn parent_of(path: &str) -> (r: Option<String>)
    ensures
        match parent_by(path@, '/') {
            Some(q) => (r matches Some(s) && s@ == q),
            None => r is None,
        },
{
    parent_by_exec(path, '/')
}

} // verus!
