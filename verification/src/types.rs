//! The indexed-file record shared by the scanners, the index, the query
//! engine and the protocol, together with its derived fields.

use vstd::prelude::*;

use crate::text::{ascii_lower, chars_of, lower_char, lower_seq, lower_vec, slice_chars, string_from_chars};

verus! {

/// `\` or `/`: both separators are accepted everywhere.
pub open spec fn is_sep(c: char) -> bool {
    c == '\\' || c == '/'
}

/// Position of the last separator, or -1.
pub open spec fn rfind_sep(s: Seq<char>) -> int
    decreases s.len(),
{
    if s.len() == 0 {
        -1
    } else if is_sep(s.last()) {
        s.len() - 1
    } else {
        rfind_sep(s.drop_last())
    }
}

/// Position of the last occurrence of `c`, or -1.
pub open spec fn rfind_char(s: Seq<char>, c: char) -> int
    decreases s.len(),
{
    if s.len() == 0 {
        -1
    } else if s.last() == c {
        s.len() - 1
    } else {
        rfind_char(s.drop_last(), c)
    }
}

pub proof fn lemma_rfind_sep(s: Seq<char>)
    ensures
        -1 <= rfind_sep(s) < s.len(),
        rfind_sep(s) >= 0 ==> is_sep(s[rfind_sep(s)]),
        forall|k: int| rfind_sep(s) < k < s.len() ==> !is_sep(#[trigger] s[k]),
    decreases s.len(),
{
    if s.len() > 0 && !is_sep(s.last()) {
        lemma_rfind_sep(s.drop_last());
        assert forall|k: int| rfind_sep(s) < k < s.len() implies !is_sep(#[trigger] s[k]) by {
            if k < s.len() - 1 {
                assert(s[k] == s.drop_last()[k]);
            }
        }
    }
}

pub proof fn lemma_rfind_char(s: Seq<char>, c: char)
    ensures
        -1 <= rfind_char(s, c) < s.len(),
        rfind_char(s, c) >= 0 ==> s[rfind_char(s, c)] == c,
        forall|k: int| rfind_char(s, c) < k < s.len() ==> #[trigger] s[k] != c,
    decreases s.len(),
{
    if s.len() > 0 && s.last() != c {
        lemma_rfind_char(s.drop_last(), c);
        assert forall|k: int| rfind_char(s, c) < k < s.len() implies #[trigger] s[k] != c by {
            if k < s.len() - 1 {
                assert(s[k] == s.drop_last()[k]);
            }
        }
    }
}

/// The last path component (the whole string when it has no separator).
pub open spec fn last_component(s: Seq<char>) -> Seq<char> {
    s.skip(rfind_sep(s) + 1)
}

/// Whether any character of `s` is a separator.
pub open spec fn has_sep(s: Seq<char>) -> bool {
    exists|k: int| 0 <= k < s.len() && is_sep(#[trigger] s[k])
}

/// The lowercase extension of a file path: the text after the last `.`,
/// provided the text before it is non-empty, the text after it is non-empty
/// and contains no separator. Directories have no extension.
pub open spec fn spec_extension(path: Seq<char>, is_dir: bool) -> Option<Seq<char>> {
    let d = rfind_char(path, '.');
    if is_dir || d < 0 {
        None
    } else {
        let head = path.take(d);
        let ext = path.skip(d + 1);
        if head.len() == 0 || ext.len() == 0 || has_sep(ext) {
            None
        } else {
            Some(lower_seq(ext))
        }
    }
}

/// The view of an optional string.
pub open spec fn opt_view(o: Option<String>) -> Option<Seq<char>> {
    match o {
        Some(s) => Some(s@),
        None => None,
    }
}

/// Number of default-excluded directory names.
pub open spec fn n_default_excludes() -> int {
    5
}

/// Directory names skipped unless a search asks for everything.
pub open spec fn default_exclude(k: int) -> Seq<char> {
    if k == 0 {
        seq!['n', 'o', 'd', 'e', '_', 'm', 'o', 'd', 'u', 'l', 'e', 's']
    } else if k == 1 {
        seq!['.', 'g', 'i', 't']
    } else if k == 2 {
        seq!['W', 'i', 'n', 'S', 'x', 'S']
    } else if k == 3 {
        seq!['$', 'R', 'e', 'c', 'y', 'c', 'l', 'e', '.', 'B', 'i', 'n']
    } else {
        seq![
            'S', 'y', 's', 't', 'e', 'm', ' ', 'V', 'o', 'l', 'u', 'm', 'e', ' ', 'I', 'n',
            'f', 'o', 'r', 'm', 'a', 't', 'i', 'o', 'n'
        ]
    }
}

/// The directory names searches skip by default.
pub fn default_exclude_name(k: usize) -> (r: Vec<char>)
    requires
        k < 5,
    ensures
        r@ == default_exclude(k as int),
{
    if k == 0 {
        vec!['n', 'o', 'd', 'e', '_', 'm', 'o', 'd', 'u', 'l', 'e', 's']
    } else if k == 1 {
        vec!['.', 'g', 'i', 't']
    } else if k == 2 {
        vec!['W', 'i', 'n', 'S', 'x', 'S']
    } else if k == 3 {
        vec!['$', 'R', 'e', 'c', 'y', 'c', 'l', 'e', '.', 'B', 'i', 'n']
    } else {
        vec![
            'S', 'y', 's', 't', 'e', 'm', ' ', 'V', 'o', 'l', 'u', 'm', 'e', ' ', 'I', 'n',
            'f', 'o', 'r', 'm', 'a', 't', 'i', 'o', 'n'
        ]
    }
}

/// `s` holds the directory name `d` (ASCII case-insensitively) as a whole
/// component starting right after the separator at `i`.
pub open spec fn component_at(s: Seq<char>, d: Seq<char>, i: int) -> bool {
    &&& 0 <= i
    &&& i + d.len() + 1 <= s.len()
    &&& is_sep(s[i])
    &&& lower_seq(s.subrange(i + 1, i + 1 + d.len())) == lower_seq(d)
    &&& (i + 1 + d.len() == s.len() || is_sep(s[i + 1 + d.len()]))
}

/// True when the path passes through a default-excluded directory as a
/// full path component (either separator).
pub open spec fn spec_default_excluded(s: Seq<char>) -> bool {
    exists|k: int, i: int| 0 <= k < n_default_excludes() && component_at(s, default_exclude(k), i)
}

/// `lower_seq` of two slices agree.
fn lower_eq_at(s: &[char], from: usize, d: &[char]) -> (r: bool)
    requires
        from + d.len() <= s.len(),
    ensures
        r == (lower_seq(s@.subrange(from as int, from + d.len())) == lower_seq(d@)),
{
    let mut k: usize = 0;
    while k < d.len()
        invariant
            from + d.len() <= s.len(),
            k <= d.len(),
            forall|j: int| 0 <= j < k ==> lower_char(s@[from + j]) == lower_char(d@[j]),
        decreases d.len() - k,
    {
        if ascii_lower(s[from + k]) != ascii_lower(d[k]) {
            assert(lower_seq(s@.subrange(from as int, from + d.len()))[k as int] != lower_seq(
                d@,
            )[k as int]);
            return false;
        }
        k += 1;
    }
    assert(lower_seq(s@.subrange(from as int, from + d.len())) =~= lower_seq(d@));
    true
}

fn is_sep_char(c: char) -> (r: bool)
    ensures
        r == is_sep(c),
{
    c == '\\' || c == '/'
}

/// Whether `s` holds `d` as a whole component anywhere.
fn has_component(s: &[char], d: &[char]) -> (r: bool)
    ensures
        r == exists|i: int| component_at(s@, d@, i),
{
    let mut i: usize = 0;
    while i < s.len() && d.len() < s.len() - i
        invariant
            i <= s.len(),
            forall|j: int| 0 <= j < i ==> !component_at(s@, d@, j),
        decreases s.len() - i,
    {
        if is_sep_char(s[i]) && lower_eq_at(s, i + 1, d) {
            let after = i + 1 + d.len();
            if after == s.len() || is_sep_char(s[after]) {
                assert(component_at(s@, d@, i as int));
                return true;
            }
        }
        assert(!component_at(s@, d@, i as int));
        i += 1;
    }
    assert forall|j: int| !component_at(s@, d@, j) by {
        if 0 <= j && j + d.len() + 1 <= s.len() {
            assert(j < i);
        }
    }
    false
}

/// True when `lower_path` passes through any default-excluded directory
/// (`node_modules`, `.git`, `WinSxS`, `$Recycle.Bin`,
/// `System Volume Information`) as a full path component. Either separator
/// counts.
pub fn is_default_excluded(lower_path: &str) -> (r: bool)
    ensures
        r == spec_default_excluded(lower_path@),
{
    let s = chars_of(lower_path);
    let mut k: usize = 0;
    while k < 5
        invariant
            s@ == lower_path@,
            k <= 5,
            forall|j: int, i: int| 0 <= j < k ==> !component_at(s@, default_exclude(j), i),
        decreases 5 - k,
    {
        let d = default_exclude_name(k);
        if has_component(&s, &d) {
            return true;
        }
        k += 1;
    }
    false
}

/// A single indexed file with its full path.
#[derive(Debug, Clone)]
pub struct IndexedFile {
    /// Absolute path (`C:\Windows\...` or `/usr/...`).
    pub path: String,
    /// Size in bytes; directories hold their recursive (tree-summed) size.
    pub size: u64,
    /// Creation time, 100 ns since 1601 (FILETIME).
    pub created: i64,
    /// Last modification time, FILETIME.
    pub modified: i64,
    /// Last access time, FILETIME.
    pub accessed: i64,
    /// `true` for directories.
    pub is_dir: bool,
    /// Windows FILE_ATTRIBUTE_* flags.
    pub attributes: u32,
    /// File reference: NTFS record number or inode number.
    pub file_ref: u64,
    /// Parent record number for this link (scan-time path resolution).
    pub parent_ref: u64,
    /// File name for this link (scan-time path resolution).
    pub own_name: String,
    /// Last path component, case preserved.
    pub name: String,
    /// ASCII-lowercase name.
    pub lower_name: String,
    /// ASCII-lowercase path.
    pub lower_path: String,
    /// Lowercase extension without the dot.
    pub extension: Option<String>,
    /// Whether the path lies under a default-excluded directory.
    pub excluded: bool,
}

impl IndexedFile {
    /// The fields that `new` and `set_path` derive from the path agree with it.
    pub open spec fn derived_ok(&self) -> bool {
        &&& self.name@ == last_component(self.path@)
        &&& self.lower_name@ == lower_seq(self.name@)
        &&& self.lower_path@ == lower_seq(self.path@)
        &&& opt_view(self.extension) == spec_extension(self.path@, self.is_dir)
        &&& self.excluded == spec_default_excluded(self.lower_path@)
    }

    pub fn new(
        path: String,
        size: u64,
        created: i64,
        modified: i64,
        accessed: i64,
        is_dir: bool,
        file_ref: u64,
    ) -> (f: Self)
        ensures
            f.derived_ok(),
            f.path@ == path@,
            f.size == size,
            f.created == created,
            f.modified == modified,
            f.accessed == accessed,
            f.is_dir == is_dir,
            f.file_ref == file_ref,
            f.attributes == 0,
            f.parent_ref == 0,
            f.own_name@ == Seq::<char>::empty(),
    {
        let mut f = IndexedFile {
            path,
            size,
            created,
            modified,
            accessed,
            is_dir,
            attributes: 0,
            file_ref,
            parent_ref: 0,
            own_name: String::new(),
            name: String::new(),
            lower_name: String::new(),
            lower_path: String::new(),
            extension: None,
            excluded: false,
        };
        f.refresh();
        f
    }

    fn refresh(&mut self)
        ensures
            final(self).derived_ok(),
            final(self).path == old(self).path,
            final(self).size == old(self).size,
            final(self).created == old(self).created,
            final(self).modified == old(self).modified,
            final(self).accessed == old(self).accessed,
            final(self).is_dir == old(self).is_dir,
            final(self).attributes == old(self).attributes,
            final(self).file_ref == old(self).file_ref,
            final(self).parent_ref == old(self).parent_ref,
            final(self).own_name == old(self).own_name,
    {
        let p = chars_of(self.path.as_str());
        let name = last_component_of(&p);
        self.lower_name = string_from_chars(&lower_vec(&name));
        self.name = string_from_chars(&name);
        let lp = lower_vec(&p);
        self.lower_path = string_from_chars(&lp);
        self.extension = extension_of(&p, self.is_dir);
        self.excluded = is_default_excluded(self.lower_path.as_str());
    }

    /// Replace the path and recompute every derived field.
    pub fn set_path(&mut self, path: String)
        ensures
            final(self).derived_ok(),
            final(self).path@ == path@,
            final(self).size == old(self).size,
            final(self).created == old(self).created,
            final(self).modified == old(self).modified,
            final(self).accessed == old(self).accessed,
            final(self).is_dir == old(self).is_dir,
            final(self).attributes == old(self).attributes,
            final(self).file_ref == old(self).file_ref,
            final(self).parent_ref == old(self).parent_ref,
            final(self).own_name == old(self).own_name,
    {
        self.path = path;
        self.refresh();
    }

    /// A field-by-field copy.
    pub fn duplicate(&self) -> (r: Self)
        ensures
            r == *self,
    {
        IndexedFile {
            path: self.path.clone(),
            size: self.size,
            created: self.created,
            modified: self.modified,
            accessed: self.accessed,
            is_dir: self.is_dir,
            attributes: self.attributes,
            file_ref: self.file_ref,
            parent_ref: self.parent_ref,
            own_name: self.own_name.clone(),
            name: self.name.clone(),
            lower_name: self.lower_name.clone(),
            lower_path: self.lower_path.clone(),
            extension: clone_opt_string(&self.extension),
            excluded: self.excluded,
        }
    }
}

pub fn clone_opt_string(o: &Option<String>) -> (r: Option<String>)
    ensures
        r == *o,
{
    match o {
        Some(s) => Some(s.clone()),
        None => None,
    }
}

/// Position of the last separator in `v`, or `v.len()` when there is none.
pub fn rfind_sep_exec(v: &[char]) -> (r: Option<usize>)
    ensures
        match r {
            Some(i) => i == rfind_sep(v@) && i < v.len(),
            None => rfind_sep(v@) == -1,
        },
{
    proof {
        lemma_rfind_sep(v@);
    }
    let mut i = v.len();
    while i > 0
        invariant
            i <= v.len(),
            rfind_sep(v@) < i,
        decreases i,
    {
        proof {
            lemma_rfind_sep(v@);
        }
        if is_sep_char(v[i - 1]) {
            return Some(i - 1);
        }
        i -= 1;
    }
    proof {
        lemma_rfind_sep(v@);
    }
    None
}

/// Position of the last `c` in `v`.
pub fn rfind_char_exec(v: &[char], c: char) -> (r: Option<usize>)
    ensures
        match r {
            Some(i) => i == rfind_char(v@, c) && i < v.len(),
            None => rfind_char(v@, c) == -1,
        },
{
    proof {
        lemma_rfind_char(v@, c);
    }
    let mut i = v.len();
    while i > 0
        invariant
            i <= v.len(),
            rfind_char(v@, c) < i,
        decreases i,
    {
        proof {
            lemma_rfind_char(v@, c);
        }
        if v[i - 1] == c {
            return Some(i - 1);
        }
        i -= 1;
    }
    proof {
        lemma_rfind_char(v@, c);
    }
    None
}

/// The last component of a path given as characters.
pub fn last_component_of(v: &[char]) -> (r: Vec<char>)
    ensures
        r@ == last_component(v@),
{
    proof {
        lemma_rfind_sep(v@);
    }
    match rfind_sep_exec(v) {
        Some(i) => slice_chars(v, i + 1, v.len()),
        None => {
            assert(v@.skip(0) =~= v@);
            slice_chars(v, 0, v.len())
        },
    }
}

fn has_sep_exec(v: &[char]) -> (r: bool)
    ensures
        r == has_sep(v@),
{
    let mut i: usize = 0;
    while i < v.len()
        invariant
            i <= v.len(),
            forall|k: int| 0 <= k < i ==> !is_sep(#[trigger] v@[k]),
        decreases v.len() - i,
    {
        if is_sep_char(v[i]) {
            return true;
        }
        i += 1;
    }
    false
}

/// The lowercase extension of a path given as characters.
pub fn extension_of(v: &[char], is_dir: bool) -> (r: Option<String>)
    ensures
        opt_view(r) == spec_extension(v@, is_dir),
{
    if is_dir {
        return None;
    }
    proof {
        lemma_rfind_char(v@, '.');
    }
    match rfind_char_exec(v, '.') {
        None => None,
        Some(d) => {
            let ext = slice_chars(v, d + 1, v.len());
            if d == 0 || ext.len() == 0 || has_sep_exec(&ext) {
                None
            } else {
                Some(string_from_chars(&lower_vec(&ext)))
            }
        },
    }
}

} // verus!
