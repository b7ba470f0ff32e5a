//! Bounded in-memory content index for `content:"..."` search.
//!
//! Only files with a text-like extension (or a known extension-less name),
//! a non-zero size of at most [`MAX_FILE_BYTES`] and outside the default
//! excluded trees are eligible. At most [`TOTAL_BUDGET`] bytes are retained
//! in all; once the budget is spent new files are refused while stored ones
//! stay searchable.

use vstd::hash_map::StringHashMap;
use vstd::prelude::*;

use crate::query::strings_view;
use crate::text::{chars_of, lower_seq, lower_string, lower_vec};
use crate::types::{is_default_excluded, spec_default_excluded};
use crate::wildcard::{bytes_occur, occurs, occurs_at};

verus! {

broadcast use vstd::seq_lib::group_seq_properties;

/// Per-file size cap, and the number of bytes retained of a file.
pub const MAX_FILE_BYTES: u64 = 262_144;

/// Total retained-content budget across all files.
pub const TOTAL_BUDGET: usize = 268_435_456;

/// Text-like extensions eligible for content indexing (lowercase).
pub open spec fn text_exts() -> Seq<Seq<char>> {
    seq![
        "md"@,
        "markdown"@,
        "txt"@,
        "rst"@,
        "log"@,
        "json"@,
        "jsonl"@,
        "yaml"@,
        "yml"@,
        "toml"@,
        "ini"@,
        "cfg"@,
        "conf"@,
        "config"@,
        "env"@,
        "properties"@,
        "xml"@,
        "html"@,
        "htm"@,
        "css"@,
        "csv"@,
        "tsv"@,
        "sql"@,
        "rs"@,
        "py"@,
        "pyw"@,
        "js"@,
        "jsx"@,
        "ts"@,
        "tsx"@,
        "mjs"@,
        "cjs"@,
        "c"@,
        "h"@,
        "cpp"@,
        "cc"@,
        "cxx"@,
        "hpp"@,
        "hh"@,
        "hxx"@,
        "cs"@,
        "java"@,
        "kt"@,
        "kts"@,
        "go"@,
        "rb"@,
        "php"@,
        "sh"@,
        "bat"@,
        "cmd"@,
        "ps1"@,
        "swift"@,
        "m"@,
        "mm"@,
        "r"@,
        "scala"@,
        "clj"@,
        "cljs"@,
        "lua"@,
        "pl"@,
        "pm"@,
        "tcl"@,
        "v"@,
        "vhdl"@,
        "asm"@,
        "s"@,
        "gradle"@,
        "groovy"@,
        "dockerfile"@,
        "makefile"@,
        "cmake"@,
        "gitignore"@,
        "gitattributes"@,
        "editorconfig"@,
        "eslintrc"@,
        "prettierrc"@,
        "babelrc"@,
        "tsconfig"@,
        "package"@,
        "lock"@,
    ]
}

/// Extension-less names eligible for content indexing (lowercase).
pub open spec fn text_names() -> Seq<Seq<char>> {
    seq![
        "readme"@,
        "makefile"@,
        "dockerfile"@,
        "license"@,
        "copying"@,
        "notice"@,
        "changelog"@,
        "authors"@,
        "contributing"@,
        "gemfile"@,
        "rakefile"@,
        "requirements"@,
        "rust-toolchain"@,
        "cargo-config"@,
    ]
}

fn text_ext_lit(k: usize) -> (r: &'static str)
    requires
        k < 80,
    ensures
        r@ == text_exts()[k as int],
{
    if k == 0 {
        "md"
    } else if k == 1 {
        "markdown"
    } else if k == 2 {
        "txt"
    } else if k == 3 {
        "rst"
    } else if k == 4 {
        "log"
    } else if k == 5 {
        "json"
    } else if k == 6 {
        "jsonl"
    } else if k == 7 {
        "yaml"
    } else if k == 8 {
        "yml"
    } else if k == 9 {
        "toml"
    } else if k == 10 {
        "ini"
    } else if k == 11 {
        "cfg"
    } else if k == 12 {
        "conf"
    } else if k == 13 {
        "config"
    } else if k == 14 {
        "env"
    } else if k == 15 {
        "properties"
    } else if k == 16 {
        "xml"
    } else if k == 17 {
        "html"
    } else if k == 18 {
        "htm"
    } else if k == 19 {
        "css"
    } else if k == 20 {
        "csv"
    } else if k == 21 {
        "tsv"
    } else if k == 22 {
        "sql"
    } else if k == 23 {
        "rs"
    } else if k == 24 {
        "py"
    } else if k == 25 {
        "pyw"
    } else if k == 26 {
        "js"
    } else if k == 27 {
        "jsx"
    } else if k == 28 {
        "ts"
    } else if k == 29 {
        "tsx"
    } else if k == 30 {
        "mjs"
    } else if k == 31 {
        "cjs"
    } else if k == 32 {
        "c"
    } else if k == 33 {
        "h"
    } else if k == 34 {
        "cpp"
    } else if k == 35 {
        "cc"
    } else if k == 36 {
        "cxx"
    } else if k == 37 {
        "hpp"
    } else if k == 38 {
        "hh"
    } else if k == 39 {
        "hxx"
    } else if k == 40 {
        "cs"
    } else if k == 41 {
        "java"
    } else if k == 42 {
        "kt"
    } else if k == 43 {
        "kts"
    } else if k == 44 {
        "go"
    } else if k == 45 {
        "rb"
    } else if k == 46 {
        "php"
    } else if k == 47 {
        "sh"
    } else if k == 48 {
        "bat"
    } else if k == 49 {
        "cmd"
    } else if k == 50 {
        "ps1"
    } else if k == 51 {
        "swift"
    } else if k == 52 {
        "m"
    } else if k == 53 {
        "mm"
    } else if k == 54 {
        "r"
    } else if k == 55 {
        "scala"
    } else if k == 56 {
        "clj"
    } else if k == 57 {
        "cljs"
    } else if k == 58 {
        "lua"
    } else if k == 59 {
        "pl"
    } else if k == 60 {
        "pm"
    } else if k == 61 {
        "tcl"
    } else if k == 62 {
        "v"
    } else if k == 63 {
        "vhdl"
    } else if k == 64 {
        "asm"
    } else if k == 65 {
        "s"
    } else if k == 66 {
        "gradle"
    } else if k == 67 {
        "groovy"
    } else if k == 68 {
        "dockerfile"
    } else if k == 69 {
        "makefile"
    } else if k == 70 {
        "cmake"
    } else if k == 71 {
        "gitignore"
    } else if k == 72 {
        "gitattributes"
    } else if k == 73 {
        "editorconfig"
    } else if k == 74 {
        "eslintrc"
    } else if k == 75 {
        "prettierrc"
    } else if k == 76 {
        "babelrc"
    } else if k == 77 {
        "tsconfig"
    } else if k == 78 {
        "package"
    } else {
        "lock"
    }
}

fn text_name_lit(k: usize) -> (r: &'static str)
    requires
        k < 14,
    ensures
        r@ == text_names()[k as int],
{
    if k == 0 {
        "readme"
    } else if k == 1 {
        "makefile"
    } else if k == 2 {
        "dockerfile"
    } else if k == 3 {
        "license"
    } else if k == 4 {
        "copying"
    } else if k == 5 {
        "notice"
    } else if k == 6 {
        "changelog"
    } else if k == 7 {
        "authors"
    } else if k == 8 {
        "contributing"
    } else if k == 9 {
        "gemfile"
    } else if k == 10 {
        "rakefile"
    } else if k == 11 {
        "requirements"
    } else if k == 12 {
        "rust-toolchain"
    } else {
        "cargo-config"
    }
}

/// The last path component: after the last `\`, or, without any `\`,
/// after the last `/`.
pub open spec fn file_name(path: Seq<char>) -> Seq<char> {
    let b = crate::types::rfind_char(path, '\\');
    if b >= 0 {
        path.skip(b + 1)
    } else {
        let f = crate::types::rfind_char(path, '/');
        if f >= 0 {
            path.skip(f + 1)
        } else {
            path
        }
    }
}

/// The text after the last `.` of the file name (empty without a dot).
pub open spec fn ext_of(path: Seq<char>) -> Seq<char> {
    let name = file_name(path);
    let d = crate::types::rfind_char(name, '.');
    if d >= 0 {
        name.skip(d + 1)
    } else {
        Seq::empty()
    }
}

/// A text file by its extension, or by its name when it has none.
pub open spec fn is_text_file(path: Seq<char>) -> bool {
    let ext = ext_of(path);
    if text_exts().contains(lower_seq(ext)) {
        true
    } else if ext.len() == 0 {
        text_names().contains(lower_seq(file_name(path)))
    } else {
        false
    }
}

/// Eligibility for content indexing.
pub open spec fn spec_should_index(path: Seq<char>, size: u64) -> bool {
    size != 0 && size <= MAX_FILE_BYTES && !spec_default_excluded(path) && is_text_file(path)
}

fn file_name_exec(p: &[char]) -> (r: Vec<char>)
    ensures
        r@ == file_name(p@),
{
    match crate::types::rfind_char_exec(p, '\\') {
        Some(b) => crate::text::slice_chars(p, b + 1, p.len()),
        None => match crate::types::rfind_char_exec(p, '/') {
            Some(f) => crate::text::slice_chars(p, f + 1, p.len()),
            None => crate::text::slice_chars(p, 0, p.len()),
        },
    }
}

fn ext_of_exec(p: &[char]) -> (r: Vec<char>)
    ensures
        r@ == ext_of(p@),
{
    let name = file_name_exec(p);
    match crate::types::rfind_char_exec(&name, '.') {
        Some(d) => crate::text::slice_chars(&name, d + 1, name.len()),
        None => Vec::new(),
    }
}

fn in_list(v: &[char], exts: bool) -> (r: bool)
    ensures
        r == (if exts {
            text_exts()
        } else {
            text_names()
        }).contains(v@),
{
    let n: usize = if exts {
        80
    } else {
        14
    };
    let ghost list = if exts {
        text_exts()
    } else {
        text_names()
    };
    assert(list.len() == n);
    let mut k: usize = 0;
    while k < n
        invariant
            k <= n,
            list.len() == n,
            list == (if exts {
                text_exts()
            } else {
                text_names()
            }),
            forall|j: int| 0 <= j < k ==> list[j] != v@,
        decreases n - k,
    {
        let lit = if exts {
            text_ext_lit(k)
        } else {
            text_name_lit(k)
        };
        if crate::seqs::eq_lit(v, lit) {
            return true;
        }
        k += 1;
    }
    false
}

/// Whether the path has a text-like extension or name.
pub fn is_text_file_exec(path: &str) -> (r: bool)
    ensures
        r == is_text_file(path@),
{
    let p = chars_of(path);
    let ext = ext_of_exec(&p);
    if in_list(&lower_vec(&ext), true) {
        return true;
    }
    if ext.len() == 0 {
        return in_list(&lower_vec(&file_name_exec(&p)), false);
    }
    false
}

/// Case-insensitive (ASCII) substring search; the first match offset. An
/// empty needle matches nowhere.
pub fn find_ci(hay: &[u8], needle: &[u8]) -> (r: Option<usize>)
    ensures
        match r {
            Some(i) => needle.len() > 0 && occurs_at(hay@, needle@, i as int, true) && forall|j: int|
                0 <= j < i ==> !occurs_at(hay@, needle@, j, true),
            None => needle.len() == 0 || !occurs(hay@, needle@, true),
        },
{
    if needle.len() == 0 || needle.len() > hay.len() {
        return None;
    }
    let n = needle.len();
    let mut i: usize = 0;
    while i <= hay.len() - n
        invariant
            0 < n == needle.len() <= hay.len(),
            i <= hay.len() - n + 1,
            forall|j: int| 0 <= j < i ==> !occurs_at(hay@, needle@, j, true),
        decreases hay.len() - n + 1 - i,
    {
        let mut k: usize = 0;
        let mut same = true;
        while k < n
            invariant
                0 < n == needle.len(),
                i + n <= hay.len(),
                k <= n,
                same == (forall|j: int| 0 <= j < k ==> crate::wildcard::byte_eq(
                    #[trigger] hay@[i + j],
                    needle@[j],
                    true,
                )),
            decreases n - k,
        {
            if !crate::wildcard::bytes_eq_ci(hay[i + k], needle[k]) {
                same = false;
            }
            k += 1;
        }
        if same {
            return Some(i);
        }
        i += 1;
    }
    None
}

/// A stored file: its lowercase path and its retained bytes.
pub struct ContentFile {
    pub key: String,
    pub data: Vec<u8>,
}

pub open spec fn files_total(s: Seq<ContentFile>) -> int
    decreases s.len(),
{
    if s.len() == 0 {
        0
    } else {
        files_total(s.drop_last()) + s.last().data@.len()
    }
}

pub open spec fn distinct_keys(s: Seq<ContentFile>) -> bool {
    forall|i: int, j: int| 0 <= i < j < s.len() ==> (#[trigger] s[i]).key@ != (#[trigger] s[j]).key@
}

/// Position of the file stored under `key`.
pub open spec fn key_pos(s: Seq<ContentFile>, key: Seq<char>) -> Option<int> {
    if exists|i: int| 0 <= i < s.len() && (#[trigger] s[i]).key@ == key {
        Some(choose|i: int| 0 <= i < s.len() && (#[trigger] s[i]).key@ == key)
    } else {
        None
    }
}

/// Every needle is non-empty and occurs in `data` (case-insensitively).
pub open spec fn all_needles(data: Seq<u8>, needles: Seq<Seq<char>>) -> bool {
    forall|k: int|
        0 <= k < needles.len() ==> (#[trigger] needles[k]).len() > 0 && occurs(
            data,
            vstd::utf8::encode_utf8(needles[k]),
            true,
        )
}

/// Keys of the files whose content holds every needle, in storage order.
pub open spec fn matching_keys(s: Seq<ContentFile>, needles: Seq<Seq<char>>) -> Seq<Seq<char>>
    decreases s.len(),
{
    if s.len() == 0 {
        Seq::empty()
    } else {
        let r = matching_keys(s.drop_last(), needles);
        if all_needles(s.last().data@, needles) {
            r.push(s.last().key@)
        } else {
            r
        }
    }
}

/// Bounded store of file contents keyed by lowercase path.
pub struct ContentStore {
    files: Vec<ContentFile>,
    positions: StringHashMap<usize>,
    total: usize,
    enabled: bool,
}

impl ContentStore {
    /// The stored files, in storage order.
    pub closed spec fn files_view(&self) -> Seq<ContentFile> {
        self.files@
    }

    pub closed spec fn enabled_view(&self) -> bool {
        self.enabled
    }

    /// Keys are unique, the lookup table agrees, the byte count is the sum
    /// of the stored lengths and within the budget.
    pub closed spec fn wf(&self) -> bool {
        &&& distinct_keys(self.files@)
        &&& forall|i: int|
            0 <= i < self.files@.len() ==> #[trigger] self.positions@.contains_key(
                self.files@[i].key@,
            ) && self.positions@[self.files@[i].key@] == i
        &&& forall|p: Seq<char>|
            #[trigger] self.positions@.contains_key(p) ==> self.positions@[p] < self.files@.len()
                && self.files@[self.positions@[p] as int].key@ == p
        &&& self.total == files_total(self.files@)
        &&& self.total <= TOTAL_BUDGET
    }

    /// An empty, enabled store.
    pub fn new() -> (r: Self)
        ensures
            r.wf(),
            r.files_view() == Seq::<ContentFile>::empty(),
            r.enabled_view(),
    {
        ContentStore { files: Vec::new(), positions: StringHashMap::new(), total: 0, enabled: true }
    }

    /// A store that keeps nothing.
    pub fn disabled() -> (r: Self)
        ensures
            r.wf(),
            r.files_view() == Seq::<ContentFile>::empty(),
            !r.enabled_view(),
    {
        ContentStore { files: Vec::new(), positions: StringHashMap::new(), total: 0, enabled: false }
    }

    pub fn is_enabled(&self) -> (r: bool)
        ensures
            r == self.enabled_view(),
    {
        self.enabled
    }

    /// Number of files stored.
    pub fn len(&self) -> (r: usize)
        requires
            self.wf(),
        ensures
            r == self.files_view().len(),
    {
        self.files.len()
    }

    /// Total retained bytes.
    pub fn total_bytes(&self) -> (r: usize)
        requires
            self.wf(),
        ensures
            r == files_total(self.files_view()),
    {
        self.total
    }

    /// Whether a file is eligible for content indexing.
    pub fn should_index(path: &str, size: u64) -> (r: bool)
        ensures
            r == spec_should_index(path@, size),
    {
        if size == 0 || size > MAX_FILE_BYTES {
            return false;
        }
        if is_default_excluded(path) {
            return false;
        }
        is_text_file_exec(path)
    }

    /// Store the first bytes of `data` for `path` (keyed by its lowercase
    /// form), as many as the budget allows. Nothing happens when the store is
    /// disabled, the data is empty or the budget is spent; a stored file is
    /// replaced.
    pub fn insert(&mut self, path: &str, data: &[u8])
        requires
            old(self).wf(),
        ensures
            final(self).wf(),
            final(self).enabled_view() == old(self).enabled_view(),
            if !old(self).enabled_view() || data@.len() == 0 || files_total(old(self).files_view())
                == TOTAL_BUDGET {
                final(self).files_view() == old(self).files_view()
            } else {
                stored(
                    old(self).files_view(),
                    final(self).files_view(),
                    lower_seq(path@),
                    data@.take(retained(data@.len() as int, files_total(old(self).files_view()))),
                )
            },
    {
        if !self.enabled || data.len() == 0 {
            return;
        }
        let budget_left = TOTAL_BUDGET - self.total;
        if budget_left == 0 {
            return;
        }
        let take = if data.len() < budget_left {
            data.len()
        } else {
            budget_left
        };
        let kept = vstd::slice::slice_to_vec(vstd::slice::slice_subrange(data, 0, take));
        let key = lower_string(path);
        let ghost f0 = self.files@;
        proof {
            lemma_files_total_nonneg(f0);
        }
        match self.find(key.as_str()) {
            Some(i) => {
                let old_len = self.files[i].data.len();
                proof {
                    lemma_files_total_part(f0, i as int);
                }
                let file = ContentFile { key, data: kept };
                self.files.set(i, file);
                self.total = self.total - old_len + take;
                proof {
                    assert(kept@ =~= data@.take(take as int));
                    lemma_files_total_update(f0, i as int, self.files@[i as int]);
                    let s1 = self.files@;
                    assert(f0[i as int].key@ == key@);
                    assert forall|a: int, b: int| 0 <= a < b < s1.len() implies (
                    #[trigger] s1[a]).key@ != (#[trigger] s1[b]).key@ by {
                        assert(f0[a].key@ != f0[b].key@);
                    }
                    assert forall|j: int| 0 <= j < s1.len() implies #[trigger] self.positions@.contains_key(
                        s1[j].key@,
                    ) && self.positions@[s1[j].key@] == j by {
                        assert(s1[j].key@ == f0[j].key@);
                        assert(old(self).positions@.contains_key(f0[j].key@));
                    }
                    assert forall|p: Seq<char>| #[trigger] self.positions@.contains_key(p) implies self.positions@[p]
                        < s1.len() && s1[self.positions@[p] as int].key@ == p by {
                        assert(old(self).positions@.contains_key(p));
                        assert(s1[self.positions@[p] as int].key@ == f0[self.positions@[p] as int].key@);
                    }
                }
            },
            None => {
                let n = self.files.len();
                let k2 = key.clone();
                let ghost kv = key@;
                let ghost p0 = self.positions@;
                proof {
                    assert forall|a: int| 0 <= a < f0.len() implies (#[trigger] f0[a]).key@ != kv by {
                        if f0[a].key@ == kv {
                            assert(exists|j: int| 0 <= j < f0.len() && (#[trigger] f0[j]).key@ == kv);
                        }
                    }
                    assert(!p0.contains_key(kv));
                }
                self.files.push(ContentFile { key, data: kept });
                self.positions.insert(k2, n);
                self.total = self.total + take;
                proof {
                    let s1 = self.files@;
                    assert(self.positions@ == p0.insert(kv, n));
                    assert(kept@ =~= data@.take(take as int));
                    assert(s1.drop_last() =~= f0);
                    assert(s1[n as int].key@ == kv);
                    assert forall|a: int, b: int| 0 <= a < b < s1.len() implies (
                    #[trigger] s1[a]).key@ != (#[trigger] s1[b]).key@ by {
                        assert(s1[a] == f0[a]);
                        if b == n {
                            assert(f0[a].key@ != kv);
                        } else {
                            assert(s1[b] == f0[b]);
                            assert(f0[a].key@ != f0[b].key@);
                        }
                    }
                    assert forall|i: int| 0 <= i < s1.len() implies #[trigger] self.positions@.contains_key(
                        s1[i].key@,
                    ) && self.positions@[s1[i].key@] == i by {
                        if i < n {
                            assert(s1[i] == f0[i]);
                            assert(f0[i].key@ != kv);
                            assert(p0.contains_key(f0[i].key@));
                        }
                    }
                    assert forall|p: Seq<char>| #[trigger] self.positions@.contains_key(p) implies self.positions@[p]
                        < s1.len() && s1[self.positions@[p] as int].key@ == p by {
                        if p != kv {
                            assert(p0.contains_key(p));
                            assert(s1[p0[p] as int] == f0[p0[p] as int]);
                        }
                    }
                }
            },
        }
    }

    /// Drop the file stored for `path`.
    pub fn remove(&mut self, path: &str)
        requires
            old(self).wf(),
        ensures
            final(self).wf(),
            final(self).enabled_view() == old(self).enabled_view(),
            match key_pos(old(self).files_view(), lower_seq(path@)) {
                Some(i) => final(self).files_view() == old(self).files_view().update(
                    i,
                    old(self).files_view().last(),
                ).drop_last(),
                None => final(self).files_view() == old(self).files_view(),
            },
    {
        let key = lower_string(path);
        match self.find(key.as_str()) {
            None => {},
            Some(i) => {
                let ghost f0 = self.files@;
                proof {
                    lemma_files_total_nonneg(f0);
                    lemma_files_total_part(f0, i as int);
                    lemma_files_total_swap_remove(f0, i as int);
                }
                let gone = self.files.swap_remove(i);
                self.total = self.total - gone.data.len();
                self.positions.remove(key.as_str());
                if i < self.files.len() {
                    let moved = self.files[i].key.clone();
                    self.positions.insert(moved, i);
                }
                proof {
                    let s1 = self.files@;
                    assert forall|a: int, b: int| 0 <= a < b < s1.len() implies (#[trigger] s1[a]).key@
                        != (#[trigger] s1[b]).key@ by {
                        if a == i {
                            assert(f0[f0.len() - 1].key@ != f0[b].key@);
                        } else if b == i {
                            assert(f0[a].key@ != f0[f0.len() - 1].key@);
                        } else {
                            assert(f0[a].key@ != f0[b].key@);
                        }
                    }
                    assert forall|k: int| 0 <= k < s1.len() implies #[trigger] self.positions@.contains_key(
                        s1[k].key@,
                    ) && self.positions@[s1[k].key@] == k by {
                        if k != i {
                            assert(f0[k].key@ != f0[i as int].key@);
                            assert(f0[k].key@ != f0[f0.len() - 1].key@);
                        }
                    }
                    assert forall|p: Seq<char>| #[trigger] self.positions@.contains_key(p) implies self.positions@[p]
                        < s1.len() && s1[self.positions@[p] as int].key@ == p by {
                        if i < s1.len() && p == f0[f0.len() - 1].key@ {
                        } else {
                            assert(old(self).positions@.contains_key(p));
                            let q = old(self).positions@[p];
                            assert(q != i);
                            if q == f0.len() - 1 {
                                assert(p == f0[f0.len() - 1].key@);
                            }
                        }
                    }
                }
            },
        }
    }

    /// Lowercase paths whose stored content holds every needle
    /// (case-insensitively); none for no needles or an empty needle.
    pub fn matching_paths(&self, needles: &[String]) -> (r: Vec<String>)
        requires
            self.wf(),
        ensures
            needles@.len() == 0 ==> r@.len() == 0,
            needles@.len() > 0 ==> strings_view(r@) == matching_keys(self.files_view(), strings_view(needles@)),
    {
        if needles.len() == 0 {
            return Vec::new();
        }
        let mut out: Vec<String> = Vec::new();
        let mut i: usize = 0;
        proof {
            assert(self.files@.take(0) =~= Seq::<ContentFile>::empty());
            assert(strings_view(out@) =~= Seq::<Seq<char>>::empty());
        }
        while i < self.files.len()
            invariant
                i <= self.files@.len(),
                strings_view(out@) == matching_keys(self.files@.take(i as int), strings_view(needles@)),
            decreases self.files@.len() - i,
        {
            proof {
                assert(self.files@.take(i as int + 1).drop_last() =~= self.files@.take(i as int));
            }
            let data = self.files[i].data.as_slice();
            let mut k: usize = 0;
            let mut all = true;
            while k < needles.len()
                invariant
                    k <= needles@.len(),
                    i < self.files@.len(),
                    data@ == self.files@[i as int].data@,
                    all == (forall|j: int|
                        0 <= j < k ==> (#[trigger] strings_view(needles@)[j]).len() > 0 && occurs(
                            data@,
                            vstd::utf8::encode_utf8(strings_view(needles@)[j]),
                            true,
                        )),
                decreases needles@.len() - k,
            {
                let nb = needles[k].as_str().as_bytes();
                let nonempty = nb.len() > 0;
                proof {
                    crate::filter::lemma_encode_empty(needles@[k as int]@);
                    assert(nb@ == vstd::utf8::encode_utf8(needles@[k as int]@));
                    assert(strings_view(needles@)[k as int] == needles@[k as int]@);
                }
                if !(nonempty && bytes_occur(data, nb, true)) {
                    all = false;
                }
                k += 1;
            }
            if all {
                let ghost before = strings_view(out@);
                out.push(self.files[i].key.clone());
                proof {
                    assert(strings_view(out@) =~= before.push(self.files@[i as int].key@));
                }
            }
            i += 1;
        }
        proof {
            assert(self.files@.take(self.files@.len() as int) =~= self.files@);
        }
        out
    }

    /// Whether the content stored for `path` holds `needle`
    /// (case-insensitively); never for an empty needle.
    pub fn contains(&self, path: &str, needle: &str) -> (r: bool)
        requires
            self.wf(),
        ensures
            r == (needle@.len() > 0 && match key_pos(self.files_view(), lower_seq(path@)) {
                Some(i) => occurs(self.files_view()[i].data@, vstd::utf8::encode_utf8(needle@), true),
                None => false,
            }),
    {
        if needle.is_empty() {
            return false;
        }
        let key = lower_string(path);
        match self.find(key.as_str()) {
            Some(i) => {
                proof {
                    crate::filter::lemma_encode_empty(needle@);
                }
                bytes_occur(self.files[i].data.as_slice(), needle.as_bytes(), true)
            },
            None => false,
        }
    }

    fn find(&self, key: &str) -> (r: Option<usize>)
        requires
            self.wf(),
        ensures
            r matches Some(i) ==> key_pos(self.files@, key@) == Some(i as int) && i < self.files@.len(),
            r is None ==> key_pos(self.files@, key@) is None,
    {
        match self.positions.get(key) {
            Some(i) => {
                let i = *i;
                proof {
                    lemma_key_pos(self.files@, i as int);
                }
                Some(i)
            },
            None => {
                proof {
                    if exists|i: int| 0 <= i < self.files@.len() && (#[trigger] self.files@[i]).key@ == key@ {
                        let i = choose|i: int| 0 <= i < self.files@.len() && (#[trigger] self.files@[i]).key@ == key@;
                        assert(self.positions@.contains_key(self.files@[i].key@));
                    }
                }
                None
            },
        }
    }
}

/// `new` is `old` with `data` stored under `key`: in place when the key is
/// present, appended otherwise.
pub open spec fn stored(old: Seq<ContentFile>, new: Seq<ContentFile>, key: Seq<char>, data: Seq<u8>) -> bool {
    match key_pos(old, key) {
        Some(i) => {
            &&& new.len() == old.len()
            &&& new[i].key@ == key
            &&& new[i].data@ == data
            &&& forall|j: int| 0 <= j < old.len() && j != i ==> #[trigger] new[j] == old[j]
        },
        None => {
            &&& new.len() == old.len() + 1
            &&& new.drop_last() == old
            &&& new.last().key@ == key
            &&& new.last().data@ == data
        },
    }
}

/// The number of bytes `insert` retains of `n` offered bytes, given `total`
/// bytes already held.
pub open spec fn retained(n: int, total: int) -> int {
    if n < TOTAL_BUDGET - total {
        n
    } else {
        TOTAL_BUDGET - total
    }
}

pub proof fn lemma_files_total_nonneg(s: Seq<ContentFile>)
    ensures
        files_total(s) >= 0,
    decreases s.len(),
{
    if s.len() > 0 {
        lemma_files_total_nonneg(s.drop_last());
    }
}

/// One file's bytes are part of the total.
pub proof fn lemma_files_total_part(s: Seq<ContentFile>, i: int)
    requires
        0 <= i < s.len(),
    ensures
        s[i].data@.len() <= files_total(s),
    decreases s.len(),
{
    lemma_files_total_nonneg(s.drop_last());
    if i < s.len() - 1 {
        lemma_files_total_part(s.drop_last(), i);
    }
}

/// Replacing one file changes the total by the difference of lengths.
pub proof fn lemma_files_total_update(s: Seq<ContentFile>, i: int, f: ContentFile)
    requires
        0 <= i < s.len(),
    ensures
        files_total(s.update(i, f)) == files_total(s) - s[i].data@.len() + f.data@.len(),
    decreases s.len(),
{
    let t = s.update(i, f);
    if i == s.len() - 1 {
        assert(t.drop_last() =~= s.drop_last());
    } else {
        lemma_files_total_update(s.drop_last(), i, f);
        assert(t.drop_last() =~= s.drop_last().update(i, f));
    }
}

/// Removing a file by moving the last into its place takes its bytes off.
pub proof fn lemma_files_total_swap_remove(s: Seq<ContentFile>, i: int)
    requires
        0 <= i < s.len(),
    ensures
        files_total(s.update(i, s.last()).drop_last()) == files_total(s) - s[i].data@.len(),
{
    lemma_files_total_update(s, i, s.last());
    let t = s.update(i, s.last());
    assert(t.last() == s.last());
}

pub proof fn lemma_key_pos(s: Seq<ContentFile>, i: int)
    requires
        distinct_keys(s),
        0 <= i < s.len(),
    ensures
        key_pos(s, s[i].key@) == Some(i),
{
    let p = s[i].key@;
    assert(exists|j: int| 0 <= j < s.len() && (#[trigger] s[j]).key@ == p);
    let j = choose|j: int| 0 <= j < s.len() && (#[trigger] s[j]).key@ == p;
    if j != i {
        if j < i {
            assert(s[j].key@ != s[i].key@);
        } else {
            assert(s[i].key@ != s[j].key@);
        }
    }
}

} // verus!
