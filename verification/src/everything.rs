//! The decisions behind the Everything engine backend: the search text sent
//! to Everything, the sort and field selections, the status report, and the
//! conversion of result items. Talking to the Everything window is the
//! application's part.
use vstd::prelude::*;
use crate::results::{FILETIME_EPOCH, ns100_to_iso_string, rfc3339};
use crate::text::{chars_of, contains_char, string_from_chars, trim};
use crate::tokenize::{ListKind, clean_list, spec_clean_list, trim_end_char, trim_end_char_exec};
use crate::query::strings_view;
use crate::seqs::eq_lit;

pub use crate::results::{SearchResult, SearchResults};

verus! {

/// How the Everything search engine was made available.
#[derive(Debug, Clone, Copy, PartialEq, Eq, Structural)]
pub enum EngineSource {
    /// A reachable Everything window already existed (user's own install).
    Existing,
    /// The installed Everything GUI was launched (e.g. to bridge a
    /// service-only install).
    InstalledLaunched,
    /// The bundled portable Everything was launched.
    Bundled,
    /// No engine could be made available.
    Unavailable,
}

impl Default for EngineSource {
    fn default() -> (r: Self)
        ensures
            r == EngineSource::Unavailable,
    {
        EngineSource::Unavailable
    }
}

/// Overall status of the Everything IPC connection.
pub struct EverythingStatus {
    /// Whether Everything is connected and fully usable (IPC available + DB loaded).
    pub connected: bool,
    /// Whether the Everything GUI window was found.
    pub window_found: bool,
    /// Whether the IPC message channel is functional.
    pub ipc_available: bool,
    /// Whether Everything's database is fully loaded (indexing complete).
    pub db_loaded: bool,
    /// Everything version string, if available.
    pub version: Option<String>,
    /// Where the search engine came from.
    pub engine_source: EngineSource,
    /// Whether a bundled portable Everything ships with this install.
    pub bundled_available: bool,
    /// Whether an installed Everything was detected on this machine.
    pub installed_available: bool,
}

/// The status report, given the engine source in effect and, where a client
/// could be created for it, whether its IPC channel answers and its database
/// is loaded.
pub fn status(
    source: EngineSource,
    client: Option<(bool, bool)>,
    bundled_available: bool,
    installed_available: bool,
) -> (r: EverythingStatus)
    ensures
        r.window_found == client is Some,
        r.ipc_available == (client matches Some(c) && c.0),
        r.db_loaded == (client matches Some(c) && c.1),
        r.connected == (source != EngineSource::Unavailable && r.ipc_available && r.db_loaded),
        r.version is None,
        r.engine_source == source,
        r.bundled_available == bundled_available,
        r.installed_available == installed_available,
{
    let (ipc_available, db_loaded, window_found) = match client {
        Some((i, d)) => (i, d, true),
        None => (false, false, false),
    };
    let has_source = match source {
        EngineSource::Unavailable => false,
        _ => true,
    };
    EverythingStatus {
        connected: has_source && ipc_available && db_loaded,
        window_found,
        ipc_available,
        db_loaded,
        version: None,
        engine_source: source,
        bundled_available,
        installed_available,
    }
}

/// Why no engine could be made available, given whether an installed and a
/// bundled Everything were found.
pub open spec fn spec_no_engine_message(installed: bool, bundled: bool) -> Seq<char> {
    "no Everything engine available: no reachable Everything window found"@ + (if !installed {
        ", no installed Everything, "@
    } else {
        Seq::empty()
    }) + (if !bundled {
        "and no bundled portable Everything"@
    } else {
        "and launching available engines failed or timed out"@
    }) + ". Run `search_status` for diagnostics."@
}

pub fn no_engine_message(installed: bool, bundled: bool) -> (r: String)
    ensures
        r@ == spec_no_engine_message(installed, bundled),
{
    let mut v = chars_of("no Everything engine available: no reachable Everything window found");
    if !installed {
        let mut t = chars_of(", no installed Everything, ");
        v.append(&mut t);
    }
    if !bundled {
        let mut t = chars_of("and no bundled portable Everything");
        v.append(&mut t);
    } else {
        let mut t = chars_of("and launching available engines failed or timed out");
        v.append(&mut t);
    }
    let mut t = chars_of(". Run `search_status` for diagnostics.");
    v.append(&mut t);
    string_from_chars(&v)
}

// ---------------------------------------------------------------------------
// Search text
// ---------------------------------------------------------------------------

/// Folders excluded unless `include_all` is set (the same set the native
/// index hides).
pub open spec fn default_dirs() -> Seq<Seq<char>> {
    seq![
        "node_modules"@,
        ".git"@,
        "WinSxS"@,
        "$Recycle.Bin"@,
        "System Volume Information"@,
    ]
}

fn default_dir(k: usize) -> (r: &'static str)
    requires
        k < 5,
    ensures
        r@ == default_dirs()[k as int],
{
    if k == 0 {
        "node_modules"
    } else if k == 1 {
        ".git"
    } else if k == 2 {
        "WinSxS"
    } else if k == 3 {
        "$Recycle.Bin"
    } else {
        "System Volume Information"
    }
}

/// The parts joined with `sep` between them.
pub open spec fn join(parts: Seq<Seq<char>>, sep: Seq<char>) -> Seq<char>
    decreases parts.len(),
{
    if parts.len() == 0 {
        Seq::empty()
    } else if parts.len() == 1 {
        parts[0]
    } else {
        join(parts.drop_last(), sep) + sep + parts.last()
    }
}

/// Everything's folder-exclusion term `!<dir\>`.
pub open spec fn excl_term(d: Seq<char>) -> Seq<char> {
    "!<"@ + d + "\\>"@
}

/// The path scope term: trailing backslashes removed, quoted when it holds a
/// space.
pub open spec fn scope_term(p: Seq<char>) -> Seq<char> {
    let n = trim_end_char(p, '\\');
    if n.contains(' ') {
        seq!['"'] + n + seq!['"']
    } else {
        n
    }
}

pub open spec fn nonempty_text(o: Option<Seq<char>>) -> Option<Seq<char>> {
    match o {
        Some(s) => if s.len() > 0 {
            Some(s)
        } else {
            None
        },
        None => None,
    }
}

/// The folders excluded: the defaults unless `include_all`, then the
/// non-empty `;`-separated items of `exclude_path` (trimmed, trailing
/// backslashes removed).
pub open spec fn excluded_dirs(exclude_path: Option<Seq<char>>, include_all: bool) -> Seq<Seq<char>> {
    (if include_all {
        Seq::empty()
    } else {
        default_dirs()
    }) + match nonempty_text(exclude_path) {
        Some(ep) => spec_clean_list(ep, ';', ListKind::Folders),
        None => Seq::empty(),
    }
}

/// The search text and the note on excluded folders.
pub open spec fn spec_search_query(
    query: Seq<char>,
    path: Option<Seq<char>>,
    exclude_path: Option<Seq<char>>,
    include_all: bool,
) -> (Seq<char>, Seq<char>) {
    let ex = excluded_dirs(exclude_path, include_all);
    let parts = seq![query] + match nonempty_text(path) {
        Some(p) => seq![scope_term(p)],
        None => Seq::empty(),
    } + excl_terms(ex);
    (
        join(parts, " "@),
        if ex.len() == 0 {
            Seq::empty()
        } else {
            "Excluded directories: "@ + join(ex, ", "@)
        },
    )
}

pub open spec fn opt_str_view(o: Option<&str>) -> Option<Seq<char>> {
    match o {
        Some(s) => Some(s@),
        None => None,
    }
}

/// The contents of each vector of characters.
pub open spec fn vviews(v: Seq<Vec<char>>) -> Seq<Seq<char>> {
    v.map_values(|p: Vec<char>| p@)
}

/// The exclusion term of each folder.
pub open spec fn excl_terms(ds: Seq<Seq<char>>) -> Seq<Seq<char>> {
    ds.map_values(|d: Seq<char>| excl_term(d))
}

fn append_chars(v: &mut Vec<char>, s: &[char])
    ensures
        final(v)@ == old(v)@ + s@,
{
    let mut i: usize = 0;
    while i < s.len()
        invariant
            i <= s@.len(),
            v@ == old(v)@ + s@.take(i as int),
        decreases s@.len() - i,
    {
        v.push(s[i]);
        i += 1;
        proof {
            assert(s@.take(i as int) =~= s@.take(i as int - 1).push(s@[i - 1]));
        }
    }
    proof {
        assert(s@.take(s@.len() as int) =~= s@);
    }
}

/// Join `parts` with `sep` between them.
fn join_exec(parts: &Vec<Vec<char>>, sep: &[char]) -> (r: Vec<char>)
    ensures
        r@ == join(vviews(parts@), sep@),
{
    let ghost pv = vviews(parts@);
    let mut out: Vec<char> = Vec::new();
    let mut i: usize = 0;
    proof {
        assert(pv.take(0) =~= Seq::<Seq<char>>::empty());
    }
    while i < parts.len()
        invariant
            i <= parts@.len(),
            pv == vviews(parts@),
            out@ == join(pv.take(i as int), sep@),
        decreases parts@.len() - i,
    {
        proof {
            assert(pv.take(i as int + 1).drop_last() =~= pv.take(i as int));
            assert(pv.take(i as int + 1).last() == parts@[i as int]@);
        }
        if i > 0 {
            append_chars(&mut out, sep);
        } else {
            proof {
                assert(pv.take(1) =~= seq![parts@[0]@]);
            }
        }
        append_chars(&mut out, parts[i].as_slice());
        i += 1;
    }
    proof {
        assert(pv.take(parts@.len() as int) =~= pv);
    }
    out
}

fn nonempty_chars(o: Option<&str>) -> (r: Option<Vec<char>>)
    ensures
        match nonempty_text(opt_str_view(o)) {
            Some(s) => (r matches Some(v) && v@ == s),
            None => r is None,
        },
{
    match o {
        Some(s) => {
            let v = chars_of(s);
            if v.len() > 0 {
                Some(v)
            } else {
                None
            }
        },
        None => None,
    }
}

/// Build the Everything search text: the query, the optional path scope,
/// the default folder exclusions (unless `include_all`) and the caller's
/// `;`-separated exclusions; and a note naming the excluded folders.
pub fn build_search_query(
    query: &str,
    path: Option<&str>,
    exclude_path: Option<&str>,
    include_all: bool,
) -> (r: (String, String))
    ensures
        r.0@ == spec_search_query(query@, opt_str_view(path), opt_str_view(exclude_path), include_all).0,
        r.1@ == spec_search_query(query@, opt_str_view(path), opt_str_view(exclude_path), include_all).1,
{
    // The excluded folders, in order.
    let mut ex: Vec<Vec<char>> = Vec::new();
    if !include_all {
        let mut k: usize = 0;
        while k < 5
            invariant
                k <= 5,
                vviews(ex@) == default_dirs().take(k as int),
            decreases 5 - k,
        {
            let ghost before = vviews(ex@);
            let d = chars_of(default_dir(k));
            ex.push(d);
            k += 1;
            proof {
                assert(vviews(ex@) =~= before.push(d@));
                assert(default_dirs().take(k as int) =~= default_dirs().take(k as int - 1).push(
                    default_dirs()[k - 1],
                ));
            }
        }
        proof {
            assert(default_dirs().take(5) =~= default_dirs());
        }
    } else {
        proof {
            assert(vviews(ex@) =~= Seq::<Seq<char>>::empty());
        }
    }
    let ghost base = vviews(ex@);
    match nonempty_chars(exclude_path) {
        Some(ep) => {
            let items = clean_list(&ep, ';', ListKind::Folders);
            let mut j: usize = 0;
            while j < items.len()
                invariant
                    j <= items@.len(),
                    vviews(ex@) == base + strings_view(items@).take(j as int),
                decreases items@.len() - j,
            {
                let ghost before = vviews(ex@);
                let d = chars_of(items[j].as_str());
                ex.push(d);
                j += 1;
                proof {
                    assert(vviews(ex@) =~= before.push(d@));
                    assert(strings_view(items@).take(j as int) =~= strings_view(items@).take(
                        j as int - 1,
                    ).push(items@[j - 1]@));
                    assert(vviews(ex@) =~= base + strings_view(items@).take(j as int));
                }
            }
            proof {
                assert(strings_view(items@).take(items@.len() as int) =~= strings_view(items@));
            }
        },
        None => {
            proof {
                assert(base + Seq::<Seq<char>>::empty() =~= base);
            }
        },
    }
    let ghost exv = vviews(ex@);
    proof {
        assert(exv == excluded_dirs(opt_str_view(exclude_path), include_all));
    }
    // The parts of the search text.
    let mut parts: Vec<Vec<char>> = Vec::new();
    parts.push(chars_of(query));
    match nonempty_chars(path) {
        Some(p) => {
            let n = trim_end_char_exec(&p, '\\');
            if contains_char(&n, ' ') {
                let mut q: Vec<char> = Vec::new();
                q.push('"');
                append_chars(&mut q, &n);
                q.push('"');
                proof {
                    assert(q@ =~= seq!['"'] + n@ + seq!['"']);
                }
                parts.push(q);
            } else {
                parts.push(n);
            }
        },
        None => {},
    }
    let ghost head = vviews(parts@);
    let mut k: usize = 0;
    while k < ex.len()
        invariant
            k <= ex@.len(),
            exv == vviews(ex@),
            vviews(parts@) == head + excl_terms(exv.take(k as int)),
        decreases ex@.len() - k,
    {
        let mut t = chars_of("!<");
        append_chars(&mut t, ex[k].as_slice());
        let mut tail = chars_of("\\>");
        t.append(&mut tail);
        let ghost before = vviews(parts@);
        parts.push(t);
        k += 1;
        proof {
            assert(vviews(parts@) =~= before.push(t@));
            assert(excl_terms(exv.take(k as int)) =~= excl_terms(exv.take(k as int - 1)).push(
                excl_term(exv[k - 1]),
            ));
            assert(exv.take(k as int) =~= exv.take(k as int - 1).push(exv[k - 1]));
            assert(vviews(parts@) =~= head + excl_terms(exv.take(k as int)));
        }
    }
    proof {
        assert(exv.take(ex@.len() as int) =~= exv);
        let sq = spec_search_query(
            query@,
            opt_str_view(path),
            opt_str_view(exclude_path),
            include_all,
        );
        assert(head =~= seq![query@] + match nonempty_text(opt_str_view(path)) {
            Some(p) => seq![scope_term(p)],
            None => Seq::empty(),
        });
    }
    let space = chars_of(" ");
    let text = join_exec(&parts, &space);
    let note = if ex.len() == 0 {
        String::new()
    } else {
        let mut nv = chars_of("Excluded directories: ");
        let comma = chars_of(", ");
        let mut j = join_exec(&ex, &comma);
        nv.append(&mut j);
        string_from_chars(&nv)
    };
    (string_from_chars(&text), note)
}


// ---------------------------------------------------------------------------
// Sort and fields
// ---------------------------------------------------------------------------

/// Everything's result orders.
#[derive(Debug, Clone, Copy, PartialEq, Eq, Structural)]
pub enum EverythingSort {
    NameAscending,
    NameDescending,
    PathAscending,
    PathDescending,
    SizeAscending,
    SizeDescending,
    ExtensionAscending,
    ExtensionDescending,
    TypeNameAscending,
    TypeNameDescending,
    DateCreatedAscending,
    DateCreatedDescending,
    DateModifiedAscending,
    DateModifiedDescending,
    DateAccessedAscending,
    DateAccessedDescending,
    RunCountAscending,
    RunCountDescending,
    DateRecentlyChangedAscending,
    DateRecentlyChangedDescending,
    DateRunAscending,
    DateRunDescending,
}

/// The order a sort name selects.
pub open spec fn spec_parse_sort(s: Seq<char>) -> Option<EverythingSort> {
    if s == "name"@ {
        Some(EverythingSort::NameAscending)
    } else if s == "name_desc"@ {
        Some(EverythingSort::NameDescending)
    } else if s == "path"@ {
        Some(EverythingSort::PathAscending)
    } else if s == "path_desc"@ {
        Some(EverythingSort::PathDescending)
    } else if s == "size"@ {
        Some(EverythingSort::SizeDescending)
    } else if s == "size_asc"@ {
        Some(EverythingSort::SizeAscending)
    } else if s == "date_modified"@ {
        Some(EverythingSort::DateModifiedDescending)
    } else if s == "date_modified_asc"@ {
        Some(EverythingSort::DateModifiedAscending)
    } else if s == "date_created"@ {
        Some(EverythingSort::DateCreatedDescending)
    } else if s == "date_created_asc"@ {
        Some(EverythingSort::DateCreatedAscending)
    } else if s == "date_accessed"@ {
        Some(EverythingSort::DateAccessedDescending)
    } else if s == "date_accessed_asc"@ {
        Some(EverythingSort::DateAccessedAscending)
    } else if s == "extension"@ {
        Some(EverythingSort::ExtensionAscending)
    } else if s == "extension_desc"@ {
        Some(EverythingSort::ExtensionDescending)
    } else if s == "run_count"@ {
        Some(EverythingSort::RunCountDescending)
    } else if s == "run_count_asc"@ {
        Some(EverythingSort::RunCountAscending)
    } else if s == "date_run"@ {
        Some(EverythingSort::DateRunDescending)
    } else if s == "date_run_asc"@ {
        Some(EverythingSort::DateRunAscending)
    } else if s == "type_name"@ {
        Some(EverythingSort::TypeNameAscending)
    } else if s == "type_name_desc"@ {
        Some(EverythingSort::TypeNameDescending)
    } else if s == "date_recently_changed"@ {
        Some(EverythingSort::DateRecentlyChangedDescending)
    } else if s == "date_recently_changed_asc"@ {
        Some(EverythingSort::DateRecentlyChangedAscending)
    } else {
        None
    }
}

/// Map a sort name to Everything's order; `None` for an unknown name.
pub fn parse_sort(s: &str) -> (r: Option<EverythingSort>)
    ensures
        r == spec_parse_sort(s@),
{
    let v = chars_of(s);
    if eq_lit(&v, "name") {
        Some(EverythingSort::NameAscending)
    } else if eq_lit(&v, "name_desc") {
        Some(EverythingSort::NameDescending)
    } else if eq_lit(&v, "path") {
        Some(EverythingSort::PathAscending)
    } else if eq_lit(&v, "path_desc") {
        Some(EverythingSort::PathDescending)
    } else if eq_lit(&v, "size") {
        Some(EverythingSort::SizeDescending)
    } else if eq_lit(&v, "size_asc") {
        Some(EverythingSort::SizeAscending)
    } else if eq_lit(&v, "date_modified") {
        Some(EverythingSort::DateModifiedDescending)
    } else if eq_lit(&v, "date_modified_asc") {
        Some(EverythingSort::DateModifiedAscending)
    } else if eq_lit(&v, "date_created") {
        Some(EverythingSort::DateCreatedDescending)
    } else if eq_lit(&v, "date_created_asc") {
        Some(EverythingSort::DateCreatedAscending)
    } else if eq_lit(&v, "date_accessed") {
        Some(EverythingSort::DateAccessedDescending)
    } else if eq_lit(&v, "date_accessed_asc") {
        Some(EverythingSort::DateAccessedAscending)
    } else if eq_lit(&v, "extension") {
        Some(EverythingSort::ExtensionAscending)
    } else if eq_lit(&v, "extension_desc") {
        Some(EverythingSort::ExtensionDescending)
    } else if eq_lit(&v, "run_count") {
        Some(EverythingSort::RunCountDescending)
    } else if eq_lit(&v, "run_count_asc") {
        Some(EverythingSort::RunCountAscending)
    } else if eq_lit(&v, "date_run") {
        Some(EverythingSort::DateRunDescending)
    } else if eq_lit(&v, "date_run_asc") {
        Some(EverythingSort::DateRunAscending)
    } else if eq_lit(&v, "type_name") {
        Some(EverythingSort::TypeNameAscending)
    } else if eq_lit(&v, "type_name_desc") {
        Some(EverythingSort::TypeNameDescending)
    } else if eq_lit(&v, "date_recently_changed") {
        Some(EverythingSort::DateRecentlyChangedDescending)
    } else if eq_lit(&v, "date_recently_changed_asc") {
        Some(EverythingSort::DateRecentlyChangedAscending)
    } else {
        None
    }
}

/// Request bit of the file name.
pub const FIELD_FILE_NAME: u32 = 0x1;
/// Request bit of the path.
pub const FIELD_PATH: u32 = 0x2;
/// Request bit of the extension.
pub const FIELD_EXTENSION: u32 = 0x8;
/// Request bit of the size.
pub const FIELD_SIZE: u32 = 0x10;
/// Request bit of the creation date.
pub const FIELD_DATE_CREATED: u32 = 0x20;
/// Request bit of the modification date.
pub const FIELD_DATE_MODIFIED: u32 = 0x40;
/// Request bit of the access date.
pub const FIELD_DATE_ACCESSED: u32 = 0x80;
/// Request bit of the attributes.
pub const FIELD_ATTRIBUTES: u32 = 0x100;
/// Request bit of the file-list file name.
pub const FIELD_FILE_LIST_FILE_NAME: u32 = 0x200;
/// Request bit of the run count.
pub const FIELD_RUN_COUNT: u32 = 0x400;
/// Request bit of the last run date.
pub const FIELD_DATE_RUN: u32 = 0x800;
/// Request bit of the recently-changed date.
pub const FIELD_DATE_RECENTLY_CHANGED: u32 = 0x1000;

/// The fields requested of Everything, as a set of request bits.
#[derive(Debug, Clone, Copy, PartialEq, Eq, Structural)]
pub struct RequestFlags {
    pub bits: u32,
}

impl RequestFlags {
    /// Whether every bit of `f` is requested.
    pub fn contains(&self, f: u32) -> (r: bool)
        ensures
            r == (self.bits & f == f),
    {
        self.bits & f == f
    }
}

/// The fields requested when none are named.
pub open spec fn all_fields() -> u32 {
    0x1FB
}

/// The request bit a field name selects (0 for an unknown name).
pub open spec fn field_bit(s: Seq<char>) -> u32 {
    if s == "filename"@ {
        0x1
    } else if s == "path"@ {
        0x2
    } else if s == "size"@ {
        0x10
    } else if s == "date_modified"@ {
        0x40
    } else if s == "date_created"@ {
        0x20
    } else if s == "date_accessed"@ {
        0x80
    } else if s == "attributes"@ {
        0x100
    } else if s == "extension"@ {
        0x8
    } else if s == "run_count"@ {
        0x400
    } else if s == "date_run"@ {
        0x800
    } else if s == "date_recently_changed"@ {
        0x1000
    } else if s == "file_list_filename"@ {
        0x200
    } else {
        0
    }
}

/// The union of the bits of the trimmed names.
pub open spec fn fields_union(parts: Seq<Seq<char>>) -> u32
    decreases parts.len(),
{
    if parts.len() == 0 {
        0
    } else {
        fields_union(parts.drop_last()) | field_bit(trim(parts.last()))
    }
}

/// The fields a comma-separated list selects: all common fields for none,
/// and the file name alone when no name is known.
pub open spec fn spec_parse_fields(fields: Option<Seq<char>>) -> u32 {
    match fields {
        None => all_fields(),
        Some(s) => {
            let u = fields_union(crate::tokenize::split_char(s, ','));
            if u == 0 {
                0x1
            } else {
                u
            }
        },
    }
}

fn field_bit_exec(s: &[char]) -> (r: u32)
    ensures
        r == field_bit(s@),
{
    if eq_lit(s, "filename") {
        FIELD_FILE_NAME
    } else if eq_lit(s, "path") {
        FIELD_PATH
    } else if eq_lit(s, "size") {
        FIELD_SIZE
    } else if eq_lit(s, "date_modified") {
        FIELD_DATE_MODIFIED
    } else if eq_lit(s, "date_created") {
        FIELD_DATE_CREATED
    } else if eq_lit(s, "date_accessed") {
        FIELD_DATE_ACCESSED
    } else if eq_lit(s, "attributes") {
        FIELD_ATTRIBUTES
    } else if eq_lit(s, "extension") {
        FIELD_EXTENSION
    } else if eq_lit(s, "run_count") {
        FIELD_RUN_COUNT
    } else if eq_lit(s, "date_run") {
        FIELD_DATE_RUN
    } else if eq_lit(s, "date_recently_changed") {
        FIELD_DATE_RECENTLY_CHANGED
    } else if eq_lit(s, "file_list_filename") {
        FIELD_FILE_LIST_FILE_NAME
    } else {
        0
    }
}

/// Parse a comma-separated field list into request bits; all common fields
/// when there is no list, the file name when the list names nothing known.
pub fn parse_fields(fields: Option<&str>) -> (r: RequestFlags)
    ensures
        r.bits == spec_parse_fields(opt_str_view(fields)),
{
    let s = match fields {
        Some(s) => s,
        None => {
            let bits = FIELD_FILE_NAME | FIELD_PATH | FIELD_SIZE | FIELD_DATE_MODIFIED
                | FIELD_DATE_CREATED | FIELD_DATE_ACCESSED | FIELD_ATTRIBUTES | FIELD_EXTENSION;
            assert(0x1u32 | 0x2u32 | 0x10u32 | 0x40u32 | 0x20u32 | 0x80u32 | 0x100u32 | 0x8u32
                == 0x1FBu32) by (bit_vector);
            return RequestFlags { bits };
        },
    };
    let v = chars_of(s);
    let mut bits: u32 = 0;
    let mut cur: Vec<char> = Vec::new();
    let ghost mut done: Seq<Seq<char>> = Seq::empty();
    let mut i: usize = 0;
    proof {
        assert(v@.take(0) =~= Seq::<char>::empty());
    }
    while i < v.len()
        invariant
            i <= v@.len(),
            v@ == s@,
            crate::tokenize::split_char(v@.take(i as int), ',') == done.push(cur@),
            bits == fields_union(done),
        decreases v@.len() - i,
    {
        proof {
            assert(v@.take(i as int + 1).drop_last() =~= v@.take(i as int));
        }
        if v[i] == ',' {
            let t = crate::text::trim_vec(&cur);
            bits = bits | field_bit_exec(&t);
            proof {
                assert(done.push(cur@).drop_last() =~= done);
                done = done.push(cur@);
            }
            cur = Vec::new();
            proof {
                assert(crate::tokenize::split_char(v@.take(i as int + 1), ',') =~= done.push(cur@));
            }
        } else {
            let ghost old_cur = cur@;
            cur.push(v[i]);
            proof {
                assert(done.push(old_cur).update(done.len() as int, old_cur.push(v@[i as int]))
                    =~= done.push(cur@));
            }
        }
        i += 1;
    }
    proof {
        assert(v@.take(v@.len() as int) =~= v@);
        assert(done.push(cur@).drop_last() =~= done);
    }
    let t = crate::text::trim_vec(&cur);
    bits = bits | field_bit_exec(&t);
    if bits == 0 {
        bits = FIELD_FILE_NAME;
    }
    RequestFlags { bits }
}

// ---------------------------------------------------------------------------
// Result items
// ---------------------------------------------------------------------------

/// Letters of the set attribute flags in the order A R H S D C, or `-` when
/// none is set.
pub open spec fn attr_letters(a: u32) -> Seq<char> {
    let s = crate::results::flag(a, 0x20, 'A') + crate::results::flag(a, 0x1, 'R')
        + crate::results::flag(a, 0x2, 'H') + crate::results::flag(a, 0x4, 'S')
        + crate::results::flag(a, 0x10, 'D') + crate::results::flag(a, 0x800, 'C');
    if s.len() == 0 {
        seq!['-']
    } else {
        s
    }
}

fn push_flag(out: &mut Vec<char>, a: u32, m: u32, c: char)
    requires
        m > 0,
    ensures
        final(out)@ == old(out)@ + crate::results::flag(a, m, c),
{
    if (a / m) % 2 == 1 {
        out.push(c);
    }
    proof {
        assert(out@ =~= old(out)@ + crate::results::flag(a, m, c));
    }
}

/// Format file attributes as letters (e.g. `"AR"`), `"-"` for none.
pub fn format_attributes(attrs: u32) -> (r: String)
    ensures
        r@ == attr_letters(attrs),
{
    let mut s: Vec<char> = Vec::new();
    push_flag(&mut s, attrs, 0x20, 'A');
    push_flag(&mut s, attrs, 0x1, 'R');
    push_flag(&mut s, attrs, 0x2, 'H');
    push_flag(&mut s, attrs, 0x4, 'S');
    push_flag(&mut s, attrs, 0x10, 'D');
    push_flag(&mut s, attrs, 0x800, 'C');
    if s.len() == 0 {
        s.push('-');
    }
    proof {
        assert(s@ =~= attr_letters(attrs));
    }
    string_from_chars(&s)
}

/// A FILETIME's 64-bit count from its two halves.
pub fn filetime(high: u32, low: u32) -> (r: u64)
    ensures
        r == high as int * 0x1_0000_0000 + low as int,
{
    (high as u64) * 0x1_0000_0000 + (low as u64)
}

pub open spec fn iso_of(t: Option<u64>) -> Option<Seq<char>> {
    match t {
        Some(ns) => if ns != 0 && ns >= FILETIME_EPOCH {
            Some(rfc3339(((ns - FILETIME_EPOCH) / 10_000_000) as nat))
        } else {
            None
        },
        None => None,
    }
}

fn iso_exec(t: Option<u64>) -> (r: Option<String>)
    ensures
        crate::types::opt_view(r) == iso_of(t),
{
    match t {
        Some(ns) => ns100_to_iso_string(ns),
        None => None,
    }
}

/// The result record for one Everything item, given the fields it returned
/// (times as FILETIME counts): the file name defaults to empty, a size of
/// `u64::MAX` means unknown, times become RFC 3339 strings, attributes
/// become letters.
pub fn result_item(
    filename: Option<String>,
    path: Option<String>,
    size: Option<u64>,
    modified: Option<u64>,
    created: Option<u64>,
    accessed: Option<u64>,
    attributes: Option<u32>,
    extension: Option<String>,
    run_count: Option<u32>,
    date_run: Option<u64>,
) -> (r: SearchResult)
    ensures
        r.filename@ == (match filename {
            Some(f) => f@,
            None => Seq::<char>::empty(),
        }),
        r.path == path,
        r.size == (match size {
            Some(v) => if v != u64::MAX {
                Some(v)
            } else {
                None
            },
            None => None,
        }),
        crate::types::opt_view(r.date_modified) == iso_of(modified),
        crate::types::opt_view(r.date_created) == iso_of(created),
        crate::types::opt_view(r.date_accessed) == iso_of(accessed),
        crate::types::opt_view(r.attributes) == (match attributes {
            Some(a) => Some(attr_letters(a)),
            None => None,
        }),
        r.extension == extension,
        r.run_count == run_count,
        crate::types::opt_view(r.date_run) == iso_of(date_run),
{
    let filename = match filename {
        Some(f) => f,
        None => String::new(),
    };
    let size = match size {
        Some(v) => if v != u64::MAX {
            Some(v)
        } else {
            None
        },
        None => None,
    };
    let attributes = match attributes {
        Some(a) => Some(format_attributes(a)),
        None => None,
    };
    SearchResult {
        filename,
        path,
        size,
        date_modified: iso_exec(modified),
        date_created: iso_exec(created),
        date_accessed: iso_exec(accessed),
        attributes,
        extension,
        run_count,
        date_run: iso_exec(date_run),
    }
}

} // verus!
