//! The in-memory file index: every known entry by path, the file-reference
//! map used to resolve parents, and a bounded log of recent changes.
//!
//! Directory entries hold their recursive (tree-summed) size; every change
//! of a file's size is propagated to all of its ancestor directories.

use std::collections::VecDeque;

use vstd::hash_map::{HashMapWithView, StringHashMap};
use vstd::prelude::*;

use crate::aggregate::{agg_query_opts, aggregate_ok};
use crate::dates::sane_time;
use crate::filter::matched_indices;
use crate::query::{AggregateOptions, AggregateResult, QueryOptions, QueryResult};
use crate::search::search_result_ok;
use crate::filter::{opt_chars, opt_text};
use crate::query::strings_view;
use crate::seqs::eq_lit;
use crate::text::{chars_eq, chars_of, lower_seq, lower_vec, slice_chars, string_from_chars};
use crate::tokenize::{clean_list, spec_clean_list, ListKind};
use crate::types::IndexedFile;

verus! {

broadcast use vstd::seq_lib::group_seq_properties, vstd::std_specs::hash::group_hash_axioms;

/// Number of change events the log keeps (the oldest are dropped first).
pub const MAX_CHANGES: usize = 100_000;

/// One recorded change event.
#[derive(Debug, Clone)]
pub struct ChangeEvent {
    /// FILETIME (100 ns since 1601) of the change.
    pub timestamp: i64,
    /// Reason, such as `CREATE`, `DELETE`, `RENAME`, `CLOSE`.
    pub reason: String,
    /// Full path affected.
    pub path: String,
    /// Whether the affected entry is a directory.
    pub is_dir: bool,
}

impl ChangeEvent {
    /// A field-by-field copy.
    pub fn duplicate(&self) -> (r: Self)
        ensures
            r == *self,
    {
        ChangeEvent {
            timestamp: self.timestamp,
            reason: self.reason.clone(),
            path: self.path.clone(),
            is_dir: self.is_dir,
        }
    }
}

// ---------------------------------------------------------------------------
// Model
// ---------------------------------------------------------------------------

/// No two entries share a path.
pub open spec fn distinct_paths(s: Seq<IndexedFile>) -> bool {
    forall|i: int, j: int| 0 <= i < j < s.len() ==> (#[trigger] s[i]).path@ != (#[trigger] s[j]).path@
}

/// Position of the entry with path `p`.
pub open spec fn path_pos(s: Seq<IndexedFile>, p: Seq<char>) -> Option<int> {
    if exists|i: int| 0 <= i < s.len() && (#[trigger] s[i]).path@ == p {
        Some(choose|i: int| 0 <= i < s.len() && (#[trigger] s[i]).path@ == p)
    } else {
        None
    }
}

/// The entry with path `p`.
pub open spec fn entry_of(s: Seq<IndexedFile>, p: Seq<char>) -> Option<IndexedFile> {
    match path_pos(s, p) {
        Some(i) => Some(s[i]),
        None => None,
    }
}

/// Insert `e`, replacing the entry with the same path in place.
pub open spec fn put(s: Seq<IndexedFile>, e: IndexedFile) -> Seq<IndexedFile> {
    match path_pos(s, e.path@) {
        Some(i) => s.update(i, e),
        None => s.push(e),
    }
}

/// `put` of every entry of `list`, in order.
pub open spec fn put_all(s: Seq<IndexedFile>, list: Seq<IndexedFile>) -> Seq<IndexedFile>
    decreases list.len(),
{
    if list.len() == 0 {
        s
    } else {
        put(put_all(s, list.drop_last()), list.last())
    }
}

/// The reference map after recording every entry of `list`, in order.
pub open spec fn refs_put_all(m: Map<u64, String>, list: Seq<IndexedFile>) -> Map<u64, String>
    decreases list.len(),
{
    if list.len() == 0 {
        m
    } else {
        refs_put_all(m, list.drop_last()).insert(list.last().file_ref, list.last().path)
    }
}

/// The entry at `i` removed, the last entry moved into its place.
pub open spec fn take_out(s: Seq<IndexedFile>, i: int) -> Seq<IndexedFile> {
    s.update(i, s.last()).drop_last()
}

pub open spec fn with_size(e: IndexedFile, size: u64) -> IndexedFile {
    IndexedFile {
        path: e.path,
        size,
        created: e.created,
        modified: e.modified,
        accessed: e.accessed,
        is_dir: e.is_dir,
        attributes: e.attributes,
        file_ref: e.file_ref,
        parent_ref: e.parent_ref,
        own_name: e.own_name,
        name: e.name,
        lower_name: e.lower_name,
        lower_path: e.lower_path,
        extension: e.extension,
        excluded: e.excluded,
    }
}

/// `k` is a proper ancestor of `path`: `path` continues after `k` with `\`.
pub open spec fn is_ancestor(k: Seq<char>, path: Seq<char>) -> bool {
    k.len() < path.len() && path[k.len() as int] == '\\' && path.take(k.len() as int) == k
}

/// `size + delta`, clamped to the `u64` range.
pub open spec fn clamp_size(size: u64, delta: int) -> u64 {
    if size + delta < 0 {
        0
    } else if size + delta > u64::MAX {
        u64::MAX
    } else {
        (size + delta) as u64
    }
}

/// Every ancestor directory of `path` in the index changes its size by
/// `delta`.
pub open spec fn adjust(s: Seq<IndexedFile>, path: Seq<char>, delta: int) -> Seq<IndexedFile> {
    Seq::new(
        s.len(),
        |j: int|
            if is_ancestor(s[j].path@, path) {
                with_size(s[j], clamp_size(s[j].size, delta))
            } else {
                s[j]
            },
    )
}

/// `k` is a direct child of directory `dir`.
pub open spec fn is_child(k: Seq<char>, dir: Seq<char>) -> bool {
    &&& k.len() > dir.len()
    &&& k.take(dir.len() as int) == dir
    &&& k[dir.len() as int] == '\\'
    &&& forall|j: int| dir.len() < j < k.len() ==> #[trigger] k[j] != '\\'
}

/// Sum of the stored sizes of the direct children of `dir`.
pub open spec fn children_total(s: Seq<IndexedFile>, dir: Seq<char>) -> int
    decreases s.len(),
{
    if s.len() == 0 {
        0
    } else {
        children_total(s.drop_last(), dir) + if is_child(s.last().path@, dir) {
            s.last().size as int
        } else {
            0int
        }
    }
}

/// The change log after recording `ev`: the oldest event goes once the log
/// is full.
pub open spec fn log_push(c: Seq<ChangeEvent>, ev: ChangeEvent) -> Seq<ChangeEvent> {
    if c.len() >= MAX_CHANGES {
        c.push(ev).skip(c.len() + 1 - MAX_CHANGES)
    } else {
        c.push(ev)
    }
}

pub open spec fn event_is(
    ev: ChangeEvent,
    timestamp: i64,
    reason: Seq<char>,
    path: Seq<char>,
    is_dir: bool,
) -> bool {
    ev.timestamp == timestamp && ev.reason@ == reason && ev.path@ == path && ev.is_dir == is_dir
}

/// Events strictly newer than `since`, oldest first.
pub open spec fn newer_than(c: Seq<ChangeEvent>, since: i64) -> Seq<ChangeEvent>
    decreases c.len(),
{
    if c.len() == 0 {
        Seq::empty()
    } else {
        let r = newer_than(c.drop_last(), since);
        if c.last().timestamp > since {
            r.push(c.last())
        } else {
            r
        }
    }
}

/// At most `limit` items (0: all).
pub open spec fn cap(s: Seq<ChangeEvent>, limit: usize) -> Seq<ChangeEvent> {
    if limit == 0 || limit >= s.len() {
        s
    } else {
        s.take(limit as int)
    }
}

/// The kind of change a recorded reason stands for, in the words of the
/// `reasons` filter: `CREATE` is `created`, `WRITE` is `modified`, `DELETE`
/// is `deleted`, `RENAME` and `RENAME_NEW` are `renamed`; any other reason
/// stands for itself, lowercased.
pub open spec fn reason_word(reason: Seq<char>) -> Seq<char> {
    if reason == "CREATE"@ {
        "created"@
    } else if reason == "WRITE"@ {
        "modified"@
    } else if reason == "DELETE"@ {
        "deleted"@
    } else if reason == "RENAME"@ || reason == "RENAME_NEW"@ {
        "renamed"@
    } else {
        lower_seq(reason)
    }
}

/// The events of `c` whose reason is one of `words`, in order.
pub open spec fn with_reasons(c: Seq<ChangeEvent>, words: Seq<Seq<char>>) -> Seq<ChangeEvent>
    decreases c.len(),
{
    if c.len() == 0 {
        Seq::empty()
    } else {
        let r = with_reasons(c.drop_last(), words);
        if words.contains(reason_word(c.last().reason@)) {
            r.push(c.last())
        } else {
            r
        }
    }
}

/// The words of a `reasons` filter: comma separated, trimmed, lowercased,
/// empty ones dropped.
pub open spec fn reason_words(reasons: Seq<char>) -> Seq<Seq<char>> {
    spec_clean_list(reasons, ',', ListKind::Words)
}

/// `c` under the `reasons` filter `reasons`; a filter without words keeps
/// every event.
pub open spec fn by_reasons(c: Seq<ChangeEvent>, reasons: Seq<char>) -> Seq<ChangeEvent> {
    if reason_words(reasons).len() == 0 {
        c
    } else {
        with_reasons(c, reason_words(reasons))
    }
}

/// The entry `upsert` stores for `e`: a directory keeps the recursive size
/// of an existing directory entry, a new directory starts from the sizes of
/// the children already indexed; a file keeps its own size.
pub open spec fn upserted(s: Seq<IndexedFile>, e: IndexedFile) -> IndexedFile {
    if e.is_dir {
        match entry_of(s, e.path@) {
            Some(o) => if o.is_dir {
                with_size(e, o.size)
            } else {
                with_size(e, children_total(s, e.path@) as u64)
            },
            None => with_size(e, children_total(s, e.path@) as u64),
        }
    } else {
        e
    }
}

/// The size change `upsert` propagates to the ancestors of `e`.
pub open spec fn upsert_delta(s: Seq<IndexedFile>, e: IndexedFile) -> int {
    let old_size: int = match entry_of(s, e.path@) {
        Some(o) => o.size as int,
        None => 0,
    };
    let old_is_dir = match entry_of(s, e.path@) {
        Some(o) => o.is_dir,
        None => false,
    };
    if e.is_dir {
        if old_is_dir {
            0
        } else {
            -old_size
        }
    } else {
        e.size - old_size
    }
}

/// The reference map after `upsert` of `e`.
pub open spec fn upsert_refs(r: Map<u64, String>, s: Seq<IndexedFile>, e: IndexedFile) -> Map<
    u64,
    String,
> {
    let r1 = match entry_of(s, e.path@) {
        Some(o) => r.remove(o.file_ref),
        None => r,
    };
    r1.insert(e.file_ref, e.path)
}

/// A new directory's children total fits its size field.
pub open spec fn upsert_fits(s: Seq<IndexedFile>, e: IndexedFile) -> bool {
    (e.is_dir && !(entry_of(s, e.path@) matches Some(o) && o.is_dir)) ==> children_total(s, e.path@)
        <= u64::MAX
}

/// Ancestors at least `lo` characters long already adjusted.
pub open spec fn adjust_from(s: Seq<IndexedFile>, path: Seq<char>, delta: int, lo: int) -> Seq<
    IndexedFile,
> {
    Seq::new(
        s.len(),
        |j: int|
            if is_ancestor(s[j].path@, path) && s[j].path@.len() >= lo {
                with_size(s[j], clamp_size(s[j].size, delta))
            } else {
                s[j]
            },
    )
}

/// `p` is `prefix` or lies below it.
pub open spec fn under(p: Seq<char>, prefix: Seq<char>) -> bool {
    p == prefix || (p.len() > prefix.len() && p.take(prefix.len() as int) == prefix
        && p[prefix.len() as int] == '\\')
}

/// The entries `keep` admits, in order.
pub open spec fn retain(s: Seq<IndexedFile>, keep: spec_fn(IndexedFile) -> bool) -> Seq<
    IndexedFile,
>
    decreases s.len(),
{
    if s.len() == 0 {
        Seq::empty()
    } else {
        let r = retain(s.drop_last(), keep);
        if keep(s.last()) {
            r.push(s.last())
        } else {
            r
        }
    }
}

/// Entries not under `prefix`.
pub open spec fn outside(prefix: Seq<char>) -> spec_fn(IndexedFile) -> bool {
    |e: IndexedFile| !under(e.path@, prefix)
}

/// Entries under `prefix`.
pub open spec fn inside(prefix: Seq<char>) -> spec_fn(IndexedFile) -> bool {
    |e: IndexedFile| under(e.path@, prefix)
}

/// Entries whose path does not start with `prefix`.
pub open spec fn not_prefixed(prefix: Seq<char>) -> spec_fn(IndexedFile) -> bool {
    |e: IndexedFile| !(e.path@.len() >= prefix.len() && e.path@.take(prefix.len() as int) == prefix)
}

/// The reference map without the references of `gone`, in order.
pub open spec fn refs_drop(r: Map<u64, String>, gone: Seq<IndexedFile>) -> Map<u64, String>
    decreases gone.len(),
{
    if gone.len() == 0 {
        r
    } else {
        refs_drop(r, gone.drop_last()).remove(gone.last().file_ref)
    }
}

/// The recursive size of the entry at `p`, 0 when absent.
pub open spec fn size_at(s: Seq<IndexedFile>, p: Seq<char>) -> int {
    match entry_of(s, p) {
        Some(e) => e.size as int,
        None => 0,
    }
}

/// Where a path under `old` goes when `old` is renamed to `new`.
pub open spec fn rename_target(p: Seq<char>, old: Seq<char>, new: Seq<char>) -> Seq<char> {
    new + p.skip(old.len() as int)
}

/// `m` is `d` moved from under `old` to under `new`: new path and the
/// fields derived from it, everything else unchanged.
pub open spec fn is_renamed(m: IndexedFile, d: IndexedFile, old: Seq<char>, new: Seq<char>) -> bool {
    &&& m.path@ == rename_target(d.path@, old, new)
    &&& m.derived_ok()
    &&& m.size == d.size
    &&& m.created == d.created
    &&& m.modified == d.modified
    &&& m.accessed == d.accessed
    &&& m.is_dir == d.is_dir
    &&& m.attributes == d.attributes
    &&& m.file_ref == d.file_ref
    &&& m.parent_ref == d.parent_ref
    &&& m.own_name == d.own_name
}

pub open spec fn all_renamed(
    moved: Seq<IndexedFile>,
    doomed: Seq<IndexedFile>,
    old: Seq<char>,
    new: Seq<char>,
) -> bool {
    moved.len() == doomed.len() && forall|k: int|
        0 <= k < moved.len() ==> is_renamed(#[trigger] moved[k], doomed[k], old, new)
}

/// Thread-compatible index of every known file. Callers that share it
/// between threads wrap it in a lock.
pub struct FileIndex {
    entries: Vec<IndexedFile>,
    positions: StringHashMap<usize>,
    refs: HashMapWithView<u64, String>,
    changes: VecDeque<ChangeEvent>,
    /// Seconds east of UTC of the local time zone, in which dates are read.
    utc_offset: i64,
}

impl FileIndex {
    /// The entries, in storage order.
    pub closed spec fn entries_view(&self) -> Seq<IndexedFile> {
        self.entries@
    }

    /// File reference -> path.
    pub closed spec fn refs_view(&self) -> Map<u64, String> {
        self.refs@
    }

    /// The change log, oldest first.
    pub closed spec fn changes_view(&self) -> Seq<ChangeEvent> {
        self.changes@
    }

    /// The time zone dates are read in, as seconds east of UTC.
    pub closed spec fn offset_view(&self) -> i64 {
        self.utc_offset
    }

    /// The internal invariant: paths are unique, the path lookup table
    /// agrees with the entries, the log is bounded.
    pub closed spec fn wf(&self) -> bool {
        &&& distinct_paths(self.entries@)
        &&& forall|i: int|
            0 <= i < self.entries@.len() ==> #[trigger] self.positions@.contains_key(
                self.entries@[i].path@,
            ) && self.positions@[self.entries@[i].path@] == i
        &&& forall|p: Seq<char>|
            #[trigger] self.positions@.contains_key(p) ==> self.positions@[p] < self.entries@.len()
                && self.entries@[self.positions@[p] as int].path@ == p
        &&& self.changes@.len() <= MAX_CHANGES
        &&& sane_time(self.utc_offset as int)
    }

    /// A well-formed index holds each path at most once.
    pub proof fn lemma_wf_paths_distinct(&self)
        requires
            self.wf(),
        ensures
            distinct_paths(self.entries_view()),
    {
    }

    pub fn new() -> (r: Self)
        ensures
            r.wf(),
            r.entries_view() == Seq::<IndexedFile>::empty(),
            r.refs_view() == Map::<u64, String>::empty(),
            r.changes_view() == Seq::<ChangeEvent>::empty(),
            r.offset_view() == 0,
    {
        FileIndex {
            entries: Vec::new(),
            positions: StringHashMap::new(),
            refs: HashMapWithView::new(),
            changes: VecDeque::new(),
            utc_offset: 0,
        }
    }

    /// Read dates in the time zone `secs` seconds east of UTC.
    pub fn set_utc_offset(&mut self, secs: i64)
        requires
            old(self).wf(),
            sane_time(secs as int),
        ensures
            final(self).wf(),
            final(self).offset_view() == secs,
            final(self).entries_view() == old(self).entries_view(),
            final(self).refs_view() == old(self).refs_view(),
            final(self).changes_view() == old(self).changes_view(),
    {
        self.utc_offset = secs;
    }

    /// The time zone dates are read in, as seconds east of UTC.
    pub fn utc_offset(&self) -> (r: i64)
        ensures
            r == self.offset_view(),
    {
        self.utc_offset
    }

    /// Position of the entry with path `p`, through the lookup table.
    fn find(&self, p: &str) -> (r: Option<usize>)
        requires
            self.wf(),
        ensures
            r matches Some(i) ==> path_pos(self.entries@, p@) == Some(i as int) && i
                < self.entries@.len(),
            r is None ==> path_pos(self.entries@, p@) is None,
    {
        match self.positions.get(p) {
            Some(i) => {
                let i = *i;
                proof {
                    lemma_path_pos(self.entries@, i as int);
                }
                Some(i)
            },
            None => {
                proof {
                    if exists|i: int|
                        0 <= i < self.entries@.len() && (#[trigger] self.entries@[i]).path@ == p@ {
                        let i = choose|i: int|
                            0 <= i < self.entries@.len() && (#[trigger] self.entries@[i]).path@ == p@;
                        assert(self.positions@.contains_key(self.entries@[i].path@));
                    }
                }
                None
            },
        }
    }

    /// Insert `e`, replacing the entry with the same path in place.
    fn put_entry(&mut self, e: IndexedFile)
        requires
            old(self).wf(),
        ensures
            final(self).wf(),
            final(self).entries@ == put(old(self).entries@, e),
            final(self).refs@ == old(self).refs@,
            final(self).changes@ == old(self).changes@,
    {
        match self.find(e.path.as_str()) {
            Some(i) => {
                let ghost before = self.entries@;
                self.entries.set(i, e);
                proof {
                    assert forall|a: int, b: int| 0 <= a < b < self.entries@.len() implies (
                    #[trigger] self.entries@[a]).path@ != (#[trigger] self.entries@[b]).path@ by {
                        assert(before[a].path@ != before[b].path@);
                    }
                }
            },
            None => {
                let n = self.entries.len();
                let key = e.path.clone();
                let ghost before = self.entries@;
                self.entries.push(e);
                self.positions.insert(key, n);
                proof {
                    assert forall|a: int, b: int| 0 <= a < b < self.entries@.len() implies (
                    #[trigger] self.entries@[a]).path@ != (#[trigger] self.entries@[b]).path@ by {
                        if b == n {
                            assert(before[a].path@ != e.path@);
                        } else {
                            assert(before[a].path@ != before[b].path@);
                        }
                    }
                    assert forall|i: int| 0 <= i < self.entries@.len() implies #[trigger] self.positions@.contains_key(
                        self.entries@[i].path@,
                    ) && self.positions@[self.entries@[i].path@] == i by {
                        if i < n {
                            assert(before[i].path@ != e.path@);
                        }
                    }
                }
            },
        }
    }

    /// The number of entries.
    pub fn len(&self) -> (r: usize)
        requires
            self.wf(),
        ensures
            r == self.entries_view().len(),
    {
        self.entries.len()
    }

    pub fn is_empty(&self) -> (r: bool)
        requires
            self.wf(),
        ensures
            r == (self.entries_view().len() == 0),
    {
        self.entries.len() == 0
    }

    /// The entry with path `path`.
    pub fn get(&self, path: &str) -> (r: Option<&IndexedFile>)
        requires
            self.wf(),
        ensures
            match r {
                Some(e) => entry_of(self.entries_view(), path@) == Some(*e),
                None => entry_of(self.entries_view(), path@) is None,
            },
    {
        match self.find(path) {
            Some(i) => Some(&self.entries[i]),
            None => None,
        }
    }

    /// Whether an entry with path `path` exists.
    pub fn contains(&self, path: &str) -> (r: bool)
        requires
            self.wf(),
        ensures
            r == (path_pos(self.entries_view(), path@) is Some),
    {
        self.find(path).is_some()
    }

    /// Resolve a file reference to a full path.
    pub fn path_by_ref(&self, file_ref: u64) -> (r: Option<String>)
        requires
            self.wf(),
        ensures
            match r {
                Some(p) => self.refs_view().contains_key(file_ref) && p == self.refs_view()[file_ref],
                None => !self.refs_view().contains_key(file_ref),
            },
    {
        match self.refs.get(&file_ref) {
            Some(p) => Some(p.clone()),
            None => None,
        }
    }

    /// A copy of every entry, in storage order.
    pub fn snapshot_map(&self) -> (r: Vec<IndexedFile>)
        requires
            self.wf(),
        ensures
            r@ == self.entries_view(),
    {
        let mut out: Vec<IndexedFile> = Vec::new();
        let mut i: usize = 0;
        while i < self.entries.len()
            invariant
                i <= self.entries@.len(),
                out@ == self.entries@.take(i as int),
            decreases self.entries@.len() - i,
        {
            out.push(self.entries[i].duplicate());
            i += 1;
            proof {
                assert(out@ =~= self.entries@.take(i as int));
            }
        }
        proof {
            assert(self.entries@.take(self.entries@.len() as int) =~= self.entries@);
        }
        out
    }

    /// The entries, in storage order.
    pub fn entries(&self) -> (r: &[IndexedFile])
        ensures
            r@ == self.entries_view(),
    {
        self.entries.as_slice()
    }

    /// Replace the entire index (initial scan); later entries with an
    /// already seen path replace earlier ones. Returns the number of entries
    /// given.
    pub fn replace(&mut self, entries: Vec<IndexedFile>) -> (r: usize)
        requires
            old(self).wf(),
        ensures
            final(self).wf(),
            r == entries.len(),
            final(self).entries_view() == put_all(Seq::empty(), entries@),
            final(self).refs_view() == refs_put_all(Map::empty(), entries@),
            final(self).changes_view() == old(self).changes_view(),
    {
        let n = entries.len();
        self.entries = Vec::new();
        self.positions.clear();
        self.refs.clear();
        let mut i: usize = 0;
        proof {
            assert(entries@.take(0) =~= Seq::<IndexedFile>::empty());
        }
        while i < n
            invariant
                n == entries.len(),
                i <= n,
                self.wf(),
                self.entries@ == put_all(Seq::empty(), entries@.take(i as int)),
                self.refs@ == refs_put_all(Map::empty(), entries@.take(i as int)),
                self.changes@ == old(self).changes@,
            decreases n - i,
        {
            proof {
                assert(entries@.take(i as int + 1).drop_last() =~= entries@.take(i as int));
            }
            let e = entries[i].duplicate();
            let key = e.path.clone();
            self.refs.insert(e.file_ref, key);
            self.put_entry(e);
            i += 1;
        }
        proof {
            assert(entries@.take(n as int) =~= entries@);
        }
        n
    }

    /// Record a change event; the oldest event goes once the log holds
    /// `MAX_CHANGES` events.
    pub fn record_change(&mut self, timestamp: i64, reason: &str, path: &str, is_dir: bool)
        requires
            old(self).wf(),
        ensures
            final(self).wf(),
            final(self).changes_view() == log_push(
                old(self).changes_view(),
                final(self).changes_view().last(),
            ),
            event_is(final(self).changes_view().last(), timestamp, reason@, path@, is_dir),
            final(self).entries_view() == old(self).entries_view(),
            final(self).refs_view() == old(self).refs_view(),
    {
        let ev = ChangeEvent {
            timestamp,
            reason: reason.to_owned(),
            path: path.to_owned(),
            is_dir,
        };
        let ghost c0 = self.changes@;
        self.changes.push_back(ev);
        assert(self.changes@.len() == c0.len() + 1);
        if self.changes.len() > MAX_CHANGES {
            let first = self.changes.pop_front();
            proof {
                assert(first is Some);
                assert(self.changes@ =~= c0.push(ev).skip(c0.len() + 1 - MAX_CHANGES));
                assert(self.changes@.len() == MAX_CHANGES);
            }
        }
        assert(self.changes@.len() <= MAX_CHANGES);
    }

    /// Events strictly newer than `since`, oldest first; `limit` caps the
    /// number returned (0: no cap).
    pub fn recent_changes(&self, since: i64, limit: usize) -> (r: Vec<ChangeEvent>)
        requires
            self.wf(),
        ensures
            r@ == cap(newer_than(self.changes_view(), since), limit),
    {
        let mut all: Vec<ChangeEvent> = Vec::new();
        let mut i: usize = 0;
        proof {
            assert(self.changes@.take(0) =~= Seq::<ChangeEvent>::empty());
        }
        while i < self.changes.len()
            invariant
                i <= self.changes@.len(),
                all@ == newer_than(self.changes@.take(i as int), since),
            decreases self.changes@.len() - i,
        {
            proof {
                assert(self.changes@.take(i as int + 1).drop_last() =~= self.changes@.take(i as int));
            }
            let c = &self.changes[i];
            if c.timestamp > since {
                all.push(c.duplicate());
            }
            i += 1;
        }
        proof {
            assert(self.changes@.take(self.changes@.len() as int) =~= self.changes@);
        }
        if limit == 0 || limit >= all.len() {
            all
        } else {
            let mut out: Vec<ChangeEvent> = Vec::new();
            let mut k: usize = 0;
            while k < limit
                invariant
                    k <= limit < all.len(),
                    out@ == all@.take(k as int),
                decreases limit - k,
            {
                out.push(all[k].duplicate());
                k += 1;
                proof {
                    assert(out@ =~= all@.take(k as int));
                }
            }
            out
        }
    }

    /// Events strictly newer than `since` whose reason the comma-separated
    /// `reasons` names (all of them where it names none), oldest first;
    /// `limit` caps the number returned (0: no cap).
    pub fn recent_changes_filtered(&self, since: i64, limit: usize, reasons: &Option<String>) -> (r:
        Vec<ChangeEvent>)
        requires
            self.wf(),
        ensures
            r@ == cap(by_reasons(newer_than(self.changes_view(), since), opt_text(*reasons)), limit),
    {
        let words = clean_list(&opt_chars(reasons), ',', ListKind::Words);
        let ghost w = reason_words(opt_text(*reasons));
        let all_reasons = words.len() == 0;
        let mut all: Vec<ChangeEvent> = Vec::new();
        let mut i: usize = 0;
        proof {
            assert(self.changes@.take(0) =~= Seq::<ChangeEvent>::empty());
        }
        while i < self.changes.len()
            invariant
                i <= self.changes@.len(),
                w == reason_words(opt_text(*reasons)),
                strings_view(words@) == w,
                all_reasons == (w.len() == 0),
                all@ == by_reasons(newer_than(self.changes@.take(i as int), since), opt_text(*reasons)),
            decreases self.changes@.len() - i,
        {
            let ghost pre = newer_than(self.changes@.take(i as int), since);
            proof {
                assert(self.changes@.take(i as int + 1).drop_last() =~= self.changes@.take(i as int));
            }
            let c = &self.changes[i];
            proof {
                assert(self.changes@.take(i as int + 1).last() == *c);
            }
            if c.timestamp > since {
                let wanted = all_reasons || has_word(&words, &reason_word_exec(c.reason.as_str()));
                proof {
                    assert(newer_than(self.changes@.take(i as int + 1), since) == pre.push(*c));
                    assert(pre.push(*c).drop_last() =~= pre);
                    if !all_reasons {
                        assert(with_reasons(pre.push(*c), w) == if w.contains(reason_word(c.reason@)) {
                            with_reasons(pre, w).push(*c)
                        } else {
                            with_reasons(pre, w)
                        });
                    }
                }
                if wanted {
                    all.push(c.duplicate());
                }
            } else {
                proof {
                    assert(newer_than(self.changes@.take(i as int + 1), since) == pre);
                }
            }
            i += 1;
        }
        proof {
            assert(self.changes@.take(self.changes@.len() as int) =~= self.changes@);
        }
        cap_events(all, limit)
    }

    /// Change the size of every ancestor directory of `path` by `delta`
    /// (clamped to the `u64` range).
    fn adjust_ancestors(&mut self, path: &str, delta: i128)
        requires
            old(self).wf(),
            -(u64::MAX as int) <= delta <= u64::MAX,
        ensures
            final(self).wf(),
            final(self).entries@ == adjust(old(self).entries@, path@, delta as int),
            final(self).refs@ == old(self).refs@,
            final(self).changes@ == old(self).changes@,
    {
        let chars = chars_of(path);
        let mut idx = chars.len();
        proof {
            assert(adjust_from(self.entries@, path@, delta as int, chars.len() as int)
                =~= self.entries@);
        }
        while idx > 0
            invariant
                self.wf(),
                idx <= chars.len(),
                chars@ == path@,
                -(u64::MAX as int) <= delta <= u64::MAX,
                self.entries@ == adjust_from(old(self).entries@, path@, delta as int, idx as int),
                self.refs@ == old(self).refs@,
                self.changes@ == old(self).changes@,
            decreases idx,
        {
            idx -= 1;
            let ghost before = self.entries@;
            let ghost s0 = old(self).entries@;
            if chars[idx] == '\\' {
                let prefix = string_from_chars(&slice_chars(&chars, 0, idx));
                proof {
                    assert(prefix@ =~= path@.take(idx as int));
                }
                match self.find(prefix.as_str()) {
                    Some(pos) => {
                        let e = &self.entries[pos];
                        let v: i128 = e.size as i128 + delta;
                        let new_size: u64 = if v < 0 {
                            0
                        } else if v > u64::MAX as i128 {
                            u64::MAX
                        } else {
                            v as u64
                        };
                        let mut ne = e.duplicate();
                        ne.size = new_size;
                        self.entries.set(pos, ne);
                        proof {
                            assert forall|k: int| 0 <= k < before.len() implies (#[trigger] self.entries@[k]).path
                                == before[k].path by {}
                            assert forall|k: int| 0 <= k < before.len() implies #[trigger] self.positions@.contains_key(
                                self.entries@[k].path@,
                            ) && self.positions@[self.entries@[k].path@] == k by {
                                assert(self.entries@[k].path == before[k].path);
                            }
                            assert forall|p: Seq<char>| #[trigger] self.positions@.contains_key(p) implies self.positions@[p]
                                < self.entries@.len() && self.entries@[self.positions@[p] as int].path@ == p by {
                                assert(self.entries@[self.positions@[p] as int].path == before[self.positions@[p] as int].path);
                            }
                            assert(before[pos as int].path@ == path@.take(idx as int));
                            assert(s0[pos as int].path@ == before[pos as int].path@);
                            assert forall|a: int, b: int| 0 <= a < b < self.entries@.len() implies (
                            #[trigger] self.entries@[a]).path@ != (#[trigger] self.entries@[b]).path@ by {
                                assert(before[a].path@ != before[b].path@);
                            }
                            assert forall|j: int| 0 <= j < s0.len() implies #[trigger] self.entries@[j]
                                == (if is_ancestor(s0[j].path@, path@) && s0[j].path@.len() >= idx {
                                with_size(s0[j], clamp_size(s0[j].size, delta as int))
                            } else {
                                s0[j]
                            }) by {
                                if j != pos {
                                    assert(s0[j].path@ == before[j].path@);
                                    if s0[j].path@.len() == idx {
                                        if s0[j].path@ == path@.take(idx as int) {
                                            lemma_path_pos(before, j);
                                            lemma_path_pos(before, pos as int);
                                        }
                                    }
                                }
                            }
                            assert(self.entries@ =~= adjust_from(s0, path@, delta as int, idx as int));
                        }
                    },
                    None => {
                        proof {
                            assert forall|j: int| 0 <= j < s0.len() implies #[trigger] before[j]
                                == (if is_ancestor(s0[j].path@, path@) && s0[j].path@.len() >= idx {
                                with_size(s0[j], clamp_size(s0[j].size, delta as int))
                            } else {
                                s0[j]
                            }) by {
                                assert(s0[j].path@ == before[j].path@);
                                if s0[j].path@.len() == idx && is_ancestor(s0[j].path@, path@) {
                                    lemma_path_pos(before, j);
                                }
                            }
                            assert(before =~= adjust_from(s0, path@, delta as int, idx as int));
                        }
                    },
                }
            } else {
                proof {
                    assert forall|j: int| 0 <= j < s0.len() implies #[trigger] before[j] == (if is_ancestor(
                        s0[j].path@,
                        path@,
                    ) && s0[j].path@.len() >= idx {
                        with_size(s0[j], clamp_size(s0[j].size, delta as int))
                    } else {
                        s0[j]
                    }) by {
                        assert(s0[j].path@ == before[j].path@);
                    }
                    assert(before =~= adjust_from(s0, path@, delta as int, idx as int));
                }
            }
        }
        proof {
            assert(self.entries@ =~= adjust(old(self).entries@, path@, delta as int));
        }
    }

    /// Sum of the stored sizes of the direct children of `dir`.
    fn sum_children(&self, dir: &str) -> (r: u128)
        requires
            self.wf(),
        ensures
            r == children_total(self.entries@, dir@),
    {
        let d = chars_of(dir);
        let mut acc: u128 = 0;
        let mut i: usize = 0;
        proof {
            assert(self.entries@.take(0) =~= Seq::<IndexedFile>::empty());
        }
        while i < self.entries.len()
            invariant
                i <= self.entries@.len(),
                d@ == dir@,
                acc == children_total(self.entries@.take(i as int), dir@),
                0 <= acc <= i * (u64::MAX as int),
            decreases self.entries@.len() - i,
        {
            proof {
                assert(self.entries@.take(i as int + 1).drop_last() =~= self.entries@.take(i as int));
            }
            let k = chars_of(self.entries[i].path.as_str());
            if is_child_exec(&k, &d) {
                acc = acc + self.entries[i].size as u128;
            }
            i += 1;
            proof {
                assert(acc <= i * (u64::MAX as int)) by (nonlinear_arith)
                    requires
                        acc <= (i - 1) * (u64::MAX as int) + u64::MAX,
                ;
            }
        }
        proof {
            assert(self.entries@.take(self.entries@.len() as int) =~= self.entries@);
        }
        acc
    }

    /// Insert or update one entry. A directory keeps the recursive size of
    /// an existing directory entry and a new directory starts from the sizes
    /// of its indexed children; the size change is propagated to every
    /// ancestor directory.
    pub fn upsert(&mut self, entry: IndexedFile)
        requires
            old(self).wf(),
            upsert_fits(old(self).entries_view(), entry),
        ensures
            final(self).wf(),
            final(self).entries_view() == adjust(
                put(old(self).entries_view(), upserted(old(self).entries_view(), entry)),
                entry.path@,
                upsert_delta(old(self).entries_view(), entry),
            ),
            final(self).refs_view() == upsert_refs(
                old(self).refs_view(),
                old(self).entries_view(),
                entry,
            ),
            final(self).changes_view() == old(self).changes_view(),
    {
        let ghost s0 = self.entries@;
        let old_pos = self.find(entry.path.as_str());
        let (old_size, old_is_dir, old_ref): (u64, bool, u64) = match old_pos {
            Some(i) => (self.entries[i].size, self.entries[i].is_dir, self.entries[i].file_ref),
            None => (0, false, 0),
        };
        let mut entry = entry;
        let ghost e0 = entry;
        let mut delta: i128 = 0;
        if entry.is_dir {
            if old_is_dir {
                entry.size = old_size;
            } else {
                let total = self.sum_children(entry.path.as_str());
                entry.size = total as u64;
                delta = -(old_size as i128);
            }
        } else {
            delta = entry.size as i128 - old_size as i128;
        }
        proof {
            assert(entry == upserted(s0, e0));
            assert(delta == upsert_delta(s0, e0));
        }
        if old_pos.is_some() {
            self.refs.remove(&old_ref);
        }
        let key = entry.path.clone();
        self.refs.insert(entry.file_ref, key);
        let path = entry.path.clone();
        self.put_entry(entry);
        self.adjust_ancestors(path.as_str(), delta);
    }

    /// Whether `upsert(entry)` may be called: a directory new to the index
    /// starts from the sizes of the children already indexed, whose sum must
    /// fit a `u64`.
    pub fn can_upsert(&self, entry: &IndexedFile) -> (r: bool)
        requires
            self.wf(),
        ensures
            r == upsert_fits(self.entries_view(), *entry),
    {
        if !entry.is_dir {
            return true;
        }
        match self.find(entry.path.as_str()) {
            Some(i) => {
                if self.entries[i].is_dir {
                    return true;
                }
            },
            None => {},
        }
        self.sum_children(entry.path.as_str()) <= u64::MAX as u128
    }

    /// Remove the entry with path `path`; a file's size is taken off its
    /// ancestor directories (directory deletes go through `remove_prefix`).
    #[verifier::spinoff_prover]
    pub fn remove(&mut self, path: &str)
        requires
            old(self).wf(),
        ensures
            final(self).wf(),
            match path_pos(old(self).entries_view(), path@) {
                Some(i) => {
                    let o = old(self).entries_view()[i];
                    &&& final(self).entries_view() == adjust(
                        take_out(old(self).entries_view(), i),
                        path@,
                        if o.is_dir {
                            0
                        } else {
                            -(o.size as int)
                        },
                    )
                    &&& final(self).refs_view() == old(self).refs_view().remove(o.file_ref)
                },
                None => final(self).entries_view() == old(self).entries_view() && final(self).refs_view()
                    == old(self).refs_view(),
            },
            final(self).changes_view() == old(self).changes_view(),
    {
        match self.find(path) {
            None => {},
            Some(i) => {
                let ghost s0 = self.entries@;
                let gone = self.entries.swap_remove(i);
                self.positions.remove(path);
                if i < self.entries.len() {
                    let moved = self.entries[i].path.clone();
                    self.positions.insert(moved, i);
                }
                proof {
                    let s1 = self.entries@;
                    assert forall|a: int, b: int| 0 <= a < b < s1.len() implies (#[trigger] s1[a]).path@
                        != (#[trigger] s1[b]).path@ by {
                        if a == i {
                            assert(s0[s0.len() - 1].path@ != s0[b].path@);
                        } else if b == i {
                            assert(s0[a].path@ != s0[s0.len() - 1].path@);
                        } else {
                            assert(s0[a].path@ != s0[b].path@);
                        }
                    }
                    assert forall|k: int| 0 <= k < s1.len() implies #[trigger] self.positions@.contains_key(
                        s1[k].path@,
                    ) && self.positions@[s1[k].path@] == k by {
                        if k != i {
                            assert(s0[k].path@ != s0[i as int].path@);
                            assert(s0[k].path@ != s0[s0.len() - 1].path@);
                        }
                    }
                    assert forall|p: Seq<char>| #[trigger] self.positions@.contains_key(p) implies self.positions@[p]
                        < s1.len() && s1[self.positions@[p] as int].path@ == p by {
                        if i < s1.len() && p == s0[s0.len() - 1].path@ {
                        } else {
                            assert(old(self).positions@.contains_key(p));
                            let q = old(self).positions@[p];
                            assert(q != i);
                            if q == s0.len() - 1 {
                                assert(p == s0[s0.len() - 1].path@);
                            }
                        }
                    }
                }
                self.refs.remove(&gone.file_ref);
                let delta: i128 = if gone.is_dir {
                    0
                } else {
                    -(gone.size as i128)
                };
                self.adjust_ancestors(path, delta);
            },
        }
    }

    /// Rebuild the path lookup table from the entries.
    #[verifier::spinoff_prover]
    fn rebuild_positions(&mut self)
        requires
            distinct_paths(old(self).entries@),
            old(self).changes@.len() <= MAX_CHANGES,
            sane_time(old(self).utc_offset as int),
        ensures
            final(self).wf(),
            final(self).entries@ == old(self).entries@,
            final(self).refs@ == old(self).refs@,
            final(self).changes@ == old(self).changes@,
            final(self).utc_offset == old(self).utc_offset,
    {
        self.positions.clear();
        let mut i: usize = 0;
        while i < self.entries.len()
            invariant
                i <= self.entries@.len(),
                distinct_paths(self.entries@),
                self.entries@ == old(self).entries@,
                self.refs@ == old(self).refs@,
                self.changes@ == old(self).changes@,
                self.utc_offset == old(self).utc_offset,
                sane_time(self.utc_offset as int),
                forall|k: int|
                    0 <= k < i ==> #[trigger] self.positions@.contains_key(self.entries@[k].path@)
                        && self.positions@[self.entries@[k].path@] == k,
                forall|p: Seq<char>|
                    #[trigger] self.positions@.contains_key(p) ==> self.positions@[p] < i
                        && self.entries@[self.positions@[p] as int].path@ == p,
            decreases self.entries@.len() - i,
        {
            let key = self.entries[i].path.clone();
            self.positions.insert(key, i);
            proof {
                assert forall|k: int| 0 <= k < i implies self.entries@[k].path@ != self.entries@[i as int].path@ by {}
            }
            i += 1;
        }
    }

    /// Split the entries into those `keep` admits and the others (both in
    /// order); `subtree`: keep entries outside the subtree `prefix`, else
    /// keep entries whose path does not start with `prefix`.
    fn partition(&self, prefix: &[char], subtree: bool) -> (r: (Vec<IndexedFile>, Vec<IndexedFile>))
        requires
            self.wf(),
        ensures
            r.0@ == retain(
                self.entries@,
                if subtree {
                    outside(prefix@)
                } else {
                    not_prefixed(prefix@)
                },
            ),
            r.1@ == retain(
                self.entries@,
                |e: IndexedFile|
                    !(if subtree {
                        outside(prefix@)
                    } else {
                        not_prefixed(prefix@)
                    })(e),
            ),
            distinct_paths(r.0@),
    {
        let ghost keep = if subtree {
            outside(prefix@)
        } else {
            not_prefixed(prefix@)
        };
        let ghost drop = |e: IndexedFile| !keep(e);
        let mut kept: Vec<IndexedFile> = Vec::new();
        let mut gone: Vec<IndexedFile> = Vec::new();
        let ghost mut from: Seq<int> = Seq::empty();
        let mut i: usize = 0;
        proof {
            assert(self.entries@.take(0) =~= Seq::<IndexedFile>::empty());
        }
        while i < self.entries.len()
            invariant
                self.wf(),
                i <= self.entries@.len(),
                kept@ == retain(self.entries@.take(i as int), keep),
                gone@ == retain(self.entries@.take(i as int), drop),
                from.len() == kept.len(),
                forall|k: int| 0 <= k < from.len() ==> 0 <= #[trigger] from[k] < i,
                forall|a: int, b: int| 0 <= a < b < from.len() ==> #[trigger] from[a] < #[trigger] from[b],
                forall|k: int| 0 <= k < from.len() ==> kept@[k] == self.entries@[#[trigger] from[k]],
                keep == (if subtree {
                    outside(prefix@)
                } else {
                    not_prefixed(prefix@)
                }),
                drop == (|e: IndexedFile| !keep(e)),
            decreases self.entries@.len() - i,
        {
            proof {
                assert(self.entries@.take(i as int + 1).drop_last() =~= self.entries@.take(i as int));
            }
            let e = &self.entries[i];
            let p = chars_of(e.path.as_str());
            let keep_it = if subtree {
                !under_exec(&p, prefix)
            } else {
                !crate::text::starts_with_chars(&p, prefix)
            };
            proof {
                if subtree {
                    assert(keep_it == keep(self.entries@[i as int]));
                } else {
                    assert(keep_it == keep(self.entries@[i as int]));
                }
            }
            if keep_it {
                kept.push(e.duplicate());
                proof {
                    from = from.push(i as int);
                }
            } else {
                gone.push(e.duplicate());
            }
            i += 1;
        }
        proof {
            assert(self.entries@.take(self.entries@.len() as int) =~= self.entries@);
            assert forall|a: int, b: int| 0 <= a < b < kept@.len() implies (#[trigger] kept@[a]).path@
                != (#[trigger] kept@[b]).path@ by {
                assert(from[a] < from[b]);
                assert(self.entries@[from[a]].path@ != self.entries@[from[b]].path@);
            }
        }
        (kept, gone)
    }

    /// Remove an entry and everything under it (directory delete); the
    /// subtree's total is taken off the ancestors of `prefix`.
    pub fn remove_prefix(&mut self, prefix: &str)
        requires
            old(self).wf(),
        ensures
            final(self).wf(),
            final(self).entries_view() == adjust(
                retain(old(self).entries_view(), outside(prefix@)),
                prefix@,
                -size_at(old(self).entries_view(), prefix@),
            ),
            final(self).refs_view() == refs_drop(
                old(self).refs_view(),
                retain(old(self).entries_view(), inside(prefix@)),
            ),
            final(self).changes_view() == old(self).changes_view(),
    {
        let root_total: u64 = match self.find(prefix) {
            Some(i) => self.entries[i].size,
            None => 0,
        };
        assert(root_total as int == size_at(self.entries@, prefix@));
        let pc = chars_of(prefix);
        let (kept, gone) = self.partition(&pc, true);
        proof {
            assert(retain(self.entries@, |e: IndexedFile| !outside(prefix@)(e)) =~= retain(
                self.entries@,
                inside(prefix@),
            )) by {
                lemma_retain_ext(self.entries@, |e: IndexedFile| !outside(prefix@)(e), inside(prefix@));
            }
        }
        let mut k: usize = 0;
        proof {
            assert(gone@.take(0) =~= Seq::<IndexedFile>::empty());
        }
        while k < gone.len()
            invariant
                k <= gone.len(),
                self.refs@ == refs_drop(old(self).refs@, gone@.take(k as int)),
                self.entries@ == old(self).entries@,
                self.positions@ == old(self).positions@,
                self.changes@ == old(self).changes@,
                self.utc_offset == old(self).utc_offset,
            decreases gone.len() - k,
        {
            proof {
                assert(gone@.take(k as int + 1).drop_last() =~= gone@.take(k as int));
            }
            self.refs.remove(&gone[k].file_ref);
            k += 1;
        }
        proof {
            assert(gone@.take(gone.len() as int) =~= gone@);
        }
        self.entries = kept;
        self.rebuild_positions();
        self.adjust_ancestors(prefix, -(root_total as i128));
    }

    /// Move every entry under `old_prefix` to `new_prefix` (directory
    /// rename). Moved entries replace entries already at their new path.
    /// The subtree total leaves the ancestors of the old root and joins the
    /// ancestors of the new one.
    #[verifier::spinoff_prover]
    pub fn rename_prefix(&mut self, old_prefix: &str, new_prefix: &str)
        requires
            old(self).wf(),
        ensures
            final(self).wf(),
            exists|moved: Seq<IndexedFile>|
                {
                    &&& all_renamed(
                        moved,
                        retain(old(self).entries_view(), inside(old_prefix@)),
                        old_prefix@,
                        new_prefix@,
                    )
                    &&& final(self).entries_view() == adjust(
                        adjust(
                            put_all(retain(old(self).entries_view(), outside(old_prefix@)), moved),
                            old_prefix@,
                            -size_at(old(self).entries_view(), old_prefix@),
                        ),
                        new_prefix@,
                        size_at(old(self).entries_view(), old_prefix@),
                    )
                    &&& final(self).refs_view() == refs_put_all(old(self).refs_view(), moved)
                },
            final(self).changes_view() == old(self).changes_view(),
    {
        let ghost s00 = self.entries@;
        let root_total: u64 = match self.find(old_prefix) {
            Some(i) => self.entries[i].size,
            None => 0,
        };
        assert(root_total as int == size_at(self.entries@, old_prefix@));
        let oc = chars_of(old_prefix);
        let nc = chars_of(new_prefix);
        let (kept, gone) = self.partition(&oc, true);
        proof {
            lemma_retain_ext(self.entries@, |e: IndexedFile| !outside(old_prefix@)(e), inside(old_prefix@));
        }
        let ghost s0 = self.entries@;
        let ghost r0 = self.refs@;
        // The moved entries, in order.
        let mut moved: Vec<IndexedFile> = Vec::new();
        let mut k: usize = 0;
        while k < gone.len()
            invariant
                k <= gone.len(),
                gone@ == retain(s0, inside(old_prefix@)),
                oc@ == old_prefix@,
                nc@ == new_prefix@,
                all_renamed(moved@, gone@.take(k as int), old_prefix@, new_prefix@),
            decreases gone.len() - k,
        {
            let g = &gone[k];
            let p = chars_of(g.path.as_str());
            proof {
                lemma_retain_inside(s0, old_prefix@, k as int);
                assert(p@.len() >= oc@.len());
            }
            let rest = slice_chars(&p, oc.len(), p.len());
            let mut target = nc.clone();
            let mut t: usize = 0;
            while t < rest.len()
                invariant
                    t <= rest.len(),
                    target@ == nc@ + rest@.take(t as int),
                decreases rest.len() - t,
            {
                target.push(rest[t]);
                t += 1;
                proof {
                    assert(target@ =~= nc@ + rest@.take(t as int));
                }
            }
            proof {
                assert(rest@.take(rest.len() as int) =~= rest@);
                assert(rest@ =~= p@.skip(old_prefix@.len() as int));
            }
            let mut m = g.duplicate();
            m.set_path(string_from_chars(&target));
            moved.push(m);
            k += 1;
            proof {
                assert forall|j: int| 0 <= j < moved@.len() implies is_renamed(
                    #[trigger] moved@[j],
                    gone@.take(k as int)[j],
                    old_prefix@,
                    new_prefix@,
                ) by {
                    if j < k - 1 {
                        assert(gone@.take(k as int)[j] == gone@.take(k as int - 1)[j]);
                    }
                }
            }
        }
        proof {
            assert(gone@.take(gone.len() as int) =~= gone@);
        }
        self.entries = kept;
        self.rebuild_positions();
        let mut j: usize = 0;
        proof {
            assert(moved@.take(0) =~= Seq::<IndexedFile>::empty());
        }
        while j < moved.len()
            invariant
                j <= moved.len(),
                self.wf(),
                self.entries@ == put_all(retain(s0, outside(old_prefix@)), moved@.take(j as int)),
                self.refs@ == refs_put_all(r0, moved@.take(j as int)),
                self.changes@ == old(self).changes@,
            decreases moved.len() - j,
        {
            proof {
                assert(moved@.take(j as int + 1).drop_last() =~= moved@.take(j as int));
            }
            let m = moved[j].duplicate();
            let key = m.path.clone();
            self.refs.insert(m.file_ref, key);
            self.put_entry(m);
            j += 1;
        }
        proof {
            assert(moved@.take(moved.len() as int) =~= moved@);
        }
        self.adjust_ancestors(old_prefix, -(root_total as i128));
        self.adjust_ancestors(new_prefix, root_total as i128);
        proof {
            assert(s0 == old(self).entries@);
            assert(r0 == old(self).refs@);
            assert(all_renamed(moved@, retain(s0, inside(old_prefix@)), old_prefix@, new_prefix@));
            assert(self.entries@ == adjust(
                adjust(
                    put_all(retain(s0, outside(old_prefix@)), moved@),
                    old_prefix@,
                    -size_at(s0, old_prefix@),
                ),
                new_prefix@,
                size_at(s0, old_prefix@),
            ));
            assert(self.refs@ == refs_put_all(r0, moved@));
            let mv = moved@;
            assert({
                &&& all_renamed(
                    mv,
                    retain(old(self).entries_view(), inside(old_prefix@)),
                    old_prefix@,
                    new_prefix@,
                )
                &&& self.entries_view() == adjust(
                    adjust(
                        put_all(retain(old(self).entries_view(), outside(old_prefix@)), mv),
                        old_prefix@,
                        -size_at(old(self).entries_view(), old_prefix@),
                    ),
                    new_prefix@,
                    size_at(old(self).entries_view(), old_prefix@),
                )
                &&& self.refs_view() == refs_put_all(old(self).refs_view(), mv)
            });
        }
    }

    /// Remove every entry whose path starts with `prefix`, then insert the
    /// fresh scan of that volume. The reference map is rebuilt from the
    /// remaining entries and the new ones. Returns the number of entries.
    pub fn replace_volume(&mut self, prefix: &str, entries: Vec<IndexedFile>) -> (r: usize)
        requires
            old(self).wf(),
        ensures
            final(self).wf(),
            final(self).entries_view() == put_all(
                retain(old(self).entries_view(), not_prefixed(prefix@)),
                entries@,
            ),
            final(self).refs_view() == refs_put_all(
                refs_put_all(Map::empty(), retain(old(self).entries_view(), not_prefixed(prefix@))),
                entries@,
            ),
            r == final(self).entries_view().len(),
            final(self).changes_view() == old(self).changes_view(),
    {
        let pc = chars_of(prefix);
        let (kept, _gone) = self.partition(&pc, false);
        self.refs.clear();
        let mut k: usize = 0;
        proof {
            assert(kept@.take(0) =~= Seq::<IndexedFile>::empty());
        }
        while k < kept.len()
            invariant
                k <= kept.len(),
                self.refs@ == refs_put_all(Map::empty(), kept@.take(k as int)),
                self.entries@ == old(self).entries@,
                self.positions@ == old(self).positions@,
                self.changes@ == old(self).changes@,
                self.utc_offset == old(self).utc_offset,
            decreases kept.len() - k,
        {
            proof {
                assert(kept@.take(k as int + 1).drop_last() =~= kept@.take(k as int));
            }
            let key = kept[k].path.clone();
            self.refs.insert(kept[k].file_ref, key);
            k += 1;
        }
        proof {
            assert(kept@.take(kept.len() as int) =~= kept@);
        }
        self.entries = kept;
        self.rebuild_positions();
        let ghost base = self.entries@;
        let ghost rbase = self.refs@;
        let mut i: usize = 0;
        proof {
            assert(entries@.take(0) =~= Seq::<IndexedFile>::empty());
        }
        while i < entries.len()
            invariant
                i <= entries.len(),
                self.wf(),
                self.entries@ == put_all(base, entries@.take(i as int)),
                self.refs@ == refs_put_all(rbase, entries@.take(i as int)),
                self.changes@ == old(self).changes@,
            decreases entries.len() - i,
        {
            proof {
                assert(entries@.take(i as int + 1).drop_last() =~= entries@.take(i as int));
            }
            let e = entries[i].duplicate();
            let key = e.path.clone();
            self.refs.insert(e.file_ref, key);
            self.put_entry(e);
            i += 1;
        }
        proof {
            assert(entries@.take(entries.len() as int) =~= entries@);
        }
        self.entries.len()
    }

    /// Run `f` on the entries (in storage order) and return its result.
    pub fn with_entries<R, F: FnOnce(&[IndexedFile]) -> R>(&self, f: F) -> (r: R)
        requires
            forall|s: &[IndexedFile]| s@ == self.entries_view() ==> #[trigger] f.requires((s,)),
        ensures
            exists|s: &[IndexedFile]| s@ == self.entries_view() && #[trigger] f.ensures((s,), r),
    {
        f(self.entries.as_slice())
    }

    /// Search the index at the current time (see [`crate::search::search`]).
    pub fn search(&self, opts: &QueryOptions) -> (r: QueryResult)
        requires
            self.wf(),
        ensures
            exists|now: i64| search_result_ok(self.entries_view(), *opts, now, self.offset_view(), r),
    {
        let sl = self.entries.as_slice();
        let r = crate::search::search_local(sl, opts, self.utc_offset);
        proof {
            let now = choose|now: i64| search_result_ok(sl@, *opts, now, self.utc_offset, r);
            assert(search_result_ok(self.entries_view(), *opts, now, self.offset_view(), r));
        }
        r
    }

    /// Aggregate over the index at the current time (see
    /// [`crate::aggregate::aggregate`]).
    pub fn aggregate(&self, opts: &AggregateOptions) -> (r: AggregateResult)
        requires
            self.wf(),
        ensures
            exists|now: i64|
                aggregate_ok(
                    self.entries_view(),
                    *opts,
                    matched_indices(self.entries_view(), agg_query_opts(*opts), now, self.offset_view()),
                    r,
                ),
    {
        let sl = self.entries.as_slice();
        let r = crate::aggregate::aggregate_local(sl, opts, self.utc_offset);
        proof {
            let now = choose|now: i64|
                aggregate_ok(sl@, *opts, matched_indices(sl@, agg_query_opts(*opts), now, self.utc_offset), r);
            assert(aggregate_ok(
                self.entries_view(),
                *opts,
                matched_indices(self.entries_view(), agg_query_opts(*opts), now, self.offset_view()),
                r,
            ));
        }
        r
    }
}

fn is_child_exec(k: &[char], dir: &[char]) -> (r: bool)
    ensures
        r == is_child(k@, dir@),
{
    if k.len() <= dir.len() {
        return false;
    }
    let mut i: usize = 0;
    while i < dir.len()
        invariant
            i <= dir.len() < k.len(),
            forall|j: int| 0 <= j < i ==> k@[j] == dir@[j],
        decreases dir.len() - i,
    {
        if k[i] != dir[i] {
            proof {
                assert(k@.take(dir.len() as int)[i as int] != dir@[i as int]);
            }
            return false;
        }
        i += 1;
    }
    proof {
        assert(k@.take(dir.len() as int) =~= dir@);
    }
    if k[dir.len()] != '\\' {
        return false;
    }
    let mut j = dir.len() + 1;
    while j < k.len()
        invariant
            dir.len() < j <= k.len(),
            forall|t: int| dir.len() < t < j ==> #[trigger] k@[t] != '\\',
        decreases k.len() - j,
    {
        if k[j] == '\\' {
            return false;
        }
        j += 1;
    }
    true
}

fn under_exec(p: &[char], prefix: &[char]) -> (r: bool)
    ensures
        r == under(p@, prefix@),
{
    if crate::text::chars_eq(p, prefix) {
        return true;
    }
    p.len() > prefix.len() && crate::text::starts_with_chars(p, prefix) && p[prefix.len()] == '\\'
}

pub proof fn lemma_retain_ext(
    s: Seq<IndexedFile>,
    f: spec_fn(IndexedFile) -> bool,
    g: spec_fn(IndexedFile) -> bool,
)
    requires
        forall|e: IndexedFile| #[trigger] f(e) == g(e),
    ensures
        retain(s, f) == retain(s, g),
    decreases s.len(),
{
    if s.len() > 0 {
        lemma_retain_ext(s.drop_last(), f, g);
    }
}

/// Every retained entry is admitted by the predicate.
pub proof fn lemma_retain_all(s: Seq<IndexedFile>, f: spec_fn(IndexedFile) -> bool)
    ensures
        forall|k: int| 0 <= k < retain(s, f).len() ==> f(#[trigger] retain(s, f)[k]),
        retain(s, f).len() <= s.len(),
    decreases s.len(),
{
    if s.len() > 0 {
        lemma_retain_all(s.drop_last(), f);
    }
}

pub proof fn lemma_retain_inside(s: Seq<IndexedFile>, prefix: Seq<char>, k: int)
    requires
        0 <= k < retain(s, inside(prefix)).len(),
    ensures
        under(retain(s, inside(prefix))[k].path@, prefix),
{
    lemma_retain_all(s, inside(prefix));
    assert(inside(prefix)(retain(s, inside(prefix))[k]));
}

pub proof fn lemma_path_pos(s: Seq<IndexedFile>, i: int)
    requires
        distinct_paths(s),
        0 <= i < s.len(),
    ensures
        path_pos(s, s[i].path@) == Some(i),
{
    let p = s[i].path@;
    assert(exists|j: int| 0 <= j < s.len() && (#[trigger] s[j]).path@ == p);
    let j = choose|j: int| 0 <= j < s.len() && (#[trigger] s[j]).path@ == p;
    if j != i {
        if j < i {
            assert(s[j].path@ != s[i].path@);
        } else {
            assert(s[i].path@ != s[j].path@);
        }
    }
}

/// [`reason_word`] of a recorded reason.
fn reason_word_exec(reason: &str) -> (r: Vec<char>)
    ensures
        r@ == reason_word(reason@),
{
    let c = chars_of(reason);
    if eq_lit(&c, "CREATE") {
        chars_of("created")
    } else if eq_lit(&c, "WRITE") {
        chars_of("modified")
    } else if eq_lit(&c, "DELETE") {
        chars_of("deleted")
    } else if eq_lit(&c, "RENAME") || eq_lit(&c, "RENAME_NEW") {
        chars_of("renamed")
    } else {
        lower_vec(&c)
    }
}

/// Whether `w` is one of `words`.
fn has_word(words: &Vec<String>, w: &Vec<char>) -> (r: bool)
    ensures
        r == strings_view(words@).contains(w@),
{
    let mut k: usize = 0;
    while k < words.len()
        invariant
            k <= words.len(),
            forall|j: int| 0 <= j < k ==> strings_view(words@)[j] != w@,
        decreases words.len() - k,
    {
        if chars_eq(&chars_of(words[k].as_str()), w) {
            proof {
                assert(strings_view(words@)[k as int] == w@);
            }
            return true;
        }
        k += 1;
    }
    false
}

/// The first `limit` events of `all` (all of them for 0).
fn cap_events(all: Vec<ChangeEvent>, limit: usize) -> (r: Vec<ChangeEvent>)
    ensures
        r@ == cap(all@, limit),
{
    if limit == 0 || limit >= all.len() {
        all
    } else {
        let mut out: Vec<ChangeEvent> = Vec::new();
        let mut k: usize = 0;
        while k < limit
            invariant
                k <= limit < all.len(),
                out@ == all@.take(k as int),
            decreases limit - k,
        {
            out.push(all[k].duplicate());
            k += 1;
            proof {
                assert(out@ =~= all@.take(k as int));
            }
        }
        out
    }
}

} // verus!
