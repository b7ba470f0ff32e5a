//! The decisions of the change watchers (the NTFS USN journal on Windows,
//! fanotify on Linux): what each change does to the index and the content
//! store, and how renames are paired. Reading the journal, resolving file
//! handles and stat'ing files are the application's part.
use vstd::prelude::*;
use crate::text::{chars_of, string_from_chars};

verus! {

/// What a change record means for the index.
#[derive(Debug, Clone, Copy, PartialEq, Eq, Structural)]
pub enum ChangeKind {
    /// The entry is gone.
    Delete,
    /// The entry was renamed away from this path.
    RenameOld,
    /// The entry was renamed to this path.
    RenameNew,
    /// The entry was created or written.
    Write,
    /// Nothing the index tracks.
    Ignore,
}

/// `USN_REASON_DELETE`.
pub const USN_REASON_DELETE: u32 = 0x0000_0200;
/// `USN_REASON_RENAME_OLD_NAME`.
pub const USN_REASON_RENAME_OLD: u32 = 0x0000_1000;
/// `USN_REASON_RENAME_NEW_NAME`.
pub const USN_REASON_RENAME_NEW: u32 = 0x0000_2000;
/// `USN_REASON_CLOSE`.
pub const USN_REASON_CLOSE: u32 = 0x8000_0000;
/// `USN_REASON_FILE_CREATE`.
pub const USN_REASON_CREATE: u32 = 0x0000_0100;
/// `USN_REASON_HARD_LINK_CHANGE`.
pub const USN_REASON_HARD_LINK_CHANGE: u32 = 0x0001_0000;

/// A USN reason mask: delete first, then the rename halves, then a close,
/// create or hard-link change.
pub open spec fn spec_usn_kind(reason: u32) -> ChangeKind {
    if reason & 0x200u32 != 0 {
        ChangeKind::Delete
    } else if reason & 0x1000u32 != 0 {
        ChangeKind::RenameOld
    } else if reason & 0x2000u32 != 0 {
        ChangeKind::RenameNew
    } else if reason & 0x8000_0000u32 != 0 || reason & 0x100u32 != 0 || reason & 0x1_0000u32 != 0 {
        ChangeKind::Write
    } else {
        ChangeKind::Ignore
    }
}

pub fn usn_kind(reason: u32) -> (r: ChangeKind)
    ensures
        r == spec_usn_kind(reason),
{
    if reason & USN_REASON_DELETE != 0 {
        ChangeKind::Delete
    } else if reason & USN_REASON_RENAME_OLD != 0 {
        ChangeKind::RenameOld
    } else if reason & USN_REASON_RENAME_NEW != 0 {
        ChangeKind::RenameNew
    } else if reason & USN_REASON_CLOSE != 0 || reason & USN_REASON_CREATE != 0 || reason
        & USN_REASON_HARD_LINK_CHANGE != 0 {
        ChangeKind::Write
    } else {
        ChangeKind::Ignore
    }
}

/// `FAN_MODIFY`.
pub const FAN_MODIFY: u64 = 0x0000_0002;
/// `FAN_ATTRIB`.
pub const FAN_ATTRIB: u64 = 0x0000_0004;
/// `FAN_CLOSE_WRITE`.
pub const FAN_CLOSE_WRITE: u64 = 0x0000_0008;
/// `FAN_MOVED_FROM`.
pub const FAN_MOVED_FROM: u64 = 0x0000_0040;
/// `FAN_MOVED_TO`.
pub const FAN_MOVED_TO: u64 = 0x0000_0080;
/// `FAN_CREATE`.
pub const FAN_CREATE: u64 = 0x0000_0100;
/// `FAN_DELETE`.
pub const FAN_DELETE: u64 = 0x0000_0200;
/// `FAN_Q_OVERFLOW`.
pub const FAN_Q_OVERFLOW: u64 = 0x0000_4000;
/// `FAN_ONDIR`.
pub const FAN_ONDIR: u64 = 0x4000_0000;

/// A fanotify event mask: delete first, then the move halves, then a
/// create, modify, attribute change or close after writing.
pub open spec fn spec_fanotify_kind(mask: u64) -> ChangeKind {
    if mask & 0x200u64 != 0 {
        ChangeKind::Delete
    } else if mask & 0x40u64 != 0 {
        ChangeKind::RenameOld
    } else if mask & 0x80u64 != 0 {
        ChangeKind::RenameNew
    } else if mask & 0x10eu64 != 0 {
        ChangeKind::Write
    } else {
        ChangeKind::Ignore
    }
}

pub fn fanotify_kind(mask: u64) -> (r: ChangeKind)
    ensures
        r == spec_fanotify_kind(mask),
{
    let write = FAN_CREATE | FAN_MODIFY | FAN_ATTRIB | FAN_CLOSE_WRITE;
    assert(0x100u64 | 0x2u64 | 0x4u64 | 0x8u64 == 0x10eu64) by (bit_vector);
    if mask & FAN_DELETE != 0 {
        ChangeKind::Delete
    } else if mask & FAN_MOVED_FROM != 0 {
        ChangeKind::RenameOld
    } else if mask & FAN_MOVED_TO != 0 {
        ChangeKind::RenameNew
    } else if mask & write != 0 {
        ChangeKind::Write
    } else {
        ChangeKind::Ignore
    }
}

// ---------------------------------------------------------------------------
// Pending renames
// ---------------------------------------------------------------------------

/// Old paths of renames whose second half has not been seen, keyed by the
/// moved object's identity (its file reference or file-handle bytes).
pub struct PendingRenames {
    items: Vec<(Vec<u8>, String)>,
}

/// The map an association list denotes.
pub open spec fn pmap(s: Seq<(Vec<u8>, String)>) -> Map<Seq<u8>, Seq<char>> {
    Map::new(
        |k: Seq<u8>| exists|i: int| 0 <= i < s.len() && (#[trigger] s[i]).0@ == k,
        |k: Seq<u8>|
            {
                let i = choose|i: int| 0 <= i < s.len() && (#[trigger] s[i]).0@ == k;
                s[i].1@
            },
    )
}

/// No key occurs twice.
pub open spec fn unique_keys(s: Seq<(Vec<u8>, String)>) -> bool {
    forall|a: int, b: int| 0 <= a < b < s.len() ==> (#[trigger] s[a]).0@ != (#[trigger] s[b]).0@
}

proof fn lemma_pmap_at(s: Seq<(Vec<u8>, String)>, i: int)
    requires
        unique_keys(s),
        0 <= i < s.len(),
    ensures
        pmap(s).contains_key(s[i].0@),
        pmap(s)[s[i].0@] == s[i].1@,
{
    let k = s[i].0@;
    assert(exists|j: int| 0 <= j < s.len() && (#[trigger] s[j]).0@ == k);
    let j = choose|j: int| 0 <= j < s.len() && (#[trigger] s[j]).0@ == k;
    if j != i {
        if j < i {
            assert(s[j].0@ != s[i].0@);
        } else {
            assert(s[i].0@ != s[j].0@);
        }
    }
}

/// Keys present in `s2` are those of `s1` at the same positions except `i`.
proof fn lemma_pmap_same_except(s1: Seq<(Vec<u8>, String)>, s2: Seq<(Vec<u8>, String)>, k: Seq<u8>)
    requires
        unique_keys(s1),
        unique_keys(s2),
        forall|j: int| 0 <= j < s1.len() && (#[trigger] s1[j]).0@ == k ==> exists|q: int|
            0 <= q < s2.len() && (#[trigger] s2[q]) == s1[j],
        forall|q: int| 0 <= q < s2.len() && (#[trigger] s2[q]).0@ == k ==> exists|j: int|
            0 <= j < s1.len() && (#[trigger] s1[j]) == s2[q],
    ensures
        pmap(s1).contains_key(k) == pmap(s2).contains_key(k),
        pmap(s1).contains_key(k) ==> pmap(s1)[k] == pmap(s2)[k],
{
    if pmap(s1).contains_key(k) {
        let j = choose|j: int| 0 <= j < s1.len() && (#[trigger] s1[j]).0@ == k;
        let q = choose|q: int| 0 <= q < s2.len() && (#[trigger] s2[q]) == s1[j];
        lemma_pmap_at(s1, j);
        lemma_pmap_at(s2, q);
    }
    if pmap(s2).contains_key(k) {
        let q = choose|q: int| 0 <= q < s2.len() && (#[trigger] s2[q]).0@ == k;
        let j = choose|j: int| 0 <= j < s1.len() && (#[trigger] s1[j]) == s2[q];
        assert(s1[j].0@ == k);
    }
}

impl PendingRenames {
    /// The pending renames as a map from key to old path.
    pub closed spec fn view_map(&self) -> Map<Seq<u8>, Seq<char>> {
        pmap(self.items@)
    }

    pub closed spec fn wf(&self) -> bool {
        unique_keys(self.items@)
    }

    pub fn new() -> (r: Self)
        ensures
            r.wf(),
            r.view_map() == Map::<Seq<u8>, Seq<char>>::empty(),
    {
        let r = PendingRenames { items: Vec::new() };
        assert(r.view_map() =~= Map::<Seq<u8>, Seq<char>>::empty());
        r
    }

    fn position(&self, key: &[u8]) -> (r: Option<usize>)
        ensures
            match r {
                Some(i) => i < self.items@.len() && self.items@[i as int].0@ == key@,
                None => forall|i: int| 0 <= i < self.items@.len() ==> (#[trigger] self.items@[i]).0@ != key@,
            },
    {
        let mut i: usize = 0;
        while i < self.items.len()
            invariant
                i <= self.items@.len(),
                forall|q: int| 0 <= q < i ==> (#[trigger] self.items@[q]).0@ != key@,
            decreases self.items@.len() - i,
        {
            if crate::walk::bytes_eq(self.items[i].0.as_slice(), key) {
                return Some(i);
            }
            i += 1;
        }
        None
    }

    /// Remember `path` as the old path of `key` (replacing an earlier one).
    pub fn insert(&mut self, key: &[u8], path: &str)
        requires
            old(self).wf(),
        ensures
            final(self).wf(),
            final(self).view_map() == old(self).view_map().insert(key@, path@),
    {
        let ghost s0 = self.items@;
        let item = (vstd::slice::slice_to_vec(key), path.to_owned());
        match self.position(key) {
            Some(i) => {
                self.items.set(i, item);
                proof {
                    let s1 = self.items@;
                    assert forall|a: int, b: int| 0 <= a < b < s1.len() implies (#[trigger] s1[a]).0@
                        != (#[trigger] s1[b]).0@ by {
                        assert(s0[a].0@ != s0[b].0@);
                    }
                    assert forall|k: Seq<u8>| k != key@ implies #[trigger] pmap(s1).contains_key(k)
                        == pmap(s0).contains_key(k) && (pmap(s0).contains_key(k) ==> pmap(s1)[k]
                        == pmap(s0)[k]) by {
                        assert forall|j: int| 0 <= j < s0.len() && (#[trigger] s0[j]).0@ == k implies exists|
                            q: int,
                        | 0 <= q < s1.len() && (#[trigger] s1[q]) == s0[j] by {
                            assert(s1[j] == s0[j]);
                        }
                        assert forall|q: int| 0 <= q < s1.len() && (#[trigger] s1[q]).0@ == k implies exists|
                            j: int,
                        | 0 <= j < s0.len() && (#[trigger] s0[j]) == s1[q] by {
                            assert(s0[q] == s1[q]);
                        }
                        lemma_pmap_same_except(s0, s1, k);
                    }
                    lemma_pmap_at(s1, i as int);
                    assert(pmap(s1) =~= pmap(s0).insert(key@, path@));
                }
            },
            None => {
                self.items.push(item);
                proof {
                    let s1 = self.items@;
                    assert forall|a: int, b: int| 0 <= a < b < s1.len() implies (#[trigger] s1[a]).0@
                        != (#[trigger] s1[b]).0@ by {
                        if b < s0.len() {
                            assert(s0[a].0@ != s0[b].0@);
                        }
                    }
                    assert forall|k: Seq<u8>| k != key@ implies #[trigger] pmap(s1).contains_key(k)
                        == pmap(s0).contains_key(k) && (pmap(s0).contains_key(k) ==> pmap(s1)[k]
                        == pmap(s0)[k]) by {
                        assert forall|j: int| 0 <= j < s0.len() && (#[trigger] s0[j]).0@ == k implies exists|
                            q: int,
                        | 0 <= q < s1.len() && (#[trigger] s1[q]) == s0[j] by {
                            assert(s1[j] == s0[j]);
                        }
                        assert forall|q: int| 0 <= q < s1.len() && (#[trigger] s1[q]).0@ == k implies exists|
                            j: int,
                        | 0 <= j < s0.len() && (#[trigger] s0[j]) == s1[q] by {
                            assert(s0[q] == s1[q]);
                        }
                        lemma_pmap_same_except(s0, s1, k);
                    }
                    lemma_pmap_at(s1, s0.len() as int);
                    assert(pmap(s1) =~= pmap(s0).insert(key@, path@));
                }
            },
        }
    }

    /// Take out the old path remembered for `key`, if any.
    pub fn take(&mut self, key: &[u8]) -> (r: Option<String>)
        requires
            old(self).wf(),
        ensures
            final(self).wf(),
            final(self).view_map() == old(self).view_map().remove(key@),
            match r {
                Some(p) => old(self).view_map().contains_key(key@) && p@ == old(self).view_map()[key@],
                None => !old(self).view_map().contains_key(key@),
            },
    {
        let ghost s0 = self.items@;
        match self.position(key) {
            Some(i) => {
                proof {
                    lemma_pmap_at(s0, i as int);
                }
                let (_, p) = self.items.swap_remove(i);
                proof {
                    let s1 = self.items@;
                    assert(s1 =~= s0.update(i as int, s0.last()).drop_last());
                    assert forall|a: int, b: int| 0 <= a < b < s1.len() implies (#[trigger] s1[a]).0@
                        != (#[trigger] s1[b]).0@ by {
                        let a0 = if a == i {
                            s0.len() - 1
                        } else {
                            a
                        };
                        let b0 = if b == i {
                            s0.len() - 1
                        } else {
                            b
                        };
                        assert(s1[a] == s0[a0] && s1[b] == s0[b0]);
                        if a0 < b0 {
                            assert(s0[a0].0@ != s0[b0].0@);
                        } else {
                            assert(s0[b0].0@ != s0[a0].0@);
                        }
                    }
                    assert forall|k: Seq<u8>| k != key@ implies #[trigger] pmap(s1).contains_key(k)
                        == pmap(s0).contains_key(k) && (pmap(s0).contains_key(k) ==> pmap(s1)[k]
                        == pmap(s0)[k]) by {
                        assert forall|j: int| 0 <= j < s0.len() && (#[trigger] s0[j]).0@ == k implies exists|
                            q: int,
                        | 0 <= q < s1.len() && (#[trigger] s1[q]) == s0[j] by {
                            if j == s0.len() - 1 {
                                assert(s1[i as int] == s0[j]);
                            } else {
                                assert(j != i);
                                assert(s1[j] == s0[j]);
                            }
                        }
                        assert forall|q: int| 0 <= q < s1.len() && (#[trigger] s1[q]).0@ == k implies exists|
                            j: int,
                        | 0 <= j < s0.len() && (#[trigger] s0[j]) == s1[q] by {
                            if q == i {
                                assert(s0[s0.len() - 1] == s1[q]);
                            } else {
                                assert(s0[q] == s1[q]);
                            }
                        }
                        lemma_pmap_same_except(s0, s1, k);
                    }
                    assert(!pmap(s1).contains_key(key@)) by {
                        if pmap(s1).contains_key(key@) {
                            let q = choose|q: int| 0 <= q < s1.len() && (#[trigger] s1[q]).0@ == key@;
                            if q == i {
                                assert(s0[i as int].0@ != s0[s0.len() - 1].0@);
                            } else {
                                assert(s0[q].0@ != s0[i as int].0@ || q == i);
                                if q < i {
                                    assert(s0[q].0@ != s0[i as int].0@);
                                } else {
                                    assert(s0[i as int].0@ != s0[q].0@);
                                }
                            }
                        }
                    }
                    assert(pmap(s1) =~= pmap(s0).remove(key@));
                }
                Some(p)
            },
            None => {
                proof {
                    assert(!pmap(s0).contains_key(key@));
                    assert(pmap(s0) =~= pmap(s0).remove(key@));
                }
                None
            },
        }
    }
}

// ---------------------------------------------------------------------------
// What a change does
// ---------------------------------------------------------------------------

/// One step a change asks of the index, the change log or the content store.
pub enum WatchAction {
    /// Drop the entry at the path and everything under it.
    RemovePrefix(String),
    /// Drop the entry at the path.
    Remove(String),
    /// Move the subtree at the first path to the second.
    RenamePrefix(String, String),
    /// Log a change: reason, path, whether it is a directory.
    Record(String, String, bool),
    /// Drop the stored content of the path.
    DropContent(String),
    /// Stat the path and upsert what is there, or remove it when it is gone.
    Restat(String, bool),
}

/// A [`WatchAction`] as values.
pub enum ActionV {
    RemovePrefix(Seq<char>),
    Remove(Seq<char>),
    RenamePrefix(Seq<char>, Seq<char>),
    Record(Seq<char>, Seq<char>, bool),
    DropContent(Seq<char>),
    Restat(Seq<char>, bool),
}

pub open spec fn action_view(a: WatchAction) -> ActionV {
    match a {
        WatchAction::RemovePrefix(p) => ActionV::RemovePrefix(p@),
        WatchAction::Remove(p) => ActionV::Remove(p@),
        WatchAction::RenamePrefix(f, t) => ActionV::RenamePrefix(f@, t@),
        WatchAction::Record(r, p, d) => ActionV::Record(r@, p@, d),
        WatchAction::DropContent(p) => ActionV::DropContent(p@),
        WatchAction::Restat(p, d) => ActionV::Restat(p@, d),
    }
}

pub open spec fn actions_view(v: Seq<WatchAction>) -> Seq<ActionV> {
    v.map_values(|a: WatchAction| action_view(a))
}

/// The steps for a change of kind `kind` at `path`, and the pending renames
/// after it. `key` identifies the changed object when the watcher knows it;
/// `forget_on_delete` drops a pending rename of a deleted object.
pub open spec fn spec_decide(
    kind: ChangeKind,
    is_dir: bool,
    path: Seq<char>,
    key: Option<Seq<u8>>,
    forget_on_delete: bool,
    pending: Map<Seq<u8>, Seq<char>>,
) -> (Seq<ActionV>, Map<Seq<u8>, Seq<char>>) {
    match kind {
        ChangeKind::Delete => (
            seq![
                if is_dir {
                    ActionV::RemovePrefix(path)
                } else {
                    ActionV::Remove(path)
                },
                ActionV::Record("DELETE"@, path, is_dir),
                ActionV::DropContent(path),
            ],
            match key {
                Some(k) => if forget_on_delete {
                    pending.remove(k)
                } else {
                    pending
                },
                None => pending,
            },
        ),
        ChangeKind::RenameOld => (
            (if is_dir {
                Seq::empty()
            } else {
                seq![ActionV::Remove(path)]
            }) + seq![ActionV::Record("RENAME"@, path, is_dir), ActionV::DropContent(path)],
            match key {
                Some(k) => pending.insert(k, path),
                None => pending,
            },
        ),
        ChangeKind::RenameNew => {
            let moved = match key {
                Some(k) => if pending.contains_key(k) && is_dir && pending[k] != path {
                    seq![ActionV::RenamePrefix(pending[k], path)]
                } else {
                    Seq::empty()
                },
                None => Seq::empty(),
            };
            (
                moved + seq![
                    ActionV::Record("RENAME_NEW"@, path, is_dir),
                    ActionV::DropContent(path),
                    ActionV::Restat(path, is_dir),
                ],
                match key {
                    Some(k) => pending.remove(k),
                    None => pending,
                },
            )
        },
        ChangeKind::Write => (
            seq![ActionV::Record("WRITE"@, path, is_dir), ActionV::Restat(path, is_dir)],
            pending,
        ),
        ChangeKind::Ignore => (Seq::empty(), pending),
    }
}

fn text(s: &str) -> (r: String)
    ensures
        r@ == s@,
{
    s.to_owned()
}

/// The steps for one change, updating the pending renames.
pub fn decide(
    kind: ChangeKind,
    is_dir: bool,
    path: &str,
    key: Option<&[u8]>,
    forget_on_delete: bool,
    pending: &mut PendingRenames,
) -> (r: Vec<WatchAction>)
    requires
        old(pending).wf(),
    ensures
        final(pending).wf(),
        actions_view(r@) == spec_decide(
            kind,
            is_dir,
            path@,
            match key {
                Some(k) => Some(k@),
                None => None,
            },
            forget_on_delete,
            old(pending).view_map(),
        ).0,
        final(pending).view_map() == spec_decide(
            kind,
            is_dir,
            path@,
            match key {
                Some(k) => Some(k@),
                None => None,
            },
            forget_on_delete,
            old(pending).view_map(),
        ).1,
{
    let mut out: Vec<WatchAction> = Vec::new();
    match kind {
        ChangeKind::Delete => {
            if is_dir {
                out.push(WatchAction::RemovePrefix(text(path)));
            } else {
                out.push(WatchAction::Remove(text(path)));
            }
            out.push(WatchAction::Record(text("DELETE"), text(path), is_dir));
            out.push(WatchAction::DropContent(text(path)));
            match key {
                Some(k) => {
                    if forget_on_delete {
                        let _ = pending.take(k);
                    }
                },
                None => {},
            }
        },
        ChangeKind::RenameOld => {
            match key {
                Some(k) => pending.insert(k, path),
                None => {},
            }
            if !is_dir {
                out.push(WatchAction::Remove(text(path)));
            }
            out.push(WatchAction::Record(text("RENAME"), text(path), is_dir));
            out.push(WatchAction::DropContent(text(path)));
        },
        ChangeKind::RenameNew => {
            match key {
                Some(k) => {
                    match pending.take(k) {
                        Some(old_path) => {
                            if is_dir && !crate::seqs::eq_lit(&chars_of(old_path.as_str()), path) {
                                out.push(WatchAction::RenamePrefix(old_path, text(path)));
                            }
                        },
                        None => {},
                    }
                },
                None => {},
            }
            out.push(WatchAction::Record(text("RENAME_NEW"), text(path), is_dir));
            out.push(WatchAction::DropContent(text(path)));
            out.push(WatchAction::Restat(text(path), is_dir));
        },
        ChangeKind::Write => {
            out.push(WatchAction::Record(text("WRITE"), text(path), is_dir));
            out.push(WatchAction::Restat(text(path), is_dir));
        },
        ChangeKind::Ignore => {},
    }
    proof {
        let sd = spec_decide(
            kind,
            is_dir,
            path@,
            match key {
                Some(k) => Some(k@),
                None => None,
            },
            forget_on_delete,
            old(pending).view_map(),
        );
        assert(actions_view(out@) =~= sd.0);
    }
    out
}

} // verus!
