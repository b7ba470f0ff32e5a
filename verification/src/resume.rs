//! Start-up decisions of the indexer service: whether a saved index can be
//! resumed from its change-journal checkpoints, and whether the content
//! cache is enabled.
use vstd::prelude::*;
use crate::query::strings_view;
use crate::text::chars_of;
use crate::seqs::eq_lit;

verus! {

/// The change-journal flavour of the platform.
#[derive(Debug, Clone, Copy, PartialEq, Eq, Structural)]
pub enum JournalKind {
    /// NTFS USN journals: a journal id and a cursor (USN).
    Windows,
    /// FSEvents: monotonic event ids.
    MacOs,
    /// No replayable journal.
    Other,
}

/// A checkpoint `(volume, journal id, cursor)` viewed as values.
pub open spec fn ck_view(c: (String, u64, i64)) -> (Seq<char>, u64, i64) {
    (c.0@, c.1, c.2)
}

pub open spec fn cks_view(s: Seq<(String, u64, i64)>) -> Seq<(Seq<char>, u64, i64)> {
    s.map_values(|c: (String, u64, i64)| ck_view(c))
}

/// Id and cursor of the first checkpoint of volume `v`.
pub open spec fn find_ck(s: Seq<(Seq<char>, u64, i64)>, v: Seq<char>) -> Option<(u64, i64)>
    decreases s.len(),
{
    if s.len() == 0 {
        None
    } else if s[0].0 == v {
        Some((s[0].1, s[0].2))
    } else {
        find_ck(s.skip(1), v)
    }
}

/// Whether the journal still holds everything after `saved`: on Windows the
/// same journal at a cursor not behind the saved one; on macOS an event id
/// not behind the saved one; never elsewhere.
pub open spec fn replayable(kind: JournalKind, saved: (u64, i64), live: (u64, i64)) -> bool {
    match kind {
        JournalKind::Windows => saved.0 == live.0 && saved.1 <= live.1,
        JournalKind::MacOs => saved.0 <= live.0,
        JournalKind::Other => false,
    }
}

/// Every volume has a saved and a live checkpoint and the saved one can be
/// replayed; both lists have one checkpoint per volume.
pub open spec fn spec_can_resume(
    kind: JournalKind,
    volumes: Seq<Seq<char>>,
    saved: Seq<(Seq<char>, u64, i64)>,
    live: Seq<(Seq<char>, u64, i64)>,
) -> bool {
    &&& saved.len() == volumes.len()
    &&& live.len() == volumes.len()
    &&& forall|i: int|
        0 <= i < volumes.len() ==> match (
            find_ck(saved, #[trigger] volumes[i]),
            find_ck(live, volumes[i]),
        ) {
            (Some(a), Some(b)) => replayable(kind, a, b),
            _ => false,
        }
}

fn find_ck_exec(s: &[(String, u64, i64)], v: &String) -> (r: Option<(u64, i64)>)
    ensures
        r == find_ck(cks_view(s@), v@),
{
    let mut k: usize = 0;
    proof {
        assert(cks_view(s@).skip(0) =~= cks_view(s@));
    }
    while k < s.len()
        invariant
            k <= s@.len(),
            find_ck(cks_view(s@), v@) == find_ck(cks_view(s@).skip(k as int), v@),
        decreases s@.len() - k,
    {
        proof {
            assert(cks_view(s@).skip(k as int)[0] == ck_view(s@[k as int]));
            assert(cks_view(s@).skip(k as int).skip(1) =~= cks_view(s@).skip(k as int + 1));
        }
        if s[k].0 == *v {
            return Some((s[k].1, s[k].2));
        }
        k += 1;
    }
    None
}

/// Return true only when every indexed volume has a checkpoint the platform
/// can replay.
pub fn checkpoints_can_resume(
    kind: JournalKind,
    volumes: &[String],
    saved: &[(String, u64, i64)],
    live: &[(String, u64, i64)],
) -> (r: bool)
    ensures
        r == spec_can_resume(kind, strings_view(volumes@), cks_view(saved@), cks_view(live@)),
{
    if saved.len() != volumes.len() || live.len() != volumes.len() {
        return false;
    }
    let mut i: usize = 0;
    while i < volumes.len()
        invariant
            i <= volumes@.len(),
            saved@.len() == volumes@.len(),
            live@.len() == volumes@.len(),
            forall|q: int|
                0 <= q < i ==> match (
                    find_ck(cks_view(saved@), #[trigger] strings_view(volumes@)[q]),
                    find_ck(cks_view(live@), strings_view(volumes@)[q]),
                ) {
                    (Some(a), Some(b)) => replayable(kind, a, b),
                    _ => false,
                },
        decreases volumes@.len() - i,
    {
        let a = find_ck_exec(saved, &volumes[i]);
        let b = find_ck_exec(live, &volumes[i]);
        proof {
            assert(strings_view(volumes@)[i as int] == volumes@[i as int]@);
        }
        let ok = match (a, b) {
            (Some(sa), Some(lb)) => match kind {
                JournalKind::Windows => sa.0 == lb.0 && sa.1 <= lb.1,
                JournalKind::MacOs => sa.0 <= lb.0,
                JournalKind::Other => false,
            },
            _ => false,
        };
        if !ok {
            return false;
        }
        i += 1;
    }
    true
}

/// Whether the content cache is on, given the value of its environment
/// switch: on when unset, else only for `1`, `true` or `on`.
pub fn content_enabled(value: Option<&str>) -> (r: bool)
    ensures
        r == (match value {
            Some(v) => v@ == "1"@ || v@ == "true"@ || v@ == "on"@,
            None => true,
        }),
{
    match value {
        Some(v) => {
            let c = chars_of(v);
            eq_lit(&c, "1") || eq_lit(&c, "true") || eq_lit(&c, "on")
        },
        None => true,
    }
}

} // verus!
