//! Properties of the index operations, stated over the models their
//! contracts use.

use vstd::prelude::*;

use crate::index::{
    adjust, all_renamed, cap, clamp_size, distinct_paths, entry_of, inside, is_ancestor, log_push,
    newer_than, outside, path_pos, put, put_all, rename_target, retain, size_at, under,
    upserted, ChangeEvent, MAX_CHANGES,
};
use crate::folder_laws::ancestors_are_dirs;
use crate::types::IndexedFile;

verus! {

broadcast use vstd::seq_lib::group_seq_properties;

// ---------------------------------------------------------------------------
// Helpers
// ---------------------------------------------------------------------------

/// Some entry of `s` has path `p`.
pub open spec fn has_path(s: Seq<IndexedFile>, p: Seq<char>) -> bool {
    exists|i: int| 0 <= i < s.len() && (#[trigger] s[i]).path@ == p
}

pub proof fn lemma_pos_of(s: Seq<IndexedFile>, i: int)
    requires
        distinct_paths(s),
        0 <= i < s.len(),
    ensures
        path_pos(s, s[i].path@) == Some(i),
        entry_of(s, s[i].path@) == Some(s[i]),
{
    crate::index::lemma_path_pos(s, i);
}

/// `put` keeps paths unique and adds the path of the new entry.
pub proof fn lemma_put(s: Seq<IndexedFile>, e: IndexedFile)
    requires
        distinct_paths(s),
    ensures
        distinct_paths(put(s, e)),
        has_path(put(s, e), e.path@),
        entry_of(put(s, e), e.path@) == Some(e),
        forall|p: Seq<char>| p != e.path@ ==> entry_of(#[trigger] put(s, e), p) == entry_of(s, p),
        forall|p: Seq<char>| has_path(s, p) ==> #[trigger] has_path(put(s, e), p),
{
    let t = put(s, e);
    if has_path(s, e.path@) {
        let i = path_pos(s, e.path@).unwrap();
        assert forall|a: int, b: int| 0 <= a < b < t.len() implies (#[trigger] t[a]).path@ != (
        #[trigger] t[b]).path@ by {
            if a == i {
                assert(s[b].path@ != s[i].path@);
            } else if b == i {
                assert(s[a].path@ != s[i].path@);
            } else {
                assert(s[a].path@ != s[b].path@);
            }
        }
        lemma_pos_of(t, i);
        assert forall|p: Seq<char>| p != e.path@ implies entry_of(#[trigger] put(s, e), p)
            == entry_of(s, p) by {
            if has_path(s, p) {
                let j = path_pos(s, p).unwrap();
                assert(j != i);
                assert(t[j] == s[j]);
                lemma_pos_of(t, j);
            } else {
                assert forall|k: int| 0 <= k < t.len() implies (#[trigger] t[k]).path@ != p by {
                    if k != i {
                        assert(t[k] == s[k]);
                    }
                }
            }
        }
        assert forall|p: Seq<char>| has_path(s, p) implies #[trigger] has_path(put(s, e), p) by {
            let j = path_pos(s, p).unwrap();
            if j == i {
                assert(t[i].path@ == p);
            } else {
                assert(t[j] == s[j]);
            }
        }
    } else {
        assert forall|a: int, b: int| 0 <= a < b < t.len() implies (#[trigger] t[a]).path@ != (
        #[trigger] t[b]).path@ by {
            if b == s.len() {
                assert(s[a].path@ != e.path@);
            } else {
                assert(s[a].path@ != s[b].path@);
            }
        }
        lemma_pos_of(t, s.len() as int);
        assert forall|p: Seq<char>| p != e.path@ implies entry_of(#[trigger] put(s, e), p)
            == entry_of(s, p) by {
            if has_path(s, p) {
                let j = path_pos(s, p).unwrap();
                assert(t[j] == s[j]);
                lemma_pos_of(t, j);
            } else {
                assert forall|k: int| 0 <= k < t.len() implies (#[trigger] t[k]).path@ != p by {
                    if k < s.len() {
                        assert(t[k] == s[k]);
                    }
                }
            }
        }
        assert forall|p: Seq<char>| has_path(s, p) implies #[trigger] has_path(put(s, e), p) by {
            let j = path_pos(s, p).unwrap();
            assert(t[j] == s[j]);
        }
    }
}

/// `put_all` keeps paths unique, keeps every path present, adds every path
/// of the list, and leaves entries at paths not in the list alone.
pub proof fn lemma_put_all(s: Seq<IndexedFile>, list: Seq<IndexedFile>)
    requires
        distinct_paths(s),
    ensures
        distinct_paths(put_all(s, list)),
        forall|k: int| 0 <= k < list.len() ==> has_path(put_all(s, list), (#[trigger] list[k]).path@),
        forall|p: Seq<char>| has_path(s, p) ==> #[trigger] has_path(put_all(s, list), p),
        forall|p: Seq<char>|
            (forall|k: int| 0 <= k < list.len() ==> (#[trigger] list[k]).path@ != p) ==> entry_of(
                #[trigger] put_all(s, list),
                p,
            ) == entry_of(s, p),
    decreases list.len(),
{
    if list.len() > 0 {
        let pre = list.drop_last();
        lemma_put_all(s, pre);
        let u = put_all(s, pre);
        lemma_put(u, list.last());
        assert forall|k: int| 0 <= k < list.len() implies has_path(
            put_all(s, list),
            (#[trigger] list[k]).path@,
        ) by {
            if k < list.len() - 1 {
                assert(pre[k] == list[k]);
                assert(has_path(u, pre[k].path@));
            }
        }
        assert forall|p: Seq<char>|
            (forall|k: int| 0 <= k < list.len() ==> (#[trigger] list[k]).path@ != p) implies entry_of(
            #[trigger] put_all(s, list),
            p,
        ) == entry_of(s, p) by {
            assert(list[list.len() - 1].path@ != p);
            assert forall|k: int| 0 <= k < pre.len() implies (#[trigger] pre[k]).path@ != p by {
                assert(pre[k] == list[k]);
            }
        }
    }
}

/// `retain` keeps paths unique and keeps the admitted entries.
pub proof fn lemma_retain(s: Seq<IndexedFile>, f: spec_fn(IndexedFile) -> bool)
    requires
        distinct_paths(s),
    ensures
        distinct_paths(retain(s, f)),
        forall|i: int| 0 <= i < s.len() && f(s[i]) ==> #[trigger] entry_of(retain(s, f), s[i].path@)
            == Some(s[i]),
        forall|k: int|
            0 <= k < retain(s, f).len() ==> f(#[trigger] retain(s, f)[k]) && has_path(
                s,
                retain(s, f)[k].path@,
            ),
    decreases s.len(),
{
    if s.len() > 0 {
        let pre = s.drop_last();
        assert(distinct_paths(pre)) by {
            assert forall|a: int, b: int| 0 <= a < b < pre.len() implies (#[trigger] pre[a]).path@
                != (#[trigger] pre[b]).path@ by {
                assert(s[a].path@ != s[b].path@);
            }
        }
        lemma_retain(pre, f);
        let r = retain(pre, f);
        let x = s.last();
        assert(!has_path(r, x.path@)) by {
            if has_path(r, x.path@) {
                let k = choose|k: int| 0 <= k < r.len() && (#[trigger] r[k]).path@ == x.path@;
                assert(has_path(pre, r[k].path@));
                let j = choose|j: int| 0 <= j < pre.len() && (#[trigger] pre[j]).path@ == r[k].path@;
                assert(s[j].path@ != s[s.len() - 1].path@);
            }
        }
        if f(x) {
            let t = r.push(x);
            assert forall|a: int, b: int| 0 <= a < b < t.len() implies (#[trigger] t[a]).path@ != (
            #[trigger] t[b]).path@ by {
                if b == r.len() {
                    assert(r[a].path@ != x.path@);
                } else {
                    assert(r[a].path@ != r[b].path@);
                }
            }
            assert forall|i: int| 0 <= i < s.len() && f(s[i]) implies #[trigger] entry_of(
                retain(s, f),
                s[i].path@,
            ) == Some(s[i]) by {
                if i == s.len() - 1 {
                    lemma_pos_of(t, r.len() as int);
                } else {
                    assert(pre[i] == s[i]);
                    assert(entry_of(r, pre[i].path@) == Some(pre[i]));
                    let j = path_pos(r, pre[i].path@).unwrap();
                    assert(t[j] == r[j]);
                    lemma_pos_of(t, j);
                }
            }
            assert forall|k: int| 0 <= k < t.len() implies f(#[trigger] t[k]) && has_path(
                s,
                t[k].path@,
            ) by {
                if k < r.len() {
                    let j = choose|j: int| 0 <= j < pre.len() && (#[trigger] pre[j]).path@ == r[k].path@;
                    assert(s[j] == pre[j]);
                } else {
                    assert(s[s.len() - 1].path@ == x.path@);
                }
            }
        } else {
            assert forall|i: int| 0 <= i < s.len() && f(s[i]) implies #[trigger] entry_of(
                retain(s, f),
                s[i].path@,
            ) == Some(s[i]) by {
                assert(i != s.len() - 1);
                assert(pre[i] == s[i]);
            }
            assert forall|k: int| 0 <= k < r.len() implies f(#[trigger] r[k]) && has_path(
                s,
                r[k].path@,
            ) by {
                let j = choose|j: int| 0 <= j < pre.len() && (#[trigger] pre[j]).path@ == r[k].path@;
                assert(s[j] == pre[j]);
            }
        }
    }
}

/// `adjust` keeps every path (and so every position) and changes only the
/// sizes of the ancestors of `path`.
pub proof fn lemma_adjust(s: Seq<IndexedFile>, path: Seq<char>, delta: int)
    requires
        distinct_paths(s),
    ensures
        adjust(s, path, delta).len() == s.len(),
        forall|i: int| 0 <= i < s.len() ==> (#[trigger] adjust(s, path, delta)[i]).path == s[i].path,
        distinct_paths(adjust(s, path, delta)),
        forall|p: Seq<char>| #[trigger] has_path(adjust(s, path, delta), p) == has_path(s, p),
        forall|p: Seq<char>|
            !is_ancestor(p, path) ==> #[trigger] entry_of(adjust(s, path, delta), p) == entry_of(
                s,
                p,
            ),
        forall|p: Seq<char>|
            is_ancestor(p, path) && #[trigger] has_path(s, p) ==> (entry_of(adjust(s, path, delta), p)
                matches Some(e) && e.size == clamp_size(entry_of(s, p).unwrap().size, delta)),
{
    let t = adjust(s, path, delta);
    assert forall|a: int, b: int| 0 <= a < b < t.len() implies (#[trigger] t[a]).path@ != (
    #[trigger] t[b]).path@ by {
        assert(s[a].path@ != s[b].path@);
    }
    assert forall|p: Seq<char>| #[trigger] has_path(t, p) == has_path(s, p) by {
        if has_path(s, p) {
            let i = choose|i: int| 0 <= i < s.len() && (#[trigger] s[i]).path@ == p;
            assert(t[i].path@ == p);
        }
        if has_path(t, p) {
            let i = choose|i: int| 0 <= i < t.len() && (#[trigger] t[i]).path@ == p;
            assert(s[i].path@ == p);
        }
    }
    assert forall|p: Seq<char>| !is_ancestor(p, path) implies #[trigger] entry_of(t, p) == entry_of(
        s,
        p,
    ) by {
        if has_path(s, p) {
            let i = path_pos(s, p).unwrap();
            lemma_pos_of(s, i);
            lemma_pos_of(t, i);
        }
    }
    assert forall|p: Seq<char>| is_ancestor(p, path) && #[trigger] has_path(s, p) implies (entry_of(
        t,
        p,
    ) matches Some(e) && e.size == clamp_size(entry_of(s, p).unwrap().size, delta)) by {
        let i = path_pos(s, p).unwrap();
        lemma_pos_of(s, i);
        lemma_pos_of(t, i);
    }
}

// ---------------------------------------------------------------------------
// Laws
// ---------------------------------------------------------------------------

/// A scan whose paths are unique is stored as given by `replace`.
pub proof fn law_replace_stores_scan(list: Seq<IndexedFile>)
    requires
        distinct_paths(list),
    ensures
        put_all(Seq::empty(), list) == list,
    decreases list.len(),
{
    if list.len() > 0 {
        let pre = list.drop_last();
        assert(distinct_paths(pre)) by {
            assert forall|a: int, b: int| 0 <= a < b < pre.len() implies (#[trigger] pre[a]).path@
                != (#[trigger] pre[b]).path@ by {
                assert(list[a].path@ != list[b].path@);
            }
        }
        law_replace_stores_scan(pre);
        assert(!has_path(pre, list.last().path@)) by {
            if has_path(pre, list.last().path@) {
                let j = choose|j: int| 0 <= j < pre.len() && (#[trigger] pre[j]).path@ == list.last().path@;
                assert(list[j].path@ != list[list.len() - 1].path@);
            }
        }
        assert(list =~= pre.push(list.last()));
    }
}

/// After `upsert(e)` the index holds the upserted entry at `e`'s path.
pub proof fn law_upsert_then_get(s: Seq<IndexedFile>, e: IndexedFile, delta: int)
    requires
        distinct_paths(s),
    ensures
        entry_of(adjust(put(s, upserted(s, e)), e.path@, delta), e.path@) == Some(upserted(s, e)),
{
    let u = upserted(s, e);
    assert(u.path == e.path);
    lemma_put(s, u);
    lemma_adjust(put(s, u), e.path@, delta);
}

/// After `upsert(e)`, where every entry above `e` is a directory, every
/// other file keeps its entry, and the index holds the paths it held before
/// and `e`'s.
pub proof fn law_upsert_keeps_other_files(s: Seq<IndexedFile>, e: IndexedFile, delta: int)
    requires
        distinct_paths(s),
        ancestors_are_dirs(s, e.path@),
    ensures
        forall|p: Seq<char>|
            p != e.path@ && (#[trigger] entry_of(s, p) matches Some(o) && !o.is_dir) ==> entry_of(
                adjust(put(s, upserted(s, e)), e.path@, delta),
                p,
            ) == entry_of(s, p),
        forall|p: Seq<char>|
            #[trigger] has_path(adjust(put(s, upserted(s, e)), e.path@, delta), p) == (has_path(
                s,
                p,
            ) || p == e.path@),
{
    let u = upserted(s, e);
    assert(u.path == e.path);
    let t = put(s, u);
    lemma_put(s, u);
    lemma_adjust(t, e.path@, delta);
    let a = adjust(t, e.path@, delta);
    assert forall|p: Seq<char>| p != e.path@ && (#[trigger] entry_of(s, p) matches Some(o) && !o.is_dir)
        implies entry_of(a, p) == entry_of(s, p) by {
        let i = path_pos(s, p).unwrap();
        lemma_pos_of(s, i);
        if is_ancestor(p, e.path@) {
            assert(is_ancestor(s[i].path@, e.path@));
        }
    }
    assert forall|p: Seq<char>| #[trigger] has_path(a, p) == (has_path(s, p) || p == e.path@) by {
        if has_path(t, p) && p != e.path@ {
            let i = choose|i: int| 0 <= i < t.len() && (#[trigger] t[i]).path@ == p;
            lemma_pos_of(t, i);
            assert(entry_of(t, p) is Some);
            if !has_path(s, p) {
                assert(path_pos(s, p) is None);
            }
        }
    }
}

/// After `remove_prefix(prefix)` nothing under `prefix` remains, and every
/// entry outside it is still there at its path.
pub proof fn law_remove_prefix_clears_subtree(s: Seq<IndexedFile>, prefix: Seq<char>, delta: int)
    requires
        distinct_paths(s),
    ensures
        forall|k: int|
            0 <= k < adjust(retain(s, outside(prefix)), prefix, delta).len() ==> !under(
                (#[trigger] adjust(retain(s, outside(prefix)), prefix, delta)[k]).path@,
                prefix,
            ),
        forall|i: int|
            0 <= i < s.len() && !under(s[i].path@, prefix) ==> #[trigger] has_path(
                adjust(retain(s, outside(prefix)), prefix, delta),
                s[i].path@,
            ),
{
    let r = retain(s, outside(prefix));
    lemma_retain(s, outside(prefix));
    lemma_adjust(r, prefix, delta);
    let t = adjust(r, prefix, delta);
    assert forall|k: int| 0 <= k < t.len() implies !under((#[trigger] t[k]).path@, prefix) by {
        assert(outside(prefix)(r[k]));
    }
    assert forall|i: int| 0 <= i < s.len() && !under(s[i].path@, prefix) implies #[trigger] has_path(
        t,
        s[i].path@,
    ) by {
        assert(outside(prefix)(s[i]));
        assert(entry_of(r, s[i].path@) == Some(s[i]));
        let j = path_pos(r, s[i].path@).unwrap();
        assert(r[j].path@ == s[i].path@);
        assert(has_path(r, s[i].path@));
    }
}

/// After `rename_prefix(old, new)` every entry that was under `old` is found
/// at its new path.
pub proof fn law_rename_moves_subtree(
    s: Seq<IndexedFile>,
    moved: Seq<IndexedFile>,
    old: Seq<char>,
    new: Seq<char>,
    d1: int,
    d2: int,
)
    requires
        distinct_paths(s),
        all_renamed(moved, retain(s, inside(old)), old, new),
    ensures
        forall|k: int|
            0 <= k < retain(s, inside(old)).len() ==> has_path(
                adjust(adjust(put_all(retain(s, outside(old)), moved), old, d1), new, d2),
                rename_target((#[trigger] retain(s, inside(old))[k]).path@, old, new),
            ),
{
    let kept = retain(s, outside(old));
    lemma_retain(s, outside(old));
    lemma_put_all(kept, moved);
    let u = put_all(kept, moved);
    lemma_adjust(u, old, d1);
    lemma_adjust(adjust(u, old, d1), new, d2);
    assert forall|k: int| 0 <= k < retain(s, inside(old)).len() implies has_path(
        adjust(adjust(u, old, d1), new, d2),
        rename_target((#[trigger] retain(s, inside(old))[k]).path@, old, new),
    ) by {
        assert(moved[k].path@ == rename_target(retain(s, inside(old))[k].path@, old, new));
        assert(has_path(u, moved[k].path@));
    }
}

/// A directory above both the old and the new place of a renamed subtree
/// keeps its recursive size (when it holds at least the subtree's total).
pub proof fn law_rename_keeps_shared_ancestor_size(
    s: Seq<IndexedFile>,
    moved: Seq<IndexedFile>,
    old: Seq<char>,
    new: Seq<char>,
    k: Seq<char>,
)
    requires
        distinct_paths(s),
        all_renamed(moved, retain(s, inside(old)), old, new),
        is_ancestor(k, old),
        is_ancestor(k, new),
        (entry_of(s, k) matches Some(e) && e.size >= size_at(s, old)),
    ensures
        (entry_of(
            adjust(
                adjust(put_all(retain(s, outside(old)), moved), old, -size_at(s, old)),
                new,
                size_at(s, old),
            ),
            k,
        ) matches Some(a) && a.size == entry_of(s, k).unwrap().size),
{
    let t = size_at(s, old);
    let kept = retain(s, outside(old));
    let e = entry_of(s, k).unwrap();
    let i = path_pos(s, k).unwrap();
    lemma_pos_of(s, i);
    assert(!under(k, old));
    lemma_retain(s, outside(old));
    assert(outside(old)(s[i]));
    assert(entry_of(kept, k) == Some(e));
    lemma_put_all(kept, moved);
    assert forall|j: int| 0 <= j < moved.len() implies (#[trigger] moved[j]).path@ != k by {
        assert(moved[j].path@ == rename_target(retain(s, inside(old))[j].path@, old, new));
        assert(moved[j].path@.len() >= new.len());
    }
    let u = put_all(kept, moved);
    assert(entry_of(u, k) == Some(e));
    assert(has_path(u, k)) by {
        let j = path_pos(kept, k).unwrap();
        assert(kept[j].path@ == k);
        assert(has_path(kept, k));
    }
    lemma_adjust(u, old, -t);
    let v = adjust(u, old, -t);
    assert(entry_of(v, k).unwrap().size == clamp_size(e.size, -t));
    assert(has_path(v, k));
    lemma_adjust(v, new, t);
}

/// `recent_changes` returns only events strictly newer than `since`, in log
/// order, and no more than `limit` of them.
pub proof fn law_recent_changes_bounds(c: Seq<ChangeEvent>, since: i64, limit: usize)
    ensures
        forall|k: int|
            0 <= k < cap(newer_than(c, since), limit).len() ==> (#[trigger] cap(
                newer_than(c, since),
                limit,
            )[k]).timestamp > since,
        limit > 0 ==> cap(newer_than(c, since), limit).len() <= limit,
        cap(newer_than(c, since), limit).len() <= c.len(),
{
    lemma_newer_than(c, since);
}

pub proof fn lemma_newer_than(c: Seq<ChangeEvent>, since: i64)
    ensures
        forall|k: int| 0 <= k < newer_than(c, since).len() ==> (#[trigger] newer_than(c, since)[k]).timestamp
            > since,
        newer_than(c, since).len() <= c.len(),
    decreases c.len(),
{
    if c.len() > 0 {
        lemma_newer_than(c.drop_last(), since);
    }
}

/// The change log never holds more than `MAX_CHANGES` events, and the event
/// just recorded is its newest.
pub proof fn law_log_bounded(c: Seq<ChangeEvent>, ev: ChangeEvent)
    requires
        c.len() <= MAX_CHANGES,
    ensures
        log_push(c, ev).len() <= MAX_CHANGES,
        log_push(c, ev).last() == ev,
        c.len() < MAX_CHANGES ==> log_push(c, ev) == c.push(ev),
{
}

} // verus!
