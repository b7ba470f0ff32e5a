//! What the directory sizes computed after a volume scan satisfy: a
//! directory's size is the total of its children's sizes (held at
//! `u64::MAX`), where a child file counts its own size and a child directory
//! its recursive size.
use vstd::prelude::*;
use crate::index::{
    adjust, all_renamed, clamp_size, distinct_paths, entry_of, inside, is_ancestor, is_renamed,
    outside, path_pos, put, put_all, rename_target, retain, size_at, take_out, under, upsert_delta,
    upserted, with_size,
};
use crate::mft::{
    acc_get, deepest_first, depth, desc_buckets, fold_sizes, max_depth, parent_path, sat_add,
    with_depth, with_folder_sizes,
};
use crate::index_laws::lemma_retain;
use crate::types::{IndexedFile, lemma_rfind_char, rfind_char};

verus! {

/// `x`, held at `u64::MAX`.
pub open spec fn capped(x: int) -> int {
    if x > u64::MAX {
        u64::MAX as int
    } else {
        x
    }
}

/// The total size of the entries of `s` whose parent directory is `d`.
pub open spec fn children_size(s: Seq<IndexedFile>, d: Seq<char>) -> int
    decreases s.len(),
{
    if s.len() == 0 {
        0
    } else {
        children_size(s.drop_last(), d) + if parent_path(s.last().path@) == Some(d) {
            s.last().size as int
        } else {
            0
        }
    }
}

pub open spec fn depth_at(s: Seq<IndexedFile>, i: int) -> nat {
    depth(s[i].path@)
}

proof fn lemma_children_nonneg(s: Seq<IndexedFile>, d: Seq<char>)
    ensures
        children_size(s, d) >= 0,
    decreases s.len(),
{
    if s.len() > 0 {
        lemma_children_nonneg(s.drop_last(), d);
    }
}

proof fn lemma_fold_len(t: Seq<IndexedFile>)
    ensures
        fold_sizes(t).0.len() == t.len(),
    decreases t.len(),
{
    if t.len() > 0 {
        lemma_fold_len(t.drop_last());
    }
}

/// The walk over a prefix is the prefix of the walk.
proof fn lemma_fold_prefix(t: Seq<IndexedFile>, k: int)
    requires
        0 <= k <= t.len(),
    ensures
        fold_sizes(t.take(k)).0 == fold_sizes(t).0.take(k),
    decreases t.len(),
{
    lemma_fold_len(t);
    if k == t.len() {
        assert(t.take(k) =~= t);
        assert(fold_sizes(t).0.take(k) =~= fold_sizes(t).0);
    } else {
        let t1 = t.drop_last();
        assert(t.take(k) =~= t1.take(k));
        lemma_fold_prefix(t1, k);
        lemma_fold_len(t1);
        assert(fold_sizes(t).0.take(k) =~= fold_sizes(t1).0.take(k));
    }
}

/// The size the walk gives entry `i`: a file its own, a directory what its
/// children had added by then.
proof fn lemma_fold_at(t: Seq<IndexedFile>, i: int)
    requires
        0 <= i < t.len(),
    ensures
        fold_sizes(t).0[i] == (if t[i].is_dir {
            acc_get(fold_sizes(t.take(i)).1, t[i].path@)
        } else {
            t[i].size
        }),
{
    lemma_fold_len(t);
    lemma_fold_prefix(t, i + 1);
    let u = t.take(i + 1);
    assert(u.drop_last() =~= t.take(i));
    assert(u.last() == t[i]);
    lemma_fold_len(t.take(i));
    let prev = fold_sizes(t.take(i));
    let total = if t[i].is_dir {
        acc_get(prev.1, t[i].path@)
    } else {
        t[i].size
    };
    assert(fold_sizes(u).0 == prev.0.push(total));
    assert(fold_sizes(u).0[i] == total);
    assert(fold_sizes(u).0[i] == fold_sizes(t).0.take(i + 1)[i]);
}

proof fn lemma_sat(a: int, b: u64)
    requires
        a >= 0,
    ensures
        sat_add(capped(a) as u64, b) == capped(a + b),
{
}

/// Every directory total in the walk's accumulator is the capped total of
/// its children's sizes so far.
proof fn lemma_acc(t: Seq<IndexedFile>, d: Seq<char>)
    ensures
        acc_get(fold_sizes(t).1, d) == capped(children_size(with_folder_sizes(t), d)),
    decreases t.len(),
{
    if t.len() == 0 {
        assert(fold_sizes(t).1 == Map::<Seq<char>, u64>::empty());
    } else {
        let t1 = t.drop_last();
        lemma_acc(t1, d);
        lemma_fold_len(t1);
        lemma_children_nonneg(with_folder_sizes(t1), d);
        let w = with_folder_sizes(t);
        assert(w.drop_last() =~= with_folder_sizes(t1));
        let e = t.last();
        let total = fold_sizes(t).0[t.len() - 1];
        assert(w.last() == with_size(e, total));
        match parent_path(e.path@) {
            Some(p) => {
                if p == d {
                    lemma_sat(children_size(with_folder_sizes(t1), d), total);
                }
            },
            None => {},
        }
    }
}

proof fn lemma_depth_concat(a: Seq<char>, b: Seq<char>)
    ensures
        depth(a + b) == depth(a) + depth(b),
    decreases b.len(),
{
    if b.len() > 0 {
        assert((a + b).drop_last() =~= a + b.drop_last());
        lemma_depth_concat(a, b.drop_last());
    } else {
        assert(a + b =~= a);
    }
}

proof fn lemma_depth_none(s: Seq<char>)
    requires
        forall|k: int| 0 <= k < s.len() ==> s[k] != '\\',
    ensures
        depth(s) == 0,
    decreases s.len(),
{
    if s.len() > 0 {
        lemma_depth_none(s.drop_last());
    }
}

/// A path is one level below its parent directory.
pub(crate) proof fn lemma_depth_parent(p: Seq<char>)
    requires
        parent_path(p) is Some,
    ensures
        depth(p) == depth(parent_path(p)->0) + 1,
{
    let k = rfind_char(p, '\\');
    lemma_rfind_char(p, '\\');
    let q = p.take(k);
    let rest = p.skip(k + 1);
    assert(p =~= q + seq!['\\'] + rest);
    assert forall|j: int| 0 <= j < rest.len() implies rest[j] != '\\' by {
        assert(rest[j] == p[k + 1 + j]);
    }
    lemma_depth_none(rest);
    lemma_depth_concat(q + seq!['\\'], rest);
    lemma_depth_concat(q, seq!['\\']);
    assert(seq!['\\'].drop_last() =~= Seq::<char>::empty());
    assert(depth(Seq::<char>::empty()) == 0);
    assert(depth(seq!['\\']) == 1);
    assert(parent_path(p)->0 == q);
}

proof fn lemma_with_depth_all(es: Seq<IndexedFile>, d: int)
    ensures
        forall|j: int|
            0 <= j < with_depth(es, d).len() ==> depth_at(with_depth(es, d), j) == d,
    decreases es.len(),
{
    if es.len() > 0 {
        let r = with_depth(es.drop_last(), d);
        lemma_with_depth_all(es.drop_last(), d);
        let w = with_depth(es, d);
        assert forall|j: int| 0 <= j < w.len() implies depth_at(w, j) == d by {
            if j < r.len() {
                assert(w[j] == r[j]);
                assert(depth_at(r, j) == d);
            } else {
                assert(w[j] == es.last());
            }
        }
    }
}

/// The buckets come deepest first.
pub(crate) proof fn lemma_buckets_sorted(es: Seq<IndexedFile>, hi: int, lo: int)
    ensures
        forall|j: int|
            0 <= j < desc_buckets(es, hi, lo).len() ==> depth_at(desc_buckets(es, hi, lo), j)
                >= lo,
        forall|i: int, j: int|
            0 <= i < j < desc_buckets(es, hi, lo).len() ==> depth_at(desc_buckets(es, hi, lo), i)
                >= depth_at(desc_buckets(es, hi, lo), j),
    decreases hi - lo + 1,
{
    if hi >= lo {
        lemma_buckets_sorted(es, hi, lo + 1);
        lemma_with_depth_all(es, lo);
        let a = desc_buckets(es, hi, lo + 1);
        let b = with_depth(es, lo);
        let s = desc_buckets(es, hi, lo);
        assert(s == a + b);
        assert forall|j: int| 0 <= j < s.len() implies depth_at(s, j) >= lo by {
            if j < a.len() {
                assert(s[j] == a[j]);
                assert(depth_at(a, j) >= lo + 1);
            } else {
                assert(s[j] == b[j - a.len()]);
                assert(depth_at(b, j - a.len()) == lo);
            }
        }
        assert forall|i: int, j: int| 0 <= i < j < s.len() implies depth_at(s, i) >= depth_at(s, j) by {
            if j < a.len() {
                assert(s[i] == a[i] && s[j] == a[j]);
                assert(depth_at(a, i) >= depth_at(a, j));
            } else if i < a.len() {
                assert(s[i] == a[i] && s[j] == b[j - a.len()]);
                assert(depth_at(a, i) >= lo + 1);
                assert(depth_at(b, j - a.len()) == lo);
            } else {
                assert(s[i] == b[i - a.len()] && s[j] == b[j - a.len()]);
                assert(depth_at(b, i - a.len()) == lo);
                assert(depth_at(b, j - a.len()) == lo);
            }
        }
    }
}

/// Entries from position `i` on that are no children of `d` add nothing.
proof fn lemma_children_prefix(s: Seq<IndexedFile>, d: Seq<char>, i: int)
    requires
        0 <= i <= s.len(),
        forall|j: int| i <= j < s.len() ==> parent_path(#[trigger] s[j].path@) != Some(d),
    ensures
        children_size(s, d) == children_size(s.take(i), d),
    decreases s.len(),
{
    if s.len() == i {
        assert(s.take(i) =~= s);
    } else {
        let s1 = s.drop_last();
        assert(s1.take(i) =~= s.take(i));
        assert forall|j: int| i <= j < s1.len() implies parent_path(#[trigger] s1[j].path@) != Some(
            d,
        ) by {
            assert(s1[j] == s[j]);
        }
        lemma_children_prefix(s1, d, i);
        assert(parent_path(s[s.len() - 1].path@) != Some(d));
    }
}

/// After the sizes are computed (entries ordered deepest first, each
/// directory given what its children added), every directory's size is the
/// total of its children's sizes, held at `u64::MAX`; files keep their own
/// size.
pub proof fn law_directory_size_is_children_total(before: Seq<IndexedFile>, after: Seq<IndexedFile>)
    requires
        after == with_folder_sizes(deepest_first(before)),
    ensures
        after.len() == deepest_first(before).len(),
        forall|i: int|
            0 <= i < after.len() && (#[trigger] after[i]).is_dir ==> after[i].size == capped(
                children_size(after, after[i].path@),
            ),
        forall|i: int|
            0 <= i < after.len() && !(#[trigger] after[i]).is_dir ==> after[i].size
                == deepest_first(before)[i].size,
{
    let t = deepest_first(before);
    lemma_buckets_sorted(before, max_depth(before) as int, 0);
    assert forall|i: int| 0 <= i < after.len() && (#[trigger] after[i]).is_dir implies after[i].size
        == capped(children_size(after, after[i].path@)) by {
        let d = t[i].path@;
        lemma_fold_at(t, i);
        lemma_acc(t.take(i), d);
        lemma_fold_prefix(t, i);
        lemma_fold_len(t);
        assert(with_folder_sizes(t.take(i)) =~= after.take(i));
        assert forall|j: int| i <= j < after.len() implies parent_path(
            #[trigger] after[j].path@,
        ) != Some(d) by {
            assert(after[j].path@ == t[j].path@);
            if parent_path(t[j].path@) == Some(d) {
                lemma_depth_parent(t[j].path@);
                if j > i {
                    assert(depth_at(t, i) >= depth_at(t, j));
                }
            }
        }
        lemma_children_prefix(after, d, i);
    }
    assert forall|i: int| 0 <= i < after.len() && !(#[trigger] after[i]).is_dir implies after[i].size
        == t[i].size by {
        lemma_fold_at(t, i);
    }
}

// ---------------------------------------------------------------------------
// Keeping the sizes while files change
// ---------------------------------------------------------------------------

/// What entry `x` adds to the total below directory path `d`.
pub open spec fn adds_below(x: IndexedFile, d: Seq<char>) -> int {
    if !x.is_dir && is_ancestor(d, x.path@) {
        x.size as int
    } else {
        0
    }
}

/// The total size of the files of `s` below directory path `d`.
pub open spec fn files_below(s: Seq<IndexedFile>, d: Seq<char>) -> int
    decreases s.len(),
{
    if s.len() == 0 {
        0
    } else {
        files_below(s.drop_last(), d) + adds_below(s.last(), d)
    }
}

/// The total size of the files of `s`.
pub open spec fn files_total(s: Seq<IndexedFile>) -> int
    decreases s.len(),
{
    if s.len() == 0 {
        0
    } else {
        files_total(s.drop_last()) + if s.last().is_dir {
            0
        } else {
            s.last().size as int
        }
    }
}

/// Every directory's size is the total size of the files below it.
pub open spec fn sizes_consistent(s: Seq<IndexedFile>) -> bool {
    forall|i: int|
        0 <= i < s.len() && (#[trigger] s[i]).is_dir ==> s[i].size == files_below(s, s[i].path@)
}

/// No file of `s` stands where a directory above `p` would.
pub open spec fn ancestors_are_dirs(s: Seq<IndexedFile>, p: Seq<char>) -> bool {
    forall|j: int| 0 <= j < s.len() && is_ancestor((#[trigger] s[j]).path@, p) ==> s[j].is_dir
}

pub(crate) proof fn lemma_below_bounds(s: Seq<IndexedFile>, d: Seq<char>)
    ensures
        0 <= files_below(s, d) <= files_total(s),
    decreases s.len(),
{
    if s.len() > 0 {
        lemma_below_bounds(s.drop_last(), d);
    }
}

proof fn lemma_below_update(s: Seq<IndexedFile>, i: int, e: IndexedFile, d: Seq<char>)
    requires
        0 <= i < s.len(),
    ensures
        files_below(s.update(i, e), d) == files_below(s, d) - adds_below(s[i], d) + adds_below(e, d),
        files_total(s.update(i, e)) == files_total(s) - (if s[i].is_dir {
            0
        } else {
            s[i].size as int
        }) + (if e.is_dir {
            0
        } else {
            e.size as int
        }),
    decreases s.len(),
{
    let u = s.update(i, e);
    if i == s.len() - 1 {
        assert(u.drop_last() =~= s.drop_last());
    } else {
        assert(u.drop_last() =~= s.drop_last().update(i, e));
        lemma_below_update(s.drop_last(), i, e, d);
    }
}

proof fn lemma_below_push(s: Seq<IndexedFile>, e: IndexedFile, d: Seq<char>)
    ensures
        files_below(s.push(e), d) == files_below(s, d) + adds_below(e, d),
        files_total(s.push(e)) == files_total(s) + (if e.is_dir {
            0
        } else {
            e.size as int
        }),
{
    assert(s.push(e).drop_last() =~= s);
}

/// Adjusting directories above `p` leaves the file totals as they are.
proof fn lemma_below_adjust(s: Seq<IndexedFile>, p: Seq<char>, delta: int, d: Seq<char>)
    requires
        ancestors_are_dirs(s, p),
    ensures
        files_below(adjust(s, p, delta), d) == files_below(s, d),
    decreases s.len(),
{
    if s.len() > 0 {
        let s1 = s.drop_last();
        assert(adjust(s, p, delta).drop_last() =~= adjust(s1, p, delta));
        assert forall|j: int| 0 <= j < s1.len() && is_ancestor((#[trigger] s1[j]).path@, p) implies s1[j].is_dir by {
            assert(s1[j] == s[j]);
        }
        lemma_below_adjust(s1, p, delta, d);
        let last = s[s.len() - 1];
        if is_ancestor(last.path@, p) {
            assert(last.is_dir);
        }
    }
}

/// Upserting a file keeps every directory's size equal to the total of the
/// files below it, where the entries above the file are directories and each
/// of them still totals within a `u64`.
pub proof fn law_file_upsert_keeps_directory_sizes(s: Seq<IndexedFile>, e: IndexedFile)
    requires
        distinct_paths(s),
        sizes_consistent(s),
        !e.is_dir,
        entry_of(s, e.path@) matches Some(o) ==> !o.is_dir,
        ancestors_are_dirs(s, e.path@),
        forall|j: int|
            0 <= j < s.len() && is_ancestor((#[trigger] s[j]).path@, e.path@) ==> files_below(
                put(s, e),
                s[j].path@,
            ) <= u64::MAX,
    ensures
        sizes_consistent(adjust(put(s, upserted(s, e)), e.path@, upsert_delta(s, e))),
{
    let p = e.path@;
    let s1 = put(s, e);
    let delta = upsert_delta(s, e);
    assert(upserted(s, e) == e);
    let n = adjust(s1, p, delta);
    // the entries above `p` in `s1` are directories
    assert forall|j: int| 0 <= j < s1.len() && is_ancestor((#[trigger] s1[j]).path@, p) implies s1[j].is_dir by {
        match path_pos(s, p) {
            Some(i) => {
                if j != i {
                    assert(s1[j] == s[j]);
                }
            },
            None => {
                if j < s.len() {
                    assert(s1[j] == s[j]);
                }
            },
        }
    }
    assert forall|k: int| 0 <= k < n.len() && (#[trigger] n[k]).is_dir implies n[k].size == files_below(n, n[k].path@) by {
        let dk = s1[k].path@;
        assert(n[k].path@ == dk);
        lemma_below_adjust(s1, p, delta, dk);
        match path_pos(s, p) {
            Some(i) => {
                assert(s[i].path@ == p);
                assert(k != i);
                assert(s1[k] == s[k]);
                lemma_below_update(s, i, e, dk);
                lemma_below_bounds(s1, dk);
                assert(delta == e.size - s[i].size);
            },
            None => {
                assert(k < s.len());
                assert(s1[k] == s[k]);
                lemma_below_push(s, e, dk);
                lemma_below_bounds(s1, dk);
            },
        }
        assert(s[k].size == files_below(s, dk));
        if is_ancestor(dk, p) {
            assert(n[k] == with_size(s1[k], clamp_size(s1[k].size, delta)));
        } else {
            assert(n[k] == s1[k]);
        }
    }
}

proof fn lemma_below_part(s: Seq<IndexedFile>, i: int, d: Seq<char>)
    requires
        0 <= i < s.len(),
    ensures
        files_below(s, d) >= adds_below(s[i], d),
    decreases s.len(),
{
    lemma_below_bounds(s.drop_last(), d);
    if i < s.len() - 1 {
        lemma_below_part(s.drop_last(), i, d);
    }
}

proof fn lemma_below_take_out(s: Seq<IndexedFile>, i: int, d: Seq<char>)
    requires
        0 <= i < s.len(),
    ensures
        files_below(take_out(s, i), d) == files_below(s, d) - adds_below(s[i], d),
{
    let u = s.update(i, s.last());
    lemma_below_update(s, i, s.last(), d);
    assert(u.drop_last() == take_out(s, i));
    assert(u.last() == s.last());
}

/// Removing a file keeps every directory's size equal to the total of the
/// files below it, where the entries above the file are directories.
pub proof fn law_file_remove_keeps_directory_sizes(s: Seq<IndexedFile>, p: Seq<char>)
    requires
        distinct_paths(s),
        sizes_consistent(s),
        path_pos(s, p) matches Some(i) && !s[i].is_dir,
        ancestors_are_dirs(s, p),
    ensures
        ({
            let i = path_pos(s, p)->0;
            sizes_consistent(adjust(take_out(s, i), p, -(s[i].size as int)))
        }),
{
    let i = path_pos(s, p)->0;
    let o = s[i];
    assert(o.path@ == p);
    let t = take_out(s, i);
    let delta = -(o.size as int);
    let n = adjust(t, p, delta);
    assert forall|k: int| 0 <= k < t.len() implies #[trigger] t[k] == (if k == i {
        s[s.len() - 1]
    } else {
        s[k]
    }) by {}
    assert forall|j: int| 0 <= j < t.len() && is_ancestor((#[trigger] t[j]).path@, p) implies t[j].is_dir by {
        if j == i {
            assert(t[j] == s[s.len() - 1]);
        } else {
            assert(t[j] == s[j]);
        }
    }
    assert forall|k: int| 0 <= k < n.len() && (#[trigger] n[k]).is_dir implies n[k].size == files_below(n, n[k].path@) by {
        let x = t[k];
        let dk = x.path@;
        let src: int = if k == i { s.len() - 1 } else { k };
        assert(x == s[src]);
        assert(src != i);
        assert(n[k].path@ == dk);
        lemma_below_adjust(t, p, delta, dk);
        lemma_below_take_out(s, i, dk);
        lemma_below_part(s, i, dk);
        assert(s[src].size == files_below(s, dk));
        if is_ancestor(dk, p) {
            assert(n[k] == with_size(x, clamp_size(x.size, delta)));
        } else {
            assert(n[k] == x);
        }
    }
}

/// What the files of `s` inside `prefix` add below `d`.
pub open spec fn inside_below(s: Seq<IndexedFile>, prefix: Seq<char>, d: Seq<char>) -> int
    decreases s.len(),
{
    if s.len() == 0 {
        0
    } else {
        inside_below(s.drop_last(), prefix, d) + if under(s.last().path@, prefix) {
            adds_below(s.last(), d)
        } else {
            0
        }
    }
}

proof fn lemma_below_retain(s: Seq<IndexedFile>, prefix: Seq<char>, d: Seq<char>)
    ensures
        files_below(retain(s, outside(prefix)), d) == files_below(s, d) - inside_below(s, prefix, d),
    decreases s.len(),
{
    if s.len() > 0 {
        lemma_below_retain(s.drop_last(), prefix, d);
        let r = retain(s.drop_last(), outside(prefix));
        if outside(prefix)(s.last()) {
            assert(retain(s, outside(prefix)).drop_last() =~= r);
        }
    }
}

/// Every entry `retain` keeps is an entry of `s`.
proof fn lemma_retain_from(s: Seq<IndexedFile>, f: spec_fn(IndexedFile) -> bool, k: int)
    requires
        0 <= k < retain(s, f).len(),
    ensures
        exists|j: int| 0 <= j < s.len() && s[j] == retain(s, f)[k],
        f(retain(s, f)[k]),
    decreases s.len(),
{
    let r = retain(s.drop_last(), f);
    if k < r.len() {
        lemma_retain_from(s.drop_last(), f, k);
        let j = choose|j: int| 0 <= j < s.drop_last().len() && s.drop_last()[j] == r[k];
        assert(s[j] == retain(s, f)[k]);
    } else {
        assert(s[s.len() - 1] == retain(s, f)[k]);
    }
}

pub(crate) proof fn lemma_ancestor_trans(a: Seq<char>, b: Seq<char>, c: Seq<char>)
    requires
        is_ancestor(a, b),
        is_ancestor(b, c),
    ensures
        is_ancestor(a, c),
{
    assert forall|i: int| 0 <= i < b.len() implies c[i] == b[i] by {
        assert(c.take(b.len() as int)[i] == c[i]);
    }
    assert forall|i: int| 0 <= i < a.len() implies c[i] == a[i] by {
        assert(b.take(a.len() as int)[i] == b[i]);
    }
    assert(c.take(a.len() as int) =~= a);
    assert(c[a.len() as int] == b[a.len() as int]);
}

/// A directory outside `prefix` and not above it holds nothing inside it.
proof fn lemma_apart(d: Seq<char>, prefix: Seq<char>, p: Seq<char>)
    requires
        !is_ancestor(d, prefix),
        !under(d, prefix),
        under(p, prefix),
    ensures
        !is_ancestor(d, p),
{
    if is_ancestor(d, p) {
        if d.len() < prefix.len() {
            assert(prefix.take(d.len() as int) =~= p.take(d.len() as int));
            assert(prefix[d.len() as int] == p[d.len() as int]);
        } else if d.len() == prefix.len() {
            assert(d =~= prefix);
        } else {
            assert(p != prefix);
            assert(d.take(prefix.len() as int) =~= p.take(prefix.len() as int));
            assert(d[prefix.len() as int] == p[prefix.len() as int]);
        }
    }
}

/// Below a directory above `prefix`, the files inside `prefix` add what
/// they add below `prefix`, when no file stands at `prefix` itself.
proof fn lemma_inside_all(s: Seq<IndexedFile>, prefix: Seq<char>, d: Seq<char>)
    requires
        is_ancestor(d, prefix),
        forall|j: int| 0 <= j < s.len() && (#[trigger] s[j]).path@ == prefix ==> s[j].is_dir,
    ensures
        inside_below(s, prefix, d) == files_below(s, prefix),
    decreases s.len(),
{
    if s.len() > 0 {
        let s1 = s.drop_last();
        assert forall|j: int| 0 <= j < s1.len() && (#[trigger] s1[j]).path@ == prefix implies s1[j].is_dir by {
            assert(s1[j] == s[j]);
        }
        lemma_inside_all(s1, prefix, d);
        let x = s.last();
        if !x.is_dir && under(x.path@, prefix) {
            assert(x.path@ != prefix);
            assert(is_ancestor(prefix, x.path@));
            lemma_ancestor_trans(d, prefix, x.path@);
        }
        if !x.is_dir && is_ancestor(prefix, x.path@) {
            assert(under(x.path@, prefix));
        }
    }
}

/// Below a directory apart from `prefix`, the files inside it add nothing.
proof fn lemma_inside_none(s: Seq<IndexedFile>, prefix: Seq<char>, d: Seq<char>)
    requires
        !is_ancestor(d, prefix),
        !under(d, prefix),
    ensures
        inside_below(s, prefix, d) == 0,
    decreases s.len(),
{
    if s.len() > 0 {
        lemma_inside_none(s.drop_last(), prefix, d);
        if under(s.last().path@, prefix) {
            lemma_apart(d, prefix, s.last().path@);
        }
    }
}

/// Removing a directory's subtree keeps every remaining directory's size
/// equal to the total of the files below it, where the entries above the
/// directory are directories.
pub proof fn law_subtree_remove_keeps_directory_sizes(s: Seq<IndexedFile>, prefix: Seq<char>)
    requires
        distinct_paths(s),
        sizes_consistent(s),
        entry_of(s, prefix) matches Some(e) && e.is_dir,
        ancestors_are_dirs(s, prefix),
    ensures
        sizes_consistent(adjust(retain(s, outside(prefix)), prefix, -size_at(s, prefix))),
{
    let r = retain(s, outside(prefix));
    let delta = -size_at(s, prefix);
    let n = adjust(r, prefix, delta);
    let i0 = path_pos(s, prefix)->0;
    assert(s[i0].path@ == prefix && s[i0].is_dir);
    assert forall|j: int| 0 <= j < s.len() && (#[trigger] s[j]).path@ == prefix implies s[j].is_dir by {
        if j != i0 {
            assert(s[j].path@ != s[i0].path@);
        }
    }
    assert(size_at(s, prefix) == files_below(s, prefix));
    assert forall|j: int| 0 <= j < r.len() && is_ancestor((#[trigger] r[j]).path@, prefix) implies r[j].is_dir by {
        lemma_retain_from(s, outside(prefix), j);
    }
    assert forall|k: int| 0 <= k < n.len() && (#[trigger] n[k]).is_dir implies n[k].size == files_below(n, n[k].path@) by {
        let x = r[k];
        let dk = x.path@;
        lemma_retain_from(s, outside(prefix), k);
        let m = choose|m: int| 0 <= m < s.len() && s[m] == r[k];
        assert(n[k].path@ == dk);
        assert(n[k].is_dir == x.is_dir);
        assert(s[m].size == files_below(s, dk));
        lemma_below_adjust(r, prefix, delta, dk);
        lemma_below_retain(s, prefix, dk);
        lemma_below_bounds(r, dk);
        assert(outside(prefix)(x));
        if is_ancestor(dk, prefix) {
            lemma_inside_all(s, prefix, dk);
            assert(n[k] == with_size(x, clamp_size(x.size, delta)));
        } else {
            lemma_inside_none(s, prefix, dk);
            assert(n[k] == x);
        }
    }
}

// ---------------------------------------------------------------------------
// Renaming a subtree
// ---------------------------------------------------------------------------

proof fn lemma_below_concat(a: Seq<IndexedFile>, b: Seq<IndexedFile>, d: Seq<char>)
    ensures
        files_below(a + b, d) == files_below(a, d) + files_below(b, d),
        files_total(a + b) == files_total(a) + files_total(b),
    decreases b.len(),
{
    if b.len() == 0 {
        assert(a + b =~= a);
    } else {
        assert((a + b).drop_last() =~= a + b.drop_last());
        lemma_below_concat(a, b.drop_last(), d);
    }
}

/// Putting entries whose paths are new and distinct appends them.
proof fn lemma_put_all_append(k: Seq<IndexedFile>, m: Seq<IndexedFile>)
    requires
        distinct_paths(m),
        forall|a: int, b: int|
            0 <= a < k.len() && 0 <= b < m.len() ==> (#[trigger] k[a]).path@ != (#[trigger] m[b]).path@,
    ensures
        put_all(k, m) == k + m,
    decreases m.len(),
{
    if m.len() == 0 {
        assert(k + m =~= k);
    } else {
        let m1 = m.drop_last();
        assert forall|a: int, b: int| 0 <= a < b < m1.len() implies (#[trigger] m1[a]).path@ != (
        #[trigger] m1[b]).path@ by {
            assert(m[a].path@ != m[b].path@);
        }
        assert forall|a: int, b: int|
            0 <= a < k.len() && 0 <= b < m1.len() implies (#[trigger] k[a]).path@ != (
            #[trigger] m1[b]).path@ by {
            assert(m1[b] == m[b]);
        }
        lemma_put_all_append(k, m1);
        let u = k + m1;
        let x = m.last();
        assert forall|i: int| 0 <= i < u.len() implies (#[trigger] u[i]).path@ != x.path@ by {
            if i < k.len() {
                assert(u[i] == k[i]);
                assert(k[i].path@ != m[m.len() - 1].path@);
            } else {
                assert(u[i] == m[i - k.len()]);
                assert(m[i - k.len()].path@ != m[m.len() - 1].path@);
            }
        }
        assert(path_pos(u, x.path@) is None);
        assert(u.push(x) =~= k + m);
    }
}

/// Whether `x + ra` is above `x + rb` is decided by `ra` and `rb` alone.
proof fn lemma_anc_form(x: Seq<char>, ra: Seq<char>, rb: Seq<char>)
    ensures
        is_ancestor(x + ra, x + rb) == (ra.len() < rb.len() && rb[ra.len() as int] == '\\'
            && rb.take(ra.len() as int) == ra),
{
    let l = x.len() as int;
    let a = x + ra;
    let b = x + rb;
    if ra.len() < rb.len() {
        assert(b[a.len() as int] == rb[ra.len() as int]);
        if rb.take(ra.len() as int) == ra {
            assert(b.take(a.len() as int) =~= a);
        }
        if b.take(a.len() as int) == a {
            assert forall|i: int| 0 <= i < ra.len() implies rb.take(ra.len() as int)[i] == ra[i] by {
                assert(b.take(a.len() as int)[l + i] == a[l + i]);
            }
            assert(rb.take(ra.len() as int) =~= ra);
        }
    }
}

/// Renaming keeps which entries of the subtree lie above which.
proof fn lemma_rename_anc(p: Seq<char>, q: Seq<char>, old: Seq<char>, new: Seq<char>)
    requires
        under(p, old),
        under(q, old),
    ensures
        is_ancestor(rename_target(p, old, new), rename_target(q, old, new)) == is_ancestor(p, q),
{
    let l = old.len() as int;
    assert(p =~= old + p.skip(l));
    assert(q =~= old + q.skip(l));
    lemma_anc_form(old, p.skip(l), q.skip(l));
    lemma_anc_form(new, p.skip(l), q.skip(l));
}

proof fn lemma_under_trans(d: Seq<char>, prefix: Seq<char>, p: Seq<char>)
    requires
        under(d, prefix),
        is_ancestor(d, p),
    ensures
        under(p, prefix),
        p != prefix,
{
    if d == prefix {
    } else {
        assert(is_ancestor(prefix, d));
        lemma_ancestor_trans(prefix, d, p);
    }
}

/// No file of `s` lies below a directory inside `prefix` when no entry of
/// `s` is inside `prefix`.
proof fn lemma_below_zero(s: Seq<IndexedFile>, d: Seq<char>, prefix: Seq<char>)
    requires
        under(d, prefix),
        forall|j: int| 0 <= j < s.len() ==> !under((#[trigger] s[j]).path@, prefix),
    ensures
        files_below(s, d) == 0,
    decreases s.len(),
{
    if s.len() > 0 {
        let s1 = s.drop_last();
        assert forall|j: int| 0 <= j < s1.len() implies !under((#[trigger] s1[j]).path@, prefix) by {
            assert(s1[j] == s[j]);
        }
        lemma_below_zero(s1, d, prefix);
        let x = s[s.len() - 1];
        if is_ancestor(d, x.path@) {
            lemma_under_trans(d, prefix, x.path@);
        }
    }
}

proof fn lemma_inside_retain(s: Seq<IndexedFile>, prefix: Seq<char>, d: Seq<char>)
    ensures
        inside_below(s, prefix, d) == files_below(retain(s, inside(prefix)), d),
    decreases s.len(),
{
    if s.len() > 0 {
        lemma_inside_retain(s.drop_last(), prefix, d);
        let r = retain(s.drop_last(), inside(prefix));
        if inside(prefix)(s.last()) {
            assert(retain(s, inside(prefix)).drop_last() =~= r);
        }
    }
}

proof fn lemma_total_split(s: Seq<IndexedFile>, prefix: Seq<char>)
    ensures
        files_total(s) == files_total(retain(s, outside(prefix))) + files_total(
            retain(s, inside(prefix)),
        ),
    decreases s.len(),
{
    if s.len() > 0 {
        lemma_total_split(s.drop_last(), prefix);
        if outside(prefix)(s.last()) {
            assert(retain(s, outside(prefix)).drop_last() =~= retain(s.drop_last(), outside(prefix)));
        } else {
            assert(retain(s, inside(prefix)).drop_last() =~= retain(s.drop_last(), inside(prefix)));
        }
    }
}

/// The files inside `prefix` are the files below it, when no file stands at
/// `prefix` itself.
proof fn lemma_inside_total(s: Seq<IndexedFile>, prefix: Seq<char>)
    requires
        forall|j: int| 0 <= j < s.len() && (#[trigger] s[j]).path@ == prefix ==> s[j].is_dir,
    ensures
        files_total(retain(s, inside(prefix))) == files_below(s, prefix),
    decreases s.len(),
{
    if s.len() > 0 {
        let s1 = s.drop_last();
        assert forall|j: int| 0 <= j < s1.len() && (#[trigger] s1[j]).path@ == prefix implies s1[j].is_dir by {
            assert(s1[j] == s[j]);
        }
        lemma_inside_total(s1, prefix);
        let x = s.last();
        if inside(prefix)(x) {
            assert(retain(s, inside(prefix)).drop_last() =~= retain(s1, inside(prefix)));
            if !x.is_dir {
                assert(x.path@ != prefix);
                assert(is_ancestor(prefix, x.path@));
            }
        }
        if !x.is_dir && is_ancestor(prefix, x.path@) {
            assert(under(x.path@, prefix));
        }
    }
}

/// A renamed subtree holds below each of its renamed directories what it
/// held below the directory before.
proof fn lemma_moved_below(
    moved: Seq<IndexedFile>,
    gone: Seq<IndexedFile>,
    old: Seq<char>,
    new: Seq<char>,
    gp: Seq<char>,
)
    requires
        all_renamed(moved, gone, old, new),
        forall|j: int| 0 <= j < gone.len() ==> under((#[trigger] gone[j]).path@, old),
        under(gp, old),
    ensures
        files_below(moved, rename_target(gp, old, new)) == files_below(gone, gp),
        files_total(moved) == files_total(gone),
    decreases gone.len(),
{
    if gone.len() > 0 {
        let m1 = moved.drop_last();
        let g1 = gone.drop_last();
        assert forall|k: int| 0 <= k < m1.len() implies is_renamed(#[trigger] m1[k], g1[k], old, new) by {
            assert(m1[k] == moved[k] && g1[k] == gone[k]);
            assert(is_renamed(moved[k], gone[k], old, new));
        }
        assert forall|j: int| 0 <= j < g1.len() implies under((#[trigger] g1[j]).path@, old) by {
            assert(g1[j] == gone[j]);
        }
        lemma_moved_below(m1, g1, old, new, gp);
        let n = gone.len() - 1;
        assert(is_renamed(moved[n], gone[n], old, new));
        assert(under(gone[n].path@, old));
        lemma_rename_anc(gp, gone[n].path@, old, new);
    }
}

/// Below a directory above `new`, a renamed subtree (whose files lie
/// strictly below `old`) holds all its files.
proof fn lemma_moved_all(moved: Seq<IndexedFile>, gone: Seq<IndexedFile>, old: Seq<char>, new: Seq<char>, d: Seq<char>)
    requires
        all_renamed(moved, gone, old, new),
        forall|j: int| 0 <= j < gone.len() ==> under((#[trigger] gone[j]).path@, old),
        forall|j: int| 0 <= j < gone.len() && (#[trigger] gone[j]).path@ == old ==> gone[j].is_dir,
        is_ancestor(d, new),
    ensures
        files_below(moved, d) == files_total(moved),
    decreases gone.len(),
{
    if gone.len() > 0 {
        let m1 = moved.drop_last();
        let g1 = gone.drop_last();
        assert forall|k: int| 0 <= k < m1.len() implies is_renamed(#[trigger] m1[k], g1[k], old, new) by {
            assert(m1[k] == moved[k] && g1[k] == gone[k]);
            assert(is_renamed(moved[k], gone[k], old, new));
        }
        assert forall|j: int| 0 <= j < g1.len() implies under((#[trigger] g1[j]).path@, old) by {
            assert(g1[j] == gone[j]);
        }
        assert forall|j: int| 0 <= j < g1.len() && (#[trigger] g1[j]).path@ == old implies g1[j].is_dir by {
            assert(g1[j] == gone[j]);
        }
        lemma_moved_all(m1, g1, old, new, d);
        let n = gone.len() - 1;
        assert(is_renamed(moved[n], gone[n], old, new));
        let g = gone[n];
        if !g.is_dir {
            assert(g.path@ != old);
            assert(is_ancestor(old, g.path@));
            lemma_rename_anc(old, g.path@, old, new);
            assert(old.skip(old.len() as int) =~= Seq::<char>::empty());
            assert(rename_target(old, old, new) =~= new);
            lemma_ancestor_trans(d, new, moved[n].path@);
        }
    }
}

/// Below a directory apart from `new`, a subtree moved under `new` holds
/// nothing.
proof fn lemma_moved_none(moved: Seq<IndexedFile>, new: Seq<char>, d: Seq<char>)
    requires
        forall|j: int| 0 <= j < moved.len() ==> under((#[trigger] moved[j]).path@, new),
        !is_ancestor(d, new),
        !under(d, new),
    ensures
        files_below(moved, d) == 0,
    decreases moved.len(),
{
    if moved.len() > 0 {
        let m1 = moved.drop_last();
        assert forall|j: int| 0 <= j < m1.len() implies under((#[trigger] m1[j]).path@, new) by {
            assert(m1[j] == moved[j]);
        }
        lemma_moved_none(m1, new, d);
        lemma_apart(d, new, moved[moved.len() - 1].path@);
    }
}

proof fn lemma_target_under(p: Seq<char>, old: Seq<char>, new: Seq<char>)
    requires
        under(p, old),
    ensures
        under(rename_target(p, old, new), new),
{
    let l = old.len() as int;
    let t = rename_target(p, old, new);
    if p == old {
        assert(p.skip(l) =~= Seq::<char>::empty());
        assert(t =~= new);
    } else {
        assert(t.take(new.len() as int) =~= new);
        assert(t[new.len() as int] == p[l]);
    }
}

/// Renaming a directory's subtree to a free place keeps every directory's
/// size equal to the total of the files below it, where the entries above
/// both places are directories, the new place is not inside the subtree,
/// and the files' total fits a `u64`.
pub proof fn law_subtree_rename_keeps_directory_sizes(
    s: Seq<IndexedFile>,
    moved: Seq<IndexedFile>,
    old: Seq<char>,
    new: Seq<char>,
)
    requires
        distinct_paths(s),
        sizes_consistent(s),
        entry_of(s, old) matches Some(e) && e.is_dir,
        ancestors_are_dirs(s, old),
        ancestors_are_dirs(s, new),
        forall|j: int| 0 <= j < s.len() ==> !under((#[trigger] s[j]).path@, new),
        !under(new, old),
        files_total(s) <= u64::MAX,
        all_renamed(moved, retain(s, inside(old)), old, new),
    ensures
        sizes_consistent(
            adjust(
                adjust(put_all(retain(s, outside(old)), moved), old, -size_at(s, old)),
                new,
                size_at(s, old),
            ),
        ),
{
    let kept = retain(s, outside(old));
    let gone = retain(s, inside(old));
    let t = size_at(s, old);
    let i0 = path_pos(s, old)->0;
    assert(s[i0].path@ == old && s[i0].is_dir);
    assert forall|j: int| 0 <= j < s.len() && (#[trigger] s[j]).path@ == old implies s[j].is_dir by {
        if j != i0 {
            assert(s[j].path@ != s[i0].path@);
        }
    }
    assert(t == files_below(s, old));
    // where the kept and the moved entries stand
    assert forall|k: int| 0 <= k < kept.len() implies (exists|j: int| 0 <= j < s.len() && s[j] == #[trigger] kept[k]) && !under(kept[k].path@, old) by {
        lemma_retain_from(s, outside(old), k);
    }
    assert forall|k: int| 0 <= k < gone.len() implies (exists|j: int| 0 <= j < s.len() && s[j] == #[trigger] gone[k]) && under(gone[k].path@, old) by {
        lemma_retain_from(s, inside(old), k);
    }
    assert forall|k: int| 0 <= k < kept.len() implies !under((#[trigger] kept[k]).path@, new) by {
        let j = choose|j: int| 0 <= j < s.len() && s[j] == kept[k];
    }
    assert forall|k: int| 0 <= k < gone.len() && (#[trigger] gone[k]).path@ == old implies gone[k].is_dir by {
        let j = choose|j: int| 0 <= j < s.len() && s[j] == gone[k];
    }
    assert forall|k: int| 0 <= k < moved.len() implies under((#[trigger] moved[k]).path@, new) by {
        assert(is_renamed(moved[k], gone[k], old, new));
        lemma_target_under(gone[k].path@, old, new);
    }
    // the moved entries are appended
    lemma_retain(s, inside(old));
    assert forall|a: int, b: int| 0 <= a < b < moved.len() implies (#[trigger] moved[a]).path@ != (
    #[trigger] moved[b]).path@ by {
        assert(is_renamed(moved[a], gone[a], old, new));
        assert(is_renamed(moved[b], gone[b], old, new));
        assert(gone[a].path@ != gone[b].path@);
        let l = old.len() as int;
        assert(gone[a].path@ =~= old + gone[a].path@.skip(l));
        assert(gone[b].path@ =~= old + gone[b].path@.skip(l));
        if moved[a].path@ == moved[b].path@ {
            assert(gone[a].path@.skip(l) =~= moved[a].path@.skip(new.len() as int));
            assert(gone[b].path@.skip(l) =~= moved[b].path@.skip(new.len() as int));
        }
    }
    assert forall|a: int, b: int| 0 <= a < kept.len() && 0 <= b < moved.len() implies (
    #[trigger] kept[a]).path@ != (#[trigger] moved[b]).path@ by {
        assert(under(moved[b].path@, new));
    }
    lemma_put_all_append(kept, moved);
    let u = kept + moved;
    lemma_below_concat(kept, moved, Seq::<char>::empty());
    lemma_total_split(s, old);
    lemma_inside_total(s, old);
    lemma_moved_below(moved, gone, old, new, old);
    // the entries above either place are kept directories
    let v = adjust(u, old, -t);
    let n = adjust(v, new, t);
    assert forall|j: int| 0 <= j < u.len() && is_ancestor((#[trigger] u[j]).path@, old) implies u[j].is_dir by {
        if j < kept.len() {
            assert(u[j] == kept[j]);
            let i = choose|i: int| 0 <= i < s.len() && s[i] == kept[j];
        } else {
            assert(u[j] == moved[j - kept.len()]);
            assert(under(u[j].path@, new));
            if is_ancestor(u[j].path@, old) {
                lemma_under_trans(u[j].path@, new, old);
                assert(under(old, new));
                assert(under(s[i0].path@, new));
            }
        }
    }
    assert forall|j: int| 0 <= j < v.len() && is_ancestor((#[trigger] v[j]).path@, new) implies v[j].is_dir by {
        assert(v[j].path@ == u[j].path@ && v[j].is_dir == u[j].is_dir);
        if j < kept.len() {
            assert(u[j] == kept[j]);
            let i = choose|i: int| 0 <= i < s.len() && s[i] == kept[j];
        } else {
            assert(u[j] == moved[j - kept.len()]);
            assert(under(u[j].path@, new));
            if u[j].path@ == new {
            } else {
                assert(is_ancestor(new, u[j].path@));
            }
        }
    }
    assert forall|k: int| 0 <= k < n.len() && (#[trigger] n[k]).is_dir implies n[k].size == files_below(n, n[k].path@) by {
        let x = u[k];
        let dk = x.path@;
        assert(n[k].path@ == dk && v[k].path@ == dk);
        lemma_below_adjust(u, old, -t, dk);
        lemma_below_adjust(v, new, t, dk);
        lemma_below_concat(kept, moved, dk);
        lemma_below_bounds(u, dk);
        if k < kept.len() {
            assert(x == kept[k]);
            let i = choose|i: int| 0 <= i < s.len() && s[i] == kept[k];
            assert(x.size == files_below(s, dk));
            lemma_below_retain(s, old, dk);
            lemma_below_bounds(kept, dk);
            if is_ancestor(dk, old) {
                lemma_inside_all(s, old, dk);
            } else {
                lemma_inside_none(s, old, dk);
            }
            if is_ancestor(dk, new) {
                lemma_moved_all(moved, gone, old, new, dk);
            } else {
                lemma_moved_none(moved, new, dk);
            }
            assert(v[k] == (if is_ancestor(dk, old) {
                with_size(x, clamp_size(x.size, -t))
            } else {
                x
            }));
            assert(n[k] == (if is_ancestor(dk, new) {
                with_size(v[k], clamp_size(v[k].size, t))
            } else {
                v[k]
            }));
        } else {
            let g = gone[k - kept.len()];
            assert(x == moved[k - kept.len()]);
            assert(is_renamed(x, g, old, new));
            let i = choose|i: int| 0 <= i < s.len() && s[i] == g;
            assert(g.size == files_below(s, g.path@));
            assert(under(dk, new));
            // nothing of the kept entries lies below a moved directory
            lemma_below_zero(kept, dk, new);
            // the moved subtree holds what the subtree held
            lemma_moved_below(moved, gone, old, new, g.path@);
            lemma_below_retain(s, old, g.path@);
            lemma_inside_retain(s, old, g.path@);
            lemma_below_zero(kept, g.path@, old);
            // a moved directory is above neither place
            if is_ancestor(dk, old) {
                lemma_under_trans(dk, new, old);
                assert(under(s[i0].path@, new));
            }
            assert(!is_ancestor(dk, new));
            assert(v[k] == x);
            assert(n[k] == x);
        }
    }
}

} // verus!
