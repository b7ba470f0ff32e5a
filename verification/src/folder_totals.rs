//! The directory sizes computed after a volume scan are recursive totals:
//! where every entry's parent directory is present and paths are unique,
//! each directory's size is the total size of the files below it.
use vstd::prelude::*;
use crate::folder_laws::{
    adds_below, capped, children_size, depth_at, files_below, files_total, lemma_below_bounds,
    lemma_ancestor_trans, lemma_buckets_sorted, lemma_depth_parent,
    law_directory_size_is_children_total, sizes_consistent,
};
use crate::index::{distinct_paths, is_ancestor};
use crate::mft::{deepest_first, depth, desc_buckets, max_depth, parent_path, with_depth, with_folder_sizes};
use crate::types::{IndexedFile, lemma_rfind_char, rfind_char};

verus! {

/// `f(0) + ... + f(n - 1)`.
pub open spec fn isum(n: int, f: spec_fn(int) -> int) -> int
    decreases n,
{
    if n <= 0 {
        0
    } else {
        isum(n - 1, f) + f(n - 1)
    }
}

proof fn lemma_isum_ext(n: int, f: spec_fn(int) -> int, g: spec_fn(int) -> int)
    requires
        forall|i: int| 0 <= i < n ==> #[trigger] f(i) == g(i),
    ensures
        isum(n, f) == isum(n, g),
    decreases n,
{
    if n > 0 {
        lemma_isum_ext(n - 1, f, g);
    }
}

proof fn lemma_isum_zero(n: int, f: spec_fn(int) -> int)
    requires
        forall|i: int| 0 <= i < n ==> #[trigger] f(i) == 0,
    ensures
        isum(n, f) == 0,
    decreases n,
{
    if n > 0 {
        lemma_isum_zero(n - 1, f);
    }
}



/// `f(j, 0) + ... + f(j, m - 1)`.
pub open spec fn row_sum(f: spec_fn(int, int) -> int, j: int, m: int) -> int {
    isum(m, |k: int| f(j, k))
}

/// `f(0, k) + ... + f(n - 1, k)`.
pub open spec fn col_sum(f: spec_fn(int, int) -> int, k: int, n: int) -> int {
    isum(n, |j: int| f(j, k))
}

/// The sum of the rows of `f` over `n` rows and `m` columns.
pub open spec fn by_rows(f: spec_fn(int, int) -> int, n: int, m: int) -> int {
    isum(n, |j: int| row_sum(f, j, m))
}

/// The sum of the columns of `f` over `n` rows and `m` columns.
pub open spec fn by_cols(f: spec_fn(int, int) -> int, n: int, m: int) -> int {
    isum(m, |k: int| col_sum(f, k, n))
}

proof fn lemma_cols_step(f: spec_fn(int, int) -> int, n: int, m: int)
    requires
        n > 0,
    ensures
        by_cols(f, n, m) == by_cols(f, n - 1, m) + row_sum(f, n - 1, m),
    decreases m,
{
    if m > 0 {
        lemma_cols_step(f, n, m - 1);
        assert(by_cols(f, n, m) == by_cols(f, n, m - 1) + col_sum(f, m - 1, n));
        assert(by_cols(f, n - 1, m) == by_cols(f, n - 1, m - 1) + col_sum(f, m - 1, n - 1));
        assert(row_sum(f, n - 1, m) == row_sum(f, n - 1, m - 1) + f(n - 1, m - 1));
        assert(col_sum(f, m - 1, n) == col_sum(f, m - 1, n - 1) + f(n - 1, m - 1));
    }
}

/// Sums over two indices may be taken in either order.
proof fn lemma_isum_swap(f: spec_fn(int, int) -> int, n: int, m: int)
    ensures
        by_rows(f, n, m) == by_cols(f, n, m),
    decreases n,
{
    if n > 0 {
        lemma_isum_swap(f, n - 1, m);
        lemma_cols_step(f, n, m);
        assert(by_rows(f, n, m) == by_rows(f, n - 1, m) + row_sum(f, n - 1, m));
    } else {
        assert forall|k: int| 0 <= k < m implies #[trigger] col_sum(f, k, n) == 0 by {}
        lemma_isum_zero(m, |k: int| col_sum(f, k, n));
    }
}

/// The terms of [`files_below`]: what each entry adds below `d`.
pub open spec fn below_terms(s: Seq<IndexedFile>, d: Seq<char>) -> spec_fn(int) -> int {
    |k: int| adds_below(s[k], d)
}

proof fn lemma_below_isum(s: Seq<IndexedFile>, d: Seq<char>)
    ensures
        files_below(s, d) == isum(s.len() as int, below_terms(s, d)),
    decreases s.len(),
{
    if s.len() > 0 {
        let s1 = s.drop_last();
        lemma_below_isum(s1, d);
        assert forall|k: int| 0 <= k < s1.len() implies #[trigger] below_terms(s1, d)(k) == below_terms(s, d)(k) by {
            assert(s1[k] == s[k]);
        }
        lemma_isum_ext(s1.len() as int, below_terms(s1, d), below_terms(s, d));
    }
}

/// What entry `x` gives its parent directory `d`.
pub open spec fn child_size(x: IndexedFile, d: Seq<char>) -> int {
    if parent_path(x.path@) == Some(d) {
        x.size as int
    } else {
        0
    }
}

/// The terms of [`children_size`].
pub open spec fn child_terms(s: Seq<IndexedFile>, d: Seq<char>) -> spec_fn(int) -> int {
    |j: int| child_size(s[j], d)
}

proof fn lemma_children_isum(s: Seq<IndexedFile>, d: Seq<char>)
    ensures
        children_size(s, d) == isum(s.len() as int, child_terms(s, d)),
    decreases s.len(),
{
    if s.len() > 0 {
        let s1 = s.drop_last();
        lemma_children_isum(s1, d);
        assert forall|j: int| 0 <= j < s1.len() implies #[trigger] child_terms(s1, d)(j) == child_terms(s, d)(j) by {
            assert(s1[j] == s[j]);
        }
        lemma_isum_ext(s1.len() as int, child_terms(s1, d), child_terms(s, d));
    }
}

proof fn lemma_row_ext(f: spec_fn(int, int) -> int, j: int, m: int, g: spec_fn(int) -> int)
    requires
        forall|k: int| 0 <= k < m ==> #[trigger] f(j, k) == g(k),
    ensures
        row_sum(f, j, m) == isum(m, g),
    decreases m,
{
    if m > 0 {
        lemma_row_ext(f, j, m - 1, g);
        assert(row_sum(f, j, m) == row_sum(f, j, m - 1) + f(j, m - 1));
    }
}

proof fn lemma_row_one(f: spec_fn(int, int) -> int, j: int, m: int, k0: int)
    requires
        0 <= k0 < m,
        forall|k: int| 0 <= k < m && k != k0 ==> #[trigger] f(j, k) == 0,
    ensures
        row_sum(f, j, m) == f(j, k0),
    decreases m,
{
    if m - 1 == k0 {
        lemma_row_zero(f, j, m - 1);
        assert(row_sum(f, j, m) == row_sum(f, j, m - 1) + f(j, m - 1));
    } else {
        lemma_row_one(f, j, m - 1, k0);
        assert(row_sum(f, j, m) == row_sum(f, j, m - 1) + f(j, m - 1));
    }
}

proof fn lemma_row_zero(f: spec_fn(int, int) -> int, j: int, m: int)
    requires
        forall|k: int| 0 <= k < m ==> #[trigger] f(j, k) == 0,
    ensures
        row_sum(f, j, m) == 0,
    decreases m,
{
    if m > 0 {
        lemma_row_zero(f, j, m - 1);
        assert(row_sum(f, j, m) == row_sum(f, j, m - 1) + f(j, m - 1));
    }
}

proof fn lemma_col_one(f: spec_fn(int, int) -> int, k: int, n: int, j0: int)
    requires
        0 <= j0 < n,
        forall|j: int| 0 <= j < n && j != j0 ==> #[trigger] f(j, k) == 0,
    ensures
        col_sum(f, k, n) == f(j0, k),
    decreases n,
{
    if n - 1 == j0 {
        lemma_col_zero(f, k, n - 1);
        assert(col_sum(f, k, n) == col_sum(f, k, n - 1) + f(n - 1, k));
    } else {
        lemma_col_one(f, k, n - 1, j0);
        assert(col_sum(f, k, n) == col_sum(f, k, n - 1) + f(n - 1, k));
    }
}

proof fn lemma_col_zero(f: spec_fn(int, int) -> int, k: int, n: int)
    requires
        forall|j: int| 0 <= j < n ==> #[trigger] f(j, k) == 0,
    ensures
        col_sum(f, k, n) == 0,
    decreases n,
{
    if n > 0 {
        lemma_col_zero(f, k, n - 1);
        assert(col_sum(f, k, n) == col_sum(f, k, n - 1) + f(n - 1, k));
    }
}

// ---------------------------------------------------------------------------
// Paths
// ---------------------------------------------------------------------------

/// A path lies below its parent directory.
proof fn lemma_parent_ancestor(x: Seq<char>)
    requires
        parent_path(x) is Some,
    ensures
        is_ancestor(parent_path(x)->0, x),
        parent_path(x)->0.len() == rfind_char(x, '\\'),
{
    lemma_rfind_char(x, '\\');
}

/// No directory whose parent is `d` lies above a path whose parent is `d`.
proof fn lemma_sibling_not_above(p: Seq<char>, x: Seq<char>, d: Seq<char>)
    requires
        parent_path(p) == Some(d),
        parent_path(x) == Some(d),
    ensures
        !is_ancestor(p, x),
{
    lemma_parent_ancestor(p);
    lemma_parent_ancestor(x);
    lemma_rfind_char(x, '\\');
    if is_ancestor(p, x) {
        assert(x[p.len() as int] == '\\');
        assert(p.len() > d.len());
    }
}

/// Two directories whose parent is `d` that both lie above `x` are the same.
proof fn lemma_child_above_unique(p1: Seq<char>, p2: Seq<char>, x: Seq<char>, d: Seq<char>)
    requires
        parent_path(p1) == Some(d),
        parent_path(p2) == Some(d),
        is_ancestor(p1, x),
        is_ancestor(p2, x),
    ensures
        p1 == p2,
{
    lemma_parent_ancestor(p1);
    lemma_parent_ancestor(p2);
    lemma_rfind_char(p1, '\\');
    lemma_rfind_char(p2, '\\');
    if p1.len() < p2.len() {
        assert(p2[p1.len() as int] == x.take(p2.len() as int)[p1.len() as int]);
        assert(p2[p1.len() as int] == '\\');
    } else if p2.len() < p1.len() {
        assert(p1[p2.len() as int] == x.take(p1.len() as int)[p2.len() as int]);
        assert(p1[p2.len() as int] == '\\');
    } else {
        assert(p1 =~= p2) by {
            assert forall|i: int| 0 <= i < p1.len() implies p1[i] == p2[i] by {
                assert(x.take(p1.len() as int)[i] == x[i]);
                assert(x.take(p2.len() as int)[i] == x[i]);
            }
        }
    }
}

/// Every entry's parent directory is an entry of `s`.
pub open spec fn parents_present(s: Seq<IndexedFile>) -> bool {
    forall|i: int|
        0 <= i < s.len() && (#[trigger] parent_path(s[i].path@)) is Some ==> exists|j: int|
            0 <= j < s.len() && s[j].path@ == parent_path(s[i].path@)->0 && s[j].is_dir
}

/// Below `d`, a path whose parent is not `d` lies under a directory entry
/// whose parent is `d`.
proof fn lemma_child_above_exists(s: Seq<IndexedFile>, i: int, d: Seq<char>) -> (j: int)
    requires
        parents_present(s),
        0 <= i < s.len(),
        is_ancestor(d, s[i].path@),
        parent_path(s[i].path@) != Some(d),
    ensures
        0 <= j < s.len(),
        s[j].is_dir,
        parent_path(s[j].path@) == Some(d),
        is_ancestor(s[j].path@, s[i].path@),
    decreases s[i].path@.len(),
{
    let x = s[i].path@;
    lemma_rfind_char(x, '\\');
    assert(x[d.len() as int] == '\\');
    let k = rfind_char(x, '\\');
    assert(k >= d.len());
    assert(parent_path(x) is Some);
    let p = parent_path(x)->0;
    if k == d.len() {
        assert(p =~= d);
    }
    lemma_parent_ancestor(x);
    assert(is_ancestor(d, p)) by {
        assert(p[d.len() as int] == x[d.len() as int]);
        assert(p.take(d.len() as int) =~= x.take(d.len() as int));
    }
    let y = choose|j: int| 0 <= j < s.len() && s[j].path@ == p && s[j].is_dir;
    if parent_path(p) == Some(d) {
        y
    } else {
        let j = lemma_child_above_exists(s, y, d);
        lemma_ancestor_trans(s[j].path@, p, x);
        j
    }
}

// ---------------------------------------------------------------------------
// Regrouping a directory's children into the files below it
// ---------------------------------------------------------------------------

proof fn lemma_rows_ext(f: spec_fn(int, int) -> int, n: int, m: int, g: spec_fn(int) -> int)
    requires
        forall|j: int| 0 <= j < n ==> #[trigger] row_sum(f, j, m) == g(j),
    ensures
        by_rows(f, n, m) == isum(n, g),
    decreases n,
{
    if n > 0 {
        lemma_rows_ext(f, n - 1, m, g);
        assert(by_rows(f, n, m) == by_rows(f, n - 1, m) + row_sum(f, n - 1, m));
    }
}

proof fn lemma_cols_ext(f: spec_fn(int, int) -> int, n: int, m: int, g: spec_fn(int) -> int)
    requires
        forall|k: int| 0 <= k < m ==> #[trigger] col_sum(f, k, n) == g(k),
    ensures
        by_cols(f, n, m) == isum(m, g),
    decreases m,
{
    if m > 0 {
        lemma_cols_ext(f, n, m - 1, g);
        assert(by_cols(f, n, m) == by_cols(f, n, m - 1) + col_sum(f, m - 1, n));
    }
}

/// Entry `k` as seen from child `j` of directory `d`: a child directory
/// takes the files below it, a child file itself.
spec fn regroup(s: Seq<IndexedFile>, d: Seq<char>) -> spec_fn(int, int) -> int {
    |j: int, k: int|
        if parent_path(s[j].path@) == Some(d) {
            if s[j].is_dir {
                adds_below(s[k], s[j].path@)
            } else if k == j {
                s[j].size as int
            } else {
                0
            }
        } else {
            0
        }
}

/// Each file below `d` is counted once among `d`'s children: by itself
/// when `d` is its parent, else by the one child directory above it.
proof fn lemma_regroup_col(s: Seq<IndexedFile>, d: Seq<char>, k: int)
    requires
        distinct_paths(s),
        parents_present(s),
        0 <= k < s.len(),
    ensures
        col_sum(regroup(s, d), k, s.len() as int) == adds_below(s[k], d),
{
    let f = regroup(s, d);
    let n = s.len() as int;
    let x = s[k];
    if x.is_dir || !is_ancestor(d, x.path@) {
        assert forall|j: int| 0 <= j < n implies #[trigger] f(j, k) == 0 by {
            if parent_path(s[j].path@) == Some(d) {
                if s[j].is_dir {
                    if !x.is_dir && is_ancestor(s[j].path@, x.path@) {
                        lemma_parent_ancestor(s[j].path@);
                        lemma_ancestor_trans(d, s[j].path@, x.path@);
                    }
                } else if j == k {
                    lemma_parent_ancestor(x.path@);
                }
            }
        }
        lemma_col_zero(f, k, n);
    } else if parent_path(x.path@) == Some(d) {
        assert forall|j: int| 0 <= j < n && j != k implies #[trigger] f(j, k) == 0 by {
            if parent_path(s[j].path@) == Some(d) && s[j].is_dir {
                lemma_sibling_not_above(s[j].path@, x.path@, d);
            }
        }
        lemma_col_one(f, k, n, k);
    } else {
        let j0 = lemma_child_above_exists(s, k, d);
        assert forall|j: int| 0 <= j < n && j != j0 implies #[trigger] f(j, k) == 0 by {
            if parent_path(s[j].path@) == Some(d) && s[j].is_dir && is_ancestor(
                s[j].path@,
                x.path@,
            ) {
                lemma_child_above_unique(s[j].path@, s[j0].path@, x.path@, d);
                if j < j0 {
                    assert(s[j].path@ != s[j0].path@);
                } else {
                    assert(s[j0].path@ != s[j].path@);
                }
            }
        }
        lemma_col_one(f, k, n, j0);
    }
}

/// Entries ordered deepest first.
pub open spec fn deepest_sorted(s: Seq<IndexedFile>) -> bool {
    forall|i: int, j: int|
        0 <= i < j < s.len() ==> depth((#[trigger] s[i]).path@) >= depth((#[trigger] s[j]).path@)
}

/// Every directory's size is the capped total of its children's sizes.
pub open spec fn dirs_total_children(s: Seq<IndexedFile>) -> bool {
    forall|i: int|
        0 <= i < s.len() && (#[trigger] s[i]).is_dir ==> s[i].size == capped(
            children_size(s, s[i].path@),
        )
}

/// Where each directory holds its children's total and children come
/// before their parents, each directory holds the total of the files below
/// it.
proof fn lemma_dir_total(s: Seq<IndexedFile>, i: int)
    requires
        deepest_sorted(s),
        dirs_total_children(s),
        distinct_paths(s),
        parents_present(s),
        files_total(s) <= u64::MAX,
        0 <= i < s.len(),
        s[i].is_dir,
    ensures
        s[i].size == files_below(s, s[i].path@),
    decreases i,
{
    let n = s.len() as int;
    let d = s[i].path@;
    let f = regroup(s, d);
    assert forall|j: int| 0 <= j < n implies #[trigger] row_sum(f, j, n) == child_terms(s, d)(j) by {
        if parent_path(s[j].path@) == Some(d) {
            lemma_depth_parent(s[j].path@);
            if s[j].is_dir {
                if j >= i {
                    if j > i {
                        assert(depth(s[i].path@) >= depth(s[j].path@));
                    }
                }
                lemma_dir_total(s, j);
                lemma_below_isum(s, s[j].path@);
                lemma_row_ext(f, j, n, below_terms(s, s[j].path@));
            } else {
                lemma_row_one(f, j, n, j);
            }
        } else {
            lemma_row_zero(f, j, n);
        }
    }
    assert forall|k: int| 0 <= k < n implies #[trigger] col_sum(f, k, n) == below_terms(s, d)(k) by {
        lemma_regroup_col(s, d, k);
    }
    lemma_isum_swap(f, n, n);
    lemma_rows_ext(f, n, n, child_terms(s, d));
    lemma_cols_ext(f, n, n, below_terms(s, d));
    lemma_children_isum(s, d);
    lemma_below_isum(s, d);
    lemma_below_bounds(s, d);
}

// ---------------------------------------------------------------------------
// Ordering deepest first keeps the entries
// ---------------------------------------------------------------------------

/// The bucket of depth `d` holds exactly the entries of that depth, and
/// keeps paths apart.
proof fn lemma_with_depth_members(es: Seq<IndexedFile>, d: int)
    ensures
        forall|x: IndexedFile|
            #[trigger] with_depth(es, d).contains(x) <==> (es.contains(x) && depth(x.path@) == d),
        distinct_paths(es) ==> distinct_paths(with_depth(es, d)),
    decreases es.len(),
{
    if es.len() > 0 {
        let e1 = es.drop_last();
        let r = with_depth(e1, d);
        lemma_with_depth_members(e1, d);
        let w = with_depth(es, d);
        assert forall|x: IndexedFile| #[trigger] es.contains(x) <==> (e1.contains(x) || x == es.last()) by {
            if es.contains(x) {
                let a = choose|a: int| 0 <= a < es.len() && es[a] == x;
                if a < e1.len() {
                    assert(e1[a] == x);
                }
            }
            if e1.contains(x) {
                let a = choose|a: int| 0 <= a < e1.len() && e1[a] == x;
                assert(es[a] == x);
            }
            if x == es.last() {
                assert(es[es.len() - 1] == x);
            }
        }
        assert forall|x: IndexedFile| #[trigger] w.contains(x) <==> (es.contains(x) && depth(x.path@) == d) by {
            if depth(es.last().path@) == d {
                assert(w == r.push(es.last()));
                if w.contains(x) {
                    let a = choose|a: int| 0 <= a < w.len() && w[a] == x;
                    if a < r.len() {
                        assert(r[a] == x);
                    }
                }
                if r.contains(x) {
                    let a = choose|a: int| 0 <= a < r.len() && r[a] == x;
                    assert(w[a] == x);
                }
                if x == es.last() {
                    assert(w[w.len() - 1] == x);
                }
            } else {
                assert(w == r);
            }
        }
        if distinct_paths(es) && depth(es.last().path@) == d {
            assert(distinct_paths(e1)) by {
                assert forall|i: int, j: int| 0 <= i < j < e1.len() implies (#[trigger] e1[i]).path@
                    != (#[trigger] e1[j]).path@ by {
                    assert(es[i] == e1[i] && es[j] == e1[j]);
                }
            }
            let wl = r.len() as int;
            assert forall|i: int, j: int| 0 <= i < j < w.len() implies (#[trigger] w[i]).path@ != (
            #[trigger] w[j]).path@ by {
                assert(w[i] == r[i]);
                if j < wl {
                    assert(w[j] == r[j]);
                } else {
                    assert(r.contains(r[i]));
                    let a = choose|a: int| 0 <= a < e1.len() && e1[a] == r[i];
                    assert(es[a] == e1[a]);
                    assert(w[j] == es[es.len() - 1]);
                }
            }
        }
    }
}

/// The buckets of depths `lo` to `hi` hold exactly the entries of those
/// depths, and keep paths apart.
proof fn lemma_buckets_members(es: Seq<IndexedFile>, hi: int, lo: int)
    ensures
        forall|x: IndexedFile|
            #[trigger] desc_buckets(es, hi, lo).contains(x) <==> (es.contains(x) && lo <= depth(
                x.path@,
            ) <= hi),
        distinct_paths(es) ==> distinct_paths(desc_buckets(es, hi, lo)),
    decreases hi - lo + 1,
{
    let s = desc_buckets(es, hi, lo);
    if hi < lo {
        assert(s.len() == 0);
        assert forall|x: IndexedFile| !#[trigger] s.contains(x) by {}
    } else {
        lemma_buckets_members(es, hi, lo + 1);
        lemma_with_depth_members(es, lo);
        let a = desc_buckets(es, hi, lo + 1);
        let b = with_depth(es, lo);
        assert(s == a + b);
        assert forall|x: IndexedFile| #[trigger] s.contains(x) <==> (a.contains(x) || b.contains(x)) by {
            if s.contains(x) {
                let k = choose|k: int| 0 <= k < s.len() && s[k] == x;
                if k < a.len() {
                    assert(a[k] == x);
                } else {
                    assert(b[k - a.len()] == x);
                }
            }
            if a.contains(x) {
                let k = choose|k: int| 0 <= k < a.len() && a[k] == x;
                assert(s[k] == x);
            }
            if b.contains(x) {
                let k = choose|k: int| 0 <= k < b.len() && b[k] == x;
                assert(s[a.len() + k] == x);
            }
        }
        if distinct_paths(es) {
            assert forall|i: int, j: int| 0 <= i < j < s.len() implies (#[trigger] s[i]).path@ != (
            #[trigger] s[j]).path@ by {
                if j < a.len() {
                    assert(s[i] == a[i] && s[j] == a[j]);
                } else if i >= a.len() {
                    assert(s[i] == b[i - a.len()] && s[j] == b[j - a.len()]);
                } else {
                    assert(s[i] == a[i] && s[j] == b[j - a.len()]);
                    assert(a.contains(a[i]));
                    assert(b.contains(b[j - a.len()]));
                }
            }
        }
    }
}

proof fn lemma_max_depth(es: Seq<IndexedFile>)
    ensures
        forall|a: int| 0 <= a < es.len() ==> depth((#[trigger] es[a]).path@) <= max_depth(es),
    decreases es.len(),
{
    if es.len() > 0 {
        lemma_max_depth(es.drop_last());
        assert forall|a: int| 0 <= a < es.len() implies depth((#[trigger] es[a]).path@) <= max_depth(
            es,
        ) by {
            if a < es.len() - 1 {
                assert(es[a] == es.drop_last()[a]);
            }
        }
    }
}

/// The total size of the files of `es` of depth `lo` to `hi`.
spec fn files_between(es: Seq<IndexedFile>, lo: int, hi: int) -> int
    decreases es.len(),
{
    if es.len() == 0 {
        0
    } else {
        files_between(es.drop_last(), lo, hi) + if lo <= depth(es.last().path@) <= hi
            && !es.last().is_dir {
            es.last().size as int
        } else {
            0
        }
    }
}

proof fn lemma_total_concat(a: Seq<IndexedFile>, b: Seq<IndexedFile>)
    ensures
        files_total(a + b) == files_total(a) + files_total(b),
    decreases b.len(),
{
    if b.len() == 0 {
        assert(a + b =~= a);
    } else {
        assert((a + b).drop_last() =~= a + b.drop_last());
        lemma_total_concat(a, b.drop_last());
    }
}

proof fn lemma_with_depth_total(es: Seq<IndexedFile>, d: int)
    ensures
        files_total(with_depth(es, d)) == files_between(es, d, d),
    decreases es.len(),
{
    if es.len() > 0 {
        let r = with_depth(es.drop_last(), d);
        lemma_with_depth_total(es.drop_last(), d);
        if depth(es.last().path@) == d {
            assert(r.push(es.last()).drop_last() =~= r);
        }
    }
}

proof fn lemma_between_split(es: Seq<IndexedFile>, lo: int, hi: int)
    requires
        lo <= hi,
    ensures
        files_between(es, lo, hi) == files_between(es, lo + 1, hi) + files_between(es, lo, lo),
    decreases es.len(),
{
    if es.len() > 0 {
        lemma_between_split(es.drop_last(), lo, hi);
    }
}

proof fn lemma_between_empty(es: Seq<IndexedFile>, lo: int, hi: int)
    requires
        hi < lo,
    ensures
        files_between(es, lo, hi) == 0,
    decreases es.len(),
{
    if es.len() > 0 {
        lemma_between_empty(es.drop_last(), lo, hi);
    }
}

proof fn lemma_buckets_total(es: Seq<IndexedFile>, hi: int, lo: int)
    ensures
        files_total(desc_buckets(es, hi, lo)) == files_between(es, lo, hi),
    decreases hi - lo + 1,
{
    if hi < lo {
        lemma_between_empty(es, lo, hi);
    } else {
        lemma_buckets_total(es, hi, lo + 1);
        lemma_with_depth_total(es, lo);
        lemma_total_concat(desc_buckets(es, hi, lo + 1), with_depth(es, lo));
        lemma_between_split(es, lo, hi);
    }
}

proof fn lemma_between_all(es: Seq<IndexedFile>, hi: int)
    requires
        forall|a: int| 0 <= a < es.len() ==> depth((#[trigger] es[a]).path@) <= hi,
    ensures
        files_between(es, 0, hi) == files_total(es),
    decreases es.len(),
{
    if es.len() > 0 {
        let e1 = es.drop_last();
        assert forall|a: int| 0 <= a < e1.len() implies depth((#[trigger] e1[a]).path@) <= hi by {
            assert(e1[a] == es[a]);
        }
        lemma_between_all(e1, hi);
        assert(depth(es[es.len() - 1].path@) <= hi);
    }
}

/// Ordering deepest first keeps paths apart, keeps every entry's parent
/// present, and keeps the total size of the files.
proof fn lemma_deepest_first_keeps(es: Seq<IndexedFile>)
    requires
        distinct_paths(es),
        parents_present(es),
    ensures
        distinct_paths(deepest_first(es)),
        parents_present(deepest_first(es)),
        files_total(deepest_first(es)) == files_total(es),
{
    let hi = max_depth(es) as int;
    let t = deepest_first(es);
    lemma_buckets_members(es, hi, 0);
    lemma_max_depth(es);
    assert forall|i: int|
        0 <= i < t.len() && (#[trigger] parent_path(t[i].path@)) is Some implies exists|j: int|
        0 <= j < t.len() && t[j].path@ == parent_path(t[i].path@)->0 && t[j].is_dir by {
        assert(t.contains(t[i]));
        let a = choose|a: int| 0 <= a < es.len() && es[a] == t[i];
        assert(parent_path(es[a].path@) is Some);
        let b = choose|b: int|
            0 <= b < es.len() && es[b].path@ == parent_path(es[a].path@)->0 && es[b].is_dir;
        assert(es.contains(es[b]));
        assert(depth(es[b].path@) <= hi);
        assert(t.contains(es[b]));
        let c = choose|c: int| 0 <= c < t.len() && t[c] == es[b];
        assert(t[c].path@ == parent_path(t[i].path@)->0);
    }
    lemma_buckets_total(es, hi, 0);
    lemma_between_all(es, hi);
}

/// Two sequences of entries with the same paths and kinds, and the same
/// sizes for files, agree on distinct paths, present parents and the files'
/// total.
proof fn lemma_same_shape(a: Seq<IndexedFile>, b: Seq<IndexedFile>)
    requires
        a.len() == b.len(),
        forall|i: int|
            0 <= i < a.len() ==> (#[trigger] a[i]).path@ == b[i].path@ && a[i].is_dir
                == b[i].is_dir && (!a[i].is_dir ==> a[i].size == b[i].size),
    ensures
        distinct_paths(a) ==> distinct_paths(b),
        parents_present(a) ==> parents_present(b),
        files_total(a) == files_total(b),
        deepest_sorted(a) ==> deepest_sorted(b),
    decreases a.len(),
{
    if parents_present(a) {
        assert forall|i: int|
            0 <= i < b.len() && (#[trigger] parent_path(b[i].path@)) is Some implies exists|j: int|
            0 <= j < b.len() && b[j].path@ == parent_path(b[i].path@)->0 && b[j].is_dir by {
            assert(a[i].path@ == b[i].path@);
            assert(parent_path(a[i].path@) is Some);
            let j = choose|j: int|
                0 <= j < a.len() && a[j].path@ == parent_path(a[i].path@)->0 && a[j].is_dir;
            assert(a[j].path@ == b[j].path@);
        }
    }
    if distinct_paths(a) {
        assert forall|i: int, j: int| 0 <= i < j < b.len() implies (#[trigger] b[i]).path@ != (
        #[trigger] b[j]).path@ by {
            assert(a[i].path@ == b[i].path@ && a[j].path@ == b[j].path@);
        }
    }
    if deepest_sorted(a) {
        assert forall|i: int, j: int| 0 <= i < j < b.len() implies depth((#[trigger] b[i]).path@)
            >= depth((#[trigger] b[j]).path@) by {
            assert(a[i].path@ == b[i].path@ && a[j].path@ == b[j].path@);
        }
    }
    if a.len() > 0 {
        let a1 = a.drop_last();
        let b1 = b.drop_last();
        assert forall|i: int| 0 <= i < a1.len() implies (#[trigger] a1[i]).path@ == b1[i].path@
            && a1[i].is_dir == b1[i].is_dir && (!a1[i].is_dir ==> a1[i].size == b1[i].size) by {
            assert(a1[i] == a[i] && b1[i] == b[i]);
        }
        lemma_same_shape(a1, b1);
        assert(a[a.len() - 1] == a.last());
    }
}

/// After the sizes are computed from a listing where paths are unique,
/// every entry's parent directory is itself listed, and the files' sizes
/// add up within `u64`, every directory's size is the total size of all
/// the files below it, at any depth.
pub proof fn law_directory_size_is_files_below(before: Seq<IndexedFile>, after: Seq<IndexedFile>)
    requires
        after == with_folder_sizes(deepest_first(before)),
        distinct_paths(before),
        parents_present(before),
        files_total(before) <= u64::MAX,
    ensures
        sizes_consistent(after),
        files_total(after) == files_total(before),
{
    let t = deepest_first(before);
    law_directory_size_is_children_total(before, after);
    lemma_deepest_first_keeps(before);
    lemma_buckets_sorted(before, max_depth(before) as int, 0);
    assert(deepest_sorted(t)) by {
        assert forall|i: int, j: int| 0 <= i < j < t.len() implies depth((#[trigger] t[i]).path@)
            >= depth((#[trigger] t[j]).path@) by {
            assert(depth_at(t, i) >= depth_at(t, j));
        }
    }
    assert forall|i: int| 0 <= i < t.len() implies (#[trigger] t[i]).path@ == after[i].path@
        && t[i].is_dir == after[i].is_dir && (!t[i].is_dir ==> t[i].size == after[i].size) by {
        assert(!after[i].is_dir ==> after[i].size == t[i].size);
    }
    lemma_same_shape(t, after);
    assert forall|i: int| 0 <= i < after.len() && (#[trigger] after[i]).is_dir implies after[i].size
        == files_below(after, after[i].path@) by {
        lemma_dir_total(after, i);
    }
}

} // verus!
