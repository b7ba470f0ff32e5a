//! Sort keys and a merge sort of positions by key.
//!
//! Every ordering the query engine uses is a number followed by up to two
//! byte strings, compared lexicographically; the first string may be in
//! descending order.

use vstd::prelude::*;

verus! {

broadcast use vstd::seq_lib::group_seq_properties;

/// A sort key: `num` ascending, then `first` (descending when
/// `first_desc`), then `second` ascending.
#[derive(Debug, Clone)]
pub struct SortKey {
    pub num: i128,
    pub first: Vec<u8>,
    pub first_desc: bool,
    pub second: Vec<u8>,
}

/// Lexicographic comparison of byte strings: -1, 0 or 1.
pub open spec fn lex_order(a: Seq<u8>, b: Seq<u8>) -> int
    decreases a.len(),
{
    if a.len() == 0 {
        if b.len() == 0 {
            0
        } else {
            -1
        }
    } else if b.len() == 0 {
        1
    } else if a[0] < b[0] {
        -1
    } else if a[0] > b[0] {
        1
    } else {
        lex_order(a.drop_first(), b.drop_first())
    }
}

/// Mathematical value of a [`SortKey`].
pub struct KeyV {
    pub num: int,
    pub first: Seq<u8>,
    pub first_desc: bool,
    pub second: Seq<u8>,
}

impl View for SortKey {
    type V = KeyV;

    open spec fn view(&self) -> KeyV {
        KeyV {
            num: self.num as int,
            first: self.first@,
            first_desc: self.first_desc,
            second: self.second@,
        }
    }
}

/// Comparison of two keys: -1, 0 or 1.
pub open spec fn key_order(a: KeyV, b: KeyV) -> int {
    if a.num < b.num {
        -1
    } else if a.num > b.num {
        1
    } else {
        let c = if a.first_desc {
            -lex_order(a.first, b.first)
        } else {
            lex_order(a.first, b.first)
        };
        if c != 0 {
            c
        } else {
            lex_order(a.second, b.second)
        }
    }
}

/// Key at position `a` orders no later than key at position `b`.
pub open spec fn kle(keys: Seq<SortKey>, a: usize, b: usize) -> bool {
    key_order(keys[a as int]@, keys[b as int]@) <= 0
}

/// `order` lists positions of `keys` in key order.
pub open spec fn sorted_by_keys(keys: Seq<SortKey>, order: Seq<usize>) -> bool {
    forall|p: int, q: int| 0 <= p < q < order.len() ==> #[trigger] kle(keys, order[p], order[q])
}

pub open spec fn uniform_desc(keys: Seq<SortKey>, desc: bool) -> bool {
    forall|i: int| 0 <= i < keys.len() ==> (#[trigger] keys[i]).first_desc == desc
}

pub open spec fn in_range(s: Seq<usize>, n: int) -> bool {
    forall|i: int| 0 <= i < s.len() ==> (#[trigger] s[i]) < n
}

pub proof fn lemma_lex_antisym(a: Seq<u8>, b: Seq<u8>)
    ensures
        lex_order(a, b) == -lex_order(b, a),
        -1 <= lex_order(a, b) <= 1,
    decreases a.len(),
{
    if a.len() > 0 && b.len() > 0 && a[0] == b[0] {
        lemma_lex_antisym(a.drop_first(), b.drop_first());
    }
}

pub proof fn lemma_lex_eq(a: Seq<u8>, b: Seq<u8>)
    ensures
        lex_order(a, b) == 0 <==> a == b,
    decreases a.len(),
{
    if a.len() > 0 && b.len() > 0 && a[0] == b[0] {
        lemma_lex_eq(a.drop_first(), b.drop_first());
        if a.drop_first() == b.drop_first() {
            assert(a =~= seq![a[0]] + a.drop_first());
            assert(b =~= seq![b[0]] + b.drop_first());
        }
    }
    if a == b && a.len() > 0 {
        assert(a.drop_first() == b.drop_first());
    }
}

pub proof fn lemma_lex_trans(a: Seq<u8>, b: Seq<u8>, c: Seq<u8>)
    requires
        lex_order(a, b) <= 0,
        lex_order(b, c) <= 0,
    ensures
        lex_order(a, c) <= 0,
    decreases a.len(),
{
    if a.len() > 0 && b.len() > 0 && c.len() > 0 && a[0] == b[0] && b[0] == c[0] {
        lemma_lex_trans(a.drop_first(), b.drop_first(), c.drop_first());
    }
}

pub proof fn lemma_key_antisym(a: KeyV, b: KeyV)
    requires
        a.first_desc == b.first_desc,
    ensures
        key_order(a, b) == -key_order(b, a),
{
    lemma_lex_antisym(a.first, b.first);
    lemma_lex_antisym(a.second, b.second);
}

pub proof fn lemma_key_trans(a: KeyV, b: KeyV, c: KeyV)
    requires
        a.first_desc == b.first_desc,
        b.first_desc == c.first_desc,
        key_order(a, b) <= 0,
        key_order(b, c) <= 0,
    ensures
        key_order(a, c) <= 0,
{
    lemma_lex_antisym(a.first, b.first);
    lemma_lex_antisym(b.first, c.first);
    lemma_lex_antisym(a.first, c.first);
    lemma_lex_eq(a.first, b.first);
    lemma_lex_eq(b.first, c.first);
    lemma_lex_eq(a.first, c.first);
    if a.num == b.num && b.num == c.num {
        if a.first_desc {
            if lex_order(b.first, a.first) <= 0 && lex_order(c.first, b.first) <= 0 {
                lemma_lex_trans(c.first, b.first, a.first);
            }
        } else {
            if lex_order(a.first, b.first) <= 0 && lex_order(b.first, c.first) <= 0 {
                lemma_lex_trans(a.first, b.first, c.first);
            }
        }
        if a.first == b.first && b.first == c.first {
            lemma_lex_trans(a.second, b.second, c.second);
        }
    }
}

/// Lexicographic comparison of byte strings.
pub fn lex_order_exec(a: &[u8], b: &[u8]) -> (r: i8)
    ensures
        r as int == lex_order(a@, b@),
{
    let mut i: usize = 0;
    while i < a.len() && i < b.len()
        invariant
            i <= a.len(),
            i <= b.len(),
            lex_order(a@, b@) == lex_order(a@.skip(i as int), b@.skip(i as int)),
        decreases a.len() - i,
    {
        proof {
            assert(a@.skip(i as int).drop_first() =~= a@.skip(i as int + 1));
            assert(b@.skip(i as int).drop_first() =~= b@.skip(i as int + 1));
        }
        if a[i] < b[i] {
            return -1;
        }
        if a[i] > b[i] {
            return 1;
        }
        i += 1;
    }
    if a.len() == b.len() {
        0
    } else if i == a.len() {
        -1
    } else {
        1
    }
}

pub fn key_order_exec(a: &SortKey, b: &SortKey) -> (r: i8)
    ensures
        r as int == key_order(a@, b@),
{
    if a.num < b.num {
        return -1;
    }
    if a.num > b.num {
        return 1;
    }
    let c = lex_order_exec(a.first.as_slice(), b.first.as_slice());
    proof {
        lemma_lex_antisym(a.first@, b.first@);
    }
    let c = if a.first_desc {
        -c
    } else {
        c
    };
    if c != 0 {
        return c;
    }
    lex_order_exec(a.second.as_slice(), b.second.as_slice())
}

/// Everything in `out` orders no later than everything in `rest`.
pub open spec fn all_before(keys: Seq<SortKey>, out: Seq<usize>, rest: Seq<usize>) -> bool {
    forall|p: int, k: int| 0 <= p < out.len() && 0 <= k < rest.len() ==> #[trigger] kle(keys, out[p], rest[k])
}

/// Moving the smallest head `rest1[0]` to the end of `out` keeps the merge
/// invariants.
pub proof fn lemma_merge_push(
    keys: Seq<SortKey>,
    out: Seq<usize>,
    rest1: Seq<usize>,
    rest2: Seq<usize>,
    desc: bool,
)
    requires
        uniform_desc(keys, desc),
        in_range(out, keys.len() as int),
        in_range(rest1, keys.len() as int),
        in_range(rest2, keys.len() as int),
        rest1.len() > 0,
        sorted_by_keys(keys, out),
        sorted_by_keys(keys, rest1),
        sorted_by_keys(keys, rest2),
        all_before(keys, out, rest1),
        all_before(keys, out, rest2),
        rest2.len() > 0 ==> kle(keys, rest1[0], rest2[0]),
    ensures
        sorted_by_keys(keys, out.push(rest1[0])),
        all_before(keys, out.push(rest1[0]), rest1.drop_first()),
        all_before(keys, out.push(rest1[0]), rest2),
{
    let x = rest1[0];
    let o2 = out.push(x);
    assert forall|p: int, q: int| 0 <= p < q < o2.len() implies #[trigger] kle(keys, o2[p], o2[q]) by {
        if q == out.len() {
            assert(kle(keys, out[p], rest1[0]));
        } else {
            assert(kle(keys, out[p], out[q]));
        }
    }
    assert forall|p: int, k: int|
        0 <= p < o2.len() && 0 <= k < rest1.drop_first().len() implies #[trigger] kle(
        keys,
        o2[p],
        rest1.drop_first()[k],
    ) by {
        assert(rest1.drop_first()[k] == rest1[k + 1]);
        if p == out.len() {
            assert(kle(keys, rest1[0], rest1[k + 1]));
        } else {
            assert(kle(keys, out[p], rest1[k + 1]));
        }
    }
    assert forall|p: int, k: int| 0 <= p < o2.len() && 0 <= k < rest2.len() implies #[trigger] kle(
        keys,
        o2[p],
        rest2[k],
    ) by {
        if p == out.len() {
            if k > 0 {
                assert(kle(keys, rest2[0], rest2[k]));
                lemma_key_trans(keys[x as int]@, keys[rest2[0] as int]@, keys[rest2[k] as int]@);
            }
        } else {
            assert(kle(keys, out[p], rest2[k]));
        }
    }
}

/// Merge two key-sorted position lists.
fn merge(keys: &Vec<SortKey>, l: &Vec<usize>, r: &Vec<usize>, Ghost(desc): Ghost<bool>) -> (out: Vec<
    usize,
>)
    requires
        uniform_desc(keys@, desc),
        in_range(l@, keys.len() as int),
        in_range(r@, keys.len() as int),
        sorted_by_keys(keys@, l@),
        sorted_by_keys(keys@, r@),
    ensures
        out@.to_multiset() == l@.to_multiset().add(r@.to_multiset()),
        sorted_by_keys(keys@, out@),
        in_range(out@, keys.len() as int),
{
    let mut out: Vec<usize> = Vec::new();
    let mut i: usize = 0;
    let mut j: usize = 0;
    proof {
        assert(l@.take(0) =~= Seq::<usize>::empty());
        assert(r@.take(0) =~= Seq::<usize>::empty());
        broadcast use vstd::seq_lib::group_to_multiset_ensures;
        assert(out@.to_multiset() =~= l@.take(0).to_multiset().add(r@.take(0).to_multiset()));
        assert(l@.skip(0) =~= l@);
        assert(r@.skip(0) =~= r@);
    }
    while i < l.len() || j < r.len()
        invariant
            i <= l.len(),
            j <= r.len(),
            uniform_desc(keys@, desc),
            in_range(l@, keys.len() as int),
            in_range(r@, keys.len() as int),
            in_range(out@, keys.len() as int),
            sorted_by_keys(keys@, l@.skip(i as int)),
            sorted_by_keys(keys@, r@.skip(j as int)),
            sorted_by_keys(keys@, out@),
            out@.to_multiset() == l@.take(i as int).to_multiset().add(r@.take(j as int).to_multiset()),
            all_before(keys@, out@, l@.skip(i as int)),
            all_before(keys@, out@, r@.skip(j as int)),
        decreases l.len() + r.len() - i - j,
    {
        let take_left = if i == l.len() {
            false
        } else if j == r.len() {
            true
        } else {
            key_order_exec(&keys[l[i]], &keys[r[j]]) <= 0
        };
        let ghost ls = l@.skip(i as int);
        let ghost rs = r@.skip(j as int);
        proof {
            assert forall|k: int| 0 <= k < ls.len() implies (#[trigger] ls[k]) < keys.len() by {
                assert(ls[k] == l@[i + k]);
            }
            assert forall|k: int| 0 <= k < rs.len() implies (#[trigger] rs[k]) < keys.len() by {
                assert(rs[k] == r@[j + k]);
            }
        }
        if take_left {
            let x = l[i];
            proof {
                assert(ls[0] == x);
                if rs.len() > 0 {
                    assert(rs[0] == r@[j as int]);
                }
                lemma_merge_push(keys@, out@, ls, rs, desc);
                assert(ls.drop_first() =~= l@.skip(i as int + 1));
                assert(l@.take(i as int + 1) =~= l@.take(i as int).push(x));
                broadcast use vstd::seq_lib::group_to_multiset_ensures;
            }
            out.push(x);
            i += 1;
        } else {
            let x = r[j];
            proof {
                assert(rs[0] == x);
                if ls.len() > 0 {
                    assert(ls[0] == l@[i as int]);
                    lemma_key_antisym(keys@[l@[i as int] as int]@, keys@[x as int]@);
                }
                lemma_merge_push(keys@, out@, rs, ls, desc);
                assert(rs.drop_first() =~= r@.skip(j as int + 1));
                assert(r@.take(j as int + 1) =~= r@.take(j as int).push(x));
                broadcast use vstd::seq_lib::group_to_multiset_ensures;
            }
            out.push(x);
            j += 1;
        }
    }
    proof {
        assert(l@.take(l.len() as int) =~= l@);
        assert(r@.take(r.len() as int) =~= r@);
    }
    out
}

/// Sort positions `idx` by their keys (a stable order is not promised).
pub fn merge_sort(keys: &Vec<SortKey>, idx: &[usize], Ghost(desc): Ghost<bool>) -> (r: Vec<usize>)
    requires
        uniform_desc(keys@, desc),
        in_range(idx@, keys.len() as int),
    ensures
        r@.to_multiset() == idx@.to_multiset(),
        sorted_by_keys(keys@, r@),
        in_range(r@, keys.len() as int),
    decreases idx.len(),
{
    if idx.len() <= 1 {
        let v = vstd::slice::slice_to_vec(idx);
        proof {
            assert(sorted_by_keys(keys@, v@));
        }
        return v;
    }
    let mid = idx.len() / 2;
    let a = vstd::slice::slice_subrange(idx, 0, mid);
    let b = vstd::slice::slice_subrange(idx, mid, idx.len());
    let left = merge_sort(keys, a, Ghost(desc));
    let right = merge_sort(keys, b, Ghost(desc));
    proof {
        assert(left@.skip(0) =~= left@);
    }
    let out = merge(keys, &left, &right, Ghost(desc));
    proof {
        assert(idx@ =~= a@ + b@);
        vstd::seq_lib::lemma_multiset_commutative(a@, b@);
    }
    out
}

} // verus!
