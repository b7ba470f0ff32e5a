//! Number parsing: Rust's integer `FromStr` grammar, and the exact decimal
//! arithmetic used for `size:` values (`1.5mb`).

use vstd::prelude::*;

use crate::text::is_ascii_digit_char;

verus! {

pub open spec fn digit_val(c: char) -> int {
    (c as u32) - ('0' as u32)
}

pub open spec fn all_digits(s: Seq<char>) -> bool {
    forall|k: int| 0 <= k < s.len() ==> is_ascii_digit_char(#[trigger] s[k])
}

/// Decimal value of a digit string (0 for the empty string).
pub open spec fn digits_value(s: Seq<char>) -> int
    decreases s.len(),
{
    if s.len() == 0 {
        0
    } else {
        digits_value(s.drop_last()) * 10 + digit_val(s.last())
    }
}

/// Rust's integer grammar: an optional `+` or `-` followed by one or more
/// ASCII digits. Yields the (unbounded) value.
pub open spec fn spec_parse_int(s: Seq<char>) -> Option<int> {
    if s.len() == 0 {
        None
    } else {
        let signed = s[0] == '+' || s[0] == '-';
        let body = if signed {
            s.skip(1)
        } else {
            s
        };
        if body.len() == 0 || !all_digits(body) {
            None
        } else if s[0] == '-' {
            Some(-digits_value(body))
        } else {
            Some(digits_value(body))
        }
    }
}

/// `str::parse::<i64>`.
pub open spec fn spec_parse_i64(s: Seq<char>) -> Option<i64> {
    match spec_parse_int(s) {
        Some(v) => if i64::MIN <= v <= i64::MAX {
            Some(v as i64)
        } else {
            None
        },
        None => None,
    }
}

/// `str::parse::<u64>`: like the signed grammar, but `-` is rejected.
pub open spec fn spec_parse_u64(s: Seq<char>) -> Option<u64> {
    if s.len() > 0 && s[0] == '-' {
        None
    } else {
        match spec_parse_int(s) {
            Some(v) => if 0 <= v <= u64::MAX {
                Some(v as u64)
            } else {
                None
            },
            None => None,
        }
    }
}

pub proof fn lemma_digits_value_nonneg(s: Seq<char>)
    requires
        all_digits(s),
    ensures
        digits_value(s) >= 0,
    decreases s.len(),
{
    if s.len() > 0 {
        assert(all_digits(s.drop_last())) by {
            assert forall|k: int| 0 <= k < s.drop_last().len() implies is_ascii_digit_char(
                #[trigger] s.drop_last()[k],
            ) by {
                assert(s.drop_last()[k] == s[k]);
            }
        }
        lemma_digits_value_nonneg(s.drop_last());
        assert(is_ascii_digit_char(s[s.len() - 1]));
    }
}

/// Value of `s[from..]` as digits, or None when it is empty, holds a
/// non-digit, or exceeds `limit`.
fn digits_upto(s: &[char], from: usize, limit: u128) -> (r: Option<u128>)
    requires
        from <= s.len(),
        9 <= limit <= u64::MAX as u128 + 1,
    ensures
        match r {
            Some(v) => s@.skip(from as int).len() > 0 && all_digits(s@.skip(from as int))
                && v == digits_value(s@.skip(from as int)) && v <= limit,
            None => !(s@.skip(from as int).len() > 0 && all_digits(s@.skip(from as int))
                && digits_value(s@.skip(from as int)) <= limit),
        },
{
    if from == s.len() {
        return None;
    }
    let ghost body = s@.skip(from as int);
    let mut acc: u128 = 0;
    let mut i = from;
    while i < s.len()
        invariant
            from <= i <= s.len(),
            body == s@.skip(from as int),
            9 <= limit <= u64::MAX as u128 + 1,
            all_digits(s@.subrange(from as int, i as int)),
            acc == digits_value(s@.subrange(from as int, i as int)),
            acc <= limit,
        decreases s.len() - i,
    {
        let c = s[i];
        if !('0' <= c && c <= '9') {
            assert(!is_ascii_digit_char(body[i - from]));
            return None;
        }
        let d: u128 = (c as u32 - '0' as u32) as u128;
        let ghost pre = s@.subrange(from as int, i as int);
        assert(s@.subrange(from as int, i + 1).drop_last() =~= pre);
        if acc > (limit - d) / 10 {
            proof {
                assert(digits_value(s@.subrange(from as int, i + 1)) == acc * 10 + d);
                assert(digits_value(s@.subrange(from as int, i + 1)) > limit) by (nonlinear_arith)
                    requires
                        acc > (limit - d) / 10,
                        d <= 9,
                        d <= limit,
                        digits_value(s@.subrange(from as int, i + 1)) == acc * 10 + d,
                ;
                assert(body.take(i + 1 - from) =~= s@.subrange(from as int, i + 1));
                assert(all_digits(s@.subrange(from as int, i + 1))) by {
                    assert forall|k: int| 0 <= k < i + 1 - from implies is_ascii_digit_char(
                        #[trigger] s@.subrange(from as int, i + 1)[k],
                    ) by {
                        if k < i - from {
                            assert(s@.subrange(from as int, i + 1)[k] == pre[k]);
                        }
                    }
                }
                lemma_prefix_value_bound(body, (i + 1 - from) as int, limit as int);
            }
            return None;
        }
        acc = acc * 10 + d;
        i += 1;
        assert(all_digits(s@.subrange(from as int, i as int))) by {
            assert forall|k: int| 0 <= k < i - from implies is_ascii_digit_char(
                #[trigger] s@.subrange(from as int, i as int)[k],
            ) by {
                if k < i - 1 - from {
                    assert(s@.subrange(from as int, i as int)[k] == pre[k]);
                }
            }
        }
    }
    assert(s@.subrange(from as int, s.len() as int) =~= body);
    Some(acc)
}

/// A digit string whose prefix of length `n` already exceeds `limit` has a
/// value above `limit` too (or holds a non-digit).
pub proof fn lemma_prefix_value_bound(s: Seq<char>, n: int, limit: int)
    requires
        0 < n <= s.len(),
        all_digits(s.take(n)),
        digits_value(s.take(n)) > limit,
        limit >= 0,
    ensures
        all_digits(s) ==> digits_value(s) > limit,
    decreases s.len() - n,
{
    if n < s.len() && all_digits(s) {
        let t = s.take(n + 1);
        assert(t.drop_last() =~= s.take(n));
        assert(is_ascii_digit_char(s[n]));
        assert(all_digits(t)) by {
            assert forall|k: int| 0 <= k < t.len() implies is_ascii_digit_char(#[trigger] t[k]) by {
                assert(t[k] == s[k]);
            }
        }
        assert(digits_value(t) == digits_value(s.take(n)) * 10 + digit_val(s[n]));
        lemma_prefix_value_bound(s, n + 1, limit);
    } else if n == s.len() {
        assert(s.take(n) =~= s);
    }
}

/// `str::parse::<i64>` on characters.
pub fn parse_i64(s: &[char]) -> (r: Option<i64>)
    ensures
        r == spec_parse_i64(s@),
{
    if s.len() == 0 {
        return None;
    }
    let signed = s[0] == '+' || s[0] == '-';
    let neg = s[0] == '-';
    let from: usize = if signed {
        1
    } else {
        0
    };
    assert(s@.skip(0) =~= s@);
    let limit: u128 = if neg {
        9_223_372_036_854_775_808
    } else {
        9_223_372_036_854_775_807
    };
    match digits_upto(s, from, limit) {
        Some(v) => {
            if neg {
                if v == 9_223_372_036_854_775_808 {
                    Some(i64::MIN)
                } else {
                    let x: i64 = v as i64;
                    Some(-x)
                }
            } else {
                Some(v as i64)
            }
        },
        None => {
            proof {
                let body = s@.skip(from as int);
                if body.len() > 0 && all_digits(body) {
                    lemma_digits_value_nonneg(body);
                }
            }
            None
        },
    }
}

/// `str::parse::<u64>` on characters.
pub fn parse_u64(s: &[char]) -> (r: Option<u64>)
    ensures
        r == spec_parse_u64(s@),
{
    if s.len() == 0 || s[0] == '-' {
        return None;
    }
    let from: usize = if s[0] == '+' {
        1
    } else {
        0
    };
    assert(s@.skip(0) =~= s@);
    match digits_upto(s, from, 18_446_744_073_709_551_615) {
        Some(v) => Some(v as u64),
        None => {
            proof {
                let body = s@.skip(from as int);
                if body.len() > 0 && all_digits(body) {
                    lemma_digits_value_nonneg(body);
                }
            }
            None
        },
    }
}

// ---------------------------------------------------------------------------
// Decimal values for `size:`
// ---------------------------------------------------------------------------

/// Position of the first `.` in `s`, or -1.
pub open spec fn find_dot(s: Seq<char>) -> int
    decreases s.len(),
{
    if s.len() == 0 {
        -1
    } else if s[0] == '.' {
        0
    } else if find_dot(s.drop_first()) < 0 {
        -1
    } else {
        find_dot(s.drop_first()) + 1
    }
}

pub proof fn lemma_find_dot(s: Seq<char>)
    ensures
        -1 <= find_dot(s) < s.len(),
        find_dot(s) >= 0 ==> s[find_dot(s)] == '.',
        forall|k: int| 0 <= k < s.len() && (find_dot(s) < 0 || k < find_dot(s)) ==> #[trigger] s[k]
            != '.',
    decreases s.len(),
{
    if s.len() > 0 && s[0] != '.' {
        lemma_find_dot(s.drop_first());
        assert forall|k: int|
            0 <= k < s.len() && (find_dot(s) < 0 || k < find_dot(s)) implies #[trigger] s[k]
            != '.' by {
            if k > 0 {
                assert(s[k] == s.drop_first()[k - 1]);
            }
        }
    }
}

/// A plain decimal number: optional sign, digits, optional `.` and digits,
/// at least one digit overall. Yields (negative, integer digits, fraction
/// digits).
pub open spec fn decimal_parts(s: Seq<char>) -> Option<(bool, Seq<char>, Seq<char>)> {
    if s.len() == 0 {
        None
    } else {
        let signed = s[0] == '+' || s[0] == '-';
        let body = if signed {
            s.skip(1)
        } else {
            s
        };
        let d = find_dot(body);
        let ip = if d < 0 {
            body
        } else {
            body.take(d)
        };
        let fp = if d < 0 {
            Seq::<char>::empty()
        } else {
            body.skip(d + 1)
        };
        if all_digits(ip) && all_digits(fp) && ip.len() + fp.len() > 0 {
            Some((s[0] == '-', ip, fp))
        } else {
            None
        }
    }
}

/// `floor(m * 0.f)` for fraction digits `f`, computed by nested floors.
pub open spec fn frac_floor(f: Seq<char>, m: int) -> int
    decreases f.len(),
{
    if f.len() == 0 {
        0
    } else {
        (digit_val(f[0]) * m + frac_floor(f.drop_first(), m)) / 10
    }
}

/// `floor(value * mult)` of a decimal number, clamped to the `u64` range
/// (negative numbers give 0).
pub open spec fn spec_scaled_decimal(s: Seq<char>, mult: int) -> Option<u64> {
    match decimal_parts(s) {
        Some((neg, ip, fp)) => if neg {
            Some(0u64)
        } else {
            let v = digits_value(ip) * mult + frac_floor(fp, mult);
            if v > u64::MAX {
                Some(u64::MAX)
            } else {
                Some(v as u64)
            }
        },
        None => None,
    }
}

fn find_dot_exec(s: &[char], from: usize) -> (r: usize)
    requires
        from <= s.len(),
    ensures
        from <= r <= s.len(),
        (r == s.len()) == (find_dot(s@.skip(from as int)) < 0),
        r < s.len() ==> r - from == find_dot(s@.skip(from as int)),
{
    proof {
        lemma_find_dot(s@.skip(from as int));
    }
    let mut i = from;
    while i < s.len() && s[i] != '.'
        invariant
            from <= i <= s.len(),
            forall|k: int| from <= k < i ==> s@[k] != '.',
        decreases s.len() - i,
    {
        i += 1;
    }
    proof {
        let b = s@.skip(from as int);
        lemma_find_dot(b);
        if i < s.len() {
            assert(b[i - from] == '.');
            if find_dot(b) >= 0 && find_dot(b) < i - from {
                assert(b[find_dot(b)] == s@[find_dot(b) + from]);
            }
        } else {
            if find_dot(b) >= 0 {
                assert(b[find_dot(b)] == s@[find_dot(b) + from]);
            }
        }
    }
    i
}

fn check_digits(s: &[char], from: usize, to: usize) -> (r: bool)
    requires
        from <= to <= s.len(),
    ensures
        r == all_digits(s@.subrange(from as int, to as int)),
{
    let mut i = from;
    while i < to
        invariant
            from <= i <= to <= s.len(),
            forall|k: int| from <= k < i ==> is_ascii_digit_char(#[trigger] s@[k]),
        decreases to - i,
    {
        if !('0' <= s[i] && s[i] <= '9') {
            assert(!is_ascii_digit_char(s@.subrange(from as int, to as int)[i - from]));
            return false;
        }
        i += 1;
    }
    assert forall|k: int| 0 <= k < to - from implies is_ascii_digit_char(
        #[trigger] s@.subrange(from as int, to as int)[k],
    ) by {
        assert(s@.subrange(from as int, to as int)[k] == s@[from + k]);
    }
    true
}

/// Digits value clamped at 2^64.
fn clamped_digits(s: &[char], from: usize, to: usize) -> (r: u128)
    requires
        from <= to <= s.len(),
        all_digits(s@.subrange(from as int, to as int)),
    ensures
        r == (if digits_value(s@.subrange(from as int, to as int)) > u64::MAX + 1 {
            u64::MAX + 1
        } else {
            digits_value(s@.subrange(from as int, to as int))
        }),
{
    let cap: u128 = 18_446_744_073_709_551_616;
    let mut acc: u128 = 0;
    let mut i = from;
    while i < to
        invariant
            from <= i <= to <= s.len(),
            cap == u64::MAX + 1,
            all_digits(s@.subrange(from as int, to as int)),
            digits_value(s@.subrange(from as int, i as int)) >= 0,
            acc == (if digits_value(s@.subrange(from as int, i as int)) > cap {
                cap as int
            } else {
                digits_value(s@.subrange(from as int, i as int))
            }),
        decreases to - i,
    {
        let ghost pre = s@.subrange(from as int, i as int);
        assert(s@.subrange(from as int, i + 1).drop_last() =~= pre);
        assert(s@.subrange(from as int, to as int)[i - from] == s@[i as int]);
        assert(is_ascii_digit_char(s@[i as int]));
        let d: u128 = (s[i] as u32 - '0' as u32) as u128;
        let ghost nv = digits_value(s@.subrange(from as int, i + 1));
        assert(nv == digits_value(pre) * 10 + d);
        if acc >= cap {
            proof {
                assert(nv > cap) by (nonlinear_arith)
                    requires
                        digits_value(pre) >= cap,
                        cap > 0,
                        nv == digits_value(pre) * 10 + d,
                        d >= 0,
                ;
            }
        } else {
            let nacc = acc * 10 + d;
            acc = if nacc > cap {
                cap
            } else {
                nacc
            };
        }
        i += 1;
    }
    acc
}

/// `floor(m * 0.d...)` for the digits `s[from..to]`, right to left.
fn frac_floor_exec(s: &[char], from: usize, to: usize, m: u64) -> (r: u64)
    requires
        from <= to <= s.len(),
        all_digits(s@.subrange(from as int, to as int)),
        1 <= m <= 1_073_741_824,
    ensures
        r == frac_floor(s@.subrange(from as int, to as int), m as int),
        r < m,
{
    let mut x: u64 = 0;
    let mut i = to;
    while i > from
        invariant
            from <= i <= to <= s.len(),
            all_digits(s@.subrange(from as int, to as int)),
            1 <= m <= 1_073_741_824,
            x == frac_floor(s@.subrange(i as int, to as int), m as int),
            x < m,
        decreases i,
    {
        let c = s[i - 1];
        assert(s@.subrange(from as int, to as int)[i - 1 - from] == c);
        assert(is_ascii_digit_char(c));
        let d: u64 = (c as u32 - '0' as u32) as u64;
        assert(s@.subrange(i - 1, to as int).drop_first() =~= s@.subrange(i as int, to as int));
        assert(s@.subrange(i - 1, to as int)[0] == c);
        assert(d * m + x < 10 * m) by (nonlinear_arith)
            requires
                d <= 9,
                x < m,
        ;
        let nx = (d * m + x) / 10;
        x = nx;
        i -= 1;
    }
    x
}

/// `floor(value * mult)` of a plain decimal number, clamped to `u64`
/// (negative values give 0). None when `s` is not a decimal number.
pub fn scaled_decimal(s: &[char], mult: u64) -> (r: Option<u64>)
    requires
        1 <= mult <= 1_073_741_824,
    ensures
        r == spec_scaled_decimal(s@, mult as int),
{
    if s.len() == 0 {
        return None;
    }
    let signed = s[0] == '+' || s[0] == '-';
    let neg = s[0] == '-';
    let from: usize = if signed {
        1
    } else {
        0
    };
    let ghost body = s@.skip(from as int);
    assert(s@.skip(0) =~= s@);
    let dot = find_dot_exec(s, from);
    let (ie, fs) = if dot == s.len() {
        (s.len(), s.len())
    } else {
        (dot, dot + 1)
    };
    proof {
        if dot < s.len() {
            assert(body.take(dot - from) =~= s@.subrange(from as int, dot as int));
            assert(body.skip(dot - from + 1) =~= s@.subrange(dot + 1, s.len() as int));
        } else {
            assert(body =~= s@.subrange(from as int, s.len() as int));
            assert(s@.subrange(s.len() as int, s.len() as int) =~= Seq::<char>::empty());
        }
    }
    if !check_digits(s, from, ie) || !check_digits(s, fs, s.len()) || (ie - from) + (s.len()
        - fs) == 0 {
        return None;
    }
    if neg {
        return Some(0);
    }
    let ip = clamped_digits(s, from, ie);
    let fp = frac_floor_exec(s, fs, s.len(), mult);
    assert(ip * (mult as u128) <= 18_446_744_073_709_551_616u128 * 1_073_741_824u128) by (nonlinear_arith)
        requires
            ip <= 18_446_744_073_709_551_616u128,
            mult <= 1_073_741_824,
    ;
    let total: u128 = ip * (mult as u128) + fp as u128;
    proof {
        let iv = digits_value(s@.subrange(from as int, ie as int));
        lemma_digits_value_nonneg(s@.subrange(from as int, ie as int));
        if iv > u64::MAX + 1 {
            assert(iv * mult + fp > u64::MAX) by (nonlinear_arith)
                requires
                    iv > u64::MAX + 1,
                    mult >= 1,
                    fp >= 0,
            ;
            assert((u64::MAX + 1) * mult + fp > u64::MAX) by (nonlinear_arith)
                requires
                    mult >= 1,
                    fp >= 0,
            ;
        }
    }
    if total > 18_446_744_073_709_551_615 {
        Some(u64::MAX)
    } else {
        Some(total as u64)
    }
}

} // verus!
