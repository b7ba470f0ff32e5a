//! Decimal rendering of integers, optionally zero-padded.
use vstd::prelude::*;

verus! {

pub open spec fn digit_char(d: int) -> char {
    (('0' as int) + d) as char
}

/// Decimal digits of `n`, without leading zeros (`"0"` for zero).
pub open spec fn dec(n: nat) -> Seq<char>
    decreases n,
{
    if n < 10 {
        seq![digit_char(n as int)]
    } else {
        dec(n / 10).push(digit_char((n % 10) as int))
    }
}

/// `dec(n)` left-padded with zeros to at least `w` characters.
pub open spec fn zpad(n: nat, w: nat) -> Seq<char> {
    let d = dec(n);
    if d.len() >= w {
        d
    } else {
        Seq::new((w - d.len()) as nat, |i: int| '0') + d
    }
}

fn digit(d: u64) -> (c: char)
    requires
        d < 10,
    ensures
        c == digit_char(d as int),
{
    if d == 0 {
        '0'
    } else if d == 1 {
        '1'
    } else if d == 2 {
        '2'
    } else if d == 3 {
        '3'
    } else if d == 4 {
        '4'
    } else if d == 5 {
        '5'
    } else if d == 6 {
        '6'
    } else if d == 7 {
        '7'
    } else if d == 8 {
        '8'
    } else {
        '9'
    }
}

/// Append the decimal digits of `n`.
pub fn push_dec(out: &mut Vec<char>, n: u64)
    ensures
        final(out)@ == old(out)@ + dec(n as nat),
    decreases n,
{
    if n >= 10 {
        push_dec(out, n / 10);
    }
    let ghost mid = out@;
    out.push(digit(n % 10));
    proof {
        if n >= 10 {
            assert(out@ =~= old(out)@ + dec(n as nat));
        } else {
            assert(out@ =~= old(out)@ + dec(n as nat));
        }
    }
}

/// Number of decimal digits of `n`.
pub fn dec_len(n: u64) -> (r: usize)
    ensures
        r == dec(n as nat).len(),
        r <= 20,
    decreases n,
{
    if n >= 10 {
        proof {
            assert(n / 10 < n);
        }
        let k = dec_len(n / 10);
        proof {
            lemma_dec_len_bound(n as nat);
        }
        k + 1
    } else {
        1
    }
}

proof fn lemma_dec_len_bound(n: nat)
    requires
        n <= u64::MAX,
    ensures
        dec(n).len() <= 20,
{
    reveal_with_fuel(pow10, 21);
    assert(pow10(20) == 100_000_000_000_000_000_000);
    lemma_dec_len_le(n, 20);
}

proof fn lemma_dec_len_le(n: nat, k: nat)
    requires
        n < pow10(k),
    ensures
        dec(n).len() <= k || (k == 0),
    decreases n,
{
    if n >= 10 && k > 0 {
        lemma_pow10_step(k);
        lemma_dec_len_le(n / 10, (k - 1) as nat);
    }
}

pub open spec fn pow10(k: nat) -> nat
    decreases k,
{
    if k == 0 {
        1
    } else {
        10 * pow10((k - 1) as nat)
    }
}

proof fn lemma_pow10_step(k: nat)
    requires
        k > 0,
    ensures
        pow10(k) == 10 * pow10((k - 1) as nat),
{
}

/// Append `n` zero-padded to at least `w` digits.
pub fn push_padded(out: &mut Vec<char>, n: u64, w: usize)
    ensures
        final(out)@ == old(out)@ + zpad(n as nat, w as nat),
{
    let len = dec_len(n);
    let ghost start = out@;
    if len < w {
        let mut k: usize = 0;
        while k < w - len
            invariant
                k <= w - len,
                len < w,
                out@ == start + Seq::new(k as nat, |i: int| '0'),
            decreases w - len - k,
        {
            out.push('0');
            k += 1;
            proof {
                assert(out@ =~= start + Seq::new(k as nat, |i: int| '0'));
            }
        }
    }
    let ghost mid = out@;
    push_dec(out, n);
    proof {
        assert(out@ =~= start + zpad(n as nat, w as nat));
    }
}

} // verus!
