//! Decimal rendering of counts and right alignment in a column.
use vstd::prelude::*;

verus! {

/// The ASCII space.
pub const SPACE: u8 = 32;

/// Number of decimal digits of `n` (one for zero).
pub open spec fn digits(n: nat) -> nat
    decreases n,
{
    if n < 10 {
        1
    } else {
        1 + digits(n / 10)
    }
}

/// The decimal digits of `n`, in ASCII, most significant first.
pub open spec fn decimal(n: nat) -> Seq<u8>
    decreases n,
{
    if n < 10 {
        seq![(48 + n) as u8]
    } else {
        decimal(n / 10).push((48 + n % 10) as u8)
    }
}

/// `s` preceded by spaces up to width `w`; `s` itself when it is as wide.
pub open spec fn pad_left(s: Seq<u8>, w: nat) -> Seq<u8> {
    if s.len() < w {
        Seq::new((w - s.len()) as nat, |k: int| SPACE) + s
    } else {
        s
    }
}

/// `n` in decimal, right-aligned in a column of width `w`.
pub open spec fn padded(n: nat, w: nat) -> Seq<u8> {
    pad_left(decimal(n), w)
}

pub proof fn lemma_decimal_len(n: nat)
    ensures
        decimal(n).len() == digits(n),
        digits(n) >= 1,
    decreases n,
{
    if n >= 10 {
        lemma_decimal_len(n / 10);
    }
}

/// Appends the decimal digits of `n` to `out`.
pub fn push_decimal(out: &mut Vec<u8>, n: usize)
    ensures
        final(out)@ == old(out)@ + decimal(n as nat),
    decreases n,
{
    if n >= 10 {
        push_decimal(out, n / 10);
    }
    let d: u8 = (n % 10) as u8;
    out.push(48 + d);
    proof {
        if n >= 10 {
            assert(final(out)@ =~= old(out)@ + decimal(n as nat));
        } else {
            assert(final(out)@ =~= old(out)@ + decimal(n as nat));
        }
    }
}

/// Appends `n` in decimal, right-aligned in a column of width `w`.
pub fn push_padded(out: &mut Vec<u8>, n: usize, w: usize)
    ensures
        final(out)@ == old(out)@ + padded(n as nat, w as nat),
{
    let len: usize = count_digits(n);
    proof {
        lemma_decimal_len(n as nat);
    }
    if len < w {
        let mut k: usize = len;
        let ghost start = out@;
        while k < w
            invariant
                len <= k <= w,
                out@ == start + Seq::new((k - len) as nat, |i: int| SPACE),
            decreases w - k,
        {
            out.push(SPACE);
            proof {
                assert(out@ =~= start + Seq::new((k + 1 - len) as nat, |i: int| SPACE));
            }
            k = k + 1;
        }
        push_decimal(out, n);
        proof {
            assert(out@ =~= start + padded(n as nat, w as nat));
        }
    } else {
        push_decimal(out, n);
    }
}

/// Ten to the power `k`.
pub open spec fn pow10(k: nat) -> nat
    decreases k,
{
    if k == 0 {
        1
    } else {
        10 * pow10((k - 1) as nat)
    }
}

pub proof fn lemma_digits_le(n: nat, k: nat)
    requires
        n < pow10(k),
    ensures
        digits(n) <= k + 1,
    decreases k,
{
    if n >= 10 {
        assert(k != 0);
        let p = pow10((k - 1) as nat);
        assert(n / 10 < p) by (nonlinear_arith)
            requires
                n < 10 * p,
        ;
        lemma_digits_le(n / 10, (k - 1) as nat);
    }
}

pub proof fn lemma_digits_u64(n: nat)
    requires
        n <= u64::MAX,
    ensures
        digits(n) <= 21,
{
    reveal_with_fuel(pow10, 21);
    lemma_digits_le(n, 20);
}

/// Number of decimal digits of `n`: the width of its column.
pub fn count_digits(n: usize) -> (r: usize)
    ensures
        r == digits(n as nat),
{
    proof {
        lemma_digits_u64(n as nat);
    }
    let mut m: usize = n;
    let mut r: usize = 1;
    while m >= 10
        invariant
            r + digits(m as nat) == 1 + digits(n as nat),
            digits(n as nat) <= 21,
        decreases m,
    {
        m = m / 10;
        r = r + 1;
    }
    r
}

} // verus!

verus! {

/// Appends the bytes of `s` to `out`.
pub fn push_all(out: &mut Vec<u8>, s: &[u8])
    ensures
        final(out)@ == old(out)@ + s@,
{
    let ghost start = out@;
    let mut k: usize = 0;
    while k < s.len()
        invariant
            k <= s@.len(),
            out@ == start + s@.subrange(0, k as int),
        decreases s@.len() - k,
    {
        out.push(s[k]);
        proof {
            assert(out@ =~= start + s@.subrange(0, k + 1));
        }
        k = k + 1;
    }
    proof {
        assert(s@.subrange(0, k as int) =~= s@);
    }
}

} // verus!
