//! Integer helpers: saturating arithmetic and decimal digits.
use vstd::prelude::*;
use vstd::utf8::valid_utf8;
use crate::bytes::{push_ascii, push_repeat, repeat_byte};

verus! {

/// `a - b`, or 0 where that would be negative.
pub open spec fn sat_sub(a: int, b: int) -> int {
    if a >= b {
        a - b
    } else {
        0
    }
}

pub open spec fn min_int(a: int, b: int) -> int {
    if a <= b {
        a
    } else {
        b
    }
}

pub open spec fn max_int(a: int, b: int) -> int {
    if a >= b {
        a
    } else {
        b
    }
}

pub const ZERO: u8 = 48;
pub const SPACE: u8 = 32;

/// The decimal digits of `n`, most significant first, without leading zeros.
pub open spec fn decimal(n: nat) -> Seq<u8>
    decreases n,
{
    if n < 10 {
        seq![(ZERO + n) as u8]
    } else {
        decimal(n / 10).push((ZERO + n % 10) as u8)
    }
}

/// `n` right-aligned in a field of `width` bytes, padded with spaces; wider
/// numbers are not cut.
pub open spec fn right_aligned(n: nat, width: int) -> Seq<u8> {
    repeat_byte(SPACE, sat_sub(width, decimal(n).len() as int) as nat) + decimal(n)
}

pub proof fn lemma_decimal_ascii(n: nat)
    ensures
        decimal(n).len() >= 1,
        forall|i: int| 0 <= i < decimal(n).len() ==> ZERO <= #[trigger] decimal(n)[i] < ZERO + 10,
    decreases n,
{
    if n >= 10 {
        lemma_decimal_ascii(n / 10);
    }
}

/// A number with more digits is larger.
pub proof fn lemma_decimal_len_monotone(a: nat, b: nat)
    requires
        a <= b,
    ensures
        decimal(a).len() <= decimal(b).len(),
    decreases b,
{
    if a >= 10 {
        lemma_decimal_len_monotone(a / 10, b / 10);
    }
}

/// Number of decimal digits of `n`.
pub fn num_digits(n: usize) -> (d: usize)
    ensures
        d == decimal(n as nat).len(),
        1 <= d <= 20,
{
    let mut m = n;
    let mut d: usize = 1;
    proof {
        lemma_decimal_len_bound(n as nat);
    }
    while m >= 10
        invariant
            1 <= d <= 20,
            decimal(n as nat).len() == decimal(m as nat).len() + d - 1,
            decimal(m as nat).len() + d - 1 <= 20,
        decreases m,
    {
        assert(decimal(m as nat).len() == decimal((m / 10) as nat).len() + 1);
        proof {
            lemma_decimal_ascii((m / 10) as nat);
        }
        m = m / 10;
        d = d + 1;
    }
    d
}

pub open spec fn pow10(k: nat) -> nat
    decreases k,
{
    if k == 0 {
        1
    } else {
        10 * pow10((k - 1) as nat)
    }
}

proof fn lemma_decimal_len_below(n: nat, k: nat)
    requires
        k >= 1,
        n < pow10(k),
    ensures
        decimal(n).len() <= k,
    decreases k,
{
    if n >= 10 {
        assert(k >= 2) by {
            if k == 1 {
                assert(pow10(1) == 10) by {
                    reveal_with_fuel(pow10, 2);
                }
            }
        }
        lemma_decimal_len_below(n / 10, (k - 1) as nat);
    }
}

proof fn lemma_decimal_len_bound(n: nat)
    requires
        n <= usize::MAX,
    ensures
        decimal(n).len() <= 20,
{
    reveal_with_fuel(pow10, 21);
    assert(pow10(20) == 100000000000000000000);
    lemma_decimal_len_below(n, 20);
}

/// Appends the decimal digits of `n`.
pub fn push_decimal(out: &mut Vec<u8>, n: usize)
    requires
        valid_utf8(old(out)@),
    ensures
        final(out)@ == old(out)@ + decimal(n as nat),
        valid_utf8(final(out)@),
    decreases n,
{
    if n >= 10 {
        push_decimal(out, n / 10);
    }
    let ghost before = out@;
    push_ascii(out, ZERO + (n % 10) as u8);
    proof {
        if n >= 10 {
            assert(decimal(n as nat) == decimal((n / 10) as nat).push((ZERO + n % 10) as u8));
        }
    }
}

/// Appends `n` right-aligned in a field of `width` bytes.
pub fn push_right_aligned(out: &mut Vec<u8>, n: usize, width: usize)
    requires
        valid_utf8(old(out)@),
    ensures
        final(out)@ == old(out)@ + right_aligned(n as nat, width as int),
        valid_utf8(final(out)@),
{
    let d = num_digits(n);
    let pad = if width >= d { width - d } else { 0 };
    let ghost start = out@;
    push_repeat(out, SPACE, pad);
    push_decimal(out, n);
    assert(out@ =~= start + right_aligned(n as nat, width as int));
}

} // verus!
