//! Parsing of `line:column` positions.
use vstd::prelude::*;
use vstd::string::StringSliceAdditionalSpecFns;
use crate::frame::Location;

verus! {

pub const PLUS: u8 = 43;
pub const COLON: u8 = 58;

pub open spec fn is_digit(b: u8) -> bool {
    48 <= b <= 57
}

/// The number written by the decimal digits `d` (0 for none).
pub open spec fn digits_value(d: Seq<u8>) -> nat
    decreases d.len(),
{
    if d.len() == 0 {
        0
    } else {
        digits_value(d.drop_last()) * 10 + (d.last() - 48) as nat
    }
}

/// What follows an optional leading `+`.
pub open spec fn digits_part(s: Seq<u8>) -> Seq<u8> {
    if s.len() > 0 && s[0] == PLUS {
        s.drop_first()
    } else {
        s
    }
}

/// An unsigned decimal number as `usize` reads it: an optional `+`, then at
/// least one digit and nothing else, with a value that fits.
pub open spec fn parse_usize_spec(s: Seq<u8>) -> Option<usize> {
    let d = digits_part(s);
    if d.len() > 0 && (forall|i: int| 0 <= i < d.len() ==> is_digit(#[trigger] d[i]))
        && digits_value(d) <= usize::MAX {
        Some(digits_value(d) as usize)
    } else {
        None
    }
}

/// The index of the first `b` in `s` at or after `i`.
pub open spec fn find_from(s: Seq<u8>, b: u8, i: int) -> Option<int>
    decreases s.len() - i,
{
    if i >= s.len() {
        None
    } else if s[i] == b {
        Some(i)
    } else {
        find_from(s, b, i + 1)
    }
}

/// A position `line:column`: both parts parsed as numbers around the first
/// colon.
pub open spec fn parse_position_spec(s: Seq<u8>) -> Option<Location> {
    match find_from(s, COLON, 0) {
        None => None,
        Some(i) => match (
            parse_usize_spec(s.subrange(0, i)),
            parse_usize_spec(s.subrange(i + 1, s.len() as int)),
        ) {
            (Some(line), Some(col)) => Some(Location { line, column: Some(col) }),
            _ => None,
        },
    }
}

proof fn lemma_digits_value_prefix_monotone(d: Seq<u8>, j: int, k: int)
    requires
        0 <= j <= k <= d.len(),
        forall|i: int| 0 <= i < d.len() ==> is_digit(#[trigger] d[i]),
    ensures
        digits_value(d.subrange(0, j)) <= digits_value(d.subrange(0, k)),
    decreases k - j,
{
    if j < k {
        lemma_digits_value_prefix_monotone(d, j, k - 1);
        assert(d.subrange(0, k).drop_last() =~= d.subrange(0, k - 1));
    }
}

/// Reads the number in `s[a..b]` as `usize` does.
pub fn parse_usize(s: &[u8], a: usize, b: usize) -> (r: Option<usize>)
    requires
        a <= b <= s@.len(),
    ensures
        r == parse_usize_spec(s@.subrange(a as int, b as int)),
{
    let ghost t = s@.subrange(a as int, b as int);
    let start = if a < b && s[a] == PLUS { a + 1 } else { a };
    let ghost d = s@.subrange(start as int, b as int);
    proof {
        if a < b && s@[a as int] == PLUS {
            assert(t.drop_first() =~= d);
        } else {
            assert(t =~= d);
        }
    }
    if start == b {
        return None;
    }
    let mut v: usize = 0;
    let mut k = start;
    proof {
        assert(d.subrange(0, 0) =~= Seq::<u8>::empty());
    }
    while k < b
        invariant
            a <= start <= k <= b <= s@.len(),
            d == s@.subrange(start as int, b as int),
            t == s@.subrange(a as int, b as int),
            d == digits_part(t),
            forall|i: int| 0 <= i < k - start ==> is_digit(#[trigger] d[i]),
            v == digits_value(d.subrange(0, k - start)),
        decreases b - k,
    {
        let c = s[k];
        if !(48 <= c && c <= 57) {
            proof {
                assert(d[k - start] == c);
                assert(!is_digit(d[k - start]));
            }
            return None;
        }
        proof {
            assert(d.subrange(0, k - start + 1).drop_last() =~= d.subrange(0, k - start));
            assert(d.subrange(0, k - start + 1).last() == c);
        }
        let ghost next = digits_value(d.subrange(0, k - start + 1));
        let ghost all_digits = forall|i: int| 0 <= i < d.len() ==> is_digit(#[trigger] d[i]);
        proof {
            if all_digits {
                lemma_digits_value_prefix_monotone(d, k - start + 1, d.len() as int);
                assert(d.subrange(0, d.len() as int) =~= d);
            }
        }
        match v.checked_mul(10) {
            None => {
                assert(next > usize::MAX);
                return None;
            },
            Some(v10) => {
                match v10.checked_add((c - 48) as usize) {
                    None => {
                        return None;
                    },
                    Some(w) => {
                        v = w;
                    },
                }
            },
        }
        k = k + 1;
    }
    proof {
        assert(d.subrange(0, d.len() as int) =~= d);
    }
    Some(v)
}

/// Reads a position `line:column`, both 1-indexed numbers, split at the
/// first colon.
pub fn parse_position(s: &str) -> (r: Option<Location>)
    ensures
        r == parse_position_spec(s.spec_bytes()),
{
    let b = s.as_bytes();
    let n = b.len();
    let mut i: usize = 0;
    while i < n && b[i] != COLON
        invariant
            i <= n == b@.len(),
            find_from(b@, COLON, 0) == find_from(b@, COLON, i as int),
        decreases n - i,
    {
        i = i + 1;
    }
    if i == n {
        return None;
    }
    let line = match parse_usize(b, 0, i) {
        Some(v) => v,
        None => return None,
    };
    let column = match parse_usize(b, i + 1, n) {
        Some(v) => v,
        None => return None,
    };
    Some(Location { line, column: Some(column) })
}

} // verus!
