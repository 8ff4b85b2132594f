//! Byte-level building blocks: UTF-8 validity of slices cut at character
//! boundaries, and an output buffer that stays valid UTF-8.
use vstd::prelude::*;
use vstd::utf8::*;
use vstd::string::*;

verus! {

/// `i` is a place where a byte string may be cut without splitting a
/// character: its start, its end, or a byte that is not a continuation byte.
pub open spec fn byte_boundary(s: Seq<u8>, i: int) -> bool {
    i == 0 || i == s.len() || (0 < i < s.len() && !is_continuation_byte(s[i]))
}

/// An ASCII byte alone is valid UTF-8.
pub proof fn lemma_ascii_byte_valid(b: u8)
    requires
        b < 0x80,
    ensures
        valid_utf8(seq![b]),
{
    let s = seq![b];
    reveal_with_fuel(valid_utf8, 2);
    assert(codepoint_width_1(b) == b as u32 && (b as u32) < 0x80) by (bit_vector)
        requires b < 0x80;
    assert(pop_first_scalar(s) =~= Seq::<u8>::empty());
}

/// A sequence of ASCII bytes is valid UTF-8.
pub proof fn lemma_ascii_seq_valid(s: Seq<u8>)
    requires
        forall|i: int| 0 <= i < s.len() ==> #[trigger] s[i] < 0x80,
    ensures
        valid_utf8(s),
    decreases s.len(),
{
    if s.len() > 0 {
        lemma_ascii_seq_valid(s.drop_last());
        lemma_ascii_byte_valid(s.last());
        valid_utf8_concat(s.drop_last(), seq![s.last()]);
        assert(s.drop_last() + seq![s.last()] =~= s);
    }
}

/// Cutting valid UTF-8 at two boundaries gives valid UTF-8.
pub proof fn lemma_valid_subrange(s: Seq<u8>, a: int, b: int)
    requires
        valid_utf8(s),
        0 <= a <= b <= s.len(),
        byte_boundary(s, a),
        byte_boundary(s, b),
    ensures
        valid_utf8(s.subrange(a, b)),
{
    is_char_boundary_start_end_of_seq(s);
    if a < s.len() {
        is_char_boundary_iff_not_is_continuation_byte(s, a);
    }
    valid_utf8_split(s, a);
    let t = s.subrange(a, s.len() as int);
    is_char_boundary_start_end_of_seq(t);
    if b - a < t.len() {
        assert(t[b - a] == s[b]);
        is_char_boundary_iff_not_is_continuation_byte(t, b - a);
    }
    valid_utf8_split(t, b - a);
    assert(t.subrange(0, b - a) =~= s.subrange(a, b));
}

/// Cutting valid UTF-8 around an ASCII byte leaves valid UTF-8 on both sides.
pub proof fn lemma_valid_cut_ascii(s: Seq<u8>, j: int)
    requires
        valid_utf8(s),
        0 <= j < s.len(),
        s[j] < 0x80,
    ensures
        valid_utf8(s.subrange(0, j)),
        valid_utf8(s.subrange(j + 1, s.len() as int)),
{
    is_char_boundary_iff_not_is_continuation_byte(s, j);
    valid_utf8_split(s, j);
    let t = s.subrange(j, s.len() as int);
    assert(t[0] == s[j]);
    assert(valid_utf8(pop_first_scalar(t)));
    assert(pop_first_scalar(t) =~= s.subrange(j + 1, s.len() as int));
}

/// Appends one ASCII byte, keeping the buffer valid UTF-8.
pub fn push_ascii(out: &mut Vec<u8>, b: u8)
    requires
        b < 0x80,
        valid_utf8(old(out)@),
    ensures
        final(out)@ == old(out)@.push(b),
        valid_utf8(final(out)@),
{
    proof {
        lemma_ascii_byte_valid(b);
        valid_utf8_concat(out@, seq![b]);
        assert(out@ + seq![b] =~= out@.push(b));
    }
    out.push(b);
}

/// `n` copies of byte `b`.
pub open spec fn repeat_byte(b: u8, n: nat) -> Seq<u8> {
    Seq::new(n, |i: int| b)
}

/// Appends `n` copies of an ASCII byte.
pub fn push_repeat(out: &mut Vec<u8>, b: u8, n: usize)
    requires
        b < 0x80,
        valid_utf8(old(out)@),
    ensures
        final(out)@ == old(out)@ + repeat_byte(b, n as nat),
        valid_utf8(final(out)@),
{
    let ghost start = out@;
    let mut k: usize = 0;
    while k < n
        invariant
            k <= n,
            b < 0x80,
            out@ == start + repeat_byte(b, k as nat),
            valid_utf8(out@),
        decreases n - k,
    {
        push_ascii(out, b);
        k = k + 1;
        assert(out@ =~= start + repeat_byte(b, k as nat));
    }
}

/// Appends a slice of valid UTF-8 bytes.
pub fn push_slice(out: &mut Vec<u8>, src: &[u8], a: usize, b: usize)
    requires
        valid_utf8(old(out)@),
        a <= b <= src@.len(),
        valid_utf8(src@.subrange(a as int, b as int)),
    ensures
        final(out)@ == old(out)@ + src@.subrange(a as int, b as int),
        valid_utf8(final(out)@),
{
    proof {
        valid_utf8_concat(out@, src@.subrange(a as int, b as int));
    }
    let ghost start = out@;
    let mut k: usize = a;
    while k < b
        invariant
            a <= k <= b <= src@.len(),
            out@ == start + src@.subrange(a as int, k as int),
        decreases b - k,
    {
        out.push(src[k]);
        k = k + 1;
        assert(out@ =~= start + src@.subrange(a as int, k as int));
    }
}

/// Appends the UTF-8 bytes of a string.
pub fn push_str(out: &mut Vec<u8>, s: &str)
    requires
        valid_utf8(old(out)@),
    ensures
        final(out)@ == old(out)@ + s.spec_bytes(),
        valid_utf8(final(out)@),
{
    let b = s.as_bytes();
    proof {
        encode_utf8_valid_utf8(s@);
        assert(b@.subrange(0, b@.len() as int) =~= b@);
    }
    push_slice(out, b, 0, b.len());
}

} // verus!
