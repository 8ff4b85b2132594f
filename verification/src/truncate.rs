//! Horizontal truncation of long lines.
use vstd::prelude::*;
use vstd::utf8::*;
use crate::bytes::{byte_boundary, lemma_valid_subrange, push_repeat, push_slice, repeat_byte};
use crate::num::{sat_sub, min_int};

verus! {

pub const DOT: u8 = 46;

/// The smallest cut position of `s` at or after `i`; the length of `s` when
/// `i` is past its end.
pub open spec fn ceil_boundary(s: Seq<u8>, i: int) -> int
    decreases s.len() - i,
{
    if i >= s.len() {
        s.len() as int
    } else if byte_boundary(s, i) {
        i
    } else {
        ceil_boundary(s, i + 1)
    }
}

/// The largest cut position of `s` at or before `i`; the length of `s` when
/// `i` is past its end.
pub open spec fn floor_boundary(s: Seq<u8>, i: int) -> int
    decreases i,
{
    if i >= s.len() {
        s.len() as int
    } else if i <= 0 {
        0
    } else if byte_boundary(s, i) {
        i
    } else {
        floor_boundary(s, i - 1)
    }
}

/// What a line shows after truncation: the visible bytes, the offset in the
/// line where the shown source starts, and the length of what precedes it.
pub struct Truncated {
    pub visible: Seq<u8>,
    pub byte_offset: int,
    pub prefix_len: int,
}

/// `n` dots: an ellipsis, or as much of one as fits.
pub open spec fn dots(n: int) -> Seq<u8> {
    repeat_byte(DOT, n as nat)
}

/// The truncation of `line` scrolled to `offset` in a column of
/// `max_width` bytes. A line that fits and is not scrolled is shown as it
/// is. Otherwise the shown source starts at the first character boundary at
/// or after `offset`; an ellipsis precedes it when that is not the start of
/// the line, and another follows it when the rest of the line does not fit;
/// the source shown between them is cut at a character boundary. Where the
/// column is too narrow for whole ellipses they are shortened, so that the
/// result never exceeds `max_width`.
#[verifier::opaque]
pub open spec fn truncate_spec(line: Seq<u8>, offset: int, max_width: int) -> Truncated {
    if offset == 0 && line.len() <= max_width {
        Truncated { visible: line, byte_offset: 0, prefix_len: 0 }
    } else {
        let bo = ceil_boundary(line, offset);
        let short = min_int(3, max_width);
        if bo >= line.len() {
            Truncated { visible: dots(short), byte_offset: bo, prefix_len: short }
        } else {
            let prefix_len = if bo > 0 { short } else { 0 };
            let room = sat_sub(max_width, prefix_len);
            let rem = line.subrange(bo, line.len() as int);
            let trailing = rem.len() > room;
            let suffix_len = if trailing { min_int(3, room) } else { 0 };
            let cw = if trailing { room - suffix_len } else { rem.len() as int };
            let ve = floor_boundary(rem, cw);
            Truncated {
                visible: dots(prefix_len) + rem.subrange(0, ve) + dots(suffix_len),
                byte_offset: bo,
                prefix_len,
            }
        }
    }
}

/// The shared horizontal offset for a window of lines: 0 when every line
/// fits or no column is marked, otherwise an offset that centres the marked
/// range `[start_column, end_column)`.
pub open spec fn truncation_offset_spec(
    lines: Seq<Seq<u8>>,
    start_column: int,
    end_column: int,
    available_width: int,
) -> int {
    if !needs_truncation(lines, available_width) || start_column == 0 {
        0
    } else {
        let available_with_ellipsis = sat_sub(available_width, 6);
        let midpoint = (sat_sub(start_column, 1) + sat_sub(end_column, 1)) / 2;
        sat_sub(midpoint, available_with_ellipsis / 2)
    }
}

/// Some line of the window is longer than the available width.
pub open spec fn needs_truncation(lines: Seq<Seq<u8>>, available_width: int) -> bool {
    exists|k: int| 0 <= k < lines.len() && #[trigger] lines[k].len() > available_width
}

/// The centring arithmetic stays within `usize`.
pub open spec fn offset_fits(
    lines: Seq<Seq<u8>>,
    start_column: int,
    end_column: int,
    available_width: int,
) -> bool {
    (needs_truncation(lines, available_width) && start_column != 0) ==> sat_sub(start_column, 1)
        + sat_sub(end_column, 1) <= usize::MAX
}

/// Exec form of `byte_boundary` for the line `src[ls..le]` at line offset `j`.
fn is_boundary_at(src: &[u8], ls: usize, le: usize, j: usize) -> (b: bool)
    requires
        ls <= le <= src@.len(),
        j <= le - ls,
    ensures
        b == byte_boundary(src@.subrange(ls as int, le as int), j as int),
{
    if j == 0 || j == le - ls {
        true
    } else {
        let c = src[ls + j];
        !(0x80 <= c && c <= 0xbf)
    }
}

/// Smallest cut position of the line `src[ls..le]` at or after `offset`.
pub fn ceil_char_boundary(src: &[u8], ls: usize, le: usize, offset: usize) -> (r: usize)
    requires
        ls <= le <= src@.len(),
    ensures
        r == ceil_boundary(src@.subrange(ls as int, le as int), offset as int),
{
    let ghost line = src@.subrange(ls as int, le as int);
    let len = le - ls;
    if offset >= len {
        return len;
    }
    let mut j = offset;
    while j < len && !is_boundary_at(src, ls, le, j)
        invariant
            ls <= le <= src@.len(),
            len == le - ls,
            line == src@.subrange(ls as int, le as int),
            offset <= j <= len,
            ceil_boundary(line, offset as int) == ceil_boundary(line, j as int),
        decreases len - j,
    {
        j = j + 1;
    }
    j
}

/// Largest cut position of the line `src[ls..le]` at or before `index`.
pub fn floor_char_boundary(src: &[u8], ls: usize, le: usize, index: usize) -> (r: usize)
    requires
        ls <= le <= src@.len(),
    ensures
        r == floor_boundary(src@.subrange(ls as int, le as int), index as int),
{
    let ghost line = src@.subrange(ls as int, le as int);
    let len = le - ls;
    if index >= len {
        return len;
    }
    let mut j = index;
    while j > 0 && !is_boundary_at(src, ls, le, j)
        invariant
            ls <= le <= src@.len(),
            len == le - ls,
            line == src@.subrange(ls as int, le as int),
            j <= index < len,
            floor_boundary(line, index as int) == floor_boundary(line, j as int),
        decreases j,
    {
        j = j - 1;
    }
    j
}

/// A truncated line: the bytes to show, where in the line they start, and
/// how many bytes of ellipsis precede them.
pub struct TruncationResult {
    pub visible_content: Vec<u8>,
    pub byte_offset: usize,
    pub prefix_len: usize,
}

/// Truncates the line `src[ls..le]` at byte `offset` (moved forward to a
/// character boundary) to fit `max_width` bytes, with ellipses where the line
/// was cut.
pub fn truncate_line(src: &[u8], ls: usize, le: usize, offset: usize, max_width: usize) -> (r:
    TruncationResult)
    requires
        ls <= le <= src@.len(),
        valid_utf8(src@.subrange(ls as int, le as int)),
    ensures
        ({
            let t = truncate_spec(src@.subrange(ls as int, le as int), offset as int, max_width as int);
            &&& r.visible_content@ == t.visible
            &&& r.byte_offset == t.byte_offset
            &&& r.prefix_len == t.prefix_len
        }),
        valid_utf8(r.visible_content@),
{
    reveal(truncate_spec);
    let ghost line = src@.subrange(ls as int, le as int);
    let len = le - ls;
    if offset == 0 && len <= max_width {
        let mut v: Vec<u8> = Vec::new();
        proof {
            assert(valid_utf8(v@));
        }
        push_slice(&mut v, src, ls, le);
        assert(v@ =~= line);
        return TruncationResult { visible_content: v, byte_offset: 0, prefix_len: 0 };
    }
    let byte_offset = ceil_char_boundary(src, ls, le, offset);
    let short: usize = if max_width < 3 { max_width } else { 3 };
    let mut result: Vec<u8> = Vec::new();
    assert(valid_utf8(result@));
    if byte_offset >= len {
        push_repeat(&mut result, DOT, short);
        assert(result@ =~= dots(short as int));
        return TruncationResult { visible_content: result, byte_offset, prefix_len: short };
    }
    let prefix_len: usize = if byte_offset > 0 { short } else { 0 };
    push_repeat(&mut result, DOT, prefix_len);
    let ghost prefix = result@;
    assert(prefix =~= dots(prefix_len as int));
    let room = max_width - prefix_len;
    let rem_len = len - byte_offset;
    let trailing = rem_len > room;
    let suffix_len: usize = if trailing {
        if room < 3 { room } else { 3 }
    } else {
        0
    };
    let content_width = if trailing { room - suffix_len } else { rem_len };
    let visible_end = floor_char_boundary(src, ls + byte_offset, le, content_width);
    proof {
        let rem = line.subrange(byte_offset as int, len as int);
        assert(src@.subrange((ls + byte_offset) as int, le as int) =~= rem);
        lemma_ceil_is_boundary(line, offset as int);
        lemma_floor_is_boundary(rem, content_width as int);
        assert(byte_boundary(line, (byte_offset + visible_end) as int)) by {
            if visible_end < rem.len() && visible_end > 0 {
                assert(rem[visible_end as int] == line[(byte_offset + visible_end) as int]);
            }
        }
        lemma_valid_subrange(line, byte_offset as int, (byte_offset + visible_end) as int);
        assert(line.subrange(byte_offset as int, (byte_offset + visible_end) as int)
            =~= src@.subrange((ls + byte_offset) as int, (ls + byte_offset + visible_end) as int));
        assert(rem.subrange(0, visible_end as int)
            =~= src@.subrange((ls + byte_offset) as int, (ls + byte_offset + visible_end) as int));
    }
    push_slice(&mut result, src, ls + byte_offset, ls + byte_offset + visible_end);
    let ghost mid = result@;
    push_repeat(&mut result, DOT, suffix_len);
    proof {
        let rem = line.subrange(byte_offset as int, len as int);
        assert(result@ =~= prefix + rem.subrange(0, visible_end as int) + dots(suffix_len as int));
    }
    TruncationResult { visible_content: result, byte_offset, prefix_len }
}

/// The byte strings that the ranges `lines` pick out of `src`.
pub open spec fn ranges_to_lines(src: Seq<u8>, lines: Seq<(usize, usize)>) -> Seq<Seq<u8>> {
    lines.map_values(|r: (usize, usize)| src.subrange(r.0 as int, r.1 as int))
}

/// The shared horizontal offset for the window `lines[first..last]` (byte
/// ranges into `src`), centring the marked range when some line is too long;
/// `None` where the centring arithmetic would leave `usize`.
pub fn calculate_truncation_offset(
    src: &[u8],
    lines: &Vec<(usize, usize)>,
    first: usize,
    last: usize,
    start_column: usize,
    end_column: usize,
    available_width: usize,
) -> (r: Option<usize>)
    requires
        first <= last <= lines@.len(),
        forall|k: int| 0 <= k < lines@.len() ==> #[trigger] lines@[k].0 <= lines@[k].1 <= src@.len(),
    ensures
        r is None <==> !offset_fits(
            ranges_to_lines(src@, lines@).subrange(first as int, last as int),
            start_column as int,
            end_column as int,
            available_width as int,
        ),
        r matches Some(o) ==> o == truncation_offset_spec(
            ranges_to_lines(src@, lines@).subrange(first as int, last as int),
            start_column as int,
            end_column as int,
            available_width as int,
        ),
{
    let ghost window = ranges_to_lines(src@, lines@).subrange(first as int, last as int);
    let mut needs = false;
    let mut k = first;
    while k < last
        invariant
            first <= k <= last <= lines@.len(),
            window == ranges_to_lines(src@, lines@).subrange(first as int, last as int),
            forall|j: int| 0 <= j < lines@.len() ==> #[trigger] lines@[j].0 <= lines@[j].1 <= src@.len(),
            needs <==> exists|j: int| 0 <= j < k - first && #[trigger] window[j].len() > available_width,
        decreases last - k,
    {
        let (ls, le) = lines[k];
        proof {
            assert(lines@[k as int].0 <= lines@[k as int].1 <= src@.len());
            assert(window[k - first] == src@.subrange(ls as int, le as int));
        }
        if le - ls > available_width {
            needs = true;
        }
        k = k + 1;
    }
    if !needs || start_column == 0 {
        return Some(0);
    }
    let available_with_ellipsis = if available_width >= 6 { available_width - 6 } else { 0 };
    let start_0 = if start_column >= 1 { start_column - 1 } else { 0 };
    let end_0 = if end_column >= 1 { end_column - 1 } else { 0 };
    let sum = match start_0.checked_add(end_0) {
        Some(v) => v,
        None => return None,
    };
    let midpoint = sum / 2;
    let half = available_with_ellipsis / 2;
    Some(if midpoint >= half { midpoint - half } else { 0 })
}

/// `ceil_boundary` lands on a cut position.
pub proof fn lemma_ceil_is_boundary(s: Seq<u8>, i: int)
    requires
        0 <= i,
    ensures
        i <= s.len() ==> i <= ceil_boundary(s, i),
        ceil_boundary(s, i) <= s.len(),
        byte_boundary(s, ceil_boundary(s, i)),
    decreases s.len() - i,
{
    if i < s.len() && !byte_boundary(s, i) {
        lemma_ceil_is_boundary(s, i + 1);
    }
}

/// `floor_boundary` lands on a cut position.
pub proof fn lemma_floor_is_boundary(s: Seq<u8>, i: int)
    ensures
        0 <= floor_boundary(s, i) <= s.len(),
        i >= 0 ==> floor_boundary(s, i) <= i || floor_boundary(s, i) == s.len(),
        byte_boundary(s, floor_boundary(s, i)),
    decreases i,
{
    if i < s.len() && i > 0 && !byte_boundary(s, i) {
        lemma_floor_is_boundary(s, i - 1);
    }
}

} // verus!
