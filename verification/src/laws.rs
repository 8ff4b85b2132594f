//! Properties of the frame that hold for every input.
use vstd::prelude::*;
use crate::bytes::byte_boundary;
use crate::num::{decimal, lemma_decimal_ascii, lemma_decimal_len_monotone, min_int, right_aligned, sat_sub, SPACE};
use crate::marker::marker_position_spec;
use crate::truncate::truncation_offset_spec;
use crate::lines::{split_on_newline, NEWLINE};
use crate::frame::{
    code_row, frame_layout, frame_sections, is_error_line, join_with_newlines, line_block, marker_row,
    message_bytes, render_spec, reset_style, CodeFrameLocation, CodeFrameOptions, Location,
    BAR, CARET,
};
use crate::lines::{source_lines, strip_cr};
use crate::truncate::DOT;
use vstd::utf8::{encode_utf8, is_ascii_chars, is_ascii_chars_encode_utf8};
use crate::position::{digits_part, digits_value, find_from, is_digit, parse_position_spec, parse_usize_spec, COLON};
use crate::truncate::{ceil_boundary, dots, floor_boundary, truncate_spec, lemma_ceil_is_boundary};

verus! {

/// The largest cut position at or before `i` is at most `i`, for `i` inside
/// the sequence.
pub proof fn lemma_floor_at_most(s: Seq<u8>, i: int)
    requires
        0 <= i < s.len(),
    ensures
        0 <= floor_boundary(s, i) <= i,
        byte_boundary(s, floor_boundary(s, i)),
    decreases i,
{
    if i > 0 && !byte_boundary(s, i) {
        lemma_floor_at_most(s, i - 1);
    }
}

/// Truncation snaps the offset forward to the nearest character boundary:
/// the shown source starts at a cut position at or after the offset, and no
/// position between the offset and it is a cut position.
pub proof fn law_offset_snaps_forward(line: Seq<u8>, offset: int)
    requires
        0 <= offset <= line.len(),
    ensures
        offset <= ceil_boundary(line, offset) <= line.len(),
        byte_boundary(line, ceil_boundary(line, offset)),
        forall|j: int| offset <= j < ceil_boundary(line, offset) ==> !byte_boundary(line, j),
    decreases line.len() - offset,
{
    lemma_ceil_is_boundary(line, offset);
    if offset < line.len() && !byte_boundary(line, offset) {
        law_offset_snaps_forward(line, offset + 1);
    }
}

/// A line that fits and is not scrolled is shown unchanged.
pub proof fn law_fitting_line_unchanged(line: Seq<u8>, max_width: int)
    requires
        line.len() <= max_width,
    ensures
        truncate_spec(line, 0, max_width).visible == line,
        truncate_spec(line, 0, max_width).byte_offset == 0,
        truncate_spec(line, 0, max_width).prefix_len == 0,
{
    reveal(truncate_spec);
}

/// A truncated line, ellipses included, is never wider than the column.
pub proof fn law_truncated_width(line: Seq<u8>, offset: int, max_width: int)
    requires
        0 <= offset,
        0 <= max_width,
    ensures
        truncate_spec(line, offset, max_width).visible.len() <= max_width,
{
    reveal(truncate_spec);
    if !(offset == 0 && line.len() <= max_width) {
        let bo = ceil_boundary(line, offset);
        lemma_ceil_is_boundary(line, offset);
        if bo < line.len() {
            let prefix_len = if bo > 0 { min_int(3, max_width) } else { 0 };
            let room = sat_sub(max_width, prefix_len);
            let rem = line.subrange(bo, line.len() as int);
            let trailing = rem.len() > room;
            if trailing {
                let cw = room - min_int(3, room);
                lemma_floor_at_most(rem, cw);
            } else {
                assert(floor_boundary(rem, rem.len() as int) == rem.len());
            }
        }
    }
}

/// Where the shown source of a line is cut, the line shows one contiguous
/// slice of it, starting at the snapped offset and ending at a cut
/// position, with an ellipsis before it exactly when it does not start the
/// line and an ellipsis after it exactly when it does not end the line;
/// each ellipsis is three dots, or as many as the column leaves room for.
pub proof fn law_truncation_shows_a_slice(line: Seq<u8>, offset: int, max_width: int)
    requires
        0 <= offset,
        0 <= max_width,
        !(offset == 0 && line.len() <= max_width),
        ceil_boundary(line, offset) < line.len(),
    ensures
        ({
            let t = truncate_spec(line, offset, max_width);
            let bo = t.byte_offset;
            let p = if bo > 0 { min_int(3, max_width) } else { 0 };
            &&& t.prefix_len == p
            &&& exists|e: int|
                #![trigger line.subrange(bo, e)]
                bo <= e <= line.len() && byte_boundary(line, e) && t.visible == dots(p)
                    + line.subrange(bo, e) + dots(
                    if e < line.len() {
                        min_int(3, max_width - p)
                    } else {
                        0
                    },
                )
        }),
{
    reveal(truncate_spec);
    let t = truncate_spec(line, offset, max_width);
    let bo = ceil_boundary(line, offset);
    lemma_ceil_is_boundary(line, offset);
    let p = if bo > 0 { min_int(3, max_width) } else { 0 };
    let room = sat_sub(max_width, p);
    let rem = line.subrange(bo, line.len() as int);
    let trailing = rem.len() > room;
    assert(t.byte_offset == bo);
    if trailing {
        let sfx = min_int(3, room);
        let cw = room - sfx;
        lemma_floor_at_most(rem, cw);
        let ve = floor_boundary(rem, cw);
        let e = bo + ve;
        assert(rem.subrange(0, ve) =~= line.subrange(bo, e));
        assert(byte_boundary(line, e)) by {
            if 0 < ve < rem.len() {
                assert(rem[ve] == line[e]);
            }
        }
        assert(e < line.len());
        assert(t.visible == dots(p) + line.subrange(bo, e) + dots(sfx));
        assert(bo <= e <= line.len() && byte_boundary(line, e) && t.visible == dots(p)
            + line.subrange(bo, e) + dots(if e < line.len() { min_int(3, max_width - p) } else { 0 }));
    } else {
        assert(floor_boundary(rem, rem.len() as int) == rem.len());
        let e = line.len() as int;
        assert(rem.subrange(0, rem.len() as int) =~= line.subrange(bo, e));
        assert(dots(0) =~= Seq::<u8>::empty());
        assert(t.visible =~= dots(p) + line.subrange(bo, e) + dots(0));
        assert(bo <= e <= line.len() && byte_boundary(line, e) && t.visible == dots(p)
            + line.subrange(bo, e) + dots(if e < line.len() { min_int(3, max_width - p) } else { 0 }));
    }
}

/// The caret row starts at display column 1 or later; while its start is
/// within the code width it has at least one caret and ends within the
/// width, and beyond the width it has none.
pub proof fn law_marker_within_width(
    start_column: int,
    end_column: int,
    line_length: int,
    line_idx: int,
    start_line: int,
    end_line: int,
    column_offset: int,
    available_code_width: int,
)
    requires
        0 <= line_length,
        0 <= column_offset,
        0 <= available_code_width,
    ensures
        ({
            let (mc, ml) = marker_position_spec(
                start_column,
                end_column,
                line_length,
                line_idx,
                start_line,
                end_line,
                column_offset,
                available_code_width,
            );
            &&& mc >= 1
            &&& ml >= 0
            &&& mc - 1 < available_code_width ==> 1 <= ml && mc - 1 + ml <= available_code_width
            &&& mc - 1 >= available_code_width ==> ml == 0
        }),
{
}

/// Columns are 1-indexed and half-open: on a single-line location whose
/// range `[start, end)` lies within the line, the first caret sits under
/// byte `start - 1` of the line as it is shown. Unscrolled, that is display
/// column `start`, and the carets cover `end - start` columns where the
/// width allows. Scrolled to `offset`, the shown source begins after the
/// ellipsis, so the caret sits `start - 1 - offset` columns after it; a
/// start scrolled out of view is marked at the first shown byte.
pub proof fn law_marker_covers_range(
    start_column: int,
    end_column: int,
    line_length: int,
    line: int,
    column_offset: int,
    available_code_width: int,
)
    requires
        1 <= start_column < end_column <= line_length + 1,
        0 <= column_offset,
        0 <= available_code_width,
    ensures
        ({
            let (mc, ml) = marker_position_spec(
                start_column,
                end_column,
                line_length,
                line,
                line,
                line,
                column_offset,
                available_code_width,
            );
            let ellipsis_len = min_int(3, available_code_width);
            &&& column_offset == 0 && end_column - 1 <= available_code_width ==> mc == start_column
                && ml == end_column - start_column
            &&& column_offset > 0 && start_column - 1 >= column_offset ==> mc - 1 == ellipsis_len
                + (start_column - 1 - column_offset)
            &&& column_offset > 0 && start_column - 1 < column_offset ==> mc - 1 == ellipsis_len
            &&& column_offset > 0 && mc - 1 + (end_column - start_column) <= available_code_width
                ==> ml == end_column - start_column
        }),
{
}

/// On the first line of a location that spans lines, the carets run from
/// the start column to the end of the line, its last byte included: as on
/// a single-line location ending one past the line.
pub proof fn law_marker_first_line(
    start_column: int,
    end_column: int,
    line_length: int,
    line_idx: int,
    start_line: int,
    end_line: int,
    column_offset: int,
    available_code_width: int,
)
    requires
        start_line != end_line,
        line_idx == start_line,
    ensures
        marker_position_spec(
            start_column,
            end_column,
            line_length,
            line_idx,
            start_line,
            end_line,
            column_offset,
            available_code_width,
        ) == marker_position_spec(
            start_column,
            line_length + 1,
            line_length,
            0,
            0,
            0,
            column_offset,
            available_code_width,
        ),
{
}

/// On a line strictly inside a location that spans lines, the whole line
/// is marked.
pub proof fn law_marker_middle_line(
    start_column: int,
    end_column: int,
    line_length: int,
    line_idx: int,
    start_line: int,
    end_line: int,
    column_offset: int,
    available_code_width: int,
)
    requires
        start_line < line_idx < end_line,
    ensures
        marker_position_spec(
            start_column,
            end_column,
            line_length,
            line_idx,
            start_line,
            end_line,
            column_offset,
            available_code_width,
        ) == marker_position_spec(1, line_length + 1, line_length, 0, 0, 0, column_offset, available_code_width),
{
}

/// On the last line of a location that spans lines, columns `[1, end)` are
/// marked.
pub proof fn law_marker_end_line(
    start_column: int,
    end_column: int,
    line_length: int,
    line_idx: int,
    start_line: int,
    end_line: int,
    column_offset: int,
    available_code_width: int,
)
    requires
        start_line != end_line,
        line_idx == end_line,
    ensures
        marker_position_spec(
            start_column,
            end_column,
            line_length,
            line_idx,
            start_line,
            end_line,
            column_offset,
            available_code_width,
        ) == marker_position_spec(1, end_column, line_length, 0, 0, 0, column_offset, available_code_width),
{
}

/// On a single-line location, a later start column never moves the carets
/// to the left.
pub proof fn law_marker_monotone(
    a: int,
    b: int,
    end_column: int,
    line_length: int,
    line_idx: int,
    line: int,
    column_offset: int,
    available_code_width: int,
)
    requires
        a <= b,
        0 <= line_length,
        0 <= column_offset,
        0 <= available_code_width,
    ensures
        marker_position_spec(a, end_column, line_length, line_idx, line, line, column_offset, available_code_width).0
            <= marker_position_spec(b, end_column, line_length, line_idx, line, line, column_offset, available_code_width).0,
{
}

/// Every line of the window fits or no column is marked: the lines are not
/// scrolled.
pub proof fn law_no_scroll_when_lines_fit(
    lines: Seq<Seq<u8>>,
    start_column: int,
    end_column: int,
    available_width: int,
)
    requires
        (forall|k: int| 0 <= k < lines.len() ==> #[trigger] lines[k].len() <= available_width)
            || start_column == 0,
    ensures
        truncation_offset_spec(lines, start_column, end_column, available_width) == 0,
{
}

/// Scrolling centres the marked range: the offset never passes the middle
/// of `[start, end)`, and the middle lies within the first half of the
/// room left between the two ellipses.
pub proof fn law_scroll_centres_range(
    lines: Seq<Seq<u8>>,
    start_column: int,
    end_column: int,
    available_width: int,
)
    requires
        0 <= start_column,
        0 <= end_column,
        0 <= available_width,
    ensures
        ({
            let off = truncation_offset_spec(lines, start_column, end_column, available_width);
            let mid = (sat_sub(start_column, 1) + sat_sub(end_column, 1)) / 2;
            &&& 0 <= off <= mid
            &&& mid - off <= sat_sub(available_width, 6) / 2 || off == 0
        }),
{
}

/// Line numbers up to the window's last line fill the gutter exactly.
pub proof fn law_line_numbers_fill_gutter(n: nat, last: nat)
    requires
        1 <= n <= last,
    ensures
        right_aligned(n, decimal(last).len() as int).len() == decimal(last).len(),
{
    lemma_decimal_len_monotone(n, last);
}

/// Splitting at newlines and joining the pieces with newlines gives back the
/// source, so a trailing newline leaves a trailing empty line.
pub proof fn law_split_join_roundtrip(s: Seq<u8>)
    ensures
        join_with_newlines(split_on_newline(s)) == s,
    decreases s.len(),
{
    crate::lines::lemma_split_nonempty(s);
    if s.len() > 0 {
        let init = s.drop_last();
        let r = split_on_newline(init);
        law_split_join_roundtrip(init);
        crate::lines::lemma_split_nonempty(init);
        if s.last() == NEWLINE {
            let r2 = r.push(Seq::<u8>::empty());
            assert(r2.drop_last() =~= r);
            assert(join_with_newlines(r2) =~= s);
        } else {
            let r2 = r.update(r.len() - 1, r.last().push(s.last()));
            if r.len() == 1 {
                assert(join_with_newlines(r2) =~= s);
            } else {
                assert(r2.drop_last() =~= r.drop_last());
                assert(join_with_newlines(r) == join_with_newlines(r.drop_last()) + seq![NEWLINE]
                    + r.last());
                assert(r2.last() == r.last().push(s.last()));
                assert(join_with_newlines(r2) == join_with_newlines(r2.drop_last()) + seq![NEWLINE]
                    + r2.last());
                assert(s =~= init.push(s.last()));
                assert(join_with_newlines(r2) =~= s);
            }
        }
    }
}

/// No line holds a newline.
pub proof fn law_lines_have_no_newline(s: Seq<u8>, k: int, i: int)
    requires
        0 <= k < split_on_newline(s).len(),
        0 <= i < split_on_newline(s)[k].len(),
    ensures
        split_on_newline(s)[k][i] != NEWLINE,
    decreases s.len(),
{
    if s.len() > 0 {
        let init = s.drop_last();
        crate::lines::lemma_split_nonempty(init);
        let r = split_on_newline(init);
        if s.last() == NEWLINE {
            if k < r.len() {
                law_lines_have_no_newline(init, k, i);
            }
        } else {
            if k < r.len() - 1 {
                law_lines_have_no_newline(init, k, i);
            } else if i < r.last().len() {
                law_lines_have_no_newline(init, k, i);
            }
        }
    }
}

proof fn lemma_decimal_value(n: nat)
    ensures
        forall|i: int| 0 <= i < decimal(n).len() ==> is_digit(#[trigger] decimal(n)[i]),
        digits_value(decimal(n)) == n,
        decimal(n)[0] != COLON && decimal(n)[0] != crate::position::PLUS,
    decreases n,
{
    lemma_decimal_ascii(n);
    if n < 10 {
        assert(decimal(n).drop_last() =~= Seq::<u8>::empty());
        assert(decimal(n).last() == 48 + n);
        assert(digits_value(Seq::<u8>::empty()) == 0);
        assert(digits_value(decimal(n)) == n);
    } else {
        lemma_decimal_value(n / 10);
        lemma_decimal_ascii(n / 10);
        let d = decimal(n);
        assert(d.drop_last() =~= decimal(n / 10));
        assert(d.last() == 48 + n % 10);
        assert(digits_value(d) == digits_value(d.drop_last()) * 10 + (d.last() - 48) as nat);
        assert(digits_value(d.drop_last()) == n / 10);
        assert((n / 10) * 10 + n % 10 == n) by (nonlinear_arith);
        assert(digits_value(decimal(n)) == n);
    }
}

proof fn lemma_find_colon_after_digits(d: Seq<u8>, rest: Seq<u8>, i: int)
    requires
        0 <= i <= d.len(),
        forall|j: int| 0 <= j < d.len() ==> is_digit(#[trigger] d[j]),
        rest.len() > 0,
        rest[0] == COLON,
    ensures
        find_from(d + rest, COLON, i) == Some(d.len() as int),
    decreases d.len() - i,
{
    if i < d.len() {
        assert((d + rest)[i] == d[i]);
        assert(is_digit(d[i]));
        lemma_find_colon_after_digits(d, rest, i + 1);
    } else {
        assert((d + rest)[i] == rest[0]);
    }
}

proof fn lemma_parse_decimal(n: nat)
    requires
        n <= usize::MAX,
    ensures
        parse_usize_spec(decimal(n)) == Some(n as usize),
{
    lemma_decimal_value(n);
    assert(digits_part(decimal(n)) == decimal(n));
}

/// A position written as `line:column` in decimal reads back as that line
/// and column.
pub proof fn law_position_roundtrip(line: usize, column: usize)
    ensures
        parse_position_spec(decimal(line as nat) + seq![COLON] + decimal(column as nat)) == Some(
            Location { line, column: Some(column) },
        ),
{
    let dl = decimal(line as nat);
    let dc = decimal(column as nat);
    let s = dl + seq![COLON] + dc;
    lemma_decimal_value(line as nat);
    assert(s =~= dl + (seq![COLON] + dc));
    lemma_find_colon_after_digits(dl, seq![COLON] + dc, 0);
    assert(s.subrange(0, dl.len() as int) =~= dl);
    assert(s.subrange(dl.len() as int + 1, s.len() as int) =~= dc);
    lemma_parse_decimal(line as nat);
    lemma_parse_decimal(column as nat);
}

/// Truncation shows only dots and bytes of the line.
pub proof fn law_truncation_adds_only_dots(line: Seq<u8>, offset: int, max_width: int, j: int)
    requires
        0 <= offset,
        0 <= max_width,
        0 <= j < truncate_spec(line, offset, max_width).visible.len(),
    ensures
        ({
            let v = truncate_spec(line, offset, max_width).visible;
            v[j] == DOT || line.contains(v[j])
        }),
{
    reveal(truncate_spec);
    let v = truncate_spec(line, offset, max_width).visible;
    if offset == 0 && line.len() <= max_width {
        assert(line[j] == v[j]);
    } else {
        let bo = ceil_boundary(line, offset);
        lemma_ceil_is_boundary(line, offset);
        if bo < line.len() {
            let p = if bo > 0 { min_int(3, max_width) } else { 0 };
            let room = sat_sub(max_width, p);
            let rem = line.subrange(bo, line.len() as int);
            let trailing = rem.len() > room;
            let sfx = if trailing { min_int(3, room) } else { 0 };
            let cw = if trailing { room - sfx } else { rem.len() as int };
            if cw < rem.len() {
                lemma_floor_at_most(rem, cw);
            }
            let ve = floor_boundary(rem, cw);
            assert(v == dots(p) + rem.subrange(0, ve) + dots(sfx));
            if p <= j < p + ve {
                assert(v[j] == rem[j - p]);
                assert(v[j] == line[bo + j - p]);
            }
        }
    }
}

pub proof fn lemma_source_line_has_no_newline(s: Seq<u8>, k: int, i: int)
    requires
        0 <= k < source_lines(s).len(),
        0 <= i < source_lines(s)[k].len(),
    ensures
        source_lines(s)[k][i] != NEWLINE,
{
    let raw = split_on_newline(s)[k];
    assert(source_lines(s)[k] == strip_cr(raw));
    assert(source_lines(s)[k][i] == raw[i]);
    law_lines_have_no_newline(s, k, i);
}

proof fn lemma_reset_last_byte()
    ensures
        reset_style(true).len() == 4,
        reset_style(true)[3] == 109,
{
    reveal_strlit("\x1b[0m");
    let c = "\x1b[0m"@;
    assert(is_ascii_chars(c));
    is_ascii_chars_encode_utf8(c);
}

/// The last byte of a styled piece ending in `reset`: the reset code with
/// color, the piece's own last byte without.
proof fn lemma_ends_with_reset(a: Seq<u8>, colored: bool)
    requires
        colored || (a.len() > 0 && a.last() != NEWLINE),
    ensures
        (a + reset_style(colored)).len() > 0,
        (a + reset_style(colored)).last() != NEWLINE,
{
    if colored {
        lemma_reset_last_byte();
    } else {
        assert(a + reset_style(colored) =~= a);
    }
}

/// A line's row is never empty and does not end with a newline.
proof fn lemma_code_row_last_byte(lay: crate::frame::FrameLayout, colored: bool, i: int, src: Seq<u8>)
    requires
        lay.lines == source_lines(src),
        0 <= i < lay.lines.len(),
        0 <= lay.offset,
        0 <= lay.available,
    ensures
        code_row(lay, colored, i).len() > 0,
        code_row(lay, colored, i).last() != NEWLINE,
{
    let row = code_row(lay, colored, i);
    let t = truncate_spec(lay.lines[i], lay.offset, lay.available);
    let lead = if is_error_line(lay, i) {
        crate::frame::marker_style(colored) + seq![crate::frame::GREATER_THAN] + reset_style(colored)
    } else {
        seq![SPACE]
    };
    let before_reset = lead + seq![SPACE] + crate::frame::gutter_style(colored) + right_aligned(
        (i + 1) as nat,
        lay.gutter_width,
    ) + seq![SPACE, BAR];
    let head = before_reset + reset_style(colored);
    assert(before_reset.last() == BAR);
    lemma_ends_with_reset(before_reset, colored);
    if t.visible.len() > 0 {
        let j = t.visible.len() - 1;
        law_truncation_adds_only_dots(lay.lines[i], lay.offset, lay.available, j);
        if t.visible[j] != DOT {
            let k = choose|k: int| 0 <= k < lay.lines[i].len() && lay.lines[i][k] == t.visible[j];
            lemma_source_line_has_no_newline(src, i, k);
        }
        assert(row == head + (seq![SPACE] + t.visible));
        assert(row.last() == t.visible.last());
    } else {
        assert(row =~= head);
    }
}

/// A caret row is never empty and does not end with a newline, when the
/// message does not end with one.
proof fn lemma_marker_row_last_byte(
    lay: crate::frame::FrameLayout,
    colored: bool,
    msg: Option<Seq<u8>>,
    i: int,
)
    requires
        0 <= i < lay.lines.len(),
        0 <= lay.offset,
        0 <= lay.available,
        0 <= lay.gutter_width,
        msg matches Some(m) ==> m.len() == 0 || m.last() != NEWLINE,
    ensures
        marker_row(lay, colored, msg, i).len() > 0,
        marker_row(lay, colored, msg, i).last() != NEWLINE,
{
    reveal(truncate_spec);
    let mr = marker_row(lay, colored, msg, i);
    let t = truncate_spec(lay.lines[i], lay.offset, lay.available);
    lemma_ceil_is_boundary(lay.lines[i], lay.offset);
    let pos = marker_position_spec(
        crate::frame::int_or_zero(lay.start_column),
        crate::frame::int_or_zero(lay.end_column),
        lay.lines[i].len() as int,
        i,
        lay.start_idx,
        lay.end_idx,
        t.byte_offset,
        lay.available,
    );
    law_marker_within_width(
        crate::frame::int_or_zero(lay.start_column),
        crate::frame::int_or_zero(lay.end_column),
        lay.lines[i].len() as int,
        i,
        lay.start_idx,
        lay.end_idx,
        t.byte_offset,
        lay.available,
    );
    let spaces = seq![NEWLINE, SPACE, SPACE] + crate::frame::gutter_style(colored)
        + crate::bytes::repeat_byte(SPACE, lay.gutter_width as nat) + seq![SPACE, BAR] + reset_style(
        colored,
    ) + crate::bytes::repeat_byte(SPACE, crate::frame::caret_padding(pos.0, lay.available) as nat);
    assert(spaces.last() == SPACE);
    let carets = spaces + crate::frame::marker_style(colored) + crate::bytes::repeat_byte(
        CARET,
        pos.1 as nat,
    );
    if !colored {
        if pos.1 > 0 {
            assert(carets.last() == CARET);
        } else {
            assert(carets =~= spaces);
        }
    }
    lemma_ends_with_reset(carets, colored);
    let body = carets + reset_style(colored);
    if i == lay.end_idx && msg is Some {
        let m = msg->0;
        let before = seq![SPACE] + crate::frame::message_style(colored) + m;
        if !colored {
            if m.len() > 0 {
                assert(before.last() == m.last());
            } else {
                assert(before =~= seq![SPACE]);
            }
        }
        lemma_ends_with_reset(before, colored);
        assert(mr == body + (before + reset_style(colored)));
    } else {
        assert(mr =~= body);
    }
}

/// The output for a shown line is never empty and never ends with a
/// newline, when the message does not end with one.
proof fn lemma_block_last_byte(
    lay: crate::frame::FrameLayout,
    colored: bool,
    msg: Option<Seq<u8>>,
    i: int,
    src: Seq<u8>,
)
    requires
        lay.lines == source_lines(src),
        0 <= i < lay.lines.len(),
        0 <= lay.offset,
        0 <= lay.available,
        0 <= lay.gutter_width,
        msg matches Some(m) ==> m.len() == 0 || m.last() != NEWLINE,
    ensures
        line_block(lay, colored, msg, i).len() > 0,
        line_block(lay, colored, msg, i).last() != NEWLINE,
{
    lemma_code_row_last_byte(lay, colored, i, src);
    if is_error_line(lay, i) && lay.start_column is Some {
        lemma_marker_row_last_byte(lay, colored, msg, i);
    } else {
        assert(line_block(lay, colored, msg, i) =~= code_row(lay, colored, i));
    }
}

/// A rendered frame does not end with a newline (newlines only separate
/// its rows), unless the message itself ends with one.
pub proof fn law_no_trailing_newline(
    src: Seq<u8>,
    loc: CodeFrameLocation,
    opts: CodeFrameOptions,
    terminal_width: usize,
)
    requires
        render_spec(src, loc, opts, terminal_width) is Ok,
        message_bytes(opts) matches Some(m) ==> m.len() == 0 || m.last() != NEWLINE,
    ensures
        ({
            let b = render_spec(src, loc, opts, terminal_width)->Ok_0;
            b.len() == 0 || b.last() != NEWLINE
        }),
{
    let lay = frame_layout(src, loc, opts, terminal_width);
    if !(src.len() == 0 || lay.start_idx >= lay.lines.len()) {
        let colored = opts.force_color;
        let msg = message_bytes(opts);
        let sections = frame_sections(lay, colored, msg);
        let i = lay.last - 1;
        assert(lay.first <= lay.start_idx < lay.last);
        assert(sections.last() == line_block(lay, colored, msg, i));
        crate::lines::lemma_split_nonempty(src);
        lemma_block_last_byte(lay, colored, msg, i, src);
        if sections.len() == 1 {
        } else {
            assert(join_with_newlines(sections) == join_with_newlines(sections.drop_last())
                + seq![NEWLINE] + sections.last());
        }
    }
}

/// Any one line of the window that is longer than the code width makes the
/// whole window scroll, whichever line it is: when a start column is given,
/// the shared offset is the middle of the marked range (0-indexed bytes)
/// less half the room between two ellipses, and never below 0.
pub proof fn law_any_long_line_scrolls(
    lines: Seq<Seq<u8>>,
    k: int,
    start_column: int,
    end_column: int,
    available_width: int,
)
    requires
        0 <= k < lines.len(),
        lines[k].len() > available_width,
        1 <= start_column,
        1 <= end_column,
        0 <= available_width,
    ensures
        ({
            let middle = (start_column - 1 + end_column - 1) / 2;
            let half_room = if available_width >= 6 { (available_width - 6) / 2 } else { 0 };
            truncation_offset_spec(lines, start_column, end_column, available_width) == if middle
                >= half_room {
                middle - half_room
            } else {
                0
            }
        }),
{
    assert(crate::truncate::needs_truncation(lines, available_width));
}

/// A line that does not fit is cut so that it shows as much as fits: the
/// shown bytes are one slice of the line, from the snapped offset up to a
/// character boundary, between the ellipses, and no later character
/// boundary would still fit in the code width. Unscrolled, the slice starts
/// the line and no ellipsis precedes it.
#[verifier::spinoff_prover]
pub proof fn law_cut_line_shows_the_longest_slice(line: Seq<u8>, offset: int, max_width: int)
    requires
        0 <= offset,
        3 <= max_width,
        ceil_boundary(line, offset) < line.len(),
        !(offset == 0 && line.len() <= max_width),
    ensures
        ({
            let t = truncate_spec(line, offset, max_width);
            let bo = t.byte_offset;
            let p: int = if bo > 0 { 3 } else { 0 };
            let cut = line.len() - bo > max_width - p;
            let s: int = if cut { min_int(3, max_width - p) } else { 0 };
            &&& offset == 0 ==> bo == 0
            &&& t.prefix_len == p
            &&& exists|e: int|
                #![trigger line.subrange(bo, e)]
                {
                    &&& bo <= e <= line.len()
                    &&& byte_boundary(line, e)
                    &&& p + (e - bo) + s <= max_width
                    &&& t.visible == dots(p) + line.subrange(bo, e) + dots(s)
                    &&& (cut ==> e < line.len())
                    &&& (!cut ==> e == line.len())
                    &&& forall|e2: int|
                        e < e2 <= line.len() && byte_boundary(line, e2) ==> p + (e2 - bo) + s > max_width
                }
        }),
{
    reveal(truncate_spec);
    let t = truncate_spec(line, offset, max_width);
    let bo = ceil_boundary(line, offset);
    lemma_ceil_is_boundary(line, offset);
    if offset == 0 {
        assert(byte_boundary(line, 0));
    }
    let p: int = if bo > 0 { 3 } else { 0 };
    let room = max_width - p;
    let rem = line.subrange(bo, line.len() as int);
    let cut = rem.len() > room;
    if cut {
        let s = min_int(3, room);
        let cw = room - s;
        lemma_floor_at_most(rem, cw);
        lemma_floor_is_largest(rem, cw);
        let ve = floor_boundary(rem, cw);
        let e = bo + ve;
        assert(rem.subrange(0, ve) =~= line.subrange(bo, e));
        assert(byte_boundary(line, e)) by {
            if 0 < ve < rem.len() {
                assert(rem[ve] == line[e]);
            }
        }
        assert forall|e2: int|
            e < e2 <= line.len() && byte_boundary(line, e2) implies p + (e2 - bo) + s > max_width by {
            if e2 - bo <= cw {
                if e2 < line.len() {
                    assert(rem[e2 - bo] == line[e2]);
                }
                assert(byte_boundary(rem, e2 - bo));
            }
        }
        assert(t.visible == dots(p) + line.subrange(bo, e) + dots(s));
    } else {
        assert(floor_boundary(rem, rem.len() as int) == rem.len());
        let e = line.len() as int;
        assert(rem.subrange(0, rem.len() as int) =~= line.subrange(bo, e));
        assert(dots(0) =~= Seq::<u8>::empty());
        assert(t.visible =~= dots(p) + line.subrange(bo, e) + dots(0));
    }
}

/// No character boundary after the floor boundary lies at or before `i`.
proof fn lemma_floor_is_largest(s: Seq<u8>, i: int)
    requires
        0 <= i < s.len(),
    ensures
        forall|j: int| floor_boundary(s, i) < j <= i ==> !byte_boundary(s, j),
    decreases i,
{
    if i > 0 && !byte_boundary(s, i) {
        lemma_floor_is_largest(s, i - 1);
    }
}

/// A line that is cut but not scrolled shows the longest prefix that ends at
/// a character boundary and fits in the width less the ellipsis, then the
/// ellipsis.
pub proof fn law_unscrolled_cut_line(line: Seq<u8>, max_width: int)
    requires
        3 <= max_width < line.len(),
    ensures
        truncate_spec(line, 0, max_width).visible == line.subrange(0, floor_boundary(line, max_width - 3))
            + seq![DOT, DOT, DOT],
        truncate_spec(line, 0, max_width).byte_offset == 0,
        truncate_spec(line, 0, max_width).prefix_len == 0,
{
    reveal(truncate_spec);
    lemma_ceil_is_boundary(line, 0);
    let rem = line.subrange(0, line.len() as int);
    assert(rem =~= line);
    assert(dots(0) =~= Seq::<u8>::empty());
    assert(dots(3) =~= seq![DOT, DOT, DOT]);
    assert(truncate_spec(line, 0, max_width).visible =~= line.subrange(0, floor_boundary(line, max_width - 3))
        + seq![DOT, DOT, DOT]);
}

/// While the first caret is inside the code area, the carets cover the
/// marked columns, cut at the right edge: a single-line range `[start, end)`
/// within the line gets `end - start` carets, or as many as reach the edge.
pub proof fn law_marker_fills_to_the_edge(
    start_column: int,
    end_column: int,
    line_length: int,
    line: int,
    column_offset: int,
    available_code_width: int,
)
    requires
        1 <= start_column < end_column <= line_length + 1,
        0 <= column_offset,
        0 <= available_code_width,
    ensures
        ({
            let (mc, ml) = marker_position_spec(
                start_column,
                end_column,
                line_length,
                line,
                line,
                line,
                column_offset,
                available_code_width,
            );
            &&& mc - 1 < available_code_width && mc - 1 + (end_column - start_column) > available_code_width
                ==> ml == available_code_width - (mc - 1)
            &&& mc - 1 + (end_column - start_column) <= available_code_width ==> ml == end_column - start_column
        }),
{
}

/// On a single-line location whose start is in view, each caret stands
/// under its marked byte of the shown line: the `j`-th caret is at shown
/// position `marker_col - 1 + j`, which holds byte `start - 1 + j` of the
/// line, or a dot where an ellipsis took that byte's place.
#[verifier::spinoff_prover]
pub proof fn law_caret_under_marked_byte(
    line: Seq<u8>,
    start_column: int,
    end_column: int,
    l: int,
    offset: int,
    available_code_width: int,
    j: int,
)
    requires
        1 <= start_column,
        0 <= offset,
        1 <= available_code_width,
        truncate_spec(line, offset, available_code_width).byte_offset <= start_column - 1,
        start_column - 1 + j < line.len(),
        0 <= j < marker_position_spec(
            start_column,
            end_column,
            line.len() as int,
            l,
            l,
            l,
            truncate_spec(line, offset, available_code_width).byte_offset,
            available_code_width,
        ).1,
    ensures
        ({
            let t = truncate_spec(line, offset, available_code_width);
            let mc = marker_position_spec(
                start_column,
                end_column,
                line.len() as int,
                l,
                l,
                l,
                t.byte_offset,
                available_code_width,
            ).0;
            &&& 1 <= mc <= available_code_width
            &&& mc - 1 + j < t.visible.len() ==> (t.visible[mc - 1 + j] == line[start_column - 1 + j]
                || t.visible[mc - 1 + j] == DOT)
        }),
{
    reveal(truncate_spec);
    let t = truncate_spec(line, offset, available_code_width);
    let bo = t.byte_offset;
    let mc = marker_position_spec(start_column, end_column, line.len() as int, l, l, l, bo, available_code_width).0;
    let q = mc - 1 + j;
    if offset == 0 && line.len() <= available_code_width {
        assert(mc == start_column);
    } else {
        lemma_ceil_is_boundary(line, offset);
        assert(bo == ceil_boundary(line, offset));
        assert(bo < line.len());
        let p = if bo > 0 { min_int(3, available_code_width) } else { 0 };
        assert(mc - 1 == p + (start_column - 1 - bo));
        let room = sat_sub(available_code_width, p);
        let rem = line.subrange(bo, line.len() as int);
        let trailing = rem.len() > room;
        let sfx = if trailing { min_int(3, room) } else { 0 };
        let cw = if trailing { room - sfx } else { rem.len() as int };
        if cw < rem.len() {
            lemma_floor_at_most(rem, cw);
        }
        let ve = floor_boundary(rem, cw);
        let v = dots(p) + rem.subrange(0, ve) + dots(sfx);
        assert(t.visible == v);
        if q < v.len() {
            if q - p < ve {
                assert(v[q] == rem[q - p]);
                assert(rem[q - p] == line[start_column - 1 + j]);
            } else {
                assert(v[q] == dots(sfx)[q - p - ve]);
            }
        }
    }
}

} // verus!
