//! Properties of whole rendered frames: how wide their rows are, where the
//! message goes, and how line endings are read.
use vstd::prelude::*;
use crate::bytes::repeat_byte;
use crate::frame::{
    caret_padding, code_row, frame_layout, frame_sections, int_or_zero, is_error_line,
    join_with_newlines, line_block, marker_row, message_bytes, message_style, render_spec, reset_style,
    header_row, CodeFrameLocation, CodeFrameOptions, FrameLayout, RenderError,
};
use crate::laws::{
    law_caret_under_marked_byte,
    law_line_numbers_fill_gutter, law_marker_within_width, law_truncated_width, law_truncation_adds_only_dots,
    lemma_source_line_has_no_newline,
};
use crate::num::{decimal, lemma_decimal_ascii, right_aligned, sat_sub, SPACE};
use crate::frame::{gutter_style, marker_style, BAR, CARET, GREATER_THAN};
use crate::lines::source_lines;
use crate::truncate::DOT;
use crate::shown_width::{
    ends_in_escape, has_no_escape, has_no_newline, lemma_shown_cat, lemma_shown_len, lemma_shown_plain_width,
    lemma_split_no_newline, lemma_styles_invisible, shown_bytes, shown_width, ESCAPE,
};
use crate::lines::{lemma_split_nonempty, split_on_newline, NEWLINE};
use crate::marker::marker_position_spec;
use crate::truncate::{lemma_ceil_is_boundary, truncate_spec};

verus! {

/// Splitting at a newline splits the two sides apart.
proof fn lemma_split_concat(a: Seq<u8>, b: Seq<u8>)
    ensures
        split_on_newline(a + seq![NEWLINE] + b) == split_on_newline(a) + split_on_newline(b),
    decreases b.len(),
{
    let s = a + seq![NEWLINE] + b;
    if b.len() == 0 {
        assert(s.drop_last() =~= a);
        assert(split_on_newline(s) =~= split_on_newline(a) + split_on_newline(b));
    } else {
        let b1 = b.drop_last();
        lemma_split_concat(a, b1);
        lemma_split_nonempty(b1);
        assert(s.drop_last() =~= a + seq![NEWLINE] + b1);
        assert(s.last() == b.last());
        let ra = split_on_newline(a);
        let rb = split_on_newline(b1);
        if b.last() == NEWLINE {
            assert(split_on_newline(s) =~= split_on_newline(a) + split_on_newline(b));
        } else {
            assert(split_on_newline(s) =~= split_on_newline(a) + split_on_newline(b));
        }
    }
}

/// No piece of a split is longer than what was split.
proof fn lemma_split_piece_len(x: Seq<u8>, m: int)
    requires
        0 <= m < split_on_newline(x).len(),
    ensures
        split_on_newline(x)[m].len() <= x.len(),
    decreases x.len(),
{
    if x.len() > 0 {
        let r = split_on_newline(x.drop_last());
        lemma_split_nonempty(x.drop_last());
        if m < r.len() {
            lemma_split_piece_len(x.drop_last(), m);
        }
    }
}

/// The rows of a frame whose parts all have rows of at most `w` bytes have
/// at most `w` bytes.
proof fn lemma_join_rows_bounded(parts: Seq<Seq<u8>>, w: int, j: int)
    requires
        forall|k: int, m: int|
            0 <= k < parts.len() && 0 <= m < split_on_newline(parts[k]).len()
                ==> #[trigger] split_on_newline(parts[k])[m].len() <= w,
        0 <= w,
        0 <= j < split_on_newline(join_with_newlines(parts)).len(),
    ensures
        split_on_newline(join_with_newlines(parts))[j].len() <= w,
    decreases parts.len(),
{
    if parts.len() == 0 {
    } else if parts.len() == 1 {
        assert(split_on_newline(parts[0])[j].len() <= w);
    } else {
        let init = parts.drop_last();
        lemma_split_concat(join_with_newlines(init), parts.last());
        let r = split_on_newline(join_with_newlines(init));
        if j < r.len() {
            assert forall|k: int, m: int|
                0 <= k < init.len() && 0 <= m < split_on_newline(init[k]).len()
                    implies #[trigger] split_on_newline(init[k])[m].len() <= w by {
                assert(init[k] == parts[k]);
            }
            lemma_join_rows_bounded(init, w, j);
        } else {
            assert(split_on_newline(parts[parts.len() - 1])[j - r.len()].len() <= w);
        }
    }
}

/// Without color, a line's row fits the maximum width.
proof fn lemma_code_row_fits(lay: FrameLayout, i: int)
    requires
        lay.first <= i < lay.last,
        1 <= lay.last,
        0 <= lay.offset,
        lay.gutter_width == crate::num::decimal(lay.last as nat).len(),
        lay.available == lay.max_width - (lay.gutter_width + 5),
        0 <= lay.first,
        0 <= lay.available,
    ensures
        code_row(lay, false, i).len() <= lay.max_width,
{
    law_truncated_width(lay.lines[i], lay.offset, lay.available);
    law_line_numbers_fill_gutter((i + 1) as nat, lay.last as nat);
}

/// Without color or message, a caret row fits the maximum width after its
/// leading newline.
proof fn lemma_marker_row_fits(lay: FrameLayout, i: int)
    requires
        0 <= lay.offset,
        0 <= lay.gutter_width,
        lay.available == lay.max_width - (lay.gutter_width + 5),
        0 <= lay.available,
    ensures
        marker_row(lay, false, None, i).len() <= lay.max_width + 1,
        marker_row(lay, false, None, i)[0] == NEWLINE,
{
    reveal(truncate_spec);
    let t = truncate_spec(lay.lines[i], lay.offset, lay.available);
    lemma_ceil_is_boundary(lay.lines[i], lay.offset);
    let sc = int_or_zero(lay.start_column);
    let ec = int_or_zero(lay.end_column);
    let ll = lay.lines[i].len() as int;
    let pos = marker_position_spec(sc, ec, ll, i, lay.start_idx, lay.end_idx, t.byte_offset, lay.available);
    law_marker_within_width(sc, ec, ll, i, lay.start_idx, lay.end_idx, t.byte_offset, lay.available);
    let p = caret_padding(pos.0, lay.available);
    assert(p + pos.1 <= lay.available + 1);
}

/// The rows of the frame for shown line `i` fit the maximum width.
proof fn lemma_block_rows_fit(lay: FrameLayout, i: int, m: int)
    requires
        lay.first <= i < lay.last,
        1 <= lay.last,
        0 <= lay.offset,
        lay.gutter_width == crate::num::decimal(lay.last as nat).len(),
        lay.available == lay.max_width - (lay.gutter_width + 5),
        0 <= lay.first,
        0 <= lay.available,
        0 <= m < split_on_newline(line_block(lay, false, None, i)).len(),
    ensures
        split_on_newline(line_block(lay, false, None, i))[m].len() <= lay.max_width,
{
    let row = code_row(lay, false, i);
    lemma_code_row_fits(lay, i);
    if is_error_line(lay, i) && lay.start_column is Some {
        let mr = marker_row(lay, false, None, i);
        lemma_marker_row_fits(lay, i);
        let rest = mr.subrange(1, mr.len() as int);
        assert(mr =~= seq![NEWLINE] + rest);
        assert(line_block(lay, false, None, i) =~= row + seq![NEWLINE] + rest);
        lemma_split_concat(row, rest);
        lemma_split_nonempty(row);
        let r = split_on_newline(row);
        if m < r.len() {
            lemma_split_piece_len(row, m);
        } else {
            lemma_split_piece_len(rest, m - r.len());
        }
    } else {
        assert(line_block(lay, false, None, i) =~= row);
        lemma_split_piece_len(row, m);
    }
}

/// Without color and without a message, no row of a rendered frame is
/// wider than the maximum width (`max_width`, or the terminal width when it
/// is absent).
pub proof fn law_rows_fit_width(
    src: Seq<u8>,
    loc: CodeFrameLocation,
    opts: CodeFrameOptions,
    terminal_width: usize,
    j: int,
)
    requires
        !opts.force_color,
        opts.message is None,
        render_spec(src, loc, opts, terminal_width) is Ok,
        0 <= j < split_on_newline(render_spec(src, loc, opts, terminal_width)->Ok_0).len(),
    ensures
        split_on_newline(render_spec(src, loc, opts, terminal_width)->Ok_0)[j].len() <= match opts.max_width {
            Some(w) => w as int,
            None => terminal_width as int,
        },
{
    let lay = frame_layout(src, loc, opts, terminal_width);
    if src.len() == 0 || lay.start_idx >= lay.lines.len() {
        assert(render_spec(src, loc, opts, terminal_width)->Ok_0 == Seq::<u8>::empty());
    } else {
        let sections = frame_sections(lay, false, None);
        assert(sections =~= Seq::new(
            (lay.last - lay.first) as nat,
            |k: int| line_block(lay, false, None, lay.first + k),
        ));
        assert forall|k: int, m: int|
            0 <= k < sections.len() && 0 <= m < split_on_newline(sections[k]).len()
                implies #[trigger] split_on_newline(sections[k])[m].len() <= lay.max_width by {
            lemma_block_rows_fit(lay, lay.first + k, m);
        }
        lemma_join_rows_bounded(sections, lay.max_width, j);
    }
}

/// Joining two runs of pieces puts a newline between their joins.
proof fn lemma_join_append(a: Seq<Seq<u8>>, b: Seq<Seq<u8>>)
    requires
        a.len() >= 1,
        b.len() >= 1,
    ensures
        join_with_newlines(a + b) == join_with_newlines(a) + seq![NEWLINE] + join_with_newlines(b),
    decreases b.len(),
{
    assert((a + b).drop_last() =~= if b.len() == 1 { a } else { a + b.drop_last() });
    assert((a + b).last() == b.last());
    if b.len() > 1 {
        lemma_join_append(a, b.drop_last());
        assert(join_with_newlines(b) == join_with_newlines(b.drop_last()) + seq![NEWLINE] + b.last());
        assert(join_with_newlines(a + b) =~= join_with_newlines(a) + seq![NEWLINE] + join_with_newlines(b));
    } else {
        assert(join_with_newlines(b) == b[0]);
    }
}

/// Extending the last piece extends the join.
proof fn lemma_join_extend_last(a: Seq<Seq<u8>>, t: Seq<u8>)
    requires
        a.len() >= 1,
    ensures
        join_with_newlines(a.update(a.len() - 1, a.last() + t)) == join_with_newlines(a) + t,
        join_with_newlines(a).len() >= a.last().len(),
        join_with_newlines(a).subrange(
            join_with_newlines(a).len() - a.last().len(),
            join_with_newlines(a).len() as int,
        ) == a.last(),
{
    let a2 = a.update(a.len() - 1, a.last() + t);
    let j = join_with_newlines(a);
    if a.len() == 1 {
        assert(j.subrange(j.len() - a.last().len(), j.len() as int) =~= a.last());
    } else {
        assert(a2.drop_last() =~= a.drop_last());
        assert(join_with_newlines(a2) =~= join_with_newlines(a) + t);
        assert(j.subrange(j.len() - a.last().len(), j.len() as int) =~= a.last());
    }
}

/// A frame that renders without its message to something non-empty is
/// rendered, with or without the message, from the same layout.
proof fn lemma_render_with_and_without_message(
    src: Seq<u8>,
    loc: CodeFrameLocation,
    opts: CodeFrameOptions,
    terminal_width: usize,
)
    requires
        render_spec(src, loc, (CodeFrameOptions { message: None, ..opts }), terminal_width) is Ok,
        render_spec(src, loc, (CodeFrameOptions { message: None, ..opts }), terminal_width)->Ok_0.len() > 0,
    ensures
        ({
            let lay = frame_layout(src, loc, opts, terminal_width);
            let c = opts.force_color;
            &&& lay.first <= lay.start_idx <= lay.end_idx < lay.last
            &&& render_spec(src, loc, (CodeFrameOptions { message: None, ..opts }), terminal_width)->Ok_0
                == join_with_newlines(frame_sections(lay, c, None))
            &&& render_spec(src, loc, opts, terminal_width) == Ok::<Seq<u8>, RenderError>(
                join_with_newlines(frame_sections(lay, c, message_bytes(opts))),
            )
        }),
{
    let o2 = CodeFrameOptions { message: None, ..opts };
    let lay = frame_layout(src, loc, opts, terminal_width);
    assert(frame_layout(src, loc, o2, terminal_width) == lay);
    assert(message_bytes(o2) is None);
}

/// The message with its style, as it follows the carets.
pub open spec fn message_tail(colored: bool, m: Seq<u8>) -> Seq<u8> {
    seq![crate::num::SPACE] + message_style(colored) + m + reset_style(colored)
}

/// Without a column to follow, the message is a row of its own above the
/// frame, indented past the gutter; the frame below it is the one rendered
/// without the message.
pub proof fn law_message_without_column(
    src: Seq<u8>,
    loc: CodeFrameLocation,
    opts: CodeFrameOptions,
    terminal_width: usize,
)
    requires
        opts.message is Some,
        loc.start.column is None,
        render_spec(src, loc, (CodeFrameOptions { message: None, ..opts }), terminal_width) is Ok,
        render_spec(src, loc, (CodeFrameOptions { message: None, ..opts }), terminal_width)->Ok_0.len() > 0,
    ensures
        render_spec(src, loc, opts, terminal_width) == Ok::<Seq<u8>, RenderError>(
            repeat_byte(
                crate::num::SPACE,
                (frame_layout(src, loc, opts, terminal_width).gutter_width + 5) as nat,
            ) + message_style(opts.force_color) + message_bytes(opts)->0 + reset_style(opts.force_color)
                + seq![NEWLINE] + render_spec(
                src,
                loc,
                (CodeFrameOptions { message: None, ..opts }),
                terminal_width,
            )->Ok_0,
        ),
{
    lemma_render_with_and_without_message(src, loc, opts, terminal_width);
    let lay = frame_layout(src, loc, opts, terminal_width);
    let c = opts.force_color;
    let msg = message_bytes(opts);
    let with_msg = frame_sections(lay, c, msg);
    let without = frame_sections(lay, c, None);
    let n = lay.last - lay.first;
    assert(without =~= Seq::new(n as nat, |k: int| line_block(lay, c, None, lay.first + k)));
    assert(forall|k: int| 0 <= k < n ==> line_block(lay, c, msg, lay.first + k) == #[trigger] line_block(lay, c, None, lay.first + k));
    assert(with_msg =~= seq![header_row(lay, c, msg->0)] + without);
    assert(without.len() >= 1);
    lemma_join_append(seq![header_row(lay, c, msg->0)], without);
}

/// With a column, the message follows the carets under the last line of
/// the location, on the same row: the frame is the one rendered without
/// the message, with a space and the message put in right after that row.
#[verifier::spinoff_prover]
pub proof fn law_message_after_last_carets(
    src: Seq<u8>,
    loc: CodeFrameLocation,
    opts: CodeFrameOptions,
    terminal_width: usize,
)
    requires
        opts.message is Some,
        loc.start.column is Some,
        render_spec(src, loc, (CodeFrameOptions { message: None, ..opts }), terminal_width) is Ok,
        render_spec(src, loc, (CodeFrameOptions { message: None, ..opts }), terminal_width)->Ok_0.len() > 0,
    ensures
        ({
            let lay = frame_layout(src, loc, opts, terminal_width);
            let c = opts.force_color;
            let base = render_spec(src, loc, (CodeFrameOptions { message: None, ..opts }), terminal_width)->Ok_0;
            let shown = frame_sections(lay, c, None);
            let before = join_with_newlines(shown.subrange(0, lay.end_idx - lay.first + 1));
            let after = base.subrange(before.len() as int, base.len() as int);
            let carets = marker_row(lay, c, None, lay.end_idx);
            &&& before.len() <= base.len()
            &&& base == before + after
            &&& carets.len() <= before.len()
            &&& before.subrange(before.len() - carets.len(), before.len() as int) == carets
            &&& after.len() == 0 || after[0] == NEWLINE
            &&& render_spec(src, loc, opts, terminal_width) == Ok::<Seq<u8>, RenderError>(
                before + message_tail(c, message_bytes(opts)->0) + after,
            )
        }),
{
    lemma_render_with_and_without_message(src, loc, opts, terminal_width);
    let lay = frame_layout(src, loc, opts, terminal_width);
    let c = opts.force_color;
    let m = message_bytes(opts)->0;
    lemma_sections_with_message(lay, c, m);
    let without = frame_sections(lay, c, None);
    let k = lay.end_idx - lay.first;
    let a = without.subrange(0, k + 1);
    let b = without.subrange(k + 1, without.len() as int);
    lemma_insert_after(a, b, message_tail(c, m), code_row(lay, c, lay.end_idx), marker_row(lay, c, None, lay.end_idx));
}

/// With a column, the message changes only the block of the last line of
/// the location, by following its carets.
#[verifier::spinoff_prover]
proof fn lemma_sections_with_message(lay: FrameLayout, c: bool, m: Seq<u8>)
    requires
        lay.first <= lay.start_idx <= lay.end_idx < lay.last,
        lay.start_column is Some,
    ensures
        ({
            let without = frame_sections(lay, c, None);
            let k = lay.end_idx - lay.first;
            let a = without.subrange(0, k + 1);
            let b = without.subrange(k + 1, without.len() as int);
            &&& without == a + b
            &&& a.len() >= 1
            &&& a.last() == code_row(lay, c, lay.end_idx) + marker_row(lay, c, None, lay.end_idx)
            &&& frame_sections(lay, c, Some(m)) == a.update(a.len() - 1, a.last() + message_tail(c, m)) + b
        }),
{
    let tail = message_tail(c, m);
    let msg = Some(m);
    let with_msg = frame_sections(lay, c, msg);
    let without = frame_sections(lay, c, None);
    let n = lay.last - lay.first;
    let k = lay.end_idx - lay.first;
    assert(without =~= Seq::new(n as nat, |q: int| line_block(lay, c, None, lay.first + q)));
    let e = lay.end_idx;
    assert(is_error_line(lay, e));
    assert(line_block(lay, c, msg, e) =~= line_block(lay, c, None, e) + tail);
    let a = without.subrange(0, k + 1);
    let b = without.subrange(k + 1, n);
    assert(with_msg =~= a.update(k, a.last() + tail) + b);
    assert(without =~= a + b);
    assert(a.last() =~= code_row(lay, c, e) + marker_row(lay, c, None, e));
}

/// Putting `tail` at the end of the last piece of `a` puts it right after
/// the join of `a`, whose end is that piece.
proof fn lemma_insert_after(a: Seq<Seq<u8>>, b: Seq<Seq<u8>>, tail: Seq<u8>, x: Seq<u8>, y: Seq<u8>)
    requires
        a.len() >= 1,
        a.last() == x + y,
    ensures
        ({
            let before = join_with_newlines(a);
            let base = join_with_newlines(a + b);
            let after = base.subrange(before.len() as int, base.len() as int);
            &&& before.len() <= base.len()
            &&& base == before + after
            &&& y.len() <= before.len()
            &&& before.subrange(before.len() - y.len(), before.len() as int) == y
            &&& after.len() == 0 || after[0] == NEWLINE
            &&& join_with_newlines(a.update(a.len() - 1, a.last() + tail) + b) == before + tail + after
        }),
{
    let a2 = a.update(a.len() - 1, a.last() + tail);
    let before = join_with_newlines(a);
    lemma_join_extend_last(a, tail);
    let blk = a.last();
    assert(before.subrange(before.len() - y.len(), before.len() as int) =~= y) by {
        assert(before.subrange(before.len() - blk.len(), before.len() as int) == blk);
        assert(y =~= blk.subrange(blk.len() - y.len(), blk.len() as int));
    }
    let base = join_with_newlines(a + b);
    if b.len() == 0 {
        assert(a + b =~= a);
        assert(a2 + b =~= a2);
        assert(base.subrange(before.len() as int, base.len() as int) =~= Seq::<u8>::empty());
        assert(base =~= before + Seq::<u8>::empty());
    } else {
        lemma_join_append(a, b);
        lemma_join_append(a2, b);
        let after = seq![NEWLINE] + join_with_newlines(b);
        assert(base =~= before + after);
        assert(base.subrange(before.len() as int, base.len() as int) =~= after);
        assert(join_with_newlines(a2 + b) =~= before + tail + after);
    }
}

/// Spaces and a number take one column per byte and hold no newline.
proof fn lemma_number_plain(n: nat, width: int)
    ensures
        has_no_escape(right_aligned(n, width)),
        has_no_newline(right_aligned(n, width)),
        has_no_escape(repeat_byte(SPACE, width as nat)),
        has_no_newline(repeat_byte(SPACE, width as nat)),
{
    lemma_decimal_ascii(n);
    let r = right_aligned(n, width);
    let sp = repeat_byte(SPACE, sat_sub(width, decimal(n).len() as int) as nat);
    assert forall|i: int| 0 <= i < r.len() implies #[trigger] r[i] != ESCAPE && r[i] != NEWLINE by {
        if i < sp.len() {
            assert(r[i] == sp[i]);
        } else {
            assert(r[i] == decimal(n)[i - sp.len()]);
        }
    }
}

/// The shown part of a line holds no newline.
proof fn lemma_truncated_no_newline(src: Seq<u8>, i: int, offset: int, available: int)
    requires
        0 <= i < source_lines(src).len(),
        0 <= offset,
        0 <= available,
    ensures
        has_no_newline(truncate_spec(source_lines(src)[i], offset, available).visible),
{
    let line = source_lines(src)[i];
    let v = truncate_spec(line, offset, available).visible;
    assert forall|j: int| 0 <= j < v.len() implies #[trigger] v[j] != NEWLINE by {
        law_truncation_adds_only_dots(line, offset, available, j);
        if v[j] != DOT {
            let k = choose|k: int| 0 <= k < line.len() && line[k] == v[j];
            lemma_source_line_has_no_newline(src, i, k);
        }
    }
}

/// A line's row, styled or not, takes at most the maximum width on a
/// terminal and holds no newline.
#[verifier::spinoff_prover]
proof fn lemma_code_row_shown(lay: FrameLayout, c: bool, i: int, src: Seq<u8>)
    requires
        lay.lines == source_lines(src),
        lay.first <= i < lay.last,
        lay.last <= lay.lines.len(),
        0 <= lay.offset,
        lay.gutter_width == crate::num::decimal(lay.last as nat).len(),
        lay.available == lay.max_width - (lay.gutter_width + 5),
        0 <= lay.first,
        0 <= lay.available,
    ensures
        shown_width(code_row(lay, c, i)) <= lay.max_width,
        has_no_newline(code_row(lay, c, i)),
{
    lemma_styles_invisible(c);
    law_truncated_width(lay.lines[i], lay.offset, lay.available);
    law_line_numbers_fill_gutter((i + 1) as nat, lay.last as nat);
    lemma_truncated_no_newline(src, i, lay.offset, lay.available);
    lemma_number_plain((i + 1) as nat, lay.gutter_width);
    let t = truncate_spec(lay.lines[i], lay.offset, lay.available);
    let gt = seq![GREATER_THAN];
    let sp = seq![SPACE];
    let bar = seq![SPACE, BAR];
    lemma_shown_plain_width(gt);
    lemma_shown_plain_width(sp);
    lemma_shown_plain_width(bar);
    let lead = if is_error_line(lay, i) {
        let l0 = marker_style(c) + gt;
        lemma_shown_cat(marker_style(c), gt);
        lemma_shown_cat(l0, reset_style(c));
        l0 + reset_style(c)
    } else {
        sp
    };
    assert(shown_width(lead) == 1 && !ends_in_escape(lead, false) && has_no_newline(lead));
    let x1 = lead + sp;
    lemma_shown_cat(lead, sp);
    let x2 = x1 + gutter_style(c);
    lemma_shown_cat(x1, gutter_style(c));
    let num = right_aligned((i + 1) as nat, lay.gutter_width);
    let x3 = x2 + num;
    lemma_shown_plain_width(num);
    lemma_shown_cat(x2, num);
    let x4 = x3 + bar;
    lemma_shown_cat(x3, bar);
    let x5 = x4 + reset_style(c);
    lemma_shown_cat(x4, reset_style(c));
    assert(shown_width(x5) == lay.gutter_width + 4);
    let content = if t.visible.len() > 0 { sp + t.visible } else { Seq::<u8>::empty() };
    lemma_shown_len(content, false);
    assert(has_no_newline(content)) by {
        if t.visible.len() > 0 {
            lemma_shown_cat(sp, t.visible);
        }
    }
    lemma_shown_cat(x5, content);
    assert(code_row(lay, c, i) == x5 + content);
}

/// A run of one byte that is neither an escape nor a newline.
proof fn lemma_run_plain(b: u8, n: nat)
    requires
        b != ESCAPE,
        b != NEWLINE,
    ensures
        has_no_escape(repeat_byte(b, n)),
        has_no_newline(repeat_byte(b, n)),
        shown_width(repeat_byte(b, n)) == n,
        !ends_in_escape(repeat_byte(b, n), false),
{
    lemma_shown_plain_width(repeat_byte(b, n));
}

/// A caret row without a message, newline first.
spec fn caret_row(c: bool, gutter_width: nat, padding: nat, carets: nat) -> Seq<u8> {
    seq![NEWLINE, SPACE, SPACE] + gutter_style(c) + repeat_byte(SPACE, gutter_width) + seq![SPACE, BAR]
        + reset_style(c) + repeat_byte(SPACE, padding) + marker_style(c) + repeat_byte(CARET, carets)
        + reset_style(c)
}

/// The caret row after its newline.
spec fn caret_rest(c: bool, gutter_width: nat, padding: nat, carets: nat) -> Seq<u8> {
    seq![SPACE, SPACE] + gutter_style(c) + repeat_byte(SPACE, gutter_width) + seq![SPACE, BAR]
        + reset_style(c) + repeat_byte(SPACE, padding) + marker_style(c) + repeat_byte(CARET, carets)
        + reset_style(c)
}

proof fn lemma_caret_row_split(c: bool, gutter_width: nat, padding: nat, carets: nat)
    ensures
        ({
            let row = caret_row(c, gutter_width, padding, carets);
            let rest = caret_rest(c, gutter_width, padding, carets);
            &&& row == seq![NEWLINE] + rest
            &&& row.subrange(1, row.len() as int) == rest
        }),
{
    let nl = seq![NEWLINE];
    let two = seq![SPACE, SPACE];
    let bar = seq![SPACE, BAR];
    let gut = repeat_byte(SPACE, gutter_width);
    let pad = repeat_byte(SPACE, padding);
    let cs = repeat_byte(CARET, carets);
    let x1 = two + gutter_style(c);
    let x2 = x1 + gut;
    let x3 = x2 + bar;
    let x4 = x3 + reset_style(c);
    let x5 = x4 + pad;
    let x6 = x5 + marker_style(c);
    let x7 = x6 + cs;
    let x8 = x7 + reset_style(c);
    let y0 = seq![NEWLINE, SPACE, SPACE];
    assert(y0 =~= nl + two);
    let y1 = y0 + gutter_style(c);
    assert(y1 =~= nl + x1);
    let y2 = y1 + gut;
    assert(y2 =~= nl + x2);
    let y3 = y2 + bar;
    assert(y3 =~= nl + x3);
    let y4 = y3 + reset_style(c);
    assert(y4 =~= nl + x4);
    let y5 = y4 + pad;
    assert(y5 =~= nl + x5);
    let y6 = y5 + marker_style(c);
    assert(y6 =~= nl + x6);
    let y7 = y6 + cs;
    assert(y7 =~= nl + x7);
    let y8 = y7 + reset_style(c);
    assert(y8 =~= nl + x8);
    assert(y8.subrange(1, y8.len() as int) =~= x8);
}

proof fn lemma_caret_rest_shown(c: bool, gutter_width: nat, padding: nat, carets: nat)
    ensures
        shown_width(caret_rest(c, gutter_width, padding, carets)) == 4 + gutter_width + padding + carets,
        has_no_newline(caret_rest(c, gutter_width, padding, carets)),
{
    lemma_styles_invisible(c);
    let two = seq![SPACE, SPACE];
    let bar = seq![SPACE, BAR];
    lemma_shown_plain_width(two);
    lemma_shown_plain_width(bar);
    let gut = repeat_byte(SPACE, gutter_width);
    let pad = repeat_byte(SPACE, padding);
    let cs = repeat_byte(CARET, carets);
    lemma_run_plain(SPACE, gutter_width);
    lemma_run_plain(SPACE, padding);
    lemma_run_plain(CARET, carets);
    let x1 = two + gutter_style(c);
    lemma_shown_cat(two, gutter_style(c));
    let x2 = x1 + gut;
    lemma_shown_cat(x1, gut);
    let x3 = x2 + bar;
    lemma_shown_cat(x2, bar);
    let x4 = x3 + reset_style(c);
    lemma_shown_cat(x3, reset_style(c));
    let x5 = x4 + pad;
    lemma_shown_cat(x4, pad);
    let x6 = x5 + marker_style(c);
    lemma_shown_cat(x5, marker_style(c));
    let x7 = x6 + cs;
    lemma_shown_cat(x6, cs);
    lemma_shown_cat(x7, reset_style(c));
}

/// Where the carets of line `i` go, as the caret row places them.
pub open spec fn carets_of(lay: FrameLayout, i: int) -> (int, int) {
    marker_position_spec(
        int_or_zero(lay.start_column),
        int_or_zero(lay.end_column),
        lay.lines[i].len() as int,
        i,
        lay.start_idx,
        lay.end_idx,
        truncate_spec(lay.lines[i], lay.offset, lay.available).byte_offset,
        lay.available,
    )
}

proof fn lemma_carets_fit(lay: FrameLayout, i: int)
    requires
        0 <= lay.offset,
        0 <= lay.available,
    ensures
        caret_padding(carets_of(lay, i).0, lay.available) >= 0,
        carets_of(lay, i).1 >= 0,
        caret_padding(carets_of(lay, i).0, lay.available) + carets_of(lay, i).1 <= lay.available + 1,
{
    reveal(truncate_spec);
    let t = truncate_spec(lay.lines[i], lay.offset, lay.available);
    lemma_ceil_is_boundary(lay.lines[i], lay.offset);
    law_marker_within_width(
        int_or_zero(lay.start_column),
        int_or_zero(lay.end_column),
        lay.lines[i].len() as int,
        i,
        lay.start_idx,
        lay.end_idx,
        t.byte_offset,
        lay.available,
    );
}

/// A caret row without a message, styled or not, is a newline and then a
/// row that takes at most the maximum width on a terminal and holds no
/// newline.
proof fn lemma_marker_row_shown(lay: FrameLayout, c: bool, i: int)
    requires
        0 <= lay.offset,
        0 <= lay.gutter_width,
        lay.available == lay.max_width - (lay.gutter_width + 5),
        0 <= lay.available,
    ensures
        ({
            let mr = marker_row(lay, c, None, i);
            let rest = mr.subrange(1, mr.len() as int);
            &&& mr.len() >= 1
            &&& mr == seq![NEWLINE] + rest
            &&& shown_width(rest) <= lay.max_width
            &&& has_no_newline(rest)
        }),
{
    let pos = carets_of(lay, i);
    lemma_carets_fit(lay, i);
    let p = caret_padding(pos.0, lay.available);
    lemma_caret_row_split(c, lay.gutter_width as nat, p as nat, pos.1 as nat);
    lemma_caret_rest_shown(c, lay.gutter_width as nat, p as nat, pos.1 as nat);
    let mr = marker_row(lay, c, None, i);
    assert(mr =~= caret_row(c, lay.gutter_width as nat, p as nat, pos.1 as nat));
}

/// The rows of a frame whose parts all have rows that take at most `w`
/// columns take at most `w` columns.
proof fn lemma_join_rows_shown(parts: Seq<Seq<u8>>, w: int, j: int)
    requires
        forall|k: int, m: int|
            0 <= k < parts.len() && 0 <= m < split_on_newline(parts[k]).len()
                ==> shown_width(#[trigger] split_on_newline(parts[k])[m]) <= w,
        0 <= w,
        0 <= j < split_on_newline(join_with_newlines(parts)).len(),
    ensures
        shown_width(split_on_newline(join_with_newlines(parts))[j]) <= w,
    decreases parts.len(),
{
    if parts.len() == 0 {
        assert(split_on_newline(Seq::<u8>::empty()) =~= seq![Seq::<u8>::empty()]);
        assert(shown_bytes(Seq::<u8>::empty(), false) =~= Seq::<u8>::empty());
    } else if parts.len() == 1 {
        assert(shown_width(split_on_newline(parts[0])[j]) <= w);
    } else {
        let init = parts.drop_last();
        lemma_split_concat(join_with_newlines(init), parts.last());
        let r = split_on_newline(join_with_newlines(init));
        if j < r.len() {
            assert forall|k: int, m: int|
                0 <= k < init.len() && 0 <= m < split_on_newline(init[k]).len()
                    implies shown_width(#[trigger] split_on_newline(init[k])[m]) <= w by {
                assert(init[k] == parts[k]);
            }
            lemma_join_rows_shown(init, w, j);
        } else {
            assert(shown_width(split_on_newline(parts[parts.len() - 1])[j - r.len()]) <= w);
        }
    }
}

/// The rows of the frame for shown line `i`, without a message, take at
/// most the maximum width on a terminal.
proof fn lemma_block_rows_shown(lay: FrameLayout, c: bool, i: int, m: int, src: Seq<u8>)
    requires
        lay.lines == source_lines(src),
        lay.first <= i < lay.last,
        lay.last <= lay.lines.len(),
        0 <= lay.offset,
        lay.gutter_width == crate::num::decimal(lay.last as nat).len(),
        lay.available == lay.max_width - (lay.gutter_width + 5),
        0 <= lay.first,
        0 <= lay.available,
        0 <= m < split_on_newline(line_block(lay, c, None, i)).len(),
    ensures
        shown_width(split_on_newline(line_block(lay, c, None, i))[m]) <= lay.max_width,
{
    let row = code_row(lay, c, i);
    lemma_code_row_shown(lay, c, i, src);
    lemma_split_no_newline(row);
    if is_error_line(lay, i) && lay.start_column is Some {
        let mr = marker_row(lay, c, None, i);
        lemma_marker_row_shown(lay, c, i);
        let rest = mr.subrange(1, mr.len() as int);
        assert(line_block(lay, c, None, i) =~= row + seq![NEWLINE] + rest);
        lemma_split_concat(row, rest);
        lemma_split_no_newline(rest);
    } else {
        assert(line_block(lay, c, None, i) =~= row);
    }
}

/// Without a message, no row of a rendered frame takes more columns on a
/// terminal than the maximum width (`max_width`, or the terminal width when
/// it is absent), color or not: the style sequences take no room.
#[verifier::spinoff_prover]
pub proof fn law_shown_rows_fit_width(
    src: Seq<u8>,
    loc: CodeFrameLocation,
    opts: CodeFrameOptions,
    terminal_width: usize,
    j: int,
)
    requires
        opts.message is None,
        render_spec(src, loc, opts, terminal_width) is Ok,
        0 <= j < split_on_newline(render_spec(src, loc, opts, terminal_width)->Ok_0).len(),
    ensures
        shown_width(split_on_newline(render_spec(src, loc, opts, terminal_width)->Ok_0)[j]) <= match opts.max_width {
            Some(w) => w as int,
            None => terminal_width as int,
        },
{
    let lay = frame_layout(src, loc, opts, terminal_width);
    let c = opts.force_color;
    if src.len() == 0 || lay.start_idx >= lay.lines.len() {
        let e = Seq::<u8>::empty();
        assert(render_spec(src, loc, opts, terminal_width)->Ok_0 == e);
        assert(split_on_newline(e) =~= seq![e]);
        assert(shown_bytes(e, false) =~= e);
    } else {
        let sections = frame_sections(lay, c, None);
        assert(sections =~= Seq::new(
            (lay.last - lay.first) as nat,
            |k: int| line_block(lay, c, None, lay.first + k),
        ));
        assert forall|k: int, m: int|
            0 <= k < sections.len() && 0 <= m < split_on_newline(sections[k]).len()
                implies shown_width(#[trigger] split_on_newline(sections[k])[m]) <= lay.max_width by {
            lemma_block_rows_shown(lay, c, lay.first + k, m, src);
        }
        lemma_join_rows_shown(sections, lay.max_width, j);
    }
}

/// The frame shows the source lines from `lines_above` lines before the
/// start line (or the first line) through `lines_below` lines after the end
/// line (or the last line), the end line clamped to the source and taken as
/// the start line when absent; each shown line gets its block, in order.
/// So exactly `min(lines_above, start - 1)` lines precede the first error
/// line, and `min(lines_below, lines after the end line)` follow the last.
pub proof fn law_window_around_the_location(
    src: Seq<u8>,
    loc: CodeFrameLocation,
    opts: CodeFrameOptions,
    terminal_width: usize,
)
    requires
        render_spec(src, loc, opts, terminal_width) is Ok,
        src.len() > 0,
        1 <= loc.start.line <= source_lines(src).len(),
    ensures
        ({
            let n = source_lines(src).len() as int;
            let start = loc.start.line as int;
            let end = match loc.end {
                Some(l) => if l.line as int <= 1 { 1 } else if l.line as int >= n { n } else { l.line as int },
                None => start,
            };
            let lay = frame_layout(src, loc, opts, terminal_width);
            let c = opts.force_color;
            let msg = message_bytes(opts);
            let head = if msg is Some && loc.start.column is None { 1int } else { 0 };
            let sections = frame_sections(lay, c, msg);
            &&& start <= end
            &&& lay.start_idx == start - 1
            &&& lay.end_idx == end - 1
            &&& lay.start_idx - lay.first == if opts.lines_above as int <= start - 1 { opts.lines_above as int } else { start - 1 }
            &&& lay.last - 1 - lay.end_idx == if opts.lines_below as int <= n - end { opts.lines_below as int } else { n - end }
            &&& render_spec(src, loc, opts, terminal_width) == Ok::<Seq<u8>, RenderError>(join_with_newlines(sections))
            &&& sections.len() == head + lay.last - lay.first
            &&& forall|k: int| 0 <= k < lay.last - lay.first ==> #[trigger] sections[head + k] == line_block(lay, c, msg, lay.first + k)
            &&& forall|i: int| lay.first <= i < lay.last ==> #[trigger] line_block(lay, c, msg, i) == code_row(lay, c, i) + if start - 1 <= i <= end - 1 && loc.start.column is Some {
                marker_row(lay, c, msg, i)
            } else {
                Seq::<u8>::empty()
            }
        }),
{
    let lay = frame_layout(src, loc, opts, terminal_width);
    let c = opts.force_color;
    let msg = message_bytes(opts);
    let sections = frame_sections(lay, c, msg);
    let head = if msg is Some && loc.start.column is None { 1int } else { 0 };
    assert forall|k: int| 0 <= k < lay.last - lay.first implies #[trigger] sections[head + k] == line_block(lay, c, msg, lay.first + k) by {
    }
    assert forall|i: int| lay.first <= i < lay.last implies #[trigger] line_block(lay, c, msg, i) == code_row(lay, c, i) + if lay.start_idx <= i <= lay.end_idx && loc.start.column is Some {
        marker_row(lay, c, msg, i)
    } else {
        Seq::<u8>::empty()
    } by {
        if !(lay.start_idx <= i <= lay.end_idx && loc.start.column is Some) {
            assert(line_block(lay, c, msg, i) =~= code_row(lay, c, i) + Seq::<u8>::empty());
        }
    }
}

/// In a frame without color on a single line, with its start column in
/// view, each caret of the caret row stands right under its marked byte in
/// the row of the line above (or under a dot where an ellipsis took that
/// byte's place): the `j`-th caret and byte `start - 1 + j` of the line sit
/// at the same position of their rows.
#[verifier::spinoff_prover]
pub proof fn law_frame_carets_under_marked_bytes(
    src: Seq<u8>,
    loc: CodeFrameLocation,
    opts: CodeFrameOptions,
    terminal_width: usize,
    j: int,
)
    requires
        !opts.force_color,
        render_spec(src, loc, opts, terminal_width) is Ok,
        src.len() > 0,
        1 <= loc.start.line <= source_lines(src).len(),
        frame_layout(src, loc, opts, terminal_width).end_idx == frame_layout(src, loc, opts, terminal_width).start_idx,
        loc.start.column matches Some(c) && ({
            let lay = frame_layout(src, loc, opts, terminal_width);
            let i = lay.start_idx;
            &&& 1 <= c
            &&& truncate_spec(lay.lines[i], lay.offset, lay.available).byte_offset <= c - 1
            &&& c - 1 + j < lay.lines[i].len()
            &&& 0 <= j < carets_of(lay, i).1
        }),
    ensures
        ({
            let lay = frame_layout(src, loc, opts, terminal_width);
            let i = lay.start_idx;
            let sc = loc.start.column->0 as int;
            let row = code_row(lay, false, i);
            let carets = marker_row(lay, false, message_bytes(opts), i);
            let q = lay.gutter_width + 4 + carets_of(lay, i).0 + j;
            &&& line_block(lay, false, message_bytes(opts), i) == row + carets
            &&& carets[0] == NEWLINE
            &&& carets[q + 1] == CARET
            &&& q < row.len() ==> (row[q] == lay.lines[i][sc - 1 + j] || row[q] == DOT)
        }),
{
    let lay = frame_layout(src, loc, opts, terminal_width);
    let i = lay.start_idx;
    let sc = loc.start.column->0 as int;
    let line = lay.lines[i];
    let t = truncate_spec(line, lay.offset, lay.available);
    let pos = carets_of(lay, i);
    law_caret_under_marked_byte(line, sc, int_or_zero(lay.end_column), i, lay.offset, lay.available, j);
    law_line_numbers_fill_gutter((i + 1) as nat, lay.last as nat);
    lemma_styles_invisible(false);
    let row = code_row(lay, false, i);
    let gw = lay.gutter_width;
    let num = right_aligned((i + 1) as nat, gw);
    let head = seq![GREATER_THAN, SPACE] + num + seq![SPACE, BAR];
    assert(head.len() == gw + 4);
    if t.visible.len() > 0 {
        assert(row =~= head + (seq![SPACE] + t.visible));
    } else {
        assert(row =~= head);
    }
    let q = gw + 4 + pos.0 + j;
    if q < row.len() {
        assert(row[q] == t.visible[pos.0 - 1 + j]);
    }
    let msg = message_bytes(opts);
    let mr = marker_row(lay, false, msg, i);
    let tail = if i == lay.end_idx && msg is Some {
        seq![SPACE] + message_style(false) + msg->0 + reset_style(false)
    } else {
        Seq::empty()
    };
    assert(caret_padding(pos.0, lay.available) == pos.0);
    let front = seq![NEWLINE, SPACE, SPACE] + repeat_byte(SPACE, gw as nat) + seq![SPACE, BAR] + repeat_byte(SPACE, pos.0 as nat);
    assert(mr =~= front + repeat_byte(CARET, pos.1 as nat) + tail);
    assert(front.len() == gw + 5 + pos.0);
    assert(mr[q + 1] == repeat_byte(CARET, pos.1 as nat)[j]);
}

/// Without color, the row of each shown line is `>` on the lines of the
/// location (a space on the others), a space, the line's 1-indexed number
/// right-aligned in a gutter as wide as the last shown line number, ` |`,
/// and then, when anything of the line is shown, a space and the shown part.
pub proof fn law_plain_row_layout(
    src: Seq<u8>,
    loc: CodeFrameLocation,
    opts: CodeFrameOptions,
    terminal_width: usize,
    i: int,
)
    requires
        render_spec(src, loc, opts, terminal_width) is Ok,
        src.len() > 0,
        1 <= loc.start.line <= source_lines(src).len(),
        frame_layout(src, loc, opts, terminal_width).first <= i < frame_layout(src, loc, opts, terminal_width).last,
    ensures
        ({
            let lay = frame_layout(src, loc, opts, terminal_width);
            let row = code_row(lay, false, i);
            let gw = decimal(lay.last as nat).len() as int;
            let shown = truncate_spec(lay.lines[i], lay.offset, lay.available).visible;
            &&& lay.gutter_width == gw
            &&& row.len() >= gw + 4
            &&& row[0] == if lay.start_idx <= i <= lay.end_idx { GREATER_THAN } else { SPACE }
            &&& row[1] == SPACE
            &&& row.subrange(2, 2 + gw) == right_aligned((i + 1) as nat, gw)
            &&& row[gw + 2] == SPACE
            &&& row[gw + 3] == BAR
            &&& row.subrange(gw + 4, row.len() as int) == if shown.len() > 0 { seq![SPACE] + shown } else { Seq::<u8>::empty() }
        }),
{
    let lay = frame_layout(src, loc, opts, terminal_width);
    let gw = lay.gutter_width;
    law_line_numbers_fill_gutter((i + 1) as nat, lay.last as nat);
    lemma_styles_invisible(false);
    let row = code_row(lay, false, i);
    let lead: u8 = if lay.start_idx <= i <= lay.end_idx { GREATER_THAN } else { SPACE };
    let num = right_aligned((i + 1) as nat, gw);
    let head = seq![lead, SPACE] + num + seq![SPACE, BAR];
    let shown = truncate_spec(lay.lines[i], lay.offset, lay.available).visible;
    let content = if shown.len() > 0 { seq![SPACE] + shown } else { Seq::<u8>::empty() };
    assert(row =~= head + content);
    assert(row.subrange(2, 2 + gw) =~= num);
    assert(row.subrange(gw + 4, row.len() as int) =~= content);
}

} // verus!
