//! How line endings are read: a source renders the same with its lines
//! ended by `\r\n` or by `\n`.
use vstd::prelude::*;
use crate::frame::{code_row, frame_layout, frame_sections, line_block, marker_row, render_spec, CodeFrameLocation, CodeFrameOptions};
use crate::lines::{lemma_split_nonempty, source_lines, split_on_newline, strip_cr, CARRIAGE_RETURN, NEWLINE};

verus! {

/// `s` with each carriage return that precedes a newline taken out.
pub open spec fn crlf_to_lf(s: Seq<u8>) -> Seq<u8>
    decreases s.len(),
{
    if s.len() == 0 {
        Seq::empty()
    } else if s.len() >= 2 && s[s.len() - 2] == CARRIAGE_RETURN && s.last() == NEWLINE {
        crlf_to_lf(s.subrange(0, s.len() - 2)).push(NEWLINE)
    } else {
        crlf_to_lf(s.drop_last()).push(s.last())
    }
}

/// A piece that ends with two carriage returns.
pub open spec fn ends_in_two_crs(p: Seq<u8>) -> bool {
    p.len() >= 2 && p[p.len() - 1] == CARRIAGE_RETURN && p[p.len() - 2] == CARRIAGE_RETURN
}

/// No line of the frame's window ends with two carriage returns before its
/// newline.
pub open spec fn shown_lines_end_in_one_cr_at_most(
    src: Seq<u8>,
    loc: CodeFrameLocation,
    opts: CodeFrameOptions,
    terminal_width: usize,
) -> bool {
    let lay = frame_layout(src, loc, opts, terminal_width);
    let raw = split_on_newline(src);
    forall|k: int|
        lay.first <= k < lay.last && k < raw.len() - 1 ==> !ends_in_two_crs(#[trigger] raw[k])
}

/// A last piece that is not empty ends with the last byte of what was split.
proof fn lemma_split_last_byte(t: Seq<u8>)
    requires
        split_on_newline(t).last().len() > 0,
    ensures
        t.len() > 0,
        t.last() != NEWLINE,
        split_on_newline(t).last().last() == t.last(),
{
    lemma_split_nonempty(t);
    if t.len() > 0 {
        lemma_split_nonempty(t.drop_last());
    }
}

/// Taking out the carriage returns before newlines keeps the pieces, each
/// without the carriage return that ended it, and leaves the last piece as
/// it is.
proof fn lemma_crlf_split(s: Seq<u8>)
    ensures
        ({
            let a = split_on_newline(s);
            let b = split_on_newline(crlf_to_lf(s));
            &&& b.len() == a.len()
            &&& b.last() == a.last()
            &&& forall|k: int| 0 <= k < a.len() - 1 ==> #[trigger] b[k] == strip_cr(a[k])
        }),
    decreases s.len(),
{
    lemma_split_nonempty(s);
    if s.len() == 0 {
        assert(crlf_to_lf(s) =~= Seq::<u8>::empty());
    } else if s.len() >= 2 && s[s.len() - 2] == CARRIAGE_RETURN && s.last() == NEWLINE {
        let t = s.subrange(0, s.len() - 2);
        let t1 = s.drop_last();
        assert(t1.drop_last() =~= t);
        lemma_crlf_split(t);
        lemma_split_nonempty(t);
        let at = split_on_newline(t);
        let bt = split_on_newline(crlf_to_lf(t));
        let f = crlf_to_lf(s);
        assert(f.drop_last() =~= crlf_to_lf(t));
        let a1 = split_on_newline(t1);
        assert(a1 == at.update(at.len() - 1, at.last().push(CARRIAGE_RETURN)));
        let a = split_on_newline(s);
        let b = split_on_newline(f);
        assert(a == a1.push(Seq::<u8>::empty()));
        assert(b == bt.push(Seq::<u8>::empty()));
        assert(at.last().push(CARRIAGE_RETURN).drop_last() =~= at.last());
        assert forall|k: int| 0 <= k < a.len() - 1 implies #[trigger] b[k] == strip_cr(a[k]) by {
            if k < at.len() - 1 {
                assert(b[k] == bt[k]);
                assert(a[k] == at[k]);
            }
        }
    } else {
        let t = s.drop_last();
        lemma_crlf_split(t);
        lemma_split_nonempty(t);
        let at = split_on_newline(t);
        let bt = split_on_newline(crlf_to_lf(t));
        let f = crlf_to_lf(s);
        assert(f.drop_last() =~= crlf_to_lf(t));
        assert(f.last() == s.last());
        let a = split_on_newline(s);
        let b = split_on_newline(f);
        if s.last() == NEWLINE {
            assert(a == at.push(Seq::<u8>::empty()));
            assert(b == bt.push(Seq::<u8>::empty()));
            if at.last().len() > 0 && at.last().last() == CARRIAGE_RETURN {
                lemma_split_last_byte(t);
            }
            assert forall|k: int| 0 <= k < a.len() - 1 implies #[trigger] b[k] == strip_cr(a[k]) by {
                if k < at.len() - 1 {
                    assert(b[k] == bt[k]);
                    assert(a[k] == at[k]);
                }
            }
        } else {
            assert(a == at.update(at.len() - 1, at.last().push(s.last())));
            assert(b == bt.update(bt.len() - 1, bt.last().push(s.last())));
            assert forall|k: int| 0 <= k < a.len() - 1 implies #[trigger] b[k] == strip_cr(a[k]) by {
                assert(b[k] == bt[k]);
                assert(a[k] == at[k]);
            }
        }
    }
}

/// Two sources that are empty together, have as many lines, and agree on
/// the lines of the window render alike.
proof fn lemma_render_reads_only_the_window(
    s1: Seq<u8>,
    s2: Seq<u8>,
    loc: CodeFrameLocation,
    opts: CodeFrameOptions,
    terminal_width: usize,
)
    requires
        s1.len() == 0 <==> s2.len() == 0,
        source_lines(s1).len() == source_lines(s2).len(),
        forall|k: int|
            frame_layout(s1, loc, opts, terminal_width).first <= k < frame_layout(s1, loc, opts, terminal_width).last
                ==> #[trigger] source_lines(s1)[k] == source_lines(s2)[k],
    ensures
        render_spec(s1, loc, opts, terminal_width) == render_spec(s2, loc, opts, terminal_width),
{
    let l1 = frame_layout(s1, loc, opts, terminal_width);
    let l2 = frame_layout(s2, loc, opts, terminal_width);
    let c = opts.force_color;
    let msg = crate::frame::message_bytes(opts);
    if !(s1.len() == 0 || l1.start_idx >= l1.lines.len()) && l1.end_idx >= l1.start_idx && l1.available != 0 {
        assert(l1.lines.subrange(l1.first, l1.last) =~= l2.lines.subrange(l2.first, l2.last));
        assert(l1.offset == l2.offset);
        assert forall|i: int| l1.first <= i < l1.last implies #[trigger] line_block(l1, c, msg, i) == line_block(l2, c, msg, i) by {
            assert(l1.lines[i] == l2.lines[i]);
            assert(code_row(l1, c, i) == code_row(l2, c, i));
            assert(marker_row(l1, c, msg, i) == marker_row(l2, c, msg, i));
        }
        assert(frame_sections(l1, c, msg) =~= frame_sections(l2, c, msg));
    }
}

/// A source renders the same with its line endings written `\r\n` or
/// `\n`, as long as no shown line ends with a carriage return of its own
/// before the `\r\n`.
pub proof fn law_crlf_renders_as_lf(
    src: Seq<u8>,
    loc: CodeFrameLocation,
    opts: CodeFrameOptions,
    terminal_width: usize,
)
    requires
        shown_lines_end_in_one_cr_at_most(src, loc, opts, terminal_width),
    ensures
        render_spec(crlf_to_lf(src), loc, opts, terminal_width) == render_spec(src, loc, opts, terminal_width),
{
    let f = crlf_to_lf(src);
    lemma_crlf_split(src);
    let a = split_on_newline(src);
    let b = split_on_newline(f);
    let lay = frame_layout(src, loc, opts, terminal_width);
    assert forall|k: int| lay.first <= k < lay.last implies #[trigger] source_lines(src)[k] == source_lines(f)[k] by {
        if k < a.len() - 1 {
            assert(b[k] == strip_cr(a[k]));
            assert(!ends_in_two_crs(a[k]));
        }
    }
    assert(f.len() == 0 <==> src.len() == 0);
    lemma_render_reads_only_the_window(src, f, loc, opts, terminal_width);
}

} // verus!
