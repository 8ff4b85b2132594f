//! The width of colored output as a terminal shows it: escape sequences
//! take no room.
use vstd::prelude::*;
use vstd::utf8::{encode_utf8, is_ascii_chars, is_ascii_chars_encode_utf8};
use crate::frame::{gutter_style, marker_style, message_style, reset_style};
use crate::lines::{split_on_newline, NEWLINE};

verus! {

pub const ESCAPE: u8 = 27;

/// The byte that ends an escape sequence of a style.
pub const STYLE_END: u8 = 109;

/// The bytes of `s` that a terminal shows: all but the escape sequences,
/// each running from an escape byte through the next `m`. `in_escape` says
/// whether `s` starts inside such a sequence.
pub open spec fn shown_bytes(s: Seq<u8>, in_escape: bool) -> Seq<u8>
    decreases s.len(),
{
    if s.len() == 0 {
        Seq::empty()
    } else if in_escape {
        shown_bytes(s.drop_first(), s[0] != STYLE_END)
    } else if s[0] == ESCAPE {
        shown_bytes(s.drop_first(), true)
    } else {
        seq![s[0]] + shown_bytes(s.drop_first(), false)
    }
}

/// Whether the end of `s` lies inside an escape sequence.
pub open spec fn ends_in_escape(s: Seq<u8>, in_escape: bool) -> bool
    decreases s.len(),
{
    if s.len() == 0 {
        in_escape
    } else if in_escape {
        ends_in_escape(s.drop_first(), s[0] != STYLE_END)
    } else {
        ends_in_escape(s.drop_first(), s[0] == ESCAPE)
    }
}

/// How many columns a terminal gives `s`, one per shown byte.
pub open spec fn shown_width(s: Seq<u8>) -> int {
    shown_bytes(s, false).len() as int
}

pub open spec fn has_no_newline(s: Seq<u8>) -> bool {
    forall|i: int| 0 <= i < s.len() ==> #[trigger] s[i] != NEWLINE
}

pub open spec fn has_no_escape(s: Seq<u8>) -> bool {
    forall|i: int| 0 <= i < s.len() ==> #[trigger] s[i] != ESCAPE
}

/// What is shown of two pieces is what is shown of each, the second read
/// in the state the first ends in.
pub proof fn lemma_shown_concat(a: Seq<u8>, b: Seq<u8>, st: bool)
    ensures
        shown_bytes(a + b, st) == shown_bytes(a, st) + shown_bytes(b, ends_in_escape(a, st)),
        ends_in_escape(a + b, st) == ends_in_escape(b, ends_in_escape(a, st)),
    decreases a.len(),
{
    if a.len() == 0 {
        assert(a + b =~= b);
        assert(shown_bytes(a, st) =~= Seq::<u8>::empty());
        assert(shown_bytes(a + b, st) =~= shown_bytes(a, st) + shown_bytes(b, ends_in_escape(a, st)));
    } else {
        assert((a + b).drop_first() =~= a.drop_first() + b);
        assert((a + b)[0] == a[0]);
        let nst = if st { a[0] != STYLE_END } else { a[0] == ESCAPE };
        lemma_shown_concat(a.drop_first(), b, nst);
        if !st && a[0] != ESCAPE {
            assert(shown_bytes(a + b, st) =~= shown_bytes(a, st) + shown_bytes(b, ends_in_escape(a, st)));
        }
    }
}

/// No more is shown than there is.
pub proof fn lemma_shown_len(s: Seq<u8>, st: bool)
    ensures
        shown_bytes(s, st).len() <= s.len(),
    decreases s.len(),
{
    if s.len() > 0 {
        lemma_shown_len(s.drop_first(), if st { s[0] != STYLE_END } else { s[0] == ESCAPE });
    }
}

/// Bytes without an escape byte are all shown.
pub proof fn lemma_shown_plain(s: Seq<u8>)
    requires
        has_no_escape(s),
    ensures
        shown_bytes(s, false) == s,
        !ends_in_escape(s, false),
    decreases s.len(),
{
    if s.len() > 0 {
        let t = s.drop_first();
        assert(has_no_escape(t)) by {
            assert forall|i: int| 0 <= i < t.len() implies #[trigger] t[i] != ESCAPE by {
                assert(t[i] == s[i + 1]);
            }
        }
        lemma_shown_plain(t);
        assert(s[0] != ESCAPE);
        assert(shown_bytes(s, false) =~= s);
    }
}

/// An escape sequence `ESC [ d1 .. dk m` with no `m` among its digits is
/// not shown, and ends outside an escape sequence.
proof fn lemma_shown_sequence(s: Seq<u8>)
    requires
        s.len() >= 2,
        s[0] == ESCAPE,
        s.last() == STYLE_END,
        forall|i: int| 1 <= i < s.len() - 1 ==> #[trigger] s[i] != STYLE_END,
    ensures
        shown_bytes(s, false) == Seq::<u8>::empty(),
        !ends_in_escape(s, false),
{
    lemma_inside_sequence(s, 1);
    assert(s.drop_first() =~= s.subrange(1, s.len() as int));
}

proof fn lemma_inside_sequence(s: Seq<u8>, k: int)
    requires
        1 <= k < s.len(),
        s.last() == STYLE_END,
        forall|i: int| 1 <= i < s.len() - 1 ==> #[trigger] s[i] != STYLE_END,
        s[0] == ESCAPE,
    ensures
        shown_bytes(s.subrange(k, s.len() as int), true) == Seq::<u8>::empty(),
        !ends_in_escape(s.subrange(k, s.len() as int), true),
    decreases s.len() - k,
{
    let t = s.subrange(k, s.len() as int);
    if k < s.len() - 1 {
        lemma_inside_sequence(s, k + 1);
        assert(t.drop_first() =~= s.subrange(k + 1, s.len() as int));
        assert(t[0] == s[k]);
        assert(s[k] != STYLE_END);
        assert(shown_bytes(t, true) == shown_bytes(t.drop_first(), true));
        assert(ends_in_escape(t, true) == ends_in_escape(t.drop_first(), true));
    } else {
        let e = t.drop_first();
        assert(t.len() == 1);
        assert(e =~= Seq::<u8>::empty());
        assert(t[0] == STYLE_END);
        assert(shown_bytes(t, true) == shown_bytes(e, false));
        assert(shown_bytes(e, false) == Seq::<u8>::empty());
        assert(ends_in_escape(t, true) == ends_in_escape(e, false));
    }
}

/// The bytes of the bold red style, the grey style and the reset.
proof fn lemma_style_bytes()
    ensures
        marker_style(true) == seq![ESCAPE, 91, 51, 49, STYLE_END] + seq![ESCAPE, 91, 49, STYLE_END],
        message_style(true) == marker_style(true),
        gutter_style(true) == seq![ESCAPE, 91, 57, 48, STYLE_END],
        reset_style(true) == seq![ESCAPE, 91, 48, STYLE_END],
{
    reveal_strlit("\x1b[31m\x1b[1m");
    reveal_strlit("\x1b[90m");
    reveal_strlit("\x1b[0m");
    let a = "\x1b[31m\x1b[1m"@;
    let g = "\x1b[90m"@;
    let r = "\x1b[0m"@;
    assert(is_ascii_chars(a));
    assert(is_ascii_chars(g));
    assert(is_ascii_chars(r));
    is_ascii_chars_encode_utf8(a);
    is_ascii_chars_encode_utf8(g);
    is_ascii_chars_encode_utf8(r);
    assert(encode_utf8(a) =~= seq![ESCAPE, 91, 51, 49, STYLE_END] + seq![ESCAPE, 91, 49, STYLE_END]);
    assert(encode_utf8(g) =~= seq![ESCAPE, 91, 57, 48, STYLE_END]);
    assert(encode_utf8(r) =~= seq![ESCAPE, 91, 48, STYLE_END]);
}

/// A piece that a terminal does not show, that leaves no escape sequence
/// open and that holds no newline.
pub open spec fn is_invisible(s: Seq<u8>) -> bool {
    &&& shown_bytes(s, false) == Seq::<u8>::empty()
    &&& !ends_in_escape(s, false)
    &&& has_no_newline(s)
}

proof fn lemma_sequence_invisible(s: Seq<u8>)
    requires
        s.len() >= 2,
        s[0] == ESCAPE,
        s.last() == STYLE_END,
        forall|i: int| 1 <= i < s.len() - 1 ==> #[trigger] s[i] != STYLE_END,
        forall|i: int| 0 <= i < s.len() ==> #[trigger] s[i] != NEWLINE,
    ensures
        is_invisible(s),
{
    lemma_shown_sequence(s);
}

/// The styles take no room and hold no newline.
pub proof fn lemma_styles_invisible(colored: bool)
    ensures
        is_invisible(marker_style(colored)),
        is_invisible(gutter_style(colored)),
        is_invisible(message_style(colored)),
        is_invisible(reset_style(colored)),
{
    if colored {
        lemma_style_bytes();
        let a: Seq<u8> = seq![ESCAPE, 91, 51, 49, STYLE_END];
        let b: Seq<u8> = seq![ESCAPE, 91, 49, STYLE_END];
        let g: Seq<u8> = seq![ESCAPE, 91, 57, 48, STYLE_END];
        let r: Seq<u8> = seq![ESCAPE, 91, 48, STYLE_END];
        lemma_sequence_invisible(a);
        lemma_sequence_invisible(b);
        lemma_sequence_invisible(g);
        lemma_sequence_invisible(r);
        lemma_shown_concat(a, b, false);
        assert(shown_bytes(a + b, false) =~= Seq::<u8>::empty());
        assert(has_no_newline(a + b)) by {
            assert forall|i: int| 0 <= i < (a + b).len() implies #[trigger] (a + b)[i] != NEWLINE by {
                if i < a.len() {
                    assert((a + b)[i] == a[i]);
                } else {
                    assert((a + b)[i] == b[i - a.len()]);
                }
            }
        }
    } else {
        assert(shown_bytes(Seq::<u8>::empty(), false) =~= Seq::<u8>::empty());
    }
}

/// Two pieces side by side, the first leaving no escape sequence open, take
/// the room of both; neither holding a newline, together they hold none.
pub proof fn lemma_shown_cat(a: Seq<u8>, b: Seq<u8>)
    requires
        !ends_in_escape(a, false),
    ensures
        shown_width(a + b) == shown_width(a) + shown_width(b),
        ends_in_escape(a + b, false) == ends_in_escape(b, false),
        has_no_newline(a) && has_no_newline(b) ==> has_no_newline(a + b),
{
    lemma_shown_concat(a, b, false);
    if has_no_newline(a) && has_no_newline(b) {
        assert forall|i: int| 0 <= i < (a + b).len() implies #[trigger] (a + b)[i] != NEWLINE by {
            if i < a.len() {
                assert((a + b)[i] == a[i]);
            } else {
                assert((a + b)[i] == b[i - a.len()]);
            }
        }
    }
}

/// Bytes without an escape byte take one column each.
pub proof fn lemma_shown_plain_width(s: Seq<u8>)
    requires
        has_no_escape(s),
    ensures
        shown_width(s) == s.len(),
        !ends_in_escape(s, false),
{
    lemma_shown_plain(s);
}

/// Bytes without a newline are one piece.
pub proof fn lemma_split_no_newline(s: Seq<u8>)
    requires
        has_no_newline(s),
    ensures
        split_on_newline(s) == seq![s],
    decreases s.len(),
{
    if s.len() > 0 {
        let t = s.drop_last();
        assert(has_no_newline(t)) by {
            assert forall|i: int| 0 <= i < t.len() implies #[trigger] t[i] != NEWLINE by {
                assert(t[i] == s[i]);
            }
        }
        lemma_split_no_newline(t);
        assert(s.last() != NEWLINE);
        assert(t.push(s.last()) =~= s);
        assert(split_on_newline(s) =~= seq![s]);
    } else {
        assert(s =~= Seq::<u8>::empty());
    }
}

} // verus!
