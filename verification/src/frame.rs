//! The code frame: which lines are shown, how each row is laid out, and the
//! renderer that produces it.
use vstd::prelude::*;
use vstd::utf8::*;
use vstd::string::*;
use crate::bytes::{push_ascii, push_repeat, push_slice, push_str, repeat_byte};
use crate::lines::{range_matches, source_lines, split_source_lines, lemma_split_nonempty};
use crate::marker::{calculate_marker_position, marker_position_spec};
use crate::num::{decimal, min_int, num_digits, push_decimal, push_right_aligned, right_aligned, sat_sub, SPACE};
use crate::truncate::{
    calculate_truncation_offset, offset_fits, ranges_to_lines, truncate_line, truncate_spec, truncation_offset_spec,
};

verus! {

/// A source location with line and column.
#[derive(Debug, Clone, Copy, PartialEq, Eq)]
pub struct Location {
    /// 1-indexed line number
    pub line: usize,
    /// 1-indexed column number as byte offset
    pub column: Option<usize>,
}

/// Location information for the error in the source code.
///
/// Columns are 1-indexed byte offsets, half-open: `[start.column, end.column)`.
#[derive(Debug, Clone, Copy, PartialEq, Eq)]
pub struct CodeFrameLocation {
    /// Starting location
    pub start: Location,
    /// Optional ending location (line inclusive, column half-open)
    pub end: Option<Location>,
}

/// Options for rendering the code frame.
#[derive(Debug, Clone)]
pub struct CodeFrameOptions {
    /// Number of lines to show before the error
    pub lines_above: usize,
    /// Number of lines to show after the error
    pub lines_below: usize,
    /// Whether to use color output
    pub force_color: bool,
    /// Whether to attempt syntax highlighting. No highlighter is available
    /// to this renderer, so the attempt never colors tokens and the flag
    /// does not change the output.
    pub highlight_code: bool,
    /// Optional message to display with the error
    pub message: Option<String>,
    /// Maximum width for the output (None = the width of the terminal)
    pub max_width: Option<usize>,
}

impl Default for CodeFrameOptions {
    fn default() -> (r: Self)
        ensures
            r.lines_above == 2,
            r.lines_below == 3,
            r.force_color,
            r.highlight_code,
            r.message is None,
            r.max_width is None,
    {
        CodeFrameOptions {
            lines_above: 2,
            lines_below: 3,
            force_color: true,
            highlight_code: true,
            message: None,
            max_width: None,
        }
    }
}

/// Why a code frame could not be rendered.
#[derive(Debug, Clone, Copy, PartialEq, Eq)]
pub enum RenderError {
    /// The end line (0-indexed, clamped to the source) precedes the start line.
    EndBeforeStart { end_line: usize, start_line: usize },
    /// The width leaves no room for code after the gutter.
    WidthTooSmall { max_width: usize },
}

/// The text that describes a render error.
pub open spec fn error_message(e: RenderError) -> Seq<u8> {
    match e {
        RenderError::EndBeforeStart { end_line, start_line } => encode_utf8(
            "source location invalid end_line "@,
        ) + decimal(end_line as nat) + encode_utf8(" < "@) + decimal(start_line as nat),
        RenderError::WidthTooSmall { max_width } => encode_utf8("max_width "@) + decimal(
            max_width as nat,
        ) + encode_utf8(" too small to render a code frame"@),
    }
}

/// Converts bytes known to be UTF-8 into a `String`.
fn utf8_to_string(bytes: Vec<u8>) -> (s: String)
    requires
        valid_utf8(bytes@),
    ensures
        encode_utf8(s@) == bytes@,
{
    match string_from_utf8(bytes) {
        Ok(s) => s,
        Err(_) => {
            proof {
                assert(false);
            }
            String::new()
        },
    }
}

#[verifier::external_type_specification]
#[verifier::external_body]
pub struct ExFromUtf8Error(std::string::FromUtf8Error);

/// `String::from_utf8`: succeeds exactly on valid UTF-8, and then holds the
/// string those bytes encode.
#[verifier::external_body]
fn string_from_utf8(bytes: Vec<u8>) -> (r: Result<String, std::string::FromUtf8Error>)
    ensures
        r is Ok <==> valid_utf8(bytes@),
        r matches Ok(s) ==> encode_utf8(s@) == bytes@,
{
    String::from_utf8(bytes)
}

impl RenderError {
    /// The text that describes this error.
    pub fn message(&self) -> (s: String)
        ensures
            encode_utf8(s@) == error_message(*self),
    {
        let mut out: Vec<u8> = Vec::new();
        assert(valid_utf8(out@));
        match *self {
            RenderError::EndBeforeStart { end_line, start_line } => {
                push_str(&mut out, "source location invalid end_line ");
                push_decimal(&mut out, end_line);
                push_str(&mut out, " < ");
                push_decimal(&mut out, start_line);
            },
            RenderError::WidthTooSmall { max_width } => {
                push_str(&mut out, "max_width ");
                push_decimal(&mut out, max_width);
                push_str(&mut out, " too small to render a code frame");
            },
        }
        proof {
            assert(out@ =~= error_message(*self));
        }
        utf8_to_string(out)
    }
}

/// Terminal styles for the parts of a frame: the `>` and carets, the line
/// numbers, the message, and the sequence that ends a style.
pub struct ColorScheme {
    pub marker: &'static str,
    pub gutter: &'static str,
    pub message: &'static str,
    pub reset: &'static str,
}

/// The style bytes used when color is on (ANSI: bold red marker and message,
/// grey gutter) or off (no bytes at all).
pub open spec fn marker_style(colored: bool) -> Seq<u8> {
    if colored { encode_utf8("\x1b[31m\x1b[1m"@) } else { Seq::empty() }
}

pub open spec fn gutter_style(colored: bool) -> Seq<u8> {
    if colored { encode_utf8("\x1b[90m"@) } else { Seq::empty() }
}

pub open spec fn message_style(colored: bool) -> Seq<u8> {
    if colored { encode_utf8("\x1b[31m\x1b[1m"@) } else { Seq::empty() }
}

pub open spec fn reset_style(colored: bool) -> Seq<u8> {
    if colored { encode_utf8("\x1b[0m"@) } else { Seq::empty() }
}

impl ColorScheme {
    pub open spec fn is_scheme(&self, colored: bool) -> bool {
        &&& self.marker.spec_bytes() == marker_style(colored)
        &&& self.gutter.spec_bytes() == gutter_style(colored)
        &&& self.message.spec_bytes() == message_style(colored)
        &&& self.reset.spec_bytes() == reset_style(colored)
    }

    /// Styles with color.
    pub fn colored() -> (r: Self)
        ensures
            r.is_scheme(true),
    {
        ColorScheme {
            marker: "\x1b[31m\x1b[1m",
            gutter: "\x1b[90m",
            message: "\x1b[31m\x1b[1m",
            reset: "\x1b[0m",
        }
    }

    /// Styles without color: every style is empty.
    pub fn plain() -> (r: Self)
        ensures
            r.is_scheme(false),
    {
        let r = ColorScheme { marker: "", gutter: "", message: "", reset: "" };
        proof {
            reveal_strlit("");
            assert(encode_utf8(""@) =~= Seq::<u8>::empty());
        }
        r
    }
}

pub const GREATER_THAN: u8 = 62;
pub const BAR: u8 = 124;
pub const CARET: u8 = 94;
pub const NEWLINE: u8 = 10;

/// Width of the gutter decorations around the line number: marker and
/// space before it, ` | ` after it.
pub const GUTTER_DECORATION: usize = 5;

/// Where the frame sits in the source and how wide it is. Line indices are
/// 0-indexed; the window is `[first, last)`.
pub struct FrameLayout {
    pub lines: Seq<Seq<u8>>,
    pub start_idx: int,
    pub end_idx: int,
    pub start_column: Option<int>,
    pub end_column: Option<int>,
    pub first: int,
    pub last: int,
    pub gutter_width: int,
    pub max_width: int,
    pub available: int,
    pub offset: int,
}

pub open spec fn opt_int(o: Option<usize>) -> Option<int> {
    match o {
        Some(v) => Some(v as int),
        None => None,
    }
}

pub open spec fn int_or_zero(o: Option<int>) -> int {
    match o {
        Some(v) => v,
        None => 0,
    }
}

/// The column given for the end of the location, if any.
pub open spec fn given_end_column(loc: CodeFrameLocation) -> Option<int> {
    match loc.end {
        Some(l) => opt_int(l.column),
        None => None,
    }
}

/// The frame layout for `src`: the start line, the end line clamped to the
/// source (the start line when absent), the end column (one past the start
/// column when absent), the window of `lines_above` lines before and
/// `lines_below` lines after, the gutter as wide as the last line number,
/// the code width left of `max_width` (the terminal width when absent), and
/// the shared truncation offset.
pub open spec fn frame_layout(
    src: Seq<u8>,
    loc: CodeFrameLocation,
    opts: CodeFrameOptions,
    terminal_width: usize,
) -> FrameLayout {
    let lines = source_lines(src);
    let n = lines.len() as int;
    let start_idx = sat_sub(loc.start.line as int, 1);
    let end_idx = match loc.end {
        Some(l) => min_int(sat_sub(l.line as int, 1), n - 1),
        None => start_idx,
    };
    let start_column = opt_int(loc.start.column);
    let end_column = match given_end_column(loc) {
        Some(c) => Some(c),
        None => match start_column {
            Some(c) => Some(c + 1),
            None => None,
        },
    };
    let first = sat_sub(start_idx, opts.lines_above as int);
    let last = min_int(end_idx + opts.lines_below + 1, n);
    let gutter_width = decimal(last as nat).len() as int;
    let max_width = match opts.max_width {
        Some(w) => w as int,
        None => terminal_width as int,
    };
    let available = sat_sub(max_width, gutter_width + GUTTER_DECORATION);
    FrameLayout {
        lines,
        start_idx,
        end_idx,
        start_column,
        end_column,
        first,
        last,
        gutter_width,
        max_width,
        available,
        offset: truncation_offset_spec(
            lines.subrange(first, last),
            int_or_zero(start_column),
            int_or_zero(end_column),
            available,
        ),
    }
}

/// The message bytes, if a message is given.
pub open spec fn message_bytes(opts: CodeFrameOptions) -> Option<Seq<u8>> {
    match opts.message {
        Some(m) => Some(encode_utf8(m@)),
        None => None,
    }
}

pub open spec fn is_error_line(lay: FrameLayout, i: int) -> bool {
    lay.start_idx <= i <= lay.end_idx
}

/// The row of one source line: `>` on error lines (a space elsewhere), the
/// right-aligned line number, ` |`, and the truncated line after a space
/// when it is not empty.
pub open spec fn code_row(lay: FrameLayout, colored: bool, i: int) -> Seq<u8> {
    let t = truncate_spec(lay.lines[i], lay.offset, lay.available);
    let lead = if is_error_line(lay, i) {
        marker_style(colored) + seq![GREATER_THAN] + reset_style(colored)
    } else {
        seq![SPACE]
    };
    let content = if t.visible.len() > 0 {
        seq![SPACE] + t.visible
    } else {
        Seq::empty()
    };
    lead + seq![SPACE] + gutter_style(colored) + right_aligned((i + 1) as nat, lay.gutter_width)
        + seq![SPACE, BAR] + reset_style(colored) + content
}

/// The spaces before the carets: up to the marker column, but never past
/// one column beyond the code area, so that the caret row fits the width.
pub open spec fn caret_padding(marker_col: int, available: int) -> int {
    min_int(marker_col, available + 1)
}

/// The caret row under an error line: an empty gutter, spaces up to the
/// marker column, the carets, and on the last error line the message.
pub open spec fn marker_row(lay: FrameLayout, colored: bool, msg: Option<Seq<u8>>, i: int) -> Seq<
    u8,
> {
    let t = truncate_spec(lay.lines[i], lay.offset, lay.available);
    let sc = int_or_zero(lay.start_column);
    let pos = marker_position_spec(
        sc,
        int_or_zero(lay.end_column),
        lay.lines[i].len() as int,
        i,
        lay.start_idx,
        lay.end_idx,
        t.byte_offset,
        lay.available,
    );
    let tail = if i == lay.end_idx && msg is Some {
        seq![SPACE] + message_style(colored) + msg->0 + reset_style(colored)
    } else {
        Seq::empty()
    };
    seq![NEWLINE, SPACE, SPACE] + gutter_style(colored) + repeat_byte(SPACE, lay.gutter_width as nat)
        + seq![SPACE, BAR] + reset_style(colored) + repeat_byte(SPACE, caret_padding(pos.0, lay.available) as nat) + marker_style(
        colored,
    ) + repeat_byte(CARET, pos.1 as nat) + reset_style(colored) + tail
}

/// The output for one shown line: its row, then its caret row when it is an
/// error line and a column is given.
pub open spec fn line_block(lay: FrameLayout, colored: bool, msg: Option<Seq<u8>>, i: int) -> Seq<
    u8,
> {
    code_row(lay, colored, i) + if is_error_line(lay, i) && lay.start_column is Some {
        marker_row(lay, colored, msg, i)
    } else {
        Seq::empty()
    }
}

/// The message line shown above the code when there is a message but no
/// column to put it after.
pub open spec fn header_row(lay: FrameLayout, colored: bool, msg: Seq<u8>) -> Seq<u8> {
    repeat_byte(SPACE, (lay.gutter_width + GUTTER_DECORATION) as nat) + message_style(colored) + msg
        + reset_style(colored)
}

/// The sections of a frame, in order: the optional header, then one block
/// per shown line.
pub open spec fn frame_sections(lay: FrameLayout, colored: bool, msg: Option<Seq<u8>>) -> Seq<
    Seq<u8>,
> {
    let head = if msg is Some && lay.start_column is None {
        seq![header_row(lay, colored, msg->0)]
    } else {
        Seq::empty()
    };
    head + Seq::new((lay.last - lay.first) as nat, |k: int| line_block(lay, colored, msg, lay.first + k))
}

/// Pieces joined with newlines between them (none after the last).
pub open spec fn join_with_newlines(parts: Seq<Seq<u8>>) -> Seq<u8>
    decreases parts.len(),
{
    if parts.len() == 0 {
        Seq::empty()
    } else if parts.len() == 1 {
        parts[0]
    } else {
        join_with_newlines(parts.drop_last()) + seq![NEWLINE] + parts.last()
    }
}

/// What rendering gives: nothing for an empty source or a start line past
/// its end, an error when the end line precedes the start line or no width
/// is left for code, otherwise the frame's sections joined by newlines.
pub open spec fn render_spec(
    src: Seq<u8>,
    loc: CodeFrameLocation,
    opts: CodeFrameOptions,
    terminal_width: usize,
) -> Result<Seq<u8>, RenderError> {
    let lay = frame_layout(src, loc, opts, terminal_width);
    if src.len() == 0 || lay.start_idx >= lay.lines.len() {
        Ok(Seq::empty())
    } else if lay.end_idx < lay.start_idx {
        Err(
            RenderError::EndBeforeStart {
                end_line: lay.end_idx as usize,
                start_line: lay.start_idx as usize,
            },
        )
    } else if lay.available == 0 {
        Err(RenderError::WidthTooSmall { max_width: lay.max_width as usize })
    } else {
        Ok(join_with_newlines(frame_sections(lay, opts.force_color, message_bytes(opts))))
    }
}

/// The inputs on which the rendering arithmetic stays within `usize`: the
/// column after the start column, the window end, and the centring of the
/// marked range.
pub open spec fn arithmetic_fits(
    src: Seq<u8>,
    loc: CodeFrameLocation,
    opts: CodeFrameOptions,
    terminal_width: usize,
) -> bool {
    let lay = frame_layout(src, loc, opts, terminal_width);
    (src.len() > 0 && lay.start_idx < lay.lines.len() && lay.end_idx >= lay.start_idx) ==> {
        &&& lay.end_idx + opts.lines_below + 1 <= usize::MAX
        &&& (loc.start.column matches Some(c) ==> c < usize::MAX)
        &&& (lay.available > 0 ==> offset_fits(
            lay.lines.subrange(lay.first, lay.last),
            int_or_zero(lay.start_column),
            int_or_zero(lay.end_column),
            lay.available,
        ))
    }
}

/// The layout as computed at run time.
struct Geometry {
    start_idx: usize,
    end_idx: usize,
    start_column: Option<usize>,
    end_column: Option<usize>,
    first: usize,
    last: usize,
    gutter_width: usize,
    available: usize,
    offset: usize,
}

impl Geometry {
    spec fn matches(&self, lay: FrameLayout) -> bool {
        &&& self.start_idx == lay.start_idx
        &&& self.end_idx == lay.end_idx
        &&& opt_int(self.start_column) == lay.start_column
        &&& opt_int(self.end_column) == lay.end_column
        &&& self.first == lay.first
        &&& self.last == lay.last
        &&& self.gutter_width == lay.gutter_width
        &&& self.available == lay.available
        &&& self.offset == lay.offset
    }

    /// The facts about a layout that rendering its rows relies on.
    spec fn sane(&self, n: int) -> bool {
        &&& self.first <= self.start_idx <= self.end_idx < self.last <= n
        &&& 1 <= self.gutter_width <= 20
        &&& (self.start_column is Some ==> self.end_column is Some)
    }
}

/// The lines of `src` are `lines` (as byte ranges into it).
spec fn lines_of(src: Seq<u8>, lines: Seq<(usize, usize)>, all: Seq<Seq<u8>>) -> bool {
    &&& all.len() == lines.len()
    &&& forall|k: int| 0 <= k < lines.len() ==> range_matches(src, all[k], #[trigger] lines[k])
}

/// Appends all of `row` to `out`.
fn push_all(out: &mut Vec<u8>, row: &Vec<u8>)
    requires
        valid_utf8(old(out)@),
        valid_utf8(row@),
    ensures
        final(out)@ == old(out)@ + row@,
        valid_utf8(final(out)@),
{
    proof {
        assert(row@.subrange(0, row@.len() as int) =~= row@);
    }
    push_slice(out, row.as_slice(), 0, row.len());
}

/// The row of line `i`, and where its shown source starts.
fn code_row_bytes(
    src: &[u8],
    lines: &Vec<(usize, usize)>,
    g: &Geometry,
    scheme: &ColorScheme,
    i: usize,
    Ghost(lay): Ghost<FrameLayout>,
    Ghost(colored): Ghost<bool>,
) -> (r: (Vec<u8>, usize))
    requires
        lines_of(src@, lines@, lay.lines),
        g.matches(lay),
        g.sane(lines@.len() as int),
        scheme.is_scheme(colored),
        g.first <= i < g.last,
    ensures
        r.0@ == code_row(lay, colored, i as int),
        valid_utf8(r.0@),
        r.1 == truncate_spec(lay.lines[i as int], lay.offset, lay.available).byte_offset,
{
    let (ls, le) = lines[i];
    proof {
        assert(range_matches(src@, lay.lines[i as int], lines@[i as int]));
    }
    let t = truncate_line(src, ls, le, g.offset, g.available);
    let ghost tt = truncate_spec(lay.lines[i as int], lay.offset, lay.available);
    let mut row: Vec<u8> = Vec::new();
    assert(valid_utf8(row@));
    if g.start_idx <= i && i <= g.end_idx {
        push_str(&mut row, scheme.marker);
        push_ascii(&mut row, GREATER_THAN);
        push_str(&mut row, scheme.reset);
    } else {
        push_ascii(&mut row, SPACE);
    }
    let ghost lead = row@;
    assert(lead =~= (if is_error_line(lay, i as int) {
        marker_style(colored) + seq![GREATER_THAN] + reset_style(colored)
    } else {
        seq![SPACE]
    }));
    push_ascii(&mut row, SPACE);
    push_str(&mut row, scheme.gutter);
    push_right_aligned(&mut row, i + 1, g.gutter_width);
    push_ascii(&mut row, SPACE);
    push_ascii(&mut row, BAR);
    push_str(&mut row, scheme.reset);
    let ghost head = row@;
    assert(head =~= lead + seq![SPACE] + gutter_style(colored) + right_aligned(
        (i + 1) as nat,
        lay.gutter_width,
    ) + seq![SPACE, BAR] + reset_style(colored));
    if t.visible_content.len() > 0 {
        push_ascii(&mut row, SPACE);
        push_all(&mut row, &t.visible_content);
        assert(row@ =~= head + (seq![SPACE] + tt.visible));
    } else {
        assert(row@ =~= head + Seq::<u8>::empty());
    }
    (row, t.byte_offset)
}

/// The caret row of error line `i`, whose shown source starts at
/// `byte_offset`.
#[verifier::rlimit(60)]
fn marker_row_bytes(
    src: &[u8],
    lines: &Vec<(usize, usize)>,
    g: &Geometry,
    scheme: &ColorScheme,
    options: &CodeFrameOptions,
    i: usize,
    byte_offset: usize,
    Ghost(lay): Ghost<FrameLayout>,
    Ghost(colored): Ghost<bool>,
) -> (row: Vec<u8>)
    requires
        src@.len() <= isize::MAX,
        lines_of(src@, lines@, lay.lines),
        g.matches(lay),
        g.sane(lines@.len() as int),
        g.start_column is Some,
        scheme.is_scheme(colored),
        g.start_idx <= i <= g.end_idx,
        byte_offset == truncate_spec(lay.lines[i as int], lay.offset, lay.available).byte_offset,
    ensures
        row@ == marker_row(lay, colored, message_bytes(*options), i as int),
        valid_utf8(row@),
{
    let (ls, le) = lines[i];
    proof {
        assert(range_matches(src@, lay.lines[i as int], lines@[i as int]));
    }
    let sc = match g.start_column {
        Some(c) => c,
        None => 0,
    };
    let ec = match g.end_column {
        Some(c) => c,
        None => 0,
    };
    let (marker_col, marker_length) = calculate_marker_position(
        sc,
        ec,
        le - ls,
        i,
        g.start_idx,
        g.end_idx,
        byte_offset,
        g.available,
    );
    let ghost pos = marker_position_spec(
        int_or_zero(lay.start_column),
        int_or_zero(lay.end_column),
        lay.lines[i as int].len() as int,
        i as int,
        lay.start_idx,
        lay.end_idx,
        byte_offset as int,
        lay.available,
    );
    assert(marker_col == pos.0 && marker_length == pos.1);
    let mut row: Vec<u8> = Vec::new();
    assert(valid_utf8(row@));
    push_ascii(&mut row, NEWLINE);
    push_ascii(&mut row, SPACE);
    push_ascii(&mut row, SPACE);
    let ghost p1 = row@;
    assert(p1 =~= seq![NEWLINE, SPACE, SPACE]);
    push_str(&mut row, scheme.gutter);
    push_repeat(&mut row, SPACE, g.gutter_width);
    push_ascii(&mut row, SPACE);
    push_ascii(&mut row, BAR);
    let ghost p2 = row@;
    assert(p2 =~= p1 + gutter_style(colored) + repeat_byte(SPACE, lay.gutter_width as nat) + seq![
        SPACE,
        BAR,
    ]);
    push_str(&mut row, scheme.reset);
    let padding = if marker_col <= g.available { marker_col } else { g.available + 1 };
    assert(padding == caret_padding(pos.0, lay.available));
    push_repeat(&mut row, SPACE, padding);
    push_str(&mut row, scheme.marker);
    let ghost p3 = row@;
    assert(p3 =~= p2 + reset_style(colored) + repeat_byte(SPACE, caret_padding(pos.0, lay.available) as nat) + marker_style(
        colored,
    ));
    push_repeat(&mut row, CARET, marker_length);
    push_str(&mut row, scheme.reset);
    let ghost head = row@;
    assert(head =~= p3 + repeat_byte(CARET, pos.1 as nat) + reset_style(colored));
    if i == g.end_idx {
        match &options.message {
            Some(m) => {
                push_ascii(&mut row, SPACE);
                push_str(&mut row, scheme.message);
                push_str(&mut row, m.as_str());
                push_str(&mut row, scheme.reset);
                assert(row@ =~= head + (seq![SPACE] + message_style(colored) + encode_utf8(m@)
                    + reset_style(colored)));
            },
            None => {
                assert(row@ =~= head + Seq::<u8>::empty());
            },
        }
    } else {
        assert(row@ =~= head + Seq::<u8>::empty());
    }
    row
}

/// The output for shown line `i`.
fn line_block_bytes(
    src: &[u8],
    lines: &Vec<(usize, usize)>,
    g: &Geometry,
    scheme: &ColorScheme,
    options: &CodeFrameOptions,
    i: usize,
    Ghost(lay): Ghost<FrameLayout>,
    Ghost(colored): Ghost<bool>,
) -> (block: Vec<u8>)
    requires
        src@.len() <= isize::MAX,
        lines_of(src@, lines@, lay.lines),
        g.matches(lay),
        g.sane(lines@.len() as int),
        scheme.is_scheme(colored),
        g.first <= i < g.last,
    ensures
        block@ == line_block(lay, colored, message_bytes(*options), i as int),
        valid_utf8(block@),
{
    let (mut block, byte_offset) = code_row_bytes(
        src,
        lines,
        g,
        scheme,
        i,
        Ghost(lay),
        Ghost(colored),
    );
    let ghost row = block@;
    if g.start_idx <= i && i <= g.end_idx && g.start_column.is_some() {
        let marker = marker_row_bytes(
            src,
            lines,
            g,
            scheme,
            options,
            i,
            byte_offset,
            Ghost(lay),
            Ghost(colored),
        );
        push_all(&mut block, &marker);
    } else {
        assert(block@ =~= row + Seq::<u8>::empty());
    }
    block
}

/// Joining one more piece adds a newline and the piece.
proof fn lemma_join_push(parts: Seq<Seq<u8>>, m: int)
    requires
        0 <= m < parts.len(),
    ensures
        join_with_newlines(parts.subrange(0, m + 1)) == if m == 0 {
            parts[0]
        } else {
            join_with_newlines(parts.subrange(0, m)) + seq![NEWLINE] + parts[m]
        },
{
    let p = parts.subrange(0, m + 1);
    assert(p.drop_last() =~= parts.subrange(0, m));
}

/// How a frame turns out before its rows are drawn.
enum Outcome {
    /// Nothing to show.
    Empty,
    /// The location or width rules out a frame.
    Failed(RenderError),
    /// The rendering arithmetic would leave `usize`.
    Overflow,
    /// A frame with this geometry.
    Frame(Geometry),
}

/// The geometry of the frame, or why there is none.
fn compute_geometry(
    src: &[u8],
    lines: &Vec<(usize, usize)>,
    location: &CodeFrameLocation,
    options: &CodeFrameOptions,
    terminal_width: usize,
    Ghost(lay): Ghost<FrameLayout>,
) -> (r: Outcome)
    requires
        src@.len() > 0,
        lines_of(src@, lines@, lay.lines),
        lay == frame_layout(src@, *location, *options, terminal_width),
    ensures
        r is Overflow <==> !arithmetic_fits(src@, *location, *options, terminal_width),
        !(r is Overflow) ==> {
            &&& lay.start_idx >= lay.lines.len() ==> r is Empty
            &&& lay.start_idx < lay.lines.len() && lay.end_idx < lay.start_idx ==> r
                == Outcome::Failed(
                RenderError::EndBeforeStart {
                    end_line: lay.end_idx as usize,
                    start_line: lay.start_idx as usize,
                },
            )
            &&& lay.start_idx < lay.lines.len() && lay.end_idx >= lay.start_idx && lay.available
                == 0 ==> r == Outcome::Failed(
                RenderError::WidthTooSmall { max_width: lay.max_width as usize },
            )
            &&& lay.start_idx < lay.lines.len() && lay.end_idx >= lay.start_idx && lay.available
                > 0 ==> (r matches Outcome::Frame(g) && g.matches(lay) && g.sane(
                lines@.len() as int,
            ))
        },
{
    proof {
        lemma_split_nonempty(src@);
    }
    let n = lines.len();
    let start_idx = if location.start.line >= 1 { location.start.line - 1 } else { 0 };
    if start_idx >= n {
        return Outcome::Empty;
    }
    let end_idx = match location.end {
        Some(l) => {
            let e = if l.line >= 1 { l.line - 1 } else { 0 };
            if e <= n - 1 { e } else { n - 1 }
        },
        None => start_idx,
    };
    if end_idx < start_idx {
        return Outcome::Failed(RenderError::EndBeforeStart { end_line: end_idx, start_line: start_idx });
    }
    let start_column = location.start.column;
    let given_end = match location.end {
        Some(l) => l.column,
        None => None,
    };
    let next_column = match start_column {
        Some(c) => match c.checked_add(1) {
            Some(d) => Some(d),
            None => return Outcome::Overflow,
        },
        None => None,
    };
    let end_column = match given_end {
        Some(c) => Some(c),
        None => next_column,
    };
    let first = if start_idx >= options.lines_above { start_idx - options.lines_above } else { 0 };
    let window_end = match end_idx.checked_add(options.lines_below) {
        Some(v) => match v.checked_add(1) {
            Some(w) => w,
            None => return Outcome::Overflow,
        },
        None => return Outcome::Overflow,
    };
    let last = if window_end <= n { window_end } else { n };
    let gutter_width = num_digits(last);
    let max_width = match options.max_width {
        Some(w) => w,
        None => terminal_width,
    };
    let gutter_total_width = gutter_width + GUTTER_DECORATION;
    let available = if max_width >= gutter_total_width { max_width - gutter_total_width } else { 0 };
    if available == 0 {
        return Outcome::Failed(RenderError::WidthTooSmall { max_width });
    }
    let sc0 = match start_column {
        Some(c) => c,
        None => 0,
    };
    let ec0 = match end_column {
        Some(c) => c,
        None => 0,
    };
    proof {
        assert(lay.lines =~= ranges_to_lines(src@, lines@)) by {
            assert forall|k: int| 0 <= k < lines@.len() implies lay.lines[k] == ranges_to_lines(
                src@,
                lines@,
            )[k] by {
                assert(range_matches(src@, lay.lines[k], lines@[k]));
            }
        }
        assert forall|k: int| 0 <= k < lines@.len() implies #[trigger] lines@[k].0 <= lines@[k].1
            <= src@.len() by {
            assert(range_matches(src@, lay.lines[k], lines@[k]));
        }
    }
    let offset = match calculate_truncation_offset(src, lines, first, last, sc0, ec0, available) {
        Some(o) => o,
        None => return Outcome::Overflow,
    };
    Outcome::Frame(
        Geometry {
            start_idx,
            end_idx,
            start_column,
            end_column,
            first,
            last,
            gutter_width,
            available,
            offset,
        },
    )
}

/// The frame for a computed geometry: its sections joined by newlines.
fn render_frame(
    src: &[u8],
    lines: &Vec<(usize, usize)>,
    g: &Geometry,
    options: &CodeFrameOptions,
    Ghost(lay): Ghost<FrameLayout>,
) -> (out: Vec<u8>)
    requires
        src@.len() <= isize::MAX,
        lines_of(src@, lines@, lay.lines),
        g.matches(lay),
        g.sane(lines@.len() as int),
    ensures
        out@ == join_with_newlines(frame_sections(lay, options.force_color, message_bytes(*options))),
        valid_utf8(out@),
{
    let ghost colored = options.force_color;
    let scheme = if options.force_color { ColorScheme::colored() } else { ColorScheme::plain() };
    let ghost msg = message_bytes(*options);
    let ghost sections = frame_sections(lay, colored, msg);
    let ghost blocks = Seq::new(
        (lay.last - lay.first) as nat,
        |k: int| line_block(lay, colored, msg, lay.first + k),
    );
    let first = g.first;
    let last = g.last;
    let mut out: Vec<u8> = Vec::new();
    assert(valid_utf8(out@));
    let mut needs_newline = false;
    match &options.message {
        Some(m) => {
            if g.start_column.is_none() {
                push_repeat(&mut out, SPACE, g.gutter_width + GUTTER_DECORATION);
                push_str(&mut out, scheme.message);
                push_str(&mut out, m.as_str());
                push_str(&mut out, scheme.reset);
                needs_newline = true;
                proof {
                    assert(out@ =~= header_row(lay, colored, msg->0));
                }
            }
        },
        None => {},
    }
    let ghost head_len: int = if needs_newline { 1 } else { 0 };
    proof {
        assert(sections =~= (if head_len == 1 {
            seq![header_row(lay, colored, msg->0)]
        } else {
            Seq::empty()
        }) + blocks);
        if head_len == 1 {
            lemma_join_push(sections, 0);
        }
        assert(sections.subrange(0, 0) =~= Seq::<Seq<u8>>::empty());
    }
    let mut i = first;
    while i < last
        invariant
            first <= i <= last,
            g.first == first,
            g.last == last,
            g.matches(lay),
            g.sane(lines@.len() as int),
            lines_of(src@, lines@, lay.lines),
            scheme.is_scheme(colored),
            colored == options.force_color,
            src@.len() <= isize::MAX,
            msg == message_bytes(*options),
            0 <= head_len <= 1,
            sections.len() == head_len + (last - first),
            forall|j: int|
                first <= j < last ==> sections[head_len + j - first] == #[trigger] line_block(
                    lay,
                    colored,
                    msg,
                    j,
                ),
            needs_newline <==> head_len + (i - first) > 0,
            out@ == join_with_newlines(sections.subrange(0, head_len + (i - first))),
            valid_utf8(out@),
        decreases last - i,
    {
        let block = line_block_bytes(
            src,
            lines,
            g,
            &scheme,
            options,
            i,
            Ghost(lay),
            Ghost(colored),
        );
        let ghost m = head_len + (i - first);
        proof {
            assert(sections[m] == line_block(lay, colored, msg, i as int));
            lemma_join_push(sections, m);
        }
        if needs_newline {
            push_ascii(&mut out, NEWLINE);
        }
        push_all(&mut out, &block);
        proof {
            if m == 0 {
                assert(out@ =~= block@);
            }
        }
        needs_newline = true;
        i = i + 1;
    }
    proof {
        assert(sections.subrange(0, head_len + (last - first)) =~= sections);
    }
    out
}

/// Renders a code frame, or gives `None` on the inputs where the rendering
/// arithmetic would leave `usize` (see `arithmetic_fits`).
///
/// `terminal_width` is the width used when `options.max_width` is `None`.
pub fn try_render_code_frame(
    source: &str,
    location: &CodeFrameLocation,
    options: &CodeFrameOptions,
    terminal_width: usize,
) -> (r: Option<Result<String, RenderError>>)
    requires
        source.spec_bytes().len() <= isize::MAX,
    ensures
        r is None <==> !arithmetic_fits(source.spec_bytes(), *location, *options, terminal_width),
        r matches Some(res) ==> match render_spec(
            source.spec_bytes(),
            *location,
            *options,
            terminal_width,
        ) {
            Ok(b) => res matches Ok(s) && encode_utf8(s@) == b,
            Err(e) => res == Err::<String, RenderError>(e),
        },
{
    let ghost lay = frame_layout(source.spec_bytes(), *location, *options, terminal_width);
    let src = source.as_bytes();
    proof {
        encode_utf8_valid_utf8(source@);
    }
    if src.len() == 0 {
        let e = String::new();
        proof {
            assert(encode_utf8(e@) =~= Seq::<u8>::empty());
        }
        return Some(Ok(e));
    }
    let lines = split_source_lines(src);
    match compute_geometry(src, &lines, location, options, terminal_width, Ghost(lay)) {
        Outcome::Overflow => None,
        Outcome::Failed(e) => Some(Err(e)),
        Outcome::Empty => {
            let e = String::new();
            proof {
                assert(encode_utf8(e@) =~= Seq::<u8>::empty());
            }
            Some(Ok(e))
        },
        Outcome::Frame(g) => {
            let out = render_frame(src, &lines, &g, options, Ghost(lay));
            Some(Ok(utf8_to_string(out)))
        },
    }
}

/// Renders a code frame showing the location of an error in source code.
///
/// `terminal_width` is the width used when `options.max_width` is `None`.
pub fn render_code_frame(
    source: &str,
    location: &CodeFrameLocation,
    options: &CodeFrameOptions,
    terminal_width: usize,
) -> (res: Result<String, RenderError>)
    requires
        source.spec_bytes().len() <= isize::MAX,
        arithmetic_fits(source.spec_bytes(), *location, *options, terminal_width),
    ensures
        match render_spec(source.spec_bytes(), *location, *options, terminal_width) {
            Ok(b) => res matches Ok(s) && encode_utf8(s@) == b,
            Err(e) => res == Err::<String, RenderError>(e),
        },
{
    match try_render_code_frame(source, location, options, terminal_width) {
        Some(res) => res,
        None => {
            proof {
                assert(false);
            }
            Ok(String::new())
        },
    }
}

} // verus!

