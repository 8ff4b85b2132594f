# next_code_frame

Renders a *code frame*: a window of source lines around an error location,
with a gutter of line numbers, a `>` on the error lines, a row of carets
under the marked columns, and an optional message. Long lines are scrolled
horizontally, with `...` where they are cut, so that the marked range stays
in view; where the width is too narrow for whole ellipses they are
shortened, so that no row is wider than the maximum width.

Columns are 1-indexed byte offsets and half-open, `[start, end)`; the end
line is inclusive. The carets sit under the marked bytes as they are shown,
scrolled or not. On a range over several lines the first line is marked from
the start column to its end, the lines between in full, and the last line
up to the end column.

The library in `src/` is verified with Verus:

- `bytes.rs` – UTF-8 validity of slices cut at character boundaries, and an
  output buffer that stays valid UTF-8.
- `lines.rs` – splitting a source into lines (`\n`, with `\r\n` endings).
- `truncate.rs` – character-boundary snapping, line truncation, and the
  shared scroll offset of a window.
- `marker.rs` – where the carets go.
- `num.rs` – decimal digits and right alignment.
- `position.rs` – reading `line:column` positions.
- `frame.rs` – the frame layout as spec functions, and the renderer whose
  output is proved equal to it.
- `laws.rs` – properties of truncation, caret placement and positions that
  hold for every input.
- `frame_laws.rs` – properties of whole frames: every row fits the width
  (in bytes without color; in terminal columns with or without color) and
  where the message goes.
- `shown_width.rs` – the columns a terminal gives a row: escape sequences
  take none.
- `line_endings.rs` – `\r\n` sources render as `\n` sources.

`app/` holds the command-line front end, the terminal width (`COLUMNS`, or
80 columns when it is unset or unreadable), and copies of the option types
that serde can read.

Not provided: syntax highlighting and a language choice. The renderer shows
source text uncolored; `highlight_code` is kept as an option but changes
nothing, and there is no `Language` type. The ANSI styles of the colored
output (bold red markers and message, grey gutter) are this crate's own
choice.
