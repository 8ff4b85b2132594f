use next_code_frame::frame::{try_render_code_frame, RenderError};
use next_code_frame::{render_code_frame, CodeFrameLocation, CodeFrameOptions, Location};

fn plain(width: usize) -> CodeFrameOptions {
    CodeFrameOptions {
        lines_above: 2,
        lines_below: 3,
        force_color: false,
        highlight_code: false,
        message: None,
        max_width: Some(width),
    }
}

fn at(line: usize, column: Option<usize>) -> CodeFrameLocation {
    CodeFrameLocation { start: Location { line, column }, end: None }
}

fn span(l1: usize, c1: usize, l2: usize, c2: usize) -> CodeFrameLocation {
    CodeFrameLocation {
        start: Location { line: l1, column: Some(c1) },
        end: Some(Location { line: l2, column: Some(c2) }),
    }
}

#[test]
fn single_column_marker() {
    let src = "let a = 1;\nlet b = 2;\nlet c = 3;";
    let out = render_code_frame(src, &at(2, Some(5)), &plain(80), 80).unwrap();
    assert_eq!(out, "  1 | let a = 1;\n> 2 | let b = 2;\n    |     ^\n  3 | let c = 3;");
}

#[test]
fn no_column_shows_no_carets() {
    let src = "one\ntwo\nthree";
    let out = render_code_frame(src, &at(2, None), &plain(80), 80).unwrap();
    assert_eq!(out, "  1 | one\n> 2 | two\n  3 | three");
}

#[test]
fn message_without_column_is_a_header() {
    let src = "one\ntwo";
    let mut opts = plain(80);
    opts.message = Some("boom".to_string());
    let out = render_code_frame(src, &at(1, None), &opts, 80).unwrap();
    assert_eq!(out, "      boom\n> 1 | one\n  2 | two");
}

#[test]
fn message_follows_carets_on_last_error_line() {
    let src = "aaaa\nbbbb\ncccc\ndddd";
    let opts = CodeFrameOptions {
        lines_above: 0,
        lines_below: 0,
        force_color: false,
        highlight_code: false,
        message: Some("oops".to_string()),
        max_width: Some(80),
    };
    let out = render_code_frame(src, &span(2, 2, 3, 3), &opts, 80).unwrap();
    assert_eq!(out, "> 2 | bbbb\n    |  ^^^\n> 3 | cccc\n    | ^^ oops");
}

#[test]
fn half_open_range_on_one_line() {
    let src = "0123456789";
    let out = render_code_frame(src, &span(1, 3, 1, 7), &plain(80), 80).unwrap();
    assert_eq!(out, "> 1 | 0123456789\n    |   ^^^^");
}

#[test]
fn window_is_clipped_to_lines_above_and_below() {
    let src = "1\n2\n3\n4\n5\n6\n7\n8\n9\n10\n11\n12";
    let opts = CodeFrameOptions {
        lines_above: 1,
        lines_below: 1,
        force_color: false,
        highlight_code: false,
        message: None,
        max_width: Some(80),
    };
    let out = render_code_frame(src, &at(9, None), &opts, 80).unwrap();
    assert_eq!(out, "   8 | 8\n>  9 | 9\n  10 | 10");
}

#[test]
fn empty_source_renders_nothing() {
    assert_eq!(render_code_frame("", &at(1, Some(1)), &plain(80), 80).unwrap(), "");
}

#[test]
fn start_line_past_end_renders_nothing() {
    assert_eq!(render_code_frame("a\nb", &at(7, Some(1)), &plain(80), 80).unwrap(), "");
}

#[test]
fn end_before_start_is_an_error() {
    let loc = CodeFrameLocation {
        start: Location { line: 3, column: None },
        end: Some(Location { line: 1, column: None }),
    };
    let err = render_code_frame("a\nb\nc", &loc, &plain(80), 80).unwrap_err();
    assert_eq!(err, RenderError::EndBeforeStart { end_line: 0, start_line: 2 });
    assert_eq!(err.message(), "source location invalid end_line 0 < 2");
}

#[test]
fn width_too_small_is_an_error() {
    let err = render_code_frame("a", &at(1, Some(1)), &plain(6), 80).unwrap_err();
    assert_eq!(err, RenderError::WidthTooSmall { max_width: 6 });
    assert_eq!(err.message(), "max_width 6 too small to render a code frame");
}

#[test]
fn terminal_width_used_without_max_width() {
    let mut opts = plain(80);
    opts.max_width = None;
    let err = render_code_frame("a", &at(1, Some(1)), &opts, 3).unwrap_err();
    assert_eq!(err, RenderError::WidthTooSmall { max_width: 3 });
    let ok = render_code_frame("a", &at(1, Some(1)), &opts, 7).unwrap();
    assert_eq!(ok, "> 1 | a\n    | ^");
}

#[test]
fn end_line_is_clamped_to_the_source() {
    let loc = CodeFrameLocation {
        start: Location { line: 2, column: None },
        end: Some(Location { line: 99, column: None }),
    };
    let out = render_code_frame("a\nb\nc", &loc, &plain(80), 80).unwrap();
    assert_eq!(out, "  1 | a\n> 2 | b\n> 3 | c");
}

#[test]
fn crlf_line_endings_are_stripped() {
    let out = render_code_frame("a\r\nb\r\n", &at(2, Some(1)), &plain(80), 80).unwrap();
    assert_eq!(out, "  1 | a\n> 2 | b\n    | ^\n  3 |");
}

#[test]
fn trailing_newline_gives_empty_last_line() {
    let out = render_code_frame("x\n", &at(2, None), &plain(80), 80).unwrap();
    assert_eq!(out, "  1 | x\n> 2 |");
}

#[test]
fn long_line_is_scrolled_to_the_marker() {
    let src = "abcdefghijklmnopqrstuvwxyz";
    let out = render_code_frame(src, &at(1, Some(20)), &plain(20), 80).unwrap();
    assert_eq!(out, "> 1 | ...pqrstuvwxyz\n    |        ^");
}

#[test]
fn long_line_gets_both_ellipses() {
    let src = "abcdefghijklmnopqrstuvwxyz0123456789";
    let out = render_code_frame(src, &at(1, Some(20)), &plain(20), 80).unwrap();
    assert_eq!(out, "> 1 | ...pqrstuvw...\n    |        ^");
}

#[test]
fn scrolling_never_splits_a_character() {
    let src = "αβγδεζηθικλμνξοπ";
    let out = render_code_frame(src, &at(1, Some(22)), &plain(20), 80).unwrap();
    assert_eq!(out, "> 1 | ...κλμν...\n    |       ^");
}

#[test]
fn short_lines_are_not_scrolled() {
    let src = "short\nabcdefghijklmnopqrstuvwxyz";
    let out = render_code_frame(src, &at(1, Some(2)), &plain(80), 80).unwrap();
    assert_eq!(out, "> 1 | short\n    |  ^\n  2 | abcdefghijklmnopqrstuvwxyz");
}

#[test]
fn colored_output_uses_ansi_styles() {
    let opts = CodeFrameOptions {
        lines_above: 0,
        lines_below: 0,
        force_color: true,
        highlight_code: false,
        message: None,
        max_width: Some(80),
    };
    let out = render_code_frame("x", &at(1, Some(1)), &opts, 80).unwrap();
    assert_eq!(
        out,
        "\x1b[31m\x1b[1m>\x1b[0m \x1b[90m1 |\x1b[0m x\n  \x1b[90m  |\x1b[0m \x1b[31m\x1b[1m^\x1b[0m"
    );
}

#[test]
fn non_ascii_source_is_kept() {
    let out = render_code_frame("héllo → wörld", &at(1, None), &plain(80), 80).unwrap();
    assert_eq!(out, "> 1 | héllo → wörld");
}

#[test]
fn default_options() {
    let o = CodeFrameOptions::default();
    assert_eq!(o.lines_above, 2);
    assert_eq!(o.lines_below, 3);
    assert!(o.force_color);
    assert!(o.highlight_code);
    assert!(o.message.is_none());
    assert!(o.max_width.is_none());
}

#[test]
fn output_has_no_trailing_newline() {
    let src = "a\nb\n\n";
    let mut opts = plain(80);
    opts.message = Some("m".to_string());
    let out = render_code_frame(src, &at(4, Some(1)), &opts, 80).unwrap();
    assert!(!out.ends_with('\n'));
    assert_eq!(out, "  2 | b\n  3 |\n> 4 |\n    | ^ m");
}

#[test]
fn overflowing_arithmetic_is_reported() {
    let opts = CodeFrameOptions {
        lines_above: 0,
        lines_below: usize::MAX,
        force_color: false,
        highlight_code: false,
        message: None,
        max_width: Some(80),
    };
    assert!(try_render_code_frame("a", &at(1, None), &opts, 80).is_none());
    assert!(try_render_code_frame("a", &at(1, Some(usize::MAX)), &plain(80), 80).is_none());
    assert_eq!(
        try_render_code_frame("a", &at(1, Some(1)), &plain(80), 80),
        Some(Ok("> 1 | a\n    | ^".to_string()))
    );
}

#[test]
fn overflowing_start_column_is_reported_before_the_width() {
    // the column after the start column is computed before the width is checked
    let loc = CodeFrameLocation {
        start: Location { line: 1, column: Some(usize::MAX) },
        end: Some(Location { line: 1, column: Some(3) }),
    };
    assert!(try_render_code_frame("a", &loc, &plain(6), 80).is_none());
}

#[test]
fn scrolled_caret_sits_under_its_byte() {
    let out = render_code_frame("0123456789ABCDEFGHIJ", &at(1, Some(15)), &plain(16), 80).unwrap();
    assert_eq!(out, "> 1 | ...CDEF...\n    |      ^");
}

#[test]
fn narrow_width_shortens_the_ellipsis() {
    let out = render_code_frame("abcdefghij", &at(1, Some(1)), &plain(8), 80).unwrap();
    assert_eq!(out, "> 1 | ..\n    | ^");
}

#[test]
fn rows_never_exceed_the_width() {
    let src = "fn main() {\n    let value = some_function_with_a_long_name(argument_one, argument_two);\n}\n";
    for w in 7..90 {
        for col in 1..80 {
            let loc = span(2, col, 2, col + 5);
            let out = render_code_frame(src, &loc, &plain(w), 80).unwrap();
            for row in out.split('\n') {
                assert!(row.len() <= w, "w={} col={} row={:?}", w, col, row);
            }
        }
    }
}

#[test]
fn middle_lines_are_marked_in_full() {
    let src = "abcd\nefgh\nijkl";
    let opts = CodeFrameOptions {
        lines_above: 0,
        lines_below: 0,
        force_color: false,
        highlight_code: false,
        message: None,
        max_width: Some(80),
    };
    let out = render_code_frame(src, &span(1, 3, 3, 2), &opts, 80).unwrap();
    assert_eq!(out, "> 1 | abcd\n    |   ^^\n> 2 | efgh\n    | ^^^^\n> 3 | ijkl\n    | ^");
}

#[test]
fn crlf_and_lf_sources_render_alike() {
    let loc = span(1, 2, 2, 2);
    let a = render_code_frame("ab\r\ncd\r\nef", &loc, &plain(80), 80).unwrap();
    let b = render_code_frame("ab\ncd\nef", &loc, &plain(80), 80).unwrap();
    assert_eq!(a, b);
}

#[test]
fn only_one_carriage_return_is_stripped() {
    let out = render_code_frame("a\r\r\nb", &at(1, None), &plain(80), 80).unwrap();
    assert_eq!(out, "> 1 | a\r\n  2 | b");
}

#[test]
fn message_follows_the_carets_it_belongs_to() {
    let src = "one\ntwo\nthree";
    let mut opts = plain(80);
    let base = render_code_frame(src, &at(2, Some(2)), &opts, 80).unwrap();
    opts.message = Some("here".to_string());
    let out = render_code_frame(src, &at(2, Some(2)), &opts, 80).unwrap();
    assert_eq!(base, "  1 | one\n> 2 | two\n    |  ^\n  3 | three");
    assert_eq!(out, "  1 | one\n> 2 | two\n    |  ^ here\n  3 | three");
}

fn shown_width(row: &str) -> usize {
    let mut n = 0;
    let mut in_escape = false;
    for b in row.bytes() {
        if in_escape {
            in_escape = b != b'm';
        } else if b == 0x1b {
            in_escape = true;
        } else {
            n += 1;
        }
    }
    n
}

#[test]
fn colored_rows_never_exceed_the_width() {
    let src = "fn main() {\n    let value = some_function_with_a_long_name(argument_one, argument_two);\n}\n";
    for w in 7..90 {
        for col in 1..80 {
            let mut opts = plain(w);
            opts.force_color = true;
            let out = render_code_frame(src, &span(2, col, 2, col + 5), &opts, 80).unwrap();
            for row in out.split('\n') {
                assert!(shown_width(row) <= w, "w={} col={} row={:?}", w, col, row);
            }
        }
    }
}

#[test]
fn crlf_outside_the_window_does_not_matter() {
    let opts = CodeFrameOptions {
        lines_above: 0,
        lines_below: 0,
        force_color: false,
        highlight_code: false,
        message: None,
        max_width: Some(80),
    };
    let src = "x\r\r\na\r\nbc\r\n";
    let a = render_code_frame(src, &at(3, Some(2)), &opts, 80).unwrap();
    let b = render_code_frame(&src.replace("\r\n", "\n"), &at(3, Some(2)), &opts, 80).unwrap();
    assert_eq!(a, b);
    assert_eq!(a, "> 3 | bc\n    |  ^");
}
