use next_code_frame::marker::calculate_marker_position;
use next_code_frame::num::num_digits;
use next_code_frame::truncate::{calculate_truncation_offset, truncate_line};
use next_code_frame::lines::split_source_lines;

#[test]
fn truncated_width_never_exceeds_column() {
    let line = b"abcdefghijklmnopqrstuvwxyz";
    for w in 0..30 {
        for off in 0..30 {
            let t = truncate_line(line, 0, line.len(), off, w);
            assert!(t.visible_content.len() <= w, "w={} off={}", w, off);
        }
    }
}

#[test]
fn fitting_line_is_unchanged() {
    let line = b"hello";
    let t = truncate_line(line, 0, line.len(), 0, 5);
    assert_eq!(t.visible_content, b"hello".to_vec());
    assert_eq!(t.byte_offset, 0);
    assert_eq!(t.prefix_len, 0);
}

#[test]
fn offset_past_the_line_shows_only_an_ellipsis() {
    let line = b"abc";
    let t = truncate_line(line, 0, line.len(), 10, 20);
    assert_eq!(t.visible_content, b"...".to_vec());
    assert_eq!(t.byte_offset, 3);
    assert_eq!(t.prefix_len, 3);
    let t = truncate_line(line, 0, line.len(), 10, 2);
    assert_eq!(t.visible_content, b"..".to_vec());
    assert_eq!(t.prefix_len, 2);
}

#[test]
fn offset_snaps_to_next_character() {
    let line = "aé b".as_bytes(); // 'é' is two bytes at 1..3
    let t = truncate_line(line, 0, line.len(), 2, 20);
    assert_eq!(t.byte_offset, 3);
    assert_eq!(t.visible_content, b"... b".to_vec());
}

#[test]
fn split_into_line_ranges() {
    let src = b"short\nlines";
    let lines = split_source_lines(src);
    assert_eq!(lines, vec![(0, 5), (6, 11)]);
}

#[test]
fn split_keeps_trailing_empty_line_and_strips_cr() {
    let src = b"a\r\nb\n";
    assert_eq!(split_source_lines(src), vec![(0, 1), (3, 4), (5, 5)]);
}

#[test]
fn marker_stays_within_width() {
    // carets cut at the width
    assert_eq!(calculate_marker_position(3, 50, 60, 0, 0, 0, 0, 10), (3, 8));
    // marker past the width gets no caret
    assert_eq!(calculate_marker_position(30, 31, 60, 0, 0, 0, 0, 10), (30, 0));
    // scrolled: byte start - 1 is shown after the ellipsis
    assert_eq!(calculate_marker_position(20, 21, 26, 0, 0, 0, 15, 14), (8, 1));
    // a code area narrower than the ellipsis shortens it and leaves no caret
    assert_eq!(calculate_marker_position(20, 21, 26, 0, 0, 0, 15, 2), (7, 0));
    // before the offset: right after the ellipsis
    assert_eq!(calculate_marker_position(2, 3, 26, 0, 0, 0, 15, 14), (4, 1));
    // first line of a multi-line range runs to the line end
    assert_eq!(calculate_marker_position(2, 3, 4, 1, 1, 2, 0, 74), (2, 3));
    // the last line runs from column 1 to the end column
    assert_eq!(calculate_marker_position(2, 3, 4, 2, 1, 2, 0, 74), (1, 2));
    // a line in between is marked in full
    assert_eq!(calculate_marker_position(2, 3, 10, 2, 1, 3, 0, 74), (1, 10));
}

#[test]
fn digits_of_numbers() {
    assert_eq!(num_digits(0), 1);
    assert_eq!(num_digits(9), 1);
    assert_eq!(num_digits(10), 2);
    assert_eq!(num_digits(12345), 5);
    assert_eq!(num_digits(usize::MAX), 20);
}

#[test]
fn truncation_offset_centres_the_range() {
    let src = b"short\nabcdefghijklmnopqrstuvwxyz";
    let lines = split_source_lines(src);
    // every line fits: no scrolling
    assert_eq!(calculate_truncation_offset(src, &lines, 0, 2, 20, 21, 40), Some(0));
    // no column: no scrolling
    assert_eq!(calculate_truncation_offset(src, &lines, 0, 2, 0, 0, 14), Some(0));
    // midpoint (19 + 20) / 2 = 19, half of 14 - 6 is 4
    assert_eq!(calculate_truncation_offset(src, &lines, 0, 2, 20, 21, 14), Some(15));
    // marked range near the start: offset clamps at 0
    assert_eq!(calculate_truncation_offset(src, &lines, 0, 2, 2, 3, 14), Some(0));
    // centring arithmetic that leaves usize
    assert_eq!(calculate_truncation_offset(src, &lines, 0, 2, usize::MAX, usize::MAX, 14), None);
}

#[test]
fn truncation_shows_only_dots_and_line_bytes() {
    let line = "xyzäöü0123456789".as_bytes();
    for w in 0..20 {
        for off in 0..20 {
            let t = truncate_line(line, 0, line.len(), off, w);
            assert!(std::str::from_utf8(&t.visible_content).is_ok());
            for b in &t.visible_content {
                assert!(*b == b'.' || line.contains(b));
            }
        }
    }
}

#[test]
fn split_then_join_gives_back_the_source() {
    let src = b"a\n\nbc\n";
    let lines = split_source_lines(src);
    let pieces: Vec<&[u8]> = lines.iter().map(|(a, b)| &src[*a..*b]).collect();
    assert_eq!(pieces.join(&b'\n'), src.to_vec());
    assert_eq!(pieces.len(), 4);
}

#[test]
fn later_start_column_never_moves_the_carets_left() {
    for off in [0usize, 15] {
        for a in 1..30usize {
            for b in a..30usize {
                let pa = calculate_marker_position(a, 31, 26, 0, 0, 0, off, 14);
                let pb = calculate_marker_position(b, 31, 26, 0, 0, 0, off, 14);
                assert!(pa.0 <= pb.0, "off={} a={} b={}", off, a, b);
            }
        }
    }
}
