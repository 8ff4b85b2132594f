use next_code_frame::{parse_position, Location};

#[test]
fn parses_line_and_column() {
    assert_eq!(parse_position("10:5"), Some(Location { line: 10, column: Some(5) }));
}

#[test]
fn plus_sign_is_accepted() {
    assert_eq!(parse_position("+3:+4"), Some(Location { line: 3, column: Some(4) }));
}

#[test]
fn rejects_malformed_positions() {
    assert_eq!(parse_position("10"), None);
    assert_eq!(parse_position(""), None);
    assert_eq!(parse_position(":5"), None);
    assert_eq!(parse_position("5:"), None);
    assert_eq!(parse_position("a:5"), None);
    assert_eq!(parse_position("3:4:5"), None);
    assert_eq!(parse_position("-3:4"), None);
    assert_eq!(parse_position("+:4"), None);
    assert_eq!(parse_position(" 3:4"), None);
}

#[test]
fn rejects_overflowing_numbers() {
    assert_eq!(parse_position("18446744073709551616:1"), None);
    assert_eq!(
        parse_position("18446744073709551615:0"),
        Some(Location { line: 18446744073709551615, column: Some(0) })
    );
}

#[test]
fn position_roundtrip() {
    for (l, c) in [(1usize, 1usize), (42, 7), (100000, 123456789)] {
        assert_eq!(parse_position(&format!("{}:{}", l, c)), Some(Location { line: l, column: Some(c) }));
    }
}
