use embed_trait_info::position::{position_in_string, PositionError};

#[test]
fn first_line_first_column() {
    assert_eq!(position_in_string("abc\ndef\n", (1, 0)), Ok(0));
}

#[test]
fn offset_on_later_lines() {
    let text = "abc\ndef\nghij";
    assert_eq!(position_in_string(text, (2, 0)), Ok(4));
    assert_eq!(position_in_string(text, (2, 2)), Ok(6));
    assert_eq!(position_in_string(text, (3, 3)), Ok(11));
    assert_eq!(&text[11..], "j");
}

#[test]
fn offset_begins_at_requested_location() {
    let text = "//! doc\nmod a;\n\npub struct S;\n";
    let off = position_in_string(text, (4, 4)).unwrap();
    assert!(text[off..].starts_with("struct S;"));
}

#[test]
fn column_at_end_of_line() {
    assert_eq!(position_in_string("abc\ndef", (1, 3)), Ok(3));
    assert_eq!(position_in_string("abc\ndef", (2, 3)), Ok(7));
}

#[test]
fn empty_last_line() {
    assert_eq!(position_in_string("abc\n", (2, 0)), Ok(4));
    assert_eq!(position_in_string("", (1, 0)), Ok(0));
}

#[test]
fn column_is_counted_in_bytes() {
    let text = "é = 1;\nx";
    assert_eq!(position_in_string(text, (1, 2)), Ok(2));
    assert_eq!(&text[2..3], " ");
}

#[test]
fn line_beyond_text() {
    assert_eq!(
        position_in_string("abc\ndef", (3, 0)),
        Err(PositionError::LineOutOfRange)
    );
    assert_eq!(
        position_in_string("", (2, 0)),
        Err(PositionError::LineOutOfRange)
    );
}

#[test]
fn line_zero() {
    assert_eq!(
        position_in_string("abc", (0, 0)),
        Err(PositionError::LineOutOfRange)
    );
}

#[test]
fn column_beyond_line() {
    assert_eq!(
        position_in_string("abc\ndef", (1, 4)),
        Err(PositionError::ColumnOutOfRange)
    );
    assert_eq!(
        position_in_string("abc\nde\nfgh", (2, 3)),
        Err(PositionError::ColumnOutOfRange)
    );
}
