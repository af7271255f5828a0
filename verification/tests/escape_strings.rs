use caloud::input_rewrite::escape::{parse_escaped_str, EscapeError};

#[test]
fn literal_text_passes_through() {
    assert_eq!(parse_escaped_str("hello").unwrap(), b"hello");
}

#[test]
fn named_escapes_denote_single_bytes() {
    assert_eq!(
        parse_escaped_str(r"\\\e\n\r\t").unwrap(),
        vec![0x5c, 0x1b, 0x0a, 0x0d, 0x09]
    );
}

#[test]
fn hex_escapes_in_both_cases() {
    assert_eq!(
        parse_escaped_str(r"\x00\x7f\xAb\xfF").unwrap(),
        vec![0x00, 0x7f, 0xab, 0xff]
    );
}

#[test]
fn multibyte_literals_keep_their_utf8_bytes() {
    assert_eq!(
        parse_escaped_str("\u{23FA}").unwrap(),
        vec![0xe2, 0x8f, 0xba]
    );
}

#[test]
fn trailing_backslash_is_rejected() {
    assert_eq!(
        parse_escaped_str("ab\\"),
        Err(EscapeError::TrailingBackslash { pos: 2 })
    );
}

#[test]
fn unknown_escape_is_rejected() {
    assert_eq!(
        parse_escaped_str(r"a\q"),
        Err(EscapeError::UnknownEscape { pos: 2, ch: 'q' })
    );
}

#[test]
fn truncated_hex_is_rejected() {
    assert_eq!(
        parse_escaped_str(r"\x4"),
        Err(EscapeError::InvalidHex { pos: 0 })
    );
}

#[test]
fn non_hex_digits_are_rejected() {
    assert_eq!(
        parse_escaped_str(r"\xGG:to"),
        Err(EscapeError::InvalidHex { pos: 0 })
    );
}
