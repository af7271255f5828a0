use caloud::tty_text::fragment::FragmentList;
use caloud::tty_text::line_wrapping::adjust_line_wrapping;

fn make_adjusted_string(data: &[u8], terminal_width: u16) -> String {
    let mut fragments = FragmentList::parse(data, false).into_inner();
    adjust_line_wrapping(&mut fragments, false, terminal_width);
    String::from_utf8(
        fragments
            .into_iter()
            .flat_map(|f| f.data().to_vec())
            .collect::<Vec<_>>(),
    )
    .unwrap()
}

fn join_lines(parts: &[&[u8]]) -> Vec<u8> {
    let mut data = Vec::new();
    for part in parts {
        data.extend_from_slice(part);
        data.push(b'\n');
    }
    data
}

#[test]
fn normal_text_after_wrapped_url() {
    let input = join_lines(&[
        b"\x1b[38;5;231m\xE2\x8F\xBA\x1b[39m \x1b[38;5;153mURL: https://example.c",
        b"  om/long/long/path/to/r",
        b"  esource and some more",
        b"  text.",
    ]);
    let expected = "\x1b[38;5;231m\u{23FA}\x1b[39m \x1b[38;5;153mURL: https://example.com/long/long/path/to/resource and some more\n  text.\n";
    assert_eq!(make_adjusted_string(&input, 28), expected);
}

#[test]
fn unordered_list() {
    let input = join_lines(&[
        b"\xE2\x8F\xBA unordered list",
        b"",
        b"  - https://example.c",
        b"  om/1",
        b"  - https://example.c",
        b"  om/2",
        b"  -",
        b"  https://example.com",
        b"  - https://example.c",
        b"  om/4",
    ]);
    let expected = "\u{23FA} unordered list\n\n  - https://example.com/1\n  - https://example.com/2\n  -\n  https://example.com\n  - https://example.com/4\n";
    assert_eq!(make_adjusted_string(&input, 25), expected);
}

#[test]
fn wide_characters_measure_one_column_not_three_bytes() {
    // the four U+23FA characters take twelve bytes but only four columns:
    // measured correctly, this line stays well clear of the right edge at
    // width 28, so the indented line after it must not be joined
    let input = join_lines(&[
        "\u{23FA}\u{23FA}\u{23FA}\u{23FA} https://abc".as_bytes(),
        b"  def",
    ]);
    assert_eq!(
        make_adjusted_string(&input, 28).as_bytes(),
        input.as_slice()
    );
}
