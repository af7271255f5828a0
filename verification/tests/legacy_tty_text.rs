use caloud::tty_text::{Buffer, Fragment, Osc};

#[test]
fn tty_text_change_icon_name_and_window_title_with_bel_terminator() {
    let mut buffer = Buffer::<1024>::new();
    buffer.extend_from_read(&b"\x1b]0;Test Title\x07"[..]);
    assert_eq!(
        buffer.drain().into_fragments(),
        vec![Fragment::new(
            b"\x1b]0;Test Title\x07".to_vec(),
            Some(Osc::ChangeIconNameAndWindowTitle(b"Test Title".to_vec())),
        )]
    );
}

#[test]
fn tty_text_change_icon_name_and_window_title_with_st_terminator() {
    let mut buffer = Buffer::<1024>::new();
    buffer.extend_from_read(&b"\x1b]0;Test Title\x1b\\"[..]);
    assert_eq!(
        buffer.drain().into_fragments(),
        vec![Fragment::new(
            b"\x1b]0;Test Title\x1b\\".to_vec(),
            Some(Osc::ChangeIconNameAndWindowTitle(b"Test Title".to_vec())),
        )]
    );
}

#[test]
fn tty_text_change_icon_name_and_window_title_with_empty_string() {
    let mut buffer = Buffer::<1024>::new();
    buffer.extend_from_read(&b"\x1b]0;\x1b\\"[..]);
    assert_eq!(
        buffer.drain().into_fragments(),
        vec![Fragment::new(
            b"\x1b]0;\x1b\\".to_vec(),
            Some(Osc::ChangeIconNameAndWindowTitle(b"".to_vec())),
        )]
    );
}

#[test]
fn post_notification_with_bel_terminator() {
    let mut buffer = Buffer::<1024>::new();
    buffer.extend_from_read(&b"\x1b]9;Test Message\x07"[..]);
    assert_eq!(
        buffer.drain().into_fragments(),
        vec![Fragment::new(
            b"\x1b]9;Test Message\x07".to_vec(),
            Some(Osc::PostNotification(b"Test Message".to_vec())),
        )]
    );
}

#[test]
fn divided_escape_sequence() {
    let mut buffer = Buffer::<1024>::new();
    buffer.extend_from_read(&b"Test Text\x1b]0;Test"[..]);
    assert_eq!(
        buffer.drain().into_fragments(),
        vec![Fragment::new(b"Test Text".to_vec(), None)],
    );
    buffer.extend_from_read(&b" Title\x07"[..]);
    assert_eq!(
        buffer.drain().into_fragments(),
        vec![Fragment::new(
            b"\x1b]0;Test Title\x07".to_vec(),
            Some(Osc::ChangeIconNameAndWindowTitle(b"Test Title".to_vec())),
        )]
    );
}

#[test]
fn incomplete_escape_sequence() {
    let mut buffer = Buffer::<17>::new();
    buffer.extend_from_read(&b"Test Text\x1b]0;Test"[..]);
    assert!(buffer.is_full());
    assert_eq!(
        buffer.drain().into_fragments(),
        vec![
            Fragment::new(b"Test Text".to_vec(), None),
            Fragment::new(b"\x1b]0;Test".to_vec(), Some(Osc::Incomplete)),
        ],
    );
    buffer.extend_from_read(&b" Title\x07"[..]);
    assert_eq!(
        buffer.drain().into_fragments(),
        vec![Fragment::new(b" Title\x07".to_vec(), None)]
    );
}

#[test]
fn tty_text_other_escape_sequence() {
    let mut buffer = Buffer::<1024>::new();
    buffer.extend_from_read(&b"\x1b]4;0;#000000\x1b\\"[..]);
    assert_eq!(
        buffer.drain().into_fragments(),
        vec![Fragment::new(b"\x1b]4;0;#000000\x1b\\".to_vec(), Some(Osc::Other))],
    );
}

#[test]
fn adjust_line_wrapping_for_long_url() {
    let mut buffer = Buffer::<1024>::new();
    let mut data = Vec::new();
    data.extend_from_slice(b"\x1b[38;5;231m\xE2\x8F\xBA\x1b[39m \x1b[38;5;153mURL: https://example.c");
    data.extend_from_slice(b"\r\n");
    data.extend_from_slice(b"  om/long/long/path/to/re");
    data.extend_from_slice(b"\r\n");
    data.extend_from_slice(b"  source and some more text.");
    buffer.extend_from_read(data.as_slice());
    assert_eq!(
        buffer.drain().adjust_line_wrapping(),
        vec![
            Fragment::new(
                b"\x1b[38;5;231m\xE2\x8F\xBA\x1b[39m \x1b[38;5;153mURL: https://".to_vec(),
                None
            ),
            Fragment::new(b"example.c".to_vec(), None),
            Fragment::new(b"om/long/long/path/to/re".to_vec(), None),
            Fragment::new(b"source".to_vec(), None),
            Fragment::new(b"\r\n  ".to_vec(), None),
            Fragment::new(b" and some more text.".to_vec(), None),
        ]
    );
}

#[test]
fn adjust_line_wrapping_for_unordered_list() {
    let mut buffer = Buffer::<1024>::new();
    let parts: Vec<&[u8]> = vec![
        b"  - https://example.c",
        b"  om/1",
        b"  - https://example.c",
        b"  om/2",
        b"  -",
        b"  https://example.c",
        b"  om/3",
        b"  - https://example.c",
        b"  om/4",
        b"  ",
        b"  some more text",
    ];
    let mut data = Vec::new();
    for (i, part) in parts.iter().enumerate() {
        if i > 0 {
            data.extend_from_slice(b"\r\n");
        }
        data.extend_from_slice(part);
    }
    buffer.extend_from_read(data.as_slice());
    let adjusted: Vec<u8> = buffer
        .drain()
        .adjust_line_wrapping()
        .iter()
        .flat_map(|f| f.data().to_vec())
        .collect();
    let expected_parts: Vec<&[u8]> = vec![
        b"  - https://example.com/1",
        b"  - https://example.com/2",
        b"  -",
        b"  https://example.com/3",
        b"  - https://example.com/4",
        b"  ",
        b"  some more text",
    ];
    let mut expected = Vec::new();
    for (i, part) in expected_parts.iter().enumerate() {
        if i > 0 {
            expected.extend_from_slice(b"\r\n");
        }
        expected.extend_from_slice(part);
    }
    assert_eq!(
        String::from_utf8_lossy(&adjusted),
        String::from_utf8_lossy(&expected),
    );
}
