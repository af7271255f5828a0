use caloud::tty_text::fragment::{EscapeSequence, Fragment, FragmentList};

fn new_fragments(data: &[u8], allow_incomplete: bool) -> FragmentList {
    let fragments = FragmentList::parse(data, allow_incomplete);
    assert_eq!(fragments.size(), data.len());
    fragments
}

#[test]
fn fragment_change_icon_name_and_window_title_with_bel_terminator() {
    assert_eq!(
        new_fragments(b"\x1b]0;Test Title\x07", false).into_inner(),
        vec![Fragment::new(
            b"\x1b]0;Test Title\x07".to_vec(),
            Some(EscapeSequence::SetWindowAndIconTitle(b"Test Title".to_vec())),
        )],
    );
}

#[test]
fn fragment_change_icon_name_and_window_title_with_st_terminator() {
    assert_eq!(
        new_fragments(b"\x1b]0;Test Title\x1b\\", false).into_inner(),
        vec![Fragment::new(
            b"\x1b]0;Test Title\x1b\\".to_vec(),
            Some(EscapeSequence::SetWindowAndIconTitle(b"Test Title".to_vec())),
        )],
    );
}

#[test]
fn fragment_change_icon_name_and_window_title_with_empty_string() {
    assert_eq!(
        new_fragments(b"\x1b]0;\x1b\\", false).into_inner(),
        vec![Fragment::new(
            b"\x1b]0;\x1b\\".to_vec(),
            Some(EscapeSequence::SetWindowAndIconTitle(b"".to_vec())),
        )],
    );
}

#[test]
fn show_desktop_notification_with_bel_terminator() {
    assert_eq!(
        new_fragments(b"\x1b]777;notify;Title;Body\x07", false).into_inner(),
        vec![Fragment::new(
            b"\x1b]777;notify;Title;Body\x07".to_vec(),
            Some(EscapeSequence::ShowDesktopNotification(
                b"Title".to_vec(),
                b"Body".to_vec()
            )),
        )],
    );
}

#[test]
fn show_desktop_notification_without_separator() {
    assert_eq!(
        new_fragments(b"\x1b]777;notify;NoSeparator\x07", false).into_inner(),
        vec![Fragment::new(
            b"\x1b]777;notify;NoSeparator\x07".to_vec(),
            Some(EscapeSequence::Other),
        )],
    );
}

#[test]
fn allowed_incomplete_escape_sequence() {
    let data = b"Test Text\x1b]0;Test";
    let fragments = FragmentList::parse(data, true);
    assert_eq!(fragments.size(), data.len());
    assert_eq!(
        fragments.into_inner(),
        vec![
            Fragment::new(b"Test Text".to_vec(), None),
            Fragment::new(b"\x1b]0;Test".to_vec(), Some(EscapeSequence::Incomplete)),
        ],
    );
}

#[test]
fn disallowed_incomplete_escape_sequence() {
    let data = b"Test Text\x1b]0;Test";
    let fragments = FragmentList::parse(data, false);
    assert_eq!(
        fragments.size(),
        data.iter().position(|&b| b == b'\x1b').unwrap_or(0),
    );
    assert_eq!(
        fragments.into_inner(),
        vec![Fragment::new(b"Test Text".to_vec(), None)]
    );
}

#[test]
fn fragment_other_escape_sequence() {
    assert_eq!(
        new_fragments(b"\x1b]4;0;#000000\x1b\\", false).into_inner(),
        vec![Fragment::new(
            b"\x1b]4;0;#000000\x1b\\".to_vec(),
            Some(EscapeSequence::Other)
        )],
    );
}

#[test]
fn end_synchronized_update_and_show_cursor() {
    assert_eq!(
        new_fragments(b"\x1b[?2026l\x1b[?25h", false).into_inner(),
        vec![
            Fragment::new(b"\x1b[?2026l".to_vec(), Some(EscapeSequence::EndSynchronizedUpdate)),
            Fragment::new(b"\x1b[?25h".to_vec(), Some(EscapeSequence::ShowCursor)),
        ],
    );
}

#[test]
fn plain_text_is_cut_after_newlines() {
    assert_eq!(
        new_fragments(b"one\ntwo\nthree", false).into_inner(),
        vec![
            Fragment::new(b"one\n".to_vec(), None),
            Fragment::new(b"two\n".to_vec(), None),
            Fragment::new(b"three".to_vec(), None),
        ],
    );
}

#[test]
fn two_byte_escape_is_other() {
    assert_eq!(
        new_fragments(b"\x1bMx", false).into_inner(),
        vec![
            Fragment::new(b"\x1bM".to_vec(), Some(EscapeSequence::Other)),
            Fragment::new(b"x".to_vec(), None),
        ],
    );
}

#[test]
fn concatenated_fragment_data_reproduces_the_input() {
    let data = b"plain\n\x1b[31mred\x1b]0;t\x07tail";
    let fragments = FragmentList::parse(data, true);
    let rebuilt: Vec<u8> = fragments
        .into_inner()
        .iter()
        .flat_map(|f| f.data().to_vec())
        .collect();
    assert_eq!(rebuilt, data.to_vec());
}
