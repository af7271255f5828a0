use caloud::say::SayCommand;
use caloud::tty_text::buffer::Buffer;
use caloud::tty_text::fragment::{EscapeSequence, Fragment};
use caloud::tty_text::reformat::{LineWrapMode, Reformatter};

#[test]
fn preserve_mode_hands_fragments_on_unchanged() {
    let mut buffer = Buffer::<1024>::new();
    let reformatter = Reformatter::new(80, LineWrapMode::Preserve);
    buffer.extend_from_read(b"out\n\x1b]777;notify;Title;Body\x07rest");
    let fragments = buffer.read_fragments(&reformatter);
    assert_eq!(
        fragments,
        vec![
            Fragment::new(b"out\n".to_vec(), None),
            Fragment::new(
                b"\x1b]777;notify;Title;Body\x07".to_vec(),
                Some(EscapeSequence::ShowDesktopNotification(
                    b"Title".to_vec(),
                    b"Body".to_vec()
                )),
            ),
            Fragment::new(b"rest".to_vec(), None),
        ]
    );
}

#[test]
fn preserve_mode_keeps_incomplete_trailers_until_the_buffer_fills() {
    let mut buffer = Buffer::<1024>::new();
    let reformatter = Reformatter::new(80, LineWrapMode::Preserve);
    buffer.extend_from_read(b"go\x1b]0;half");
    let fragments = buffer.read_fragments(&reformatter);
    assert_eq!(fragments, vec![Fragment::new(b"go".to_vec(), None)]);
    buffer.extend_from_read(b" title\x07done");
    let fragments = buffer.read_fragments(&reformatter);
    assert_eq!(
        fragments,
        vec![
            Fragment::new(
                b"\x1b]0;half title\x07".to_vec(),
                Some(EscapeSequence::SetWindowAndIconTitle(b"half title".to_vec())),
            ),
            Fragment::new(b"done".to_vec(), None),
        ]
    );
}

#[test]
fn adjust_mode_rejoins_a_wrapped_url() {
    let mut buffer = Buffer::<1024>::new();
    let mut reformatter = Reformatter::new(80, LineWrapMode::Adjust);
    reformatter.set_terminal_width(24);
    buffer.extend_from_read(b"URL: https://example.c\n  om/long/path\n\n");
    let fragments = buffer.read_fragments(&reformatter);
    let rebuilt: Vec<u8> = fragments.iter().flat_map(|f| f.data().to_vec()).collect();
    let text = String::from_utf8(rebuilt).unwrap();
    assert!(text.contains("https://example.com/long/path"), "{text:?}");
}

#[test]
fn adjust_mode_keeps_a_possibly_wrapping_trailer_in_the_buffer() {
    let mut buffer = Buffer::<1024>::new();
    let reformatter = Reformatter::new(24, LineWrapMode::Adjust);
    buffer.extend_from_read(b"URL: https://example.c");
    let fragments = buffer.read_fragments(&reformatter);
    assert_eq!(fragments, vec![]);
    buffer.extend_from_read(b"\n  om/long/path\n\n");
    let fragments = buffer.read_fragments(&reformatter);
    let rebuilt: Vec<u8> = fragments.iter().flat_map(|f| f.data().to_vec()).collect();
    let text = String::from_utf8(rebuilt).unwrap();
    assert!(text.contains("https://example.com/long/path"), "{text:?}");
}

#[test]
fn extend_from_read_reports_capacity() {
    let mut buffer = Buffer::<4>::new();
    assert_eq!(buffer.extend_from_read(b"abcdef"), 4);
    assert!(buffer.is_full());
    assert_eq!(buffer.extend_from_read(b"gh"), 0);
}

#[test]
fn say_command_keeps_its_arguments() {
    let say = SayCommand::new(vec!["-v".to_string(), "Alex".to_string()]);
    assert_eq!(say.args(), &vec!["-v".to_string(), "Alex".to_string()]);
}

#[test]
fn adjust_mode_consumes_everything_when_no_line_is_pending() {
    let mut buffer = Buffer::<1024>::new();
    let reformatter = Reformatter::new(24, LineWrapMode::Adjust);
    buffer.extend_from_read(b"URL: https://example.c\n  om/long/path\n\n");
    let fragments = buffer.read_fragments(&reformatter);
    assert!(!fragments.is_empty());
    // every line ended in a confirmed boundary, so nothing stays buffered
    assert_eq!(buffer.read_fragments(&reformatter), vec![]);
}

#[test]
fn adjust_mode_releases_a_fragment_when_the_buffer_is_saturated() {
    let mut buffer = Buffer::<8>::new();
    let reformatter = Reformatter::new(24, LineWrapMode::Adjust);
    buffer.extend_from_read(b"abcdefgh");
    assert!(buffer.is_full());
    // no line boundary exists, but a saturated buffer must keep moving
    let fragments = buffer.read_fragments(&reformatter);
    assert!(!fragments.is_empty());
}
