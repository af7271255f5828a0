//! On-screen width of a line of bytes.
//!
//! The line-wrap heuristics compare a line's displayed width in terminal
//! columns with the terminal width. Valid UTF-8 is measured by its
//! characters' display width; anything else falls back to its byte count.

use vstd::prelude::*;

use vstd::string::StringSliceAdditionalSpecFns;
use vstd::utf8::{decode_utf8, encode_utf8_decode_utf8, valid_utf8};

verus! {

/// The number of terminal columns that a piece of text occupies.
pub uninterp spec fn display_width(s: Seq<char>) -> nat;

/// Relies on str::from_utf8: `Ok` exactly when the bytes are valid UTF-8,
/// and the returned string slice borrows those same bytes.
#[verifier::external_body]
fn utf8_str(b: &[u8]) -> (r: Option<&str>)
    ensures
        r is Some <==> valid_utf8(b@),
        r matches Some(s) ==> s.spec_bytes() == b@,
{
    std::str::from_utf8(b).ok()
}

/// Relies on unicode_width::UnicodeWidthStr::width: the string's displayed
/// width in columns, a function of its characters alone.
#[verifier::external_body]
fn str_width(s: &str) -> (r: usize)
    ensures
        r == display_width(s@),
{
    unicode_width::UnicodeWidthStr::width(s)
}

/// The on-screen width of a line of bytes: the display width of its text,
/// or its byte count where the bytes are not valid UTF-8.
pub open spec fn line_width_spec(b: Seq<u8>) -> nat {
    if valid_utf8(b) {
        display_width(decode_utf8(b))
    } else {
        b.len()
    }
}

/// Measure a line of bytes in terminal columns.
pub fn line_width(line: &[u8]) -> (r: usize)
    ensures
        r == line_width_spec(line@),
{
    match utf8_str(line) {
        Some(s) => {
            proof {
                encode_utf8_decode_utf8(s@);
            }
            str_width(s)
        },
        None => line.len(),
    }
}

} // verus!
