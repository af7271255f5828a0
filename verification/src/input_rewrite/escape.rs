//! The backslash-escape grammar of rewrite-rule strings.
//!
//! `\\`, `\e`, `\n`, `\r`, `\t` and `\xHH` stand for single bytes; every
//! other character stands for its own UTF-8 bytes. Positions in errors
//! count characters, not bytes.

use vstd::prelude::*;

use crate::byteseq::push_bytes;
use vstd::string::StrSliceExecFns;
use vstd::utf8::encode_utf8;

verus! {

/// Why an escaped string failed to parse.
#[derive(Debug, PartialEq, Eq, Clone, Copy)]
pub enum EscapeError {
    /// `\x` not followed by two hexadecimal digits; `pos` is the backslash.
    InvalidHex { pos: usize },
    /// A backslash followed by an unknown escape character at `pos`.
    UnknownEscape { pos: usize, ch: char },
    /// A backslash at `pos` ends the string.
    TrailingBackslash { pos: usize },
}

/// The value of a hexadecimal digit, or `-1`.
pub open spec fn hex_val(c: char) -> int {
    let u = c as int;
    if 0x30 <= u <= 0x39 {
        u - 0x30
    } else if 0x61 <= u <= 0x66 {
        u - 0x61 + 10
    } else if 0x41 <= u <= 0x46 {
        u - 0x41 + 10
    } else {
        -1
    }
}

/// The bytes of one literal (non-escape) character.
pub open spec fn char_utf8(c: char) -> Seq<u8> {
    encode_utf8(seq![c])
}

/// The bytes that the escaped string `s` denotes from position `i` on, or
/// the first error at or after `i`.
pub open spec fn escape_spec_from(s: Seq<char>, i: int) -> Result<Seq<u8>, EscapeError>
    decreases s.len() - i, 0int,
{
    if i < 0 || i >= s.len() {
        Ok(seq![])
    } else if s[i] != '\\' {
        escape_cons(s, char_utf8(s[i]), i + 1)
    } else if i + 1 >= s.len() {
        Err(EscapeError::TrailingBackslash { pos: i as usize })
    } else {
        let e = s[i + 1];
        if e == '\\' {
            escape_cons(s, seq![0x5cu8], i + 2)
        } else if e == 'e' {
            escape_cons(s, seq![0x1bu8], i + 2)
        } else if e == 'n' {
            escape_cons(s, seq![0x0au8], i + 2)
        } else if e == 'r' {
            escape_cons(s, seq![0x0du8], i + 2)
        } else if e == 't' {
            escape_cons(s, seq![0x09u8], i + 2)
        } else if e == 'x' {
            if i + 3 >= s.len() || hex_val(s[i + 2]) < 0 || hex_val(s[i + 3]) < 0 {
                Err(EscapeError::InvalidHex { pos: i as usize })
            } else {
                escape_cons(s, seq![(hex_val(s[i + 2]) * 16 + hex_val(s[i + 3])) as u8], i + 4)
            }
        } else {
            Err(EscapeError::UnknownEscape { pos: (i + 1) as usize, ch: e })
        }
    }
}

/// Helper of `escape_spec_from`: prepend `bytes` to the parse of the rest.
pub open spec fn escape_cons(s: Seq<char>, bytes: Seq<u8>, j: int) -> Result<Seq<u8>, EscapeError>
    decreases s.len() - j, 1int,
{
    if j < 0 {
        Ok(seq![])  // unreachable from escape_spec_from
    } else {
        match escape_spec_from(s, j) {
            Ok(rest) => Ok(bytes + rest),
            Err(e) => Err(e),
        }
    }
}

/// What the whole escaped string denotes.
pub open spec fn escape_spec(s: Seq<char>) -> Result<Seq<u8>, EscapeError> {
    escape_spec_from(s, 0)
}

/// Convert an escaped string into the bytes it denotes.
///
/// Grammar: `\\` is a backslash, `\e` ESC, `\n` LF, `\r` CR, `\t` TAB, and
/// `\xHH` the byte with hexadecimal value `HH`; everything else stands for
/// itself. Errors: a trailing backslash, an unknown escape character, and a
/// `\x` without two hexadecimal digits.
pub fn parse_escaped_str(s: &str) -> (r: Result<Vec<u8>, EscapeError>)
    ensures
        match r {
            Ok(v) => escape_spec(s@) == Ok::<Seq<u8>, EscapeError>(v@),
            Err(e) => escape_spec(s@) == Err::<Seq<u8>, EscapeError>(e),
        },
{
    let n = s.unicode_len();
    let mut out: Vec<u8> = Vec::new();
    let mut i: usize = 0;
    while i < n
        invariant
            0 <= i <= n,
            n == s@.len(),
            match escape_spec_from(s@, i as int) {
                Ok(rest) => escape_spec(s@) == Ok::<Seq<u8>, EscapeError>(out@ + rest),
                Err(e) => escape_spec(s@) == Err::<Seq<u8>, EscapeError>(e),
            },
        decreases n - i,
    {
        let ghost pre = out@;
        let c = s.get_char(i);
        if c != '\\' {
            let piece = s.substring_char(i, i + 1);
            let bytes = piece.as_bytes();
            proof {
                assert(piece@ =~= seq![s@[i as int]]);
                assert(bytes@ == char_utf8(s@[i as int]));
            }
            push_bytes(&mut out, bytes);
            i = i + 1;
            proof {
                lemma_step(s@, pre, out@, bytes@, i as int - 1, i as int);
            }
        } else {
            if i + 1 >= n {
                return Err(EscapeError::TrailingBackslash { pos: i });
            }
            let e = s.get_char(i + 1);
            if e == '\\' {
                out.push(0x5c);
                i = i + 2;
                proof {
                    assert(out@ =~= pre + seq![0x5cu8]);
                    lemma_step(s@, pre, out@, seq![0x5cu8], i as int - 2, i as int);
                }
            } else if e == 'e' {
                out.push(0x1b);
                i = i + 2;
                proof {
                    assert(out@ =~= pre + seq![0x1bu8]);
                    lemma_step(s@, pre, out@, seq![0x1bu8], i as int - 2, i as int);
                }
            } else if e == 'n' {
                out.push(0x0a);
                i = i + 2;
                proof {
                    assert(out@ =~= pre + seq![0x0au8]);
                    lemma_step(s@, pre, out@, seq![0x0au8], i as int - 2, i as int);
                }
            } else if e == 'r' {
                out.push(0x0d);
                i = i + 2;
                proof {
                    assert(out@ =~= pre + seq![0x0du8]);
                    lemma_step(s@, pre, out@, seq![0x0du8], i as int - 2, i as int);
                }
            } else if e == 't' {
                out.push(0x09);
                i = i + 2;
                proof {
                    assert(out@ =~= pre + seq![0x09u8]);
                    lemma_step(s@, pre, out@, seq![0x09u8], i as int - 2, i as int);
                }
            } else if e == 'x' {
                if n - i <= 3 {
                    return Err(EscapeError::InvalidHex { pos: i });
                }
                let h1 = hex_digit(s.get_char(i + 2));
                let h2 = hex_digit(s.get_char(i + 3));
                if h1 < 0 || h2 < 0 {
                    return Err(EscapeError::InvalidHex { pos: i });
                }
                let byte = (h1 * 16 + h2) as u8;
                out.push(byte);
                i = i + 4;
                proof {
                    assert(out@ =~= pre + seq![byte]);
                    lemma_step(s@, pre, out@, seq![byte], i as int - 4, i as int);
                }
            } else {
                return Err(EscapeError::UnknownEscape { pos: i + 1, ch: e });
            }
        }
    }
    proof {
        assert(out@ + Seq::<u8>::empty() =~= out@);
    }
    Ok(out)
}

/// The value of a hexadecimal digit character, or `-1`.
fn hex_digit(c: char) -> (r: i32)
    ensures
        r as int == hex_val(c),
{
    let u = c as u32;
    if 0x30 <= u && u <= 0x39 {
        (u - 0x30) as i32
    } else if 0x61 <= u && u <= 0x66 {
        (u - 0x61) as i32 + 10
    } else if 0x41 <= u && u <= 0x46 {
        (u - 0x41) as i32 + 10
    } else {
        -1
    }
}

/// One parsing step extends the produced bytes and keeps the loop relation.
proof fn lemma_step(s: Seq<char>, pre: Seq<u8>, cur: Seq<u8>, piece: Seq<u8>, i: int, j: int)
    requires
        cur == pre + piece,
        0 <= i < s.len(),
        escape_spec_from(s, i) == escape_cons(s, piece, j),
        i < j,
        match escape_spec_from(s, i) {
            Ok(rest) => escape_spec(s) == Ok::<Seq<u8>, EscapeError>(pre + rest),
            Err(e) => escape_spec(s) == Err::<Seq<u8>, EscapeError>(e),
        },
    ensures
        match escape_spec_from(s, j) {
            Ok(rest) => escape_spec(s) == Ok::<Seq<u8>, EscapeError>(cur + rest),
            Err(e) => escape_spec(s) == Err::<Seq<u8>, EscapeError>(e),
        },
{
    match escape_spec_from(s, j) {
        Ok(rest) => {
            assert(pre + (piece + rest) =~= (pre + piece) + rest);
        },
        Err(e) => {},
    }
}

} // verus!
