//! Undoing the terminal's forced line wraps around long URLs.
//!
//! When output reaches the configured column width the terminal hard-wraps
//! it, splitting what the program meant as one token — most visibly a long
//! URL printed with one or two spaces of continuation indent. This pass
//! walks the fragment list line by line with a rewindable cursor. A line
//! whose rightmost `scheme://` token reaches the right edge of the screen
//! is joined with the continuation lines that follow it: the line break —
//! a newline, or the visual form `\r` then an optional cursor-forward then
//! a cursor-down — is removed and the continuation's indent trimmed. A
//! scheme split across the break itself (`fil` / `e://...`) is detected by
//! looking back at the previous line. Genuine multi-line output (lists,
//! prose) is left alone, and a trailing line that may still be growing is
//! not consumed, so the caller keeps its bytes for the next read.

use vstd::prelude::*;

use crate::byteseq::{
    all_graphic, find_byte, find_window3, is_graphic, lemma_rfind_window3_is,
    lemma_rfind_window3_is_none, lemma_run_in_range_is, push_bytes, rfind_window3, run_in_range,
    scan_all_graphic, scan_byte, scan_last_window3,
};
use crate::tty_text::line_wrapping::{
    chomped, first_plain_in, join_trimmed, lemma_chomp_keeps_trim, lemma_first_plain_is,
    lemma_first_plain_none, lemma_ltrim_keeps_trim, lemma_reduced_refl, lemma_reduced_remove,
    lemma_reduced_take, lemma_reduced_update, ltrim_first_plain_spec, ltrimmed, reduced_from,
    wrap_target,
};
use crate::tty_text::fragment::{
    lemma_list_size_nonneg, lemma_list_size_split, list_size, EscapeSequence,
    EscapeSequenceModel, Fragment, FragmentModel,
};
use crate::tty_text::line_wrapping::prefix_size;
use crate::width::line_width;
use vstd::slice::slice_subrange;

verus! {

/// RFC 3986: a scheme is letters, digits, `+`, `-` and `.`.
pub open spec fn spec_is_scheme_char(b: u8) -> bool {
    (0x30 <= b <= 0x39) || is_alpha(b) || b == 0x2b || b == 0x2d || b == 0x2e
}

/// Whether `b` is an ASCII letter.
pub open spec fn is_alpha(b: u8) -> bool {
    (0x41 <= b <= 0x5a) || (0x61 <= b <= 0x7a)
}

fn is_scheme_char(b: u8) -> (r: bool)
    ensures
        r == spec_is_scheme_char(b),
{
    (0x30 <= b && b <= 0x39) || (0x41 <= b && b <= 0x5a) || (0x61 <= b && b <= 0x7a) || b == 0x2b
        || b == 0x2d || b == 0x2e
}

/// The length of the run of scheme characters starting at `i`.
pub open spec fn scheme_run(d: Seq<u8>, i: int) -> int
    decreases d.len() - i,
{
    if 0 <= i < d.len() && spec_is_scheme_char(d[i]) {
        1 + scheme_run(d, i + 1)
    } else {
        0
    }
}

proof fn lemma_scheme_run_is(d: Seq<u8>, i: int, j: int)
    requires
        0 <= i <= j <= d.len(),
        forall|k: int| i <= k < j ==> spec_is_scheme_char(#[trigger] d[k]),
        j < d.len() ==> !spec_is_scheme_char(d[j]),
    ensures
        scheme_run(d, i) == j - i,
    decreases j - i,
{
    if i < j {
        lemma_scheme_run_is(d, i + 1, j);
    }
}

/// The length of the run of scheme characters ending right before `upto`.
pub open spec fn trailing_scheme_run(d: Seq<u8>, upto: int) -> int
    decreases upto,
{
    if 0 < upto <= d.len() && spec_is_scheme_char(d[upto - 1]) {
        1 + trailing_scheme_run(d, upto - 1)
    } else {
        0
    }
}

proof fn lemma_trailing_scheme_run_is(d: Seq<u8>, upto: int, c: int)
    requires
        0 <= c <= upto <= d.len(),
        forall|k: int| upto - c <= k < upto ==> spec_is_scheme_char(#[trigger] d[k]),
        upto - c > 0 ==> !spec_is_scheme_char(d[upto - c - 1]),
    ensures
        trailing_scheme_run(d, upto) == c,
    decreases c,
{
    if c > 0 {
        lemma_trailing_scheme_run_is(d, upto - 1, c - 1);
    }
}

fn is_ascii_graphic_run(data: &[u8]) -> (r: bool)
    ensures
        r == all_graphic(data@),
{
    scan_all_graphic(data)
}

/// The digits of `d[i..last]` read as a number, `None` on a non-digit or a
/// value too large for the machine; an empty or zero parameter means one.
pub open spec fn csi_digits(d: Seq<u8>, i: int, last: int, acc: int) -> Option<int>
    decreases last - i,
{
    if i >= last {
        Some(
            if acc == 0 {
                1int
            } else {
                acc
            },
        )
    } else if !(0 <= i < d.len() && 0x30 <= d[i] <= 0x39) {
        None
    } else if acc > (usize::MAX - 9) / 10 {
        None
    } else {
        csi_digits(d, i + 1, last, acc * 10 + (d[i] - 0x30))
    }
}

/// The parameter of a one-parameter CSI sequence `ESC [ <digits> <f>`,
/// with an empty or zero parameter meaning one.
pub open spec fn spec_csi_param(d: Seq<u8>, f: u8) -> Option<int> {
    if d.len() < 3 || d[0] != 0x1b || d[1] != 0x5b || d[d.len() - 1] != f {
        None
    } else if d.len() == 3 {
        Some(1)
    } else {
        csi_digits(d, 2, d.len() - 1, 0)
    }
}

fn csi_param_value(data: &[u8], f: u8) -> (r: Option<usize>)
    ensures
        match r {
            Some(v) => spec_csi_param(data@, f) == Some(v as int),
            None => spec_csi_param(data@, f) is None,
        },
{
    if data.len() < 3 || data[0] != 0x1b || data[1] != 0x5b || data[data.len() - 1] != f {
        return None;
    }
    if data.len() == 3 {
        return Some(1);
    }
    let mut v: usize = 0;
    let mut k: usize = 2;
    let last = data.len() - 1;
    while k < last
        invariant
            2 <= k <= last < data@.len(),
            last == data@.len() - 1,
            csi_digits(data@, 2, last as int, 0) == csi_digits(data@, k as int, last as int,
                v as int,
            ),
        decreases last - k,
    {
        let b = data[k];
        if !(0x30 <= b && b <= 0x39) {
            return None;
        }
        if v > (usize::MAX - 9) / 10 {
            return None;
        }
        v = v * 10 + ((b - 0x30) as usize);
        k = k + 1;
    }
    if v == 0 {
        Some(1)
    } else {
        Some(v)
    }
}

/// Whether a fragment is a cursor-forward sequence `ESC [ Pn C`.
pub open spec fn spec_is_cuf(f: FragmentModel) -> bool {
    spec_csi_param(f.data, 0x43) is Some
}

/// Whether a fragment is a cursor-down sequence `ESC [ Pn B`.
pub open spec fn spec_is_cud(f: FragmentModel) -> bool {
    spec_csi_param(f.data, 0x42) is Some
}

/// How many columns a cursor-forward sequence `ESC [ Pn C` moves.
fn cursor_forward_columns(data: &[u8]) -> (r: Option<usize>)
    ensures
        match r {
            Some(v) => spec_csi_param(data@, 0x43) == Some(v as int),
            None => spec_csi_param(data@, 0x43) is None,
        },
{
    csi_param_value(data, 0x43)
}

fn is_cuf(f: &Fragment) -> (r: bool)
    ensures
        r == spec_is_cuf(f@),
{
    cursor_forward_columns(f.data()).is_some()
}

fn is_cud(f: &Fragment) -> (r: bool)
    ensures
        r == spec_is_cud(f@),
{
    csi_param_value(f.data(), 0x42).is_some()
}

/// The number of fragments forming a visual line break (`\r`, optional
/// cursor-forward, cursor-down) starting at `at`, or `None`.
pub open spec fn spec_visual_break(frags: Seq<FragmentModel>, at: int) -> Option<int> {
    if !(0 <= at < frags.len()) {
        None
    } else if !(frags[at].data.len() > 0 && frags[at].data[frags[at].data.len() - 1] == 0x0d) {
        None
    } else {
        let i: int = if at + 1 < frags.len() && spec_is_cuf(frags[at + 1]) {
            2
        } else {
            1
        };
        if at + i < frags.len() && spec_is_cud(frags[at + i]) {
            Some(i + 1)
        } else {
            None
        }
    }
}

fn visual_line_break_length(fragments: &Vec<Fragment>, at: usize) -> (r: Option<usize>)
    ensures
        match r {
            Some(v) => spec_visual_break(fragments.deep_view(), at as int) == Some(v as int) && 2
                <= v <= 3,
            None => spec_visual_break(fragments.deep_view(), at as int) is None,
        },
{
    if at >= fragments.len() {
        return None;
    }
    let d = fragments[at].data();
    if d.len() == 0 || d[d.len() - 1] != 0x0d {
        return None;
    }
    let mut i: usize = 1;
    if fragments.len() - at > 1 && is_cuf(&fragments[at + 1]) {
        i = 2;
    }
    if fragments.len() - at > i && is_cud(&fragments[at + i]) {
        Some(i + 1)
    } else {
        None
    }
}

/// The number of leading spaces when it is a plausible continuation
/// indent: one or two columns, with content after it.
pub open spec fn spec_continuation_indent(line: Seq<u8>) -> Option<int> {
    let n = run_in_range(line, 0, 0x20, 0x20);
    if 1 <= n <= 2 && n < line.len() {
        Some(n)
    } else {
        None
    }
}

fn continuation_indent(line: &[u8]) -> (r: Option<usize>)
    ensures
        match r {
            Some(m) => spec_continuation_indent(line@) == Some(m as int) && 1 <= m < line@.len(),
            None => spec_continuation_indent(line@) is None,
        },
{
    let mut n: usize = 0;
    while n < line.len() && line[n] == 0x20
        invariant
            n <= line@.len(),
            forall|j: int| 0 <= j < n ==> 0x20 <= #[trigger] line@[j] <= 0x20,
        decreases line@.len() - n,
    {
        n = n + 1;
    }
    proof {
        lemma_run_in_range_is(line@, 0, n as int, 0x20, 0x20);
    }
    if 1 <= n && n <= 2 && n < line.len() {
        Some(n)
    } else {
        None
    }
}

/// Whether the line begins with a URL scheme followed by `://`.
pub open spec fn spec_starts_with_url_scheme(line: Seq<u8>) -> bool {
    let i = scheme_run(line, 0);
    &&& 0 < i < line.len()
    &&& is_alpha(line[0])
    &&& i + 2 < line.len()
    &&& line[i] == 0x3a && line[i + 1] == 0x2f && line[i + 2] == 0x2f
}

fn starts_with_url_scheme(line: &[u8]) -> (r: bool)
    ensures
        r == spec_starts_with_url_scheme(line@),
{
    let mut i: usize = 0;
    while i < line.len() && is_scheme_char(line[i])
        invariant
            i <= line@.len(),
            forall|j: int| 0 <= j < i ==> spec_is_scheme_char(#[trigger] line@[j]),
        decreases line@.len() - i,
    {
        i = i + 1;
    }
    proof {
        lemma_scheme_run_is(line@, 0, i as int);
    }
    if i >= line.len() || i == 0 {
        return false;
    }
    let b = line[0];
    if !((0x41 <= b && b <= 0x5a) || (0x61 <= b && b <= 0x7a)) {
        return false;
    }
    line.len() - i > 2 && line[i] == 0x3a && line[i + 1] == 0x2f && line[i + 2] == 0x2f
}

/// Whether the line's rightmost `://` token reaches the terminal's right
/// edge (within four columns of slack), everything after the marker being
/// printable with no embedded whitespace.
pub open spec fn spec_should_attempt_url_unwrap(line: Seq<u8>, tw: u16) -> bool {
    match rfind_window3(line, line.len() - 3, 0x3a, 0x2f, 0x2f) {
        None => false,
        Some(m) => all_graphic(line.skip(m + 3)) && wrap_target(tw) <= crate::width::line_width_spec(
            line.take(m + 3),
        ) + line.len() - (m + 3),
    }
}

fn should_attempt_url_unwrap(line: &[u8], terminal_width: u16) -> (r: bool)
    ensures
        r == spec_should_attempt_url_unwrap(line@, terminal_width),
{
    let total = line.len();
    let Some(m) = scan_last_window3(line, 0x3a, 0x2f, 0x2f) else { return false };
    proof {
        assert(m + 3 <= total);
    }
    let i = m + 3;
    let tail = slice_subrange(line, i, line.len());
    proof {
        assert(tail@ =~= line@.skip(i as int));
    }
    if !is_ascii_graphic_run(tail) {
        return false;
    }
    let head = slice_subrange(line, 0, i);
    proof {
        assert(head@ =~= line@.take(i as int));
    }
    let head_width = line_width(head);
    let tail_len = line.len() - i;
    let target = if terminal_width >= 4 {
        (terminal_width - 4) as usize
    } else {
        0
    };
    target <= head_width || target - head_width <= tail_len
}

/// The continuation indent of a line that may be a wrapped URL tail: not a
/// new ordered or unordered list item, not itself a new URL, and printable
/// right after the indent.
pub open spec fn spec_url_continuation_indent(line: Seq<u8>) -> Option<int> {
    match spec_continuation_indent(line) {
        None => None,
        Some(margin) => {
            let k = margin + run_in_range(line, margin, 0x30, 0x39);
            if k > margin && k < line.len() && line[k] == 0x2e && (line.len() - k == 1 || line[k
                + 1] == 0x20) {
                None
            } else if line[margin] == 0x2d && (line.len() - margin == 1 || line[margin + 1]
                == 0x20) {
                None
            } else if spec_starts_with_url_scheme(line.skip(margin)) {
                None
            } else if is_graphic(line[margin]) {
                Some(margin)
            } else {
                None
            }
        },
    }
}

fn url_continuation_indent(line: &[u8]) -> (r: Option<usize>)
    ensures
        match r {
            Some(m) => spec_url_continuation_indent(line@) == Some(m as int) && 1 <= m
                < line@.len(),
            None => spec_url_continuation_indent(line@) is None,
        },
{
    let Some(margin) = continuation_indent(line) else { return None };
    // ordered list: digits then `.` then a space or the end of the line
    let mut k = margin;
    while k < line.len() && 0x30 <= line[k] && line[k] <= 0x39
        invariant
            margin <= k <= line@.len(),
            forall|j: int| margin <= j < k ==> 0x30 <= #[trigger] line@[j] <= 0x39,
        decreases line@.len() - k,
    {
        k = k + 1;
    }
    proof {
        lemma_run_in_range_is(line@, margin as int, k as int, 0x30, 0x39);
    }
    if k > margin && k < line.len() && line[k] == 0x2e {
        if line.len() - k == 1 || line[k + 1] == 0x20 {
            return None;
        }
    }
    // unordered list
    if line[margin] == 0x2d {
        if line.len() - margin == 1 || line[margin + 1] == 0x20 {
            return None;
        }
    }
    let rest = slice_subrange(line, margin, line.len());
    proof {
        assert(rest@ =~= line@.skip(margin as int));
    }
    if starts_with_url_scheme(rest) {
        return None;
    }
    if 0x21 <= line[margin] && line[margin] <= 0x7e {
        Some(margin)
    } else {
        None
    }
}

/// Whether a joined line could have yet another wrapped continuation.
pub open spec fn spec_can_have_another_url_continuation(line: Seq<u8>, tw: u16) -> bool {
    match spec_continuation_indent(line) {
        None => false,
        Some(margin) => wrap_target(tw) <= line.len() && all_graphic(line.skip(margin)),
    }
}

fn can_have_another_url_continuation(line: &[u8], terminal_width: u16) -> (r: bool)
    ensures
        r == spec_can_have_another_url_continuation(line@, terminal_width),
{
    let Some(margin) = continuation_indent(line) else { return false };
    let target = if terminal_width >= 4 {
        (terminal_width - 4) as usize
    } else {
        0
    };
    let rest = slice_subrange(line, margin, line.len());
    proof {
        assert(rest@ =~= line@.skip(margin as int));
    }
    target <= line.len() && is_ascii_graphic_run(rest)
}

/// Detect a URL scheme split across the forced wrap itself: either scheme
/// characters split over the two lines (`fil` / `e://...`), or the colon
/// ending the previous line with `//` starting the current one.
pub open spec fn spec_has_split_url_scheme(prev: Seq<u8>, cur: Seq<u8>) -> bool {
    match spec_continuation_indent(cur) {
        None => false,
        Some(margin) => {
            let after = cur.skip(margin);
            let intra = match find_window3(after, 0, 0x3a, 0x2f, 0x2f) {
                Some(cp) => (forall|j: int|
                    0 <= j < cp ==> spec_is_scheme_char(#[trigger] after[j])) && {
                    let pl = trailing_scheme_run(prev, prev.len() as int);
                    pl > 0 && is_alpha(prev[prev.len() - pl])
                },
                None => false,
            };
            let boundary = after.len() >= 2 && after[0] == 0x2f && after[1] == 0x2f && prev.len()
                >= 1 && prev[prev.len() - 1] == 0x3a && {
                let sl = trailing_scheme_run(prev, prev.len() - 1);
                sl > 0 && is_alpha(prev[prev.len() - 1 - sl])
            };
            intra || boundary
        },
    }
}

fn has_split_url_scheme(prev_line: &[u8], current_line: &[u8]) -> (r: bool)
    ensures
        r == spec_has_split_url_scheme(prev_line@, current_line@),
{
    let Some(margin) = continuation_indent(current_line) else { return false };
    let after = slice_subrange(current_line, margin, current_line.len());
    proof {
        assert(after@ =~= current_line@.skip(margin as int));
    }
    let mut intra = false;
    // scheme characters split across the lines
    match crate::byteseq::scan_window3(after, 0, 0x3a, 0x2f, 0x2f) {
        None => {},
        Some(colon_pos) => {
            let mut all_scheme = true;
            let mut j: usize = 0;
            while j < colon_pos
                invariant
                    j <= colon_pos < after@.len(),
                    all_scheme == (forall|jj: int|
                        0 <= jj < j ==> spec_is_scheme_char(#[trigger] after@[jj])),
                decreases colon_pos - j,
            {
                let ghost pre = all_scheme;
                if !is_scheme_char(after[j]) {
                    all_scheme = false;
                }
                j = j + 1;
                proof {
                    if all_scheme {
                        assert(forall|jj: int|
                            0 <= jj < j ==> spec_is_scheme_char(#[trigger] after@[jj]));
                    }
                }
            }
            if all_scheme {
                let mut prefix_len: usize = 0;
                while prefix_len < prev_line.len() && is_scheme_char(
                    prev_line[prev_line.len() - 1 - prefix_len],
                )
                    invariant
                        prefix_len <= prev_line@.len(),
                        forall|k: int|
                            prev_line@.len() - prefix_len <= k < prev_line@.len()
                                ==> spec_is_scheme_char(#[trigger] prev_line@[k]),
                    decreases prev_line@.len() - prefix_len,
                {
                    prefix_len = prefix_len + 1;
                }
                proof {
                    lemma_trailing_scheme_run_is(
                        prev_line@,
                        prev_line@.len() as int,
                        prefix_len as int,
                    );
                }
                if prefix_len > 0 {
                    let b = prev_line[prev_line.len() - prefix_len];
                    if (0x41 <= b && b <= 0x5a) || (0x61 <= b && b <= 0x7a) {
                        intra = true;
                    }
                }
            }
        },
    }
    if intra {
        return true;
    }
    // the colon ends the previous line and `//` starts the current one
    if after.len() >= 2 && after[0] == 0x2f && after[1] == 0x2f && prev_line.len() >= 1
        && prev_line[prev_line.len() - 1] == 0x3a {
        let before_len = prev_line.len() - 1;
        let mut scheme_len: usize = 0;
        while scheme_len < before_len && is_scheme_char(prev_line[before_len - 1 - scheme_len])
            invariant
                scheme_len <= before_len < prev_line@.len() + 1,
                before_len == prev_line@.len() - 1,
                forall|k: int|
                    before_len - scheme_len <= k < before_len ==> spec_is_scheme_char(
                        #[trigger] prev_line@[k],
                    ),
            decreases before_len - scheme_len,
        {
            scheme_len = scheme_len + 1;
        }
        proof {
            lemma_trailing_scheme_run_is(prev_line@, before_len as int, scheme_len as int);
        }
        if scheme_len > 0 {
            let b = prev_line[before_len - scheme_len];
            if (0x41 <= b && b <= 0x5a) || (0x61 <= b && b <= 0x7a) {
                return true;
            }
        }
    }
    false
}

} // verus!

verus! {

/// A rewindable cursor over the fragment list. `position` is the next
/// unconsumed fragment; `line_start` is where the line being analyzed
/// began. `end_offsets[i]` remembers how many original input bytes the
/// fragments up to and including `i` stood for, so that the consumed byte
/// count can still be reported after fragments are merged or trimmed.
/// Whether a fragment at `i` ends a line of this pass: a plain run with a
/// newline or beginning a visual line break, or an escape sequence that is
/// a delivery boundary.
pub open spec fn reformat_boundary(frags: Seq<FragmentModel>, i: int) -> bool {
    ||| (frags[i].escape_sequence is None && (find_byte(frags[i].data, 0, 0x0a) is Some
        || spec_visual_break(frags, i) is Some))
    ||| frags[i].escape_sequence matches Some(
        EscapeSequenceModel::EndSynchronizedUpdate
        | EscapeSequenceModel::ShowCursor
        | EscapeSequenceModel::SetWindowAndIconTitle(_)
        | EscapeSequenceModel::ShowDesktopNotification(_, _),
    )
}

/// The first line boundary at or after `i`.
pub open spec fn find_reformat_boundary(frags: Seq<FragmentModel>, i: int) -> Option<int>
    decreases frags.len() - i,
{
    if i < 0 || i >= frags.len() {
        None
    } else if reformat_boundary(frags, i) {
        Some(i)
    } else {
        find_reformat_boundary(frags, i + 1)
    }
}

proof fn lemma_find_reformat_boundary_is(frags: Seq<FragmentModel>, i: int, j: int)
    requires
        0 <= i <= j < frags.len(),
        reformat_boundary(frags, j),
        forall|k: int| i <= k < j ==> !reformat_boundary(frags, k),
    ensures
        find_reformat_boundary(frags, i) == Some(j),
    decreases j - i,
{
    if i < j {
        lemma_find_reformat_boundary_is(frags, i + 1, j);
    }
}

proof fn lemma_find_reformat_boundary_is_none(frags: Seq<FragmentModel>, i: int)
    requires
        0 <= i,
        forall|k: int| i <= k < frags.len() ==> !reformat_boundary(frags, k),
    ensures
        find_reformat_boundary(frags, i) is None,
    decreases frags.len() - i,
{
    if i < frags.len() {
        lemma_find_reformat_boundary_is_none(frags, i + 1);
    }
}

/// A run of `n` spaces.
pub open spec fn spaces(n: int) -> Seq<u8> {
    Seq::new(
        (if n < 0 {
            0
        } else {
            n
        }) as nat,
        |i: int| 0x20u8,
    )
}

/// What one fragment contributes to the flattened line: its bytes when
/// plain, the equivalent spaces when a cursor-forward, nothing otherwise.
pub open spec fn flatten_contrib(f: FragmentModel, tw: int) -> Seq<u8> {
    if f.escape_sequence is None {
        f.data
    } else {
        match spec_csi_param(f.data, 0x43) {
            Some(n) => spaces(
                if n <= tw {
                    n
                } else {
                    tw
                },
            ),
            None => seq![],
        }
    }
}

/// The flattened text of `frags[a..b]`.
pub open spec fn flatten_range(frags: Seq<FragmentModel>, a: int, b: int, tw: int) -> Seq<u8>
    decreases b - a,
{
    if a < 0 || a >= b || b > frags.len() {
        seq![]
    } else {
        flatten_contrib(frags[a], tw) + flatten_range(frags, a + 1, b, tw)
    }
}

proof fn lemma_flatten_range_snoc(frags: Seq<FragmentModel>, a: int, b: int, tw: int)
    requires
        0 <= a <= b < frags.len(),
    ensures
        flatten_range(frags, a, b + 1, tw) == flatten_range(frags, a, b, tw) + flatten_contrib(
            frags[b],
            tw,
        ),
    decreases b - a,
{
    if a == b {
        assert(flatten_range(frags, a, b, tw) =~= Seq::<u8>::empty());
        assert(flatten_range(frags, b + 1, b + 1, tw) =~= Seq::<u8>::empty());
        assert(flatten_range(frags, a, b + 1, tw) =~= flatten_contrib(frags[b], tw));
        assert(flatten_range(frags, a, b, tw) + flatten_contrib(frags[b], tw) =~= flatten_contrib(
            frags[b],
            tw,
        ));
    } else {
        lemma_flatten_range_snoc(frags, a + 1, b, tw);
        assert((flatten_contrib(frags[a], tw) + flatten_range(frags, a + 1, b, tw))
            + flatten_contrib(frags[b], tw) =~= flatten_contrib(frags[a], tw) + (flatten_range(
            frags,
            a + 1,
            b,
            tw,
        ) + flatten_contrib(frags[b], tw)));
    }
}

/// The flattened line with its terminator stripped: one trailing newline,
/// then every trailing carriage return.
pub open spec fn drop_trailing_cr(l: Seq<u8>) -> Seq<u8>
    decreases l.len(),
{
    if l.len() > 0 && l[l.len() - 1] == 0x0d {
        drop_trailing_cr(l.drop_last())
    } else {
        l
    }
}

pub open spec fn line_clean(l: Seq<u8>) -> Seq<u8> {
    drop_trailing_cr(
        if l.len() > 0 && l[l.len() - 1] == 0x0a {
            l.drop_last()
        } else {
            l
        },
    )
}

/// Whether `v` is the byte count of some prefix of the original list.
spec fn is_orig_prefix(orig: Seq<FragmentModel>, v: usize) -> bool {
    exists|k: int| 0 <= k <= orig.len() && v as int == prefix_size(orig, k)
}

/// Whether `v` is the byte count of an original prefix longer than `i`
/// fragments: the entry at `i` always covers at least `i + 1` originals.
spec fn entry_covers(orig: Seq<FragmentModel>, i: int, v: usize) -> bool {
    exists|k: int| i < k <= orig.len() && v as int == prefix_size(orig, k)
}

/// The cursor as a mathematical value: the fragments, the per-fragment
/// original byte offsets, and the two positions.
pub struct CursorModel {
    pub frags: Seq<FragmentModel>,
    pub offs: Seq<usize>,
    pub pos: int,
    pub line_start: int,
}

/// One fragment removed, with the byte accounting and both positions kept
/// in step.
pub open spec fn remove_model(st: CursorModel, i: int) -> CursorModel {
    if 0 <= i < st.frags.len() {
        let no = st.offs.remove(i);
        CursorModel {
            frags: st.frags.remove(i),
            offs: no,
            pos: st.pos - 1,
            line_start: if st.line_start > no.len() {
                no.len() as int
            } else {
                st.line_start
            },
        }
    } else {
        st
    }
}

/// Up to `m` removals of the fragment at `i`, each only while `i` is
/// before the cursor.
pub open spec fn join_removals(st: CursorModel, i: int, m: int) -> CursorModel
    decreases m,
{
    if m <= 0 {
        st
    } else {
        let st1 = if 0 <= i < st.frags.len() && i < st.pos {
            remove_model(st, i)
        } else {
            st
        };
        join_removals(st1, i, m - 1)
    }
}

/// Remove the run of cursor-forward fragments at `i`.
pub open spec fn join_drop_cufs(st: CursorModel, i: int) -> CursorModel
    decreases st.frags.len(),
{
    if 0 <= i < st.frags.len() && i < st.pos && spec_is_cuf(st.frags[i]) {
        join_drop_cufs(remove_model(st, i), i)
    } else {
        st
    }
}

/// What one join does to the cursor: the fragment before `line_start`
/// loses its line terminator; the visual break's cursor-down (and its
/// optional cursor-forward), plus any further cursor-forward run, are
/// removed; and the continuation's first plain fragment loses its leading
/// indent. The position drops by exactly the number of removed fragments.
pub open spec fn spec_cursor_join(st: CursorModel) -> CursorModel {
    if st.line_start <= 0 || st.line_start > st.frags.len() {
        st
    } else {
        let vbl: int = match spec_visual_break(st.frags, st.line_start - 1) {
            Some(v) => v,
            None => 0,
        };
        let at = st.line_start - 1;
        let st1 = CursorModel {
            frags: st.frags.update(at, chomped(st.frags[at])),
            ..st
        };
        let st2 = join_removals(st1, st.line_start, if vbl >= 1 {
            vbl - 1
        } else {
            0
        });
        let st3 = join_drop_cufs(st2, st.line_start);
        CursorModel {
            frags: ltrim_first_plain_spec(st3.frags, st.line_start, st3.pos),
            ..st3
        }
    }
}

/// The line extraction as a function of the cursor: the position moves
/// past the first boundary, `line_start` marks where it stood, and the
/// extracted line is the cleaned, flattened text in between.
pub open spec fn spec_cursor_extract(st: CursorModel, tw: int) -> (CursorModel, Option<Seq<u8>>) {
    if st.pos < 0 || st.pos > st.frags.len() {
        (st, None)
    } else {
        match find_reformat_boundary(st.frags, st.pos) {
            None => (st, None),
            Some(b) => {
                let np = if st.pos < b + 1 && b + 1 <= st.frags.len() {
                    b + 1
                } else {
                    st.pos + 1
                };
                (
                    CursorModel { pos: np, line_start: st.pos, ..st },
                    Some(line_clean(flatten_range(st.frags, st.pos, np, tw))),
                )
            },
        }
    }
}

/// The cursor moved to `pos`, clamped to the list's length.
pub open spec fn spec_set_position(st: CursorModel, pos: int) -> CursorModel {
    CursorModel {
        pos: if pos <= st.frags.len() {
            pos
        } else {
            st.frags.len() as int
        },
        ..st
    }
}

/// The cursor moved back to the start of the line last extracted.
pub open spec fn spec_rewind(st: CursorModel) -> CursorModel {
    CursorModel { pos: st.line_start, ..st }
}

/// The continuation-joining inner loop: extract the next line; join it
/// when it looks like a wrapped continuation; stop (rewound to before it)
/// when it does not, or stop the whole pass when the list ends inside a
/// line. The flag says whether the whole pass stops.
pub open spec fn spec_inner_joins(
    st: CursorModel,
    adjusted: int,
    plw: int,
    fuel: int,
    tw: u16,
) -> (CursorModel, bool)
    decreases fuel,
{
    if fuel <= 0 {
        (st, false)
    } else {
        match spec_cursor_extract(st, tw as int) {
            (st0, None) => (spec_set_position(st0, adjusted), true),
            (st1, Some(line)) => {
                match spec_url_continuation_indent(line) {
                    None => (spec_rewind(st1), false),
                    Some(margin) => {
                        if !all_graphic(line.skip(margin)) && tw as int > plw {
                            (spec_rewind(st1), false)
                        } else {
                            let st2 = spec_cursor_join(st1);
                            if !spec_can_have_another_url_continuation(line, tw) {
                                (spec_rewind(st2), false)
                            } else {
                                spec_inner_joins(
                                    st2,
                                    adjusted,
                                    crate::width::line_width_spec(line) as int,
                                    fuel - 1,
                                    tw,
                                )
                            }
                        }
                    },
                }
            },
        }
    }
}

/// The whole reconstruction pass: extract each line, look back for a URL
/// scheme split across the previous wrap, and when the line's rightmost
/// URL reaches the terminal's right edge, join the wrapped continuations
/// that follow it.
pub open spec fn spec_reconstruct(
    st: CursorModel,
    prev: Option<(int, Seq<u8>)>,
    fuel: int,
    tw: u16,
) -> CursorModel
    decreases fuel,
{
    if fuel <= 0 {
        st
    } else {
        let adjusted = st.pos;
        match spec_cursor_extract(st, tw as int) {
            (st0, None) => st0,
            (st1, Some(first_line)) => {
                let back = match prev {
                    Some((pa, pl)) => if spec_has_split_url_scheme(pl, first_line) {
                        let stp = spec_set_position(spec_cursor_join(st1), pa);
                        match spec_cursor_extract(stp, tw as int) {
                            (ste, Some(l)) => (ste, stp.pos, l, false),
                            (ste, None) => (ste, stp.pos, first_line, true),
                        }
                    } else {
                        (st1, adjusted, first_line, false)
                    },
                    None => (st1, adjusted, first_line, false),
                };
                if back.3 {
                    back.0
                } else {
                    if !spec_should_attempt_url_unwrap(back.2, tw) {
                        let nprev: Option<(int, Seq<u8>)> = if crate::width::line_width_spec(
                            back.2,
                        ) == tw as int {
                            Some((back.1, back.2))
                        } else {
                            None
                        };
                        spec_reconstruct(back.0, nprev, fuel - 1, tw)
                    } else {
                        let t = spec_inner_joins(
                            back.0,
                            back.1,
                            crate::width::line_width_spec(back.2) as int,
                            usize::MAX as int,
                            tw,
                        );
                        if t.1 {
                            t.0
                        } else {
                            spec_reconstruct(t.0, None, fuel - 1, tw)
                        }
                    }
                }
            },
        }
    }
}

/// The per-fragment original byte offsets of an untouched list.
pub open spec fn pristine_offsets(orig: Seq<FragmentModel>) -> Seq<usize> {
    Seq::new(orig.len(), |j: int| prefix_size(orig, j + 1) as usize)
}

/// What the whole adjustment gives: the reconstruction pass over the
/// list, then the forced release of one fragment when the buffer can take
/// no more, then the cut at the final position. The first component is
/// the fragment list kept and emitted; the second is the count of
/// consumed original bytes.
pub open spec fn cursor_adjust_spec(orig: Seq<FragmentModel>, allow: bool, tw: u16) -> (
    Seq<FragmentModel>,
    int,
) {
    let st = CursorModel {
        frags: orig,
        offs: pristine_offsets(orig),
        pos: 0,
        line_start: 0,
    };
    let stf = spec_reconstruct(st, None, usize::MAX as int, tw);
    let fp: int = if allow && stf.pos == 0 && stf.frags.len() > 0 {
        if 1 <= stf.frags.len() {
            1
        } else {
            stf.frags.len() as int
        }
    } else {
        stf.pos
    };
    (stf.frags.take(fp), if fp >= 1 {
        stf.offs[fp - 1] as int
    } else {
        0
    })
}

struct FragmentCursor {
    fragments: Vec<Fragment>,
    end_offsets: Vec<usize>,
    position: usize,
    line_start: usize,
    terminal_width: usize,
    orig: Ghost<Seq<FragmentModel>>,
}

impl FragmentCursor {
    /// The cursor's mathematical value.
    spec fn model(&self) -> CursorModel {
        CursorModel {
            frags: self.fragments.deep_view(),
            offs: self.end_offsets@,
            pos: self.position as int,
            line_start: self.line_start as int,
        }
    }

    spec fn wf(&self) -> bool {
        &&& self.fragments.deep_view().len() == self.end_offsets@.len()
        &&& self.position <= self.end_offsets@.len()
        &&& self.line_start <= self.end_offsets@.len()
        &&& forall|i: int|
            0 <= i < self.end_offsets@.len() ==> #[trigger] entry_covers(
                self.orig@,
                i,
                self.end_offsets@[i],
            )
        &&& reduced_from(self.fragments.deep_view(), self.orig@)
        &&& self.orig@.len() > 0 ==> self.fragments.deep_view().len() >= 1
    }

    fn new(fragments: Vec<Fragment>, terminal_width: u16) -> (r: FragmentCursor)
        requires
            list_size(fragments.deep_view()) <= usize::MAX,
        ensures
            r.wf(),
            r.orig@ == fragments.deep_view(),
            r.position == 0,
            r.line_start == 0,
            r.terminal_width == terminal_width,
            r.fragments.deep_view() == fragments.deep_view(),
            r.end_offsets@.len() == fragments.deep_view().len(),
            forall|j: int|
                0 <= j < r.end_offsets@.len() ==> #[trigger] r.end_offsets@[j] as int
                    == prefix_size(r.orig@, j + 1),
    {
        let ghost orig = fragments.deep_view();
        let mut end_offsets: Vec<usize> = Vec::new();
        let mut acc: usize = 0;
        let mut i: usize = 0;
        while i < fragments.len()
            invariant
                0 <= i <= orig.len(),
                fragments.deep_view() == orig,
                list_size(orig) <= usize::MAX,
                end_offsets@.len() == i,
                acc == prefix_size(orig, i as int),
                forall|j: int|
                    0 <= j < i ==> #[trigger] end_offsets@[j] as int == prefix_size(orig, j + 1),
            decreases orig.len() - i,
        {
            proof {
                lemma_list_size_split(orig.take(i as int + 1), i as int);
                assert(orig.take(i as int + 1).take(i as int) =~= orig.take(i as int));
                assert(orig.take(i as int + 1).skip(i as int) =~= seq![orig[i as int]]);
                assert(seq![orig[i as int]].skip(1) =~= Seq::<FragmentModel>::empty());
                assert(list_size(Seq::<FragmentModel>::empty()) == 0);
                lemma_list_size_split(orig, i as int + 1);
                lemma_list_size_nonneg(orig.skip(i as int + 1));
                lemma_list_size_nonneg(orig.take(i as int));
            }
            acc = acc + fragments[i].size();
            end_offsets.push(acc);
            i = i + 1;
        }
        proof {
            assert forall|j: int|
                0 <= j < end_offsets@.len() implies #[trigger] entry_covers(
                orig,
                j,
                end_offsets@[j],
            ) by {
                assert(end_offsets@[j] as int == prefix_size(orig, j + 1));
            }
            lemma_reduced_refl(orig);
        }
        FragmentCursor {
            fragments,
            end_offsets,
            position: 0,
            line_start: 0,
            terminal_width: terminal_width as usize,
            orig: Ghost(orig),
        }
    }

    fn position(&self) -> (r: usize)
        ensures
            r == self.position,
    {
        self.position
    }

    /// Move to `pos`, clamped to the list's length.
    fn set_position(&mut self, pos: usize)
        requires
            old(self).wf(),
        ensures
            final (self).wf(),
            final (self).orig == old(self).orig,
            final (self).position <= pos,
            final (self).position == if pos as int <= old(self).fragments.deep_view().len() {
                pos as int
            } else {
                old(self).fragments.deep_view().len() as int
            },
            final (self).fragments == old(self).fragments,
            final (self).end_offsets == old(self).end_offsets,
            final (self).line_start == old(self).line_start,
            final (self).terminal_width == old(self).terminal_width,
            final (self).model() == spec_set_position(old(self).model(), pos as int),
    {
        if pos <= self.end_offsets.len() {
            self.position = pos;
        } else {
            self.position = self.end_offsets.len();
        }
    }

    fn len(&self) -> (r: usize)
        ensures
            r == self.fragments.deep_view().len(),
    {
        self.fragments.len()
    }

    /// Back to the start of the line last extracted.
    fn rewind(&mut self)
        requires
            old(self).wf(),
        ensures
            final (self).wf(),
            final (self).orig == old(self).orig,
            final (self).terminal_width == old(self).terminal_width,
            final (self).model() == spec_rewind(old(self).model()),
    {
        self.position = self.line_start;
    }

    /// Remove the fragment at `index`, keeping the byte accounting and the
    /// cursor position in step.
    fn remove_at(&mut self, index: usize)
        requires
            old(self).wf(),
            1 <= index < old(self).fragments.deep_view().len(),
            index < old(self).position,
        ensures
            final (self).wf(),
            final (self).orig == old(self).orig,
            final (self).position == old(self).position - 1,
            final (self).fragments.deep_view().len() == old(self).fragments.deep_view().len()
                - 1,
            final (self).model() == remove_model(old(self).model(), index as int),
            final (self).terminal_width == old(self).terminal_width,
        {
        let ghost pre = self.end_offsets@;
        let ghost frags_pre = self.fragments.deep_view();
        self.fragments.remove(index);
        self.end_offsets.remove(index);
        self.position = self.position - 1;
        if self.line_start > self.end_offsets.len() {
            self.line_start = self.end_offsets.len();
        }
        proof {
            assert forall|i: int|
                0 <= i < self.end_offsets@.len() implies #[trigger] entry_covers(
                self.orig@,
                i,
                self.end_offsets@[i],
            ) by {
                if i < index {
                    assert(self.end_offsets@[i] == pre[i]);
                    assert(entry_covers(self.orig@, i, pre[i]));
                } else {
                    assert(self.end_offsets@[i] == pre[i + 1]);
                    assert(entry_covers(self.orig@, i + 1, pre[i + 1]));
                    let k = choose|k: int|
                        i + 1 < k <= self.orig@.len() && pre[i + 1] as int == prefix_size(
                            self.orig@,
                            k,
                        );
                    assert(entry_covers(self.orig@, i, pre[i + 1]));
                }
            }
            lemma_reduced_remove(frags_pre, self.orig@, index as int);
            assert(self.fragments.deep_view() =~= frags_pre.remove(index as int));
            assert(self.end_offsets@ =~= pre.remove(index as int));
            assert(self.model() == remove_model(old(self).model(), index as int));
        }
    }

    /// Advance past the fragments of one line: up to a plain fragment with
    /// a newline or beginning a visual line break, or an escape sequence
    /// that is a delivery boundary. Returns the line's flattened plain
    /// text — cursor-forward sequences expanded to spaces — or `None` when
    /// no boundary was found before the list ended.
    fn extract_line(&mut self) -> (r: Option<Vec<u8>>)
        requires
            old(self).wf(),
        ensures
            final (self).wf(),
            final (self).orig == old(self).orig,
            final (self).terminal_width == old(self).terminal_width,
            match r {
                Some(line) => {
                    &&& old(self).position < final (self).position <= final (
                    self).fragments.deep_view().len()
                    &&& final (self).line_start == old(self).position
                    &&& final (self).fragments == old(self).fragments
                    &&& final (self).end_offsets == old(self).end_offsets
                    &&& find_reformat_boundary(
                        old(self).fragments.deep_view(),
                        old(self).position as int,
                    ) == Some(final (self).position - 1)
                    &&& line@ == line_clean(
                        flatten_range(
                            old(self).fragments.deep_view(),
                            old(self).position as int,
                            final (self).position as int,
                            old(self).terminal_width as int,
                        ),
                    )
                    &&& spec_cursor_extract(old(self).model(), old(self).terminal_width as int)
                        == (final (self).model(), Some(line@))
                },
                None => *final (self) == *old(self) && spec_cursor_extract(
                    old(self).model(),
                    old(self).terminal_width as int,
                ) == (final (self).model(), Option::<Seq<u8>>::None),
            },
    {
        let start = self.position;
        if start > self.fragments.len() {
            return None;
        }
        let mut i = start;
        let mut found = false;
        while i < self.fragments.len() && !found
            invariant
                start <= i <= self.fragments.deep_view().len(),
                found ==> start < i && reformat_boundary(self.fragments.deep_view(), i - 1) && (
                forall|k: int|
                    start <= k < i - 1 ==> !reformat_boundary(self.fragments.deep_view(), k)),
                !found ==> forall|k: int|
                    start <= k < i ==> !reformat_boundary(self.fragments.deep_view(), k),
            decreases self.fragments.deep_view().len() - i, (if found {
                0int
            } else {
                1int
            }),
        {
            let f = &self.fragments[i];
            proof {
                assert(f@ == self.fragments.deep_view()[i as int]);
            }
            let at = i;
            i = i + 1;
            if f.is_plain_text() {
                if scan_byte(f.data(), 0, 0x0a).is_some() {
                    found = true;
                } else if visual_line_break_length(&self.fragments, at).is_some() {
                    found = true;
                }
            } else {
                match f.escape_sequence() {
                    Some(
                        EscapeSequence::EndSynchronizedUpdate
                        | EscapeSequence::ShowCursor
                        | EscapeSequence::SetWindowAndIconTitle(_)
                        | EscapeSequence::ShowDesktopNotification(_, _),
                    ) => {
                        found = true;
                    },
                    _ => {},
                }
            }
        }
        if !found {
            proof {
                lemma_find_reformat_boundary_is_none(self.fragments.deep_view(), start as int);
            }
            return None;
        }
        proof {
            lemma_find_reformat_boundary_is(self.fragments.deep_view(), start as int, i as int
                - 1);
        }
        self.line_start = start;
        self.position = i;
        let ghost dv = self.fragments.deep_view();
        let ghost tw = self.terminal_width as int;
        let mut line: Vec<u8> = Vec::new();
        let mut j = start;
        proof {
            assert(flatten_range(dv, start as int, start as int, tw) =~= Seq::<u8>::empty());
        }
        while j < i
            invariant
                start <= j <= i <= self.fragments.deep_view().len(),
                dv == self.fragments.deep_view(),
                tw == self.terminal_width as int,
                line@ == flatten_range(dv, start as int, j as int, tw),
            decreases i - j,
        {
            proof {
                lemma_flatten_range_snoc(dv, start as int, j as int, tw);
            }
            let f = &self.fragments[j];
            proof {
                assert(f@ == dv[j as int]);
            }
            if f.is_plain_text() {
                push_bytes(&mut line, f.data());
            } else {
                match cursor_forward_columns(f.data()) {
                    Some(n) => {
                        let cols = if n <= self.terminal_width {
                            n
                        } else {
                            self.terminal_width
                        };
                        let ghost pre = line@;
                        let mut c: usize = 0;
                        while c < cols
                            invariant
                                c <= cols,
                                line@.len() == pre.len() + c,
                                line@.take(pre.len() as int) == pre,
                                forall|m: int|
                                    pre.len() <= m < line@.len() ==> #[trigger] line@[m] == 0x20,
                            decreases cols - c,
                        {
                            line.push(0x20);
                            c = c + 1;
                            proof {
                                assert(line@.take(pre.len() as int) =~= pre);
                            }
                        }
                        proof {
                            assert(line@ =~= pre + flatten_contrib(dv[j as int], tw));
                        }
                    },
                    None => {
                        proof {
                            assert(line@ + Seq::<u8>::empty() =~= line@);
                        }
                    },
                }
            }
            j = j + 1;
        }
        proof {
            assert(line@ == flatten_range(dv, start as int, i as int, tw));
        }
        let ghost flat = line@;
        if line.len() >= 1 && line[line.len() - 1] == 0x0a {
            line.pop();
            proof {
                assert(line@ =~= flat.drop_last());
            }
        }
        let ghost nl_dropped = line@;
        while line.len() >= 1 && line[line.len() - 1] == 0x0d
            invariant
                drop_trailing_cr(line@) == drop_trailing_cr(nl_dropped),
            decreases line@.len(),
        {
            let ghost cur = line@;
            line.pop();
            proof {
                assert(line@ =~= cur.drop_last());
            }
        }
        proof {
            assert(drop_trailing_cr(line@) == line@);
            assert(line@ == line_clean(flat));
        }
        Some(line)
    }

    /// Join the just-extracted continuation line onto the line before it:
    /// strip the previous line's terminator, drop the visual-break and
    /// cursor-forward fragments of the boundary, and trim the
    /// continuation's leading indent.
    fn join(&mut self)
        requires
            old(self).wf(),
        ensures
            final (self).wf(),
            final (self).orig == old(self).orig,
            final (self).terminal_width == old(self).terminal_width,
            final (self).model() == spec_cursor_join(old(self).model()),
    {
        if self.line_start == 0 || self.line_start > self.fragments.len() {
            return ;
        }
        let ghost st0 = self.model();
        let vbl = match visual_line_break_length(&self.fragments, self.line_start - 1) {
            Some(v) => v,
            None => 0,
        };
        let at = self.line_start - 1;
        if at < self.fragments.len() {
            let ghost frags_pre = self.fragments.deep_view();
            let mut f = self.fragments.remove(at);
            f.chomp();
            self.fragments.insert(at, f);
            proof {
                assert(self.fragments.deep_view() =~= frags_pre.update(
                    at as int,
                    chomped(frags_pre[at as int]),
                ));
                lemma_chomp_keeps_trim(frags_pre[at as int]);
                lemma_reduced_update(
                    frags_pre,
                    self.orig@,
                    at as int,
                    chomped(frags_pre[at as int]),
                );
            }
        }
        let i = self.line_start;
        let ghost st1 = self.model();
        let mut removals: usize = if vbl >= 1 {
            vbl - 1
        } else {
            0
        };
        let ghost m0 = removals as int;
        while removals > 0
            invariant
                self.wf(),
                self.orig == old(self).orig,
                self.terminal_width == old(self).terminal_width,
                1 <= i,
                removals as int <= m0,
                join_removals(st1, i as int, m0) == join_removals(
                    self.model(),
                    i as int,
                    removals as int,
                ),
            decreases removals,
        {
            if i < self.fragments.len() && i < self.position {
                self.remove_at(i);
            }
            removals = removals - 1;
        }
        let ghost st2 = self.model();
        let mut more = true;
        while more
            invariant
                self.wf(),
                self.orig == old(self).orig,
                self.terminal_width == old(self).terminal_width,
                1 <= i,
                join_drop_cufs(st2, i as int) == (if more {
                    join_drop_cufs(self.model(), i as int)
                } else {
                    self.model()
                }),
            decreases (if more {
                1int
            } else {
                0int
            }), self.fragments.deep_view().len(),
        {
            if i < self.fragments.len() && i < self.position && is_cuf(&self.fragments[i]) {
                proof {
                    assert(self.fragments.deep_view()[i as int] == self.fragments@[
                        i as int].deep_view());
                }
                self.remove_at(i);
            } else {
                more = false;
            }
        }
        let ghost st3 = self.model();
        proof {
            assert(st3 == join_drop_cufs(st2, i as int));
            assert(st1 == CursorModel {
                frags: st0.frags.update(i as int - 1, chomped(st0.frags[i as int - 1])),
                ..st0
            });
            assert(spec_cursor_join(st0) == CursorModel {
                frags: ltrim_first_plain_spec(st3.frags, i as int, st3.pos),
                ..st3
            });
        }
        let mut j = i;
        while j < self.position && j < self.fragments.len()
            invariant
                self.wf(),
                self.orig == old(self).orig,
                self.terminal_width == old(self).terminal_width,
                1 <= i <= j,
                self.model() == st3,
                old(self).model() == st0,
                spec_cursor_join(st0) == (CursorModel {
                    frags: ltrim_first_plain_spec(st3.frags, i as int, st3.pos),
                    ..st3
                }),
                forall|jj: int|
                    i <= jj < j ==> (#[trigger] st3.frags[jj]).escape_sequence is Some,
            decreases self.position - j,
        {
            if self.fragments[j].is_plain_text() {
                proof {
                    assert(self.fragments.deep_view()[j as int] == self.fragments@[
                        j as int].deep_view());
                    lemma_first_plain_is(st3.frags, i as int, j as int, st3.pos);
                }
                let ghost frags_pre = self.fragments.deep_view();
                let mut f = self.fragments.remove(j);
                f.ltrim();
                self.fragments.insert(j, f);
                proof {
                    assert(self.fragments.deep_view() =~= frags_pre.update(
                        j as int,
                        ltrimmed(frags_pre[j as int]),
                    ));
                    lemma_ltrim_keeps_trim(frags_pre[j as int]);
                    lemma_reduced_update(
                        frags_pre,
                        self.orig@,
                        j as int,
                        ltrimmed(frags_pre[j as int]),
                    );
                }
                return ;
            }
            proof {
                assert(self.fragments.deep_view()[j as int] == self.fragments@[
                    j as int].deep_view());
            }
            j = j + 1;
        }
        proof {
            lemma_first_plain_none(st3.frags, i as int, st3.pos);
        }
    }

    /// Keep only the fragments before the cursor and report how many
    /// original input bytes they stood for.
    fn truncate(self) -> (r: (Vec<Fragment>, usize))
        requires
            self.wf(),
        ensures
            is_orig_prefix(self.orig@, r.1),
            reduced_from(r.0.deep_view(), self.orig@),
            r.0.deep_view() == self.fragments.deep_view().take(self.position as int),
            self.position >= 1 ==> r.1 == self.end_offsets@[self.position - 1],
            self.position == 0 ==> r.1 == 0,
            exists|k: int|
                r.0.deep_view().len() as int <= k <= self.orig@.len() && r.1 as int == prefix_size(
                    self.orig@,
                    k,
                ),
            self.position >= 1 ==> r.0.deep_view().len() >= 1 && exists|k: int|
                1 <= k <= self.orig@.len() && r.1 as int == prefix_size(self.orig@, k),
    {
        let ghost orig_g = self.orig@;
        let ghost kept_pre = self.fragments.deep_view();
        let FragmentCursor { mut fragments, end_offsets, position, .. } = self;
        let consumed = if position >= 1 {
            let c = end_offsets[position - 1];
            proof {
                assert(entry_covers(orig_g, position - 1, end_offsets@[position - 1]));
                let k = choose|k: int|
                    position - 1 < k <= orig_g.len() && end_offsets@[position - 1] as int
                        == prefix_size(orig_g, k);
                assert(1 <= k <= orig_g.len());
                assert(position as int <= k);
            }
            c
        } else {
            proof {
                assert(orig_g.take(0) =~= Seq::<FragmentModel>::empty());
                assert(list_size(Seq::<FragmentModel>::empty()) == 0);
                assert(0int == prefix_size(orig_g, 0));
                assert(is_orig_prefix(orig_g, 0usize));
            }
            0
        };
        fragments.truncate(position);
        proof {
            assert(fragments.deep_view() =~= kept_pre.take(position as int));
            lemma_reduced_take(kept_pre, orig_g, position as int);
        }
        (fragments, consumed)
    }
}

/// Walk the fragment list and join wrapped URL continuations onto the
/// lines they continue; fragments past the last complete line are left
/// unconsumed for the next read. The emitted fragments are drawn from the
/// input in order: a join may only drop the boundary's break fragments and
/// strip a line terminator or a continuation indent from a kept one.
/// Returns how many original input bytes the kept fragments stood for.
/// When nothing could be kept but the buffer can take no more
/// (`allow_incomplete`), at least one fragment is released so the stream
/// keeps moving.
pub fn adjust_line_wrapping(
    fragments: &mut Vec<Fragment>,
    allow_incomplete: bool,
    terminal_width: u16,
) -> (consumed: usize)
    requires
        list_size(old(fragments).deep_view()) <= usize::MAX,
    ensures
        final (fragments).deep_view() == cursor_adjust_spec(
            old(fragments).deep_view(),
            allow_incomplete,
            terminal_width,
        ).0,
        consumed as int == cursor_adjust_spec(
            old(fragments).deep_view(),
            allow_incomplete,
            terminal_width,
        ).1,
        exists|k: int|
            final (fragments).deep_view().len() as int <= k <= old(fragments).deep_view().len()
                && consumed as int == prefix_size(old(fragments).deep_view(), k),
        consumed <= list_size(old(fragments).deep_view()),
        reduced_from(final (fragments).deep_view(), old(fragments).deep_view()),
        allow_incomplete && old(fragments).deep_view().len() > 0 ==> final (
        fragments).deep_view().len() >= 1 && (exists|k: int|
            1 <= k <= old(fragments).deep_view().len() && consumed as int == prefix_size(
                old(fragments).deep_view(),
                k,
            )),
        !allow_incomplete && find_reformat_boundary(old(fragments).deep_view(), 0) is None
            ==> consumed == 0 && final (fragments).deep_view().len() == 0,
        allow_incomplete && find_reformat_boundary(old(fragments).deep_view(), 0) is None && old(
            fragments,
        ).deep_view().len() > 0 ==> final (fragments).deep_view() == old(
            fragments,
        ).deep_view().take(1) && consumed as int == prefix_size(old(fragments).deep_view(), 1),
{
    let ghost orig = fragments.deep_view();
    let mut work: Vec<Fragment> = Vec::new();
    core::mem::swap(fragments, &mut work);
    let mut cursor = FragmentCursor::new(work, terminal_width);
    let ghost st_init = cursor.model();
    proof {
        assert(st_init.offs =~= pristine_offsets(orig));
    }
    let mut prev: Option<(usize, Vec<u8>)> = None;
    let mut outer_done = false;
    // a defensive bound on the analysis; line extraction never comes near it
    let mut fuel: usize = usize::MAX;
    while !outer_done
        invariant
            cursor.wf(),
            cursor.orig@ == orig,
            cursor.terminal_width == terminal_width,
            prev is Some ==> 1 <= cursor.position,
            spec_reconstruct(st_init, None, usize::MAX as int, terminal_width) == (
            if outer_done {
                cursor.model()
            } else {
                spec_reconstruct(
                    cursor.model(),
                    match prev {
                        Some((a, l)) => Some((a as int, l@)),
                        None => None::<(int, Seq<u8>)>,
                    },
                    fuel as int,
                    terminal_width,
                )
            }),
            find_reformat_boundary(orig, 0) is None ==> cursor.fragments.deep_view() == orig
                && cursor.position == 0 && prev is None && (forall|j: int|
                0 <= j < cursor.end_offsets@.len() ==> #[trigger] cursor.end_offsets@[j] as int
                    == prefix_size(orig, j + 1)) && cursor.end_offsets@.len() == orig.len(),
        decreases (if outer_done {
            0int
        } else {
            1int
        }), fuel,
    {
        let ghost m_in = cursor.model();
        let ghost p_in: Option<(int, Seq<u8>)> = match &prev {
            Some((a, l)) => Some((*a as int, l@)),
            None => None,
        };
        let ghost f_in = fuel as int;
        if fuel == 0 {
            outer_done = true;
            continue ;
        }
        fuel = fuel - 1;
        let mut adjusted = cursor.position();
        match cursor.extract_line() {
            None => {
                outer_done = true;
            },
            Some(first_line) => {
                let mut line = first_line;
                let taken = prev;
                prev = None;
                let mut halted = false;
                if let Some((prev_adjusted, prev_line)) = taken {
                    if has_split_url_scheme(prev_line.as_slice(), line.as_slice()) {
                        cursor.join();
                        cursor.set_position(prev_adjusted);
                        adjusted = cursor.position();
                        match cursor.extract_line() {
                            Some(rejoined) => {
                                line = rejoined;
                            },
                            None => {
                                halted = true;
                                outer_done = true;
                            },
                        }
                    }
                }
                if !halted {
                    if !should_attempt_url_unwrap(line.as_slice(), terminal_width) {
                        if line_width(line.as_slice()) == terminal_width as usize {
                            prev = Some((adjusted, line));
                        }
                    } else {
                        let mut previous_line_width = line_width(line.as_slice());
                        let mut inner_done = false;
                        let mut inner_fuel: usize = usize::MAX;
                        while !inner_done
                            invariant
                                cursor.wf(),
                                cursor.orig@ == orig,
                                cursor.terminal_width == terminal_width,
                                outer_done ==> inner_done,
                                prev is None,
                                spec_reconstruct(st_init, None, usize::MAX as int, terminal_width)
                                    == (if outer_done {
                                    cursor.model()
                                } else if inner_done {
                                    spec_reconstruct(
                                        cursor.model(),
                                        None::<(int, Seq<u8>)>,
                                        fuel as int,
                                        terminal_width,
                                    )
                                } else {
                                    let t = spec_inner_joins(
                                        cursor.model(),
                                        adjusted as int,
                                        previous_line_width as int,
                                        inner_fuel as int,
                                        terminal_width,
                                    );
                                    if t.1 {
                                        t.0
                                    } else {
                                        spec_reconstruct(
                                            t.0,
                                            None::<(int, Seq<u8>)>,
                                            fuel as int,
                                            terminal_width,
                                        )
                                    }
                                }),
                            decreases (if inner_done {
                                0int
                            } else {
                                1int
                            }), inner_fuel,
                        {
                            if inner_fuel == 0 {
                                inner_done = true;
                                continue ;
                            }
                            inner_fuel = inner_fuel - 1;
                            match cursor.extract_line() {
                                None => {
                                    cursor.set_position(adjusted);
                                    inner_done = true;
                                    outer_done = true;
                                },
                                Some(next_line) => {
                                    match url_continuation_indent(next_line.as_slice()) {
                                        None => {
                                            cursor.rewind();
                                            inner_done = true;
                                        },
                                        Some(margin) => {
                                            let tail = slice_subrange(
                                                next_line.as_slice(),
                                                margin,
                                                next_line.len(),
                                            );
                                            proof {
                                                assert(tail@ =~= next_line@.skip(margin as int));
                                            }
                                            let graphic = is_ascii_graphic_run(tail);
                                            if !graphic && terminal_width as usize
                                                > previous_line_width {
                                                cursor.rewind();
                                                inner_done = true;
                                            } else {
                                                cursor.join();
                                                previous_line_width = line_width(
                                                    next_line.as_slice(),
                                                );
                                                if !can_have_another_url_continuation(
                                                    next_line.as_slice(),
                                                    terminal_width,
                                                ) {
                                                    cursor.rewind();
                                                    inner_done = true;
                                                }
                                            }
                                        },
                                    }
                                },
                            }
                        }
                    }
                }
            },
        }
    }
    let low = cursor.position();
    if allow_incomplete && low == 0 && cursor.len() > 0 {
        cursor.set_position(1);
    }
    proof {
        if allow_incomplete && orig.len() > 0 {
            assert(cursor.position >= 1);
        }
    }
    let ghost pristine = find_reformat_boundary(orig, 0) is None;
    let ghost pre_truncate = cursor;
    let (kept, consumed) = cursor.truncate();
    *fragments = kept;
    proof {
        if pristine {
            if allow_incomplete && orig.len() > 0 {
                assert(pre_truncate.position == 1);
                assert(fragments.deep_view() =~= orig.take(1));
                assert(consumed as int == prefix_size(orig, 1));
            } else if !allow_incomplete {
                assert(pre_truncate.position == 0);
                assert(fragments.deep_view() =~= orig.take(0));
            }
        }
        assert(is_orig_prefix(orig, consumed));
        let k = choose|k: int| 0 <= k <= orig.len() && consumed as int == prefix_size(orig, k);
        lemma_list_size_split(orig, k);
        lemma_list_size_nonneg(orig.skip(k));
        lemma_list_size_nonneg(orig.take(k));
    }
    consumed
}

} // verus!
