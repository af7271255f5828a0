//! Rejoining hard-wrapped URLs, line by line.
//!
//! A terminal that reaches the configured column width forces a wrap in
//! the middle of what the program meant as one token — most visibly a long
//! URL. This pass walks the fragment list line by line; when a line ends
//! in a URL that reaches the terminal's right edge, following lines that
//! look like wrapped continuations (one indent of two spaces, printable
//! content, not a new list item) are joined back onto it: the line
//! terminator is stripped and the continuation's indent trimmed. The
//! number of original bytes the kept fragments stood for is returned, so
//! the caller can consume exactly that much of its buffer.

use vstd::prelude::*;

use crate::byteseq::{
    bytes_eq, is_graphic, lemma_rfind_window3_is, lemma_rfind_window3_is_none,
    lemma_run_in_range_is, push_bytes, rfind_window3, run_in_range, scan_byte, scan_last_window3,
};
use crate::byteseq::find_byte;
use crate::tty_text::fragment::{
    chomp_spec, end_sync_bytes, leading_spaces, lemma_leading_spaces_props,
    lemma_list_size_nonneg, lemma_list_size_split, list_size, show_cursor_bytes, EscapeSequence,
    EscapeSequenceModel, Fragment, FragmentModel,
};
use crate::width::{line_width, line_width_spec};
use vstd::slice::slice_subrange;

verus! {

/// Sum of the sizes of the first `k` fragments.
pub open spec fn prefix_size(frags: Seq<FragmentModel>, k: int) -> int {
    list_size(frags.take(k))
}

/// The column at which a line counts as reaching the terminal's right
/// edge: the width less four columns of slack.
pub open spec fn wrap_target(tw: u16) -> int {
    if tw >= 4 {
        tw - 4
    } else {
        0
    }
}

/// Whether `b` may stand inside a wrapped URL's line: printable ASCII, or
/// one of the line-terminator bytes that the flattened line still carries.
pub open spec fn graphic_or_crlf(b: u8) -> bool {
    is_graphic(b) || b == 0x0d || b == 0x0a
}

/// A fragment with one trailing line terminator removed.
pub open spec fn chomped(m: FragmentModel) -> FragmentModel {
    FragmentModel { data: chomp_spec(m.data), escape_sequence: m.escape_sequence }
}

/// A fragment with its leading spaces removed.
pub open spec fn ltrimmed(m: FragmentModel) -> FragmentModel {
    FragmentModel {
        data: m.data.skip(leading_spaces(m.data)),
        escape_sequence: m.escape_sequence,
    }
}

/// `f` is `o` with at most its leading spaces and a trailing run of
/// carriage-return and newline bytes removed — exactly what joining a
/// wrapped line may take away — and the classification unchanged.
pub open spec fn join_trimmed(f: FragmentModel, o: FragmentModel) -> bool {
    &&& f.escape_sequence == o.escape_sequence
    &&& exists|a: int, b: int|
        #![trigger o.data.subrange(a, b)]
        {
            &&& 0 <= a <= b <= o.data.len()
            &&& f.data == o.data.subrange(a, b)
            &&& (forall|j: int| 0 <= j < a ==> o.data[j] == 0x20)
            &&& (forall|j: int| b <= j < o.data.len() ==> o.data[j] == 0x0d || o.data[j] == 0x0a)
        }
}

/// A fragment is a join-trim of itself.
pub proof fn lemma_join_trimmed_refl(f: FragmentModel)
    ensures
        join_trimmed(f, f),
{
    assert(f.data.subrange(0, f.data.len() as int) =~= f.data);
}

/// Stripping a line terminator keeps the join-trim relation.
pub proof fn lemma_join_trimmed_chomp(f: FragmentModel, o: FragmentModel)
    requires
        join_trimmed(f, o),
    ensures
        join_trimmed(chomped(f), o),
{
    let (a, b) = choose|a: int, b: int|
        #![trigger o.data.subrange(a, b)]
        {
            &&& 0 <= a <= b <= o.data.len()
            &&& f.data == o.data.subrange(a, b)
            &&& (forall|j: int| 0 <= j < a ==> o.data[j] == 0x20)
            &&& (forall|j: int| b <= j < o.data.len() ==> o.data[j] == 0x0d || o.data[j] == 0x0a)
        };
    let n = f.data.len() as int;
    if n >= 2 && f.data[n - 2] == 0x0d && f.data[n - 1] == 0x0a {
        assert(chomp_spec(f.data) =~= o.data.subrange(a, b - 2));
        assert(o.data[b - 2] == f.data[n - 2]);
        assert(o.data[b - 1] == f.data[n - 1]);
    } else if n >= 1 && f.data[n - 1] == 0x0a {
        assert(chomp_spec(f.data) =~= o.data.subrange(a, b - 1));
        assert(o.data[b - 1] == f.data[n - 1]);
    }
}

/// Trimming the leading indent keeps the join-trim relation.
pub proof fn lemma_join_trimmed_ltrim(f: FragmentModel, o: FragmentModel)
    requires
        join_trimmed(f, o),
    ensures
        join_trimmed(ltrimmed(f), o),
{
    let (a, b) = choose|a: int, b: int|
        #![trigger o.data.subrange(a, b)]
        {
            &&& 0 <= a <= b <= o.data.len()
            &&& f.data == o.data.subrange(a, b)
            &&& (forall|j: int| 0 <= j < a ==> o.data[j] == 0x20)
            &&& (forall|j: int| b <= j < o.data.len() ==> o.data[j] == 0x0d || o.data[j] == 0x0a)
        };
    let s = leading_spaces(f.data);
    lemma_leading_spaces_props(f.data);
    assert(f.data.skip(s) =~= o.data.subrange(a + s, b));
    assert forall|j: int| 0 <= j < a + s implies o.data[j] == 0x20 by {
        if j >= a {
            assert(o.data[j] == f.data[j - a]);
        }
    }
}

/// Whether a fragment ends a line of this pass: a plain run holding a
/// newline, or one of the two screen-update markers.
pub open spec fn is_line_boundary(f: FragmentModel) -> bool {
    ||| (f.escape_sequence is None && find_byte(f.data, 0, 0x0a) is Some)
    ||| (f.escape_sequence == Some(EscapeSequenceModel::Other) && (f.data == show_cursor_bytes()
        || f.data == end_sync_bytes()))
}

/// The first line boundary at or after `i`.
pub open spec fn find_line_boundary(frags: Seq<FragmentModel>, i: int) -> Option<int>
    decreases frags.len() - i,
{
    if i < 0 || i >= frags.len() {
        None
    } else if is_line_boundary(frags[i]) {
        Some(i)
    } else {
        find_line_boundary(frags, i + 1)
    }
}

proof fn lemma_find_line_boundary_is(frags: Seq<FragmentModel>, i: int, j: int)
    requires
        0 <= i <= j < frags.len(),
        is_line_boundary(frags[j]),
        forall|k: int| i <= k < j ==> !is_line_boundary(#[trigger] frags[k]),
    ensures
        find_line_boundary(frags, i) == Some(j),
    decreases j - i,
{
    if i < j {
        lemma_find_line_boundary_is(frags, i + 1, j);
    }
}

proof fn lemma_find_line_boundary_is_none(frags: Seq<FragmentModel>, i: int)
    requires
        0 <= i,
        forall|k: int| i <= k < frags.len() ==> !is_line_boundary(#[trigger] frags[k]),
    ensures
        find_line_boundary(frags, i) is None,
    decreases frags.len() - i,
{
    if i < frags.len() {
        lemma_find_line_boundary_is_none(frags, i + 1);
    }
}

/// The plain-text bytes of `frags[a..b]`, concatenated.
pub open spec fn plain_concat(frags: Seq<FragmentModel>, a: int, b: int) -> Seq<u8>
    decreases b - a,
{
    if a < 0 || a >= b || b > frags.len() {
        seq![]
    } else {
        (if frags[a].escape_sequence is None {
            frags[a].data
        } else {
            seq![]
        }) + plain_concat(frags, a + 1, b)
    }
}

proof fn lemma_plain_concat_snoc(frags: Seq<FragmentModel>, a: int, b: int)
    requires
        0 <= a <= b < frags.len(),
    ensures
        plain_concat(frags, a, b + 1) == plain_concat(frags, a, b) + (if frags[
            b
        ].escape_sequence is None {
            frags[b].data
        } else {
            Seq::<u8>::empty()
        }),
    decreases b - a,
{
    let tail: Seq<u8> = if frags[b].escape_sequence is None {
        frags[b].data
    } else {
        Seq::<u8>::empty()
    };
    if a == b {
        assert(plain_concat(frags, a, b) =~= Seq::<u8>::empty());
        assert(plain_concat(frags, b + 1, b + 1) =~= Seq::<u8>::empty());
        assert(plain_concat(frags, a, b + 1) =~= tail);
        assert(plain_concat(frags, a, b) + tail =~= tail);
    } else {
        lemma_plain_concat_snoc(frags, a + 1, b);
        let head: Seq<u8> = if frags[a].escape_sequence is None {
            frags[a].data
        } else {
            Seq::<u8>::empty()
        };
        assert((head + plain_concat(frags, a + 1, b)) + tail =~= head + (plain_concat(
            frags,
            a + 1,
            b,
        ) + tail));
    }
}

/// Flatten the plain-text fragments of `fragments[start..end]` into one
/// byte run.
fn collect_plain_text(fragments: &Vec<Fragment>, start: usize, end: usize) -> (line: Vec<u8>)
    requires
        start <= end <= fragments.deep_view().len(),
    ensures
        line@ == plain_concat(fragments.deep_view(), start as int, end as int),
{
    let mut line: Vec<u8> = Vec::new();
    let mut i = start;
    proof {
        assert(plain_concat(fragments.deep_view(), start as int, start as int)
            =~= Seq::<u8>::empty());
    }
    while i < end
        invariant
            start <= i <= end <= fragments.deep_view().len(),
            line@ == plain_concat(fragments.deep_view(), start as int, i as int),
        decreases end - i,
    {
        proof {
            lemma_plain_concat_snoc(fragments.deep_view(), start as int, i as int);
            assert(fragments.deep_view()[i as int] == fragments@[i as int].deep_view());
        }
        if fragments[i].is_plain_text() {
            push_bytes(&mut line, fragments[i].data());
        } else {
            proof {
                assert(line@ + Seq::<u8>::empty() =~= line@);
            }
        }
        i = i + 1;
    }
    line
}

/// Advance past the fragments of one line: up to a plain fragment holding
/// a newline, or one of the two screen-update markers. Returns the line's
/// flattened plain text, or `None` (leaving the position alone) when the
/// line is still growing at the end of the list.
fn extract_line(fragments: &Vec<Fragment>, index: &mut usize) -> (r: Option<Vec<u8>>)
    requires
        *old(index) <= fragments.deep_view().len(),
    ensures
        match r {
            Some(line) => {
                &&& *old(index) < *final (index) <= fragments.deep_view().len()
                &&& find_line_boundary(fragments.deep_view(), *old(index) as int) == Some(
                    *final (index) - 1,
                )
                &&& line@ == plain_concat(
                    fragments.deep_view(),
                    *old(index) as int,
                    *final (index) as int,
                )
            },
            None => *final (index) == *old(index) && find_line_boundary(
                fragments.deep_view(),
                *old(index) as int,
            ) is None,
        },
{
    let show_cursor = vec![0x1bu8, 0x5bu8, 0x3fu8, 0x32u8, 0x35u8, 0x68u8];
    let end_sync = vec![0x1bu8, 0x5bu8, 0x3fu8, 0x32u8, 0x30u8, 0x32u8, 0x36u8, 0x6cu8];
    proof {
        assert(show_cursor@ =~= show_cursor_bytes());
        assert(end_sync@ =~= end_sync_bytes());
    }
    let start = *index;
    let mut i = start;
    let mut found = false;
    while i < fragments.len() && !found
        invariant
            start <= i <= fragments.deep_view().len(),
            show_cursor@ == show_cursor_bytes(),
            end_sync@ == end_sync_bytes(),
            found ==> start < i && is_line_boundary(fragments.deep_view()[i - 1]) && (forall|
                k: int,
            | start <= k < i - 1 ==> !is_line_boundary(#[trigger] fragments.deep_view()[k])),
            !found ==> forall|k: int|
                start <= k < i ==> !is_line_boundary(#[trigger] fragments.deep_view()[k]),
        decreases fragments.deep_view().len() - i, (if found {
            0int
        } else {
            1int
        }),
    {
        let f = &fragments[i];
        proof {
            assert(f@ == fragments.deep_view()[i as int]);
        }
        i = i + 1;
        if f.is_plain_text() {
            if scan_byte(f.data(), 0, 0x0a).is_some() {
                found = true;
            }
        } else {
            match f.escape_sequence() {
                Some(EscapeSequence::Other) => {
                    if bytes_eq(f.data(), show_cursor.as_slice()) || bytes_eq(
                        f.data(),
                        end_sync.as_slice(),
                    ) {
                        found = true;
                    }
                },
                _ => {},
            }
        }
    }
    if found {
        proof {
            lemma_find_line_boundary_is(fragments.deep_view(), start as int, i as int - 1);
        }
        *index = i;
        Some(collect_plain_text(fragments, start, i))
    } else {
        proof {
            lemma_find_line_boundary_is_none(fragments.deep_view(), start as int);
        }
        None
    }
}

/// Whether a line's rightmost `://` URL reaches the terminal's right edge
/// (within four columns of slack), so that the next line may be its
/// wrapped continuation. Everything after the marker must be printable,
/// the line's own terminator bytes aside.
pub open spec fn spec_can_be_wrapped(line: Seq<u8>, tw: u16) -> bool {
    match rfind_window3(line, line.len() - 3, 0x3a, 0x2f, 0x2f) {
        None => false,
        Some(m) => (forall|j: int| m + 3 <= j < line.len() ==> graphic_or_crlf(#[trigger] line[j]))
            && wrap_target(tw) <= line_width_spec(line.take(m + 3)) + line.len() - (m + 3),
    }
}

fn can_be_wrapped(line: &[u8], terminal_width: u16) -> (r: bool)
    ensures
        r == spec_can_be_wrapped(line@, terminal_width),
{
    let total = line.len();
    let Some(m) = scan_last_window3(line, 0x3a, 0x2f, 0x2f) else { return false };
    proof {
        assert(m + 3 <= total);
    }
    let i = m + 3;
    let mut j = i;
    while j < line.len()
        invariant
            i == m + 3 <= j <= line@.len(),
            rfind_window3(line@, line@.len() - 3, 0x3a, 0x2f, 0x2f) == Some(m as int),
            forall|jj: int| i <= jj < j ==> graphic_or_crlf(#[trigger] line@[jj]),
        decreases line@.len() - j,
    {
        let b = line[j];
        if !(0x21 <= b && b <= 0x7e) && b != 0x0d && b != 0x0a {
            return false;
        }
        j = j + 1;
    }
    let head = slice_subrange(line, 0, i);
    proof {
        assert(head@ =~= line@.take(i as int));
    }
    let head_width = line_width(head);
    let tail_len = line.len() - i;
    let target = if terminal_width >= 4 {
        (terminal_width - 4) as usize
    } else {
        0
    };
    target <= head_width || target - head_width <= tail_len
}

/// Whether the line carries exactly the two-space continuation indent
/// with content after it.
pub open spec fn two_space_indented(line: Seq<u8>) -> bool {
    line.len() >= 3 && line[0] == 0x20 && line[1] == 0x20
}

/// Whether a line looks like the wrapped continuation of a URL: exactly
/// the two-space indent, not a new ordered or unordered list item, and a
/// printable first byte.
pub open spec fn spec_can_follow_wrapped(line: Seq<u8>) -> bool {
    &&& two_space_indented(line)
    &&& !({
        let k = 2 + run_in_range(line, 2, 0x30, 0x39);
        &&& k > 2
        &&& k < line.len()
        &&& line[k] == 0x2e
        &&& (line.len() - k == 1 || line[k + 1] == 0x20 || line[k + 1] == 0x0d || line[k + 1]
            == 0x0a)
    })
    &&& !(line[2] == 0x2d && (line.len() == 3 || line[3] == 0x20 || line[3] == 0x0d || line[3]
        == 0x0a))
    &&& is_graphic(line[2])
}

fn can_follow_wrapped(line: &[u8]) -> (r: bool)
    ensures
        r == spec_can_follow_wrapped(line@),
{
    if line.len() < 3 || line[0] != 0x20 || line[1] != 0x20 {
        return false;
    }
    // ordered list: digits then `.` then space or line end
    let mut k: usize = 2;
    while k < line.len() && 0x30 <= line[k] && line[k] <= 0x39
        invariant
            2 <= k <= line@.len(),
            forall|j: int| 2 <= j < k ==> 0x30 <= #[trigger] line@[j] <= 0x39,
        decreases line@.len() - k,
    {
        k = k + 1;
    }
    proof {
        lemma_run_in_range_is(line@, 2, k as int, 0x30, 0x39);
    }
    if k > 2 && k < line.len() && line[k] == 0x2e {
        if line.len() - k == 1 || line[k + 1] == 0x20 || line[k + 1] == 0x0d || line[k + 1]
            == 0x0a {
            return false;
        }
    }
    // unordered list
    if line[2] == 0x2d {
        if line.len() == 3 || line[3] == 0x20 || line[3] == 0x0d || line[3] == 0x0a {
            return false;
        }
    }
    0x21 <= line[2] && line[2] <= 0x7e
}

/// Whether a joined line still reaches the terminal's right edge with
/// printable content, so that yet another continuation may follow.
pub open spec fn spec_can_be_wrapped_again(line: Seq<u8>, tw: u16) -> bool {
    &&& two_space_indented(line)
    &&& wrap_target(tw) <= line.len()
    &&& forall|j: int| 2 <= j < line.len() ==> graphic_or_crlf(#[trigger] line[j])
}

fn can_be_wrapped_again(line: &[u8], terminal_width: u16) -> (r: bool)
    ensures
        r == spec_can_be_wrapped_again(line@, terminal_width),
{
    if line.len() < 3 || line[0] != 0x20 || line[1] != 0x20 {
        return false;
    }
    let target = if terminal_width >= 4 {
        (terminal_width - 4) as usize
    } else {
        0
    };
    if !(target <= line.len()) {
        return false;
    }
    let mut j: usize = 2;
    while j < line.len()
        invariant
            2 <= j <= line@.len(),
            forall|jj: int| 2 <= jj < j ==> graphic_or_crlf(#[trigger] line@[jj]),
        decreases line@.len() - j,
    {
        let b = line[j];
        if !(0x21 <= b && b <= 0x7e) && b != 0x0d && b != 0x0a {
            return false;
        }
        j = j + 1;
    }
    true
}

/// Strip the line terminator from the fragment before `at`.
fn chomp_at(fragments: &mut Vec<Fragment>, at: usize)
    requires
        1 <= at <= old(fragments).deep_view().len(),
    ensures
        final (fragments).deep_view() == old(fragments).deep_view().update(
            at - 1,
            chomped(old(fragments).deep_view()[at - 1]),
        ),
        final (fragments).deep_view().len() == old(fragments).deep_view().len(),
{
    let ghost pre = fragments.deep_view();
    let mut f = fragments.remove(at - 1);
    f.chomp();
    fragments.insert(at - 1, f);
    proof {
        assert(fragments.deep_view() =~= pre.update(at - 1, chomped(pre[at - 1])));
    }
}

/// The first plain-text fragment in `frags[from..to]`.
pub open spec fn first_plain_in(frags: Seq<FragmentModel>, from: int, to: int) -> Option<int>
    decreases to - from,
{
    if from < 0 || from >= to || from >= frags.len() {
        None
    } else if frags[from].escape_sequence is None {
        Some(from)
    } else {
        first_plain_in(frags, from + 1, to)
    }
}

pub proof fn lemma_first_plain_is(frags: Seq<FragmentModel>, from: int, i: int, to: int)
    requires
        0 <= from <= i < to,
        i < frags.len(),
        frags[i].escape_sequence is None,
        forall|j: int| from <= j < i ==> (#[trigger] frags[j]).escape_sequence is Some,
    ensures
        first_plain_in(frags, from, to) == Some(i),
    decreases i - from,
{
    if from < i {
        lemma_first_plain_is(frags, from + 1, i, to);
    }
}

pub proof fn lemma_first_plain_none(frags: Seq<FragmentModel>, from: int, to: int)
    requires
        0 <= from,
        forall|j: int|
            from <= j < to && j < frags.len() ==> (#[trigger] frags[j]).escape_sequence is Some,
    ensures
        first_plain_in(frags, from, to) is None,
    decreases to - from,
{
    if from < to && from < frags.len() {
        lemma_first_plain_none(frags, from + 1, to);
    }
}

/// `frags` with the first plain fragment of `[from, to)` indent-trimmed.
pub open spec fn ltrim_first_plain_spec(
    frags: Seq<FragmentModel>,
    from: int,
    to: int,
) -> Seq<FragmentModel> {
    match first_plain_in(frags, from, to) {
        Some(t) => frags.update(t, ltrimmed(frags[t])),
        None => frags,
    }
}

/// Trim the leading indent from the first plain fragment in
/// `fragments[from..to]`.
fn ltrim_first_plain(fragments: &mut Vec<Fragment>, from: usize, to: usize)
    requires
        from <= to <= old(fragments).deep_view().len(),
    ensures
        final (fragments).deep_view() == ltrim_first_plain_spec(
            old(fragments).deep_view(),
            from as int,
            to as int,
        ),
        ({
            let pre = old(fragments).deep_view();
            let post = final (fragments).deep_view();
            ||| post == pre
            ||| exists|i: int|
                from <= i < to && (#[trigger] pre[i]).escape_sequence is None && post
                    == pre.update(i, ltrimmed(pre[i]))
        }),
        final (fragments).deep_view().len() == old(fragments).deep_view().len(),
{
    let ghost pre = old(fragments).deep_view();
    let mut i = from;
    while i < to
        invariant
            from <= i <= to <= fragments.deep_view().len(),
            fragments.deep_view() == pre,
            pre == old(fragments).deep_view(),
            forall|j: int| from <= j < i ==> (#[trigger] pre[j]).escape_sequence is Some,
        decreases to - i,
    {
        if fragments[i].is_plain_text() {
            proof {
                assert(fragments.deep_view()[i as int] == fragments@[i as int].deep_view());
                lemma_first_plain_is(pre, from as int, i as int, to as int);
            }
            let mut f = fragments.remove(i);
            f.ltrim();
            fragments.insert(i, f);
            proof {
                assert(fragments.deep_view() =~= pre.update(i as int, ltrimmed(pre[i as int])));
            }
            return ;
        }
        proof {
            assert(fragments.deep_view()[i as int] == fragments@[i as int].deep_view());
        }
        i = i + 1;
    }
    proof {
        lemma_first_plain_none(pre, from as int, to as int);
    }
}

/// One join: strip the terminator of the fragment before `at` and the
/// indent of the first plain fragment in `[at, to)`.
pub open spec fn join_step(frags: Seq<FragmentModel>, at: int, to: int) -> Seq<FragmentModel> {
    if 1 <= at <= frags.len() {
        ltrim_first_plain_spec(frags.update(at - 1, chomped(frags[at - 1])), at, to)
    } else {
        frags
    }
}

/// Extend the line that began at `adjusted` with wrapped continuation
/// lines, joining each onto it, until a line fails the continuation test
/// (stop just before it) or the list ends inside a line (stop the whole
/// pass, back at `adjusted`). Returns the fragments after the joins, the
/// position to continue from, and whether the whole pass must stop.
pub open spec fn spec_join_continuations(
    frags: Seq<FragmentModel>,
    adjusted: int,
    index: int,
    n: int,
    tw: u16,
) -> (Seq<FragmentModel>, int, bool)
    decreases n - index,
{
    if index < 0 || index >= n {
        (frags, adjusted, true)
    } else {
        match find_line_boundary(frags, index) {
            None => (frags, adjusted, true),
            Some(b) => {
                let nxt = if index < b + 1 && b + 1 <= n {
                    b + 1
                } else {
                    index + 1
                };
                let line = plain_concat(frags, index, nxt);
                if !spec_can_follow_wrapped(line) {
                    (frags, index, false)
                } else {
                    let joined = join_step(frags, index, nxt);
                    if !spec_can_be_wrapped_again(line, tw) {
                        (joined, index, false)
                    } else {
                        spec_join_continuations(joined, adjusted, nxt, n, tw)
                    }
                }
            },
        }
    }
}

/// The whole reconstruction pass from `index` on: extract each line; when
/// its rightmost URL reaches the terminal's right edge, join the wrapped
/// continuations that follow it. Returns the fragments after all joins and
/// the position just past the last complete line.
pub open spec fn spec_adjust_pass(frags: Seq<FragmentModel>, index: int, n: int, tw: u16) -> (
    Seq<FragmentModel>,
    int,
)
    decreases n - index,
{
    if index < 0 || index >= n {
        (frags, index)
    } else {
        match find_line_boundary(frags, index) {
            None => (frags, index),
            Some(b) => {
                let nxt = if index < b + 1 && b + 1 <= n {
                    b + 1
                } else {
                    index + 1
                };
                let line = plain_concat(frags, index, nxt);
                if !spec_can_be_wrapped(line, tw) {
                    spec_adjust_pass(frags, nxt, n, tw)
                } else {
                    let t = spec_join_continuations(frags, index, nxt, n, tw);
                    if t.2 {
                        (t.0, t.1)
                    } else {
                        let resume = if index < t.1 && t.1 <= n {
                            t.1
                        } else {
                            index + 1
                        };
                        spec_adjust_pass(t.0, resume, n, tw)
                    }
                }
            },
        }
    }
}

/// What the whole adjustment gives: the pass over the list, then the
/// forced release of one fragment when the buffer can take no more, then
/// the cut at the final position. The first component is the fragment list
/// kept and emitted; the second is how many of the original fragments the
/// consumed bytes cover.
pub open spec fn mid_adjust_spec(orig: Seq<FragmentModel>, allow: bool, tw: u16) -> (
    Seq<FragmentModel>,
    int,
) {
    let t = spec_adjust_pass(orig, 0, orig.len() as int, tw);
    let fi: int = if allow && t.1 == 0 && t.0.len() > 1 {
        1
    } else {
        t.1
    };
    (t.0.take(fi), fi)
}

/// Walk the fragment list line by line and join wrapped URL continuations
/// onto the line they continue. The kept fragments are exactly the input's
/// first fragments, in place and in order; a join may only strip the
/// joined line's terminator from one of them and the continuation's
/// leading indent from another. Fragments past the last complete line are
/// dropped from the list; the returned count of original bytes covered by
/// the kept fragments is what the caller consumes. When nothing at all
/// could be kept but the buffer can take no more (`allow_incomplete`), one
/// fragment is released so the stream keeps moving.
pub fn adjust_line_wrapping(
    fragments: &mut Vec<Fragment>,
    allow_incomplete: bool,
    terminal_width: u16,
) -> (consumed: usize)
    requires
        list_size(old(fragments).deep_view()) <= usize::MAX,
    ensures
        final (fragments).deep_view() == mid_adjust_spec(
            old(fragments).deep_view(),
            allow_incomplete,
            terminal_width,
        ).0,
        consumed as int == prefix_size(
            old(fragments).deep_view(),
            mid_adjust_spec(old(fragments).deep_view(), allow_incomplete, terminal_width).1,
        ),
        final (fragments)@.len() <= old(fragments)@.len(),
        consumed == prefix_size(old(fragments).deep_view(), final (fragments)@.len() as int),
        consumed <= list_size(old(fragments).deep_view()),
        forall|i: int|
            0 <= i < final (fragments).deep_view().len() ==> join_trimmed(
                #[trigger] final (fragments).deep_view()[i],
                old(fragments).deep_view()[i],
            ),
        allow_incomplete && old(fragments)@.len() > 1 ==> final (fragments)@.len() >= 1,
{
    let ghost orig = fragments.deep_view();
    let ghost n: int = orig.len() as int;
    let mut sizes: Vec<usize> = Vec::new();
    let mut s: usize = 0;
    while s < fragments.len()
        invariant
            0 <= s <= orig.len(),
            fragments.deep_view() == orig,
            sizes@.len() == s,
            forall|j: int| 0 <= j < s ==> sizes@[j] == orig[j].data.len(),
        decreases orig.len() - s,
    {
        let n = fragments[s].size();
        sizes.push(n);
        s = s + 1;
    }
    let total = fragments.len();

    proof {
        assert forall|i: int|
            0 <= i < orig.len() implies join_trimmed(
            #[trigger] fragments.deep_view()[i],
            orig[i],
        ) by {
            lemma_join_trimmed_refl(orig[i]);
        }
    }
    let mut index: usize = 0;
    let mut outer_done = false;
    while !outer_done
        invariant
            index <= fragments.deep_view().len(),
            fragments.deep_view().len() == orig.len(),
            n == orig.len(),
            spec_adjust_pass(orig, 0, n, terminal_width) == (if outer_done {
                (fragments.deep_view(), index as int)
            } else {
                spec_adjust_pass(fragments.deep_view(), index as int, n, terminal_width)
            }),
            forall|i: int|
                0 <= i < orig.len() ==> join_trimmed(#[trigger] fragments.deep_view()[i], orig[i]),
        decreases (if outer_done {
            0int
        } else {
            1int
        }), orig.len() - index,
    {
        let adjusted = index;
        let ghost entry_frags = fragments.deep_view();
        match extract_line(fragments, &mut index) {
            None => {
                outer_done = true;
            },
            Some(line) => {
                proof {
                    assert(find_line_boundary(entry_frags, adjusted as int) == Some(
                        index as int - 1,
                    ));
                    assert(line@ == plain_concat(entry_frags, adjusted as int, index as int));
                }
                if can_be_wrapped(line.as_slice(), terminal_width) {
                    let ghost spec_line = line@;
                    let mut inner_done = false;
                    while !inner_done
                        invariant
                            index <= fragments.deep_view().len(),
                            outer_done || adjusted < index,
                            outer_done ==> inner_done,
                            fragments.deep_view().len() == orig.len(),
                            n == orig.len(),
                            spec_adjust_pass(orig, 0, n, terminal_width) == (if outer_done {
                                (fragments.deep_view(), index as int)
                            } else if inner_done {
                                spec_adjust_pass(
                                    fragments.deep_view(),
                                    index as int,
                                    n,
                                    terminal_width,
                                )
                            } else {
                                let t = spec_join_continuations(
                                    fragments.deep_view(),
                                    adjusted as int,
                                    index as int,
                                    n,
                                    terminal_width,
                                );
                                if t.2 {
                                    (t.0, t.1)
                                } else {
                                    let resume = if adjusted < t.1 && t.1 <= n {
                                        t.1
                                    } else {
                                        adjusted + 1
                                    };
                                    spec_adjust_pass(t.0, resume, n, terminal_width)
                                }
                            }),
                            forall|i: int|
                                0 <= i < orig.len() ==> join_trimmed(
                                    #[trigger] fragments.deep_view()[i],
                                    orig[i],
                                ),
                        decreases (if inner_done {
                            0int
                        } else {
                            1int
                        }), orig.len() - index,
                    {
                        let maybe_wrapped = index;
                        let ghost step_frags = fragments.deep_view();
                        match extract_line(fragments, &mut index) {
                            None => {
                                index = adjusted;
                                inner_done = true;
                                outer_done = true;
                            },
                            Some(next_line) => {
                                proof {
                                    assert(find_line_boundary(step_frags, maybe_wrapped as int)
                                        == Some(index as int - 1));
                                    assert(next_line@ == plain_concat(
                                        step_frags,
                                        maybe_wrapped as int,
                                        index as int,
                                    ));
                                }
                                if !can_follow_wrapped(next_line.as_slice()) {
                                    index = maybe_wrapped;
                                    inner_done = true;
                                } else {
                                    let ghost before_chomp = fragments.deep_view();
                                    chomp_at(fragments, maybe_wrapped);
                                    proof {
                                        lemma_join_trimmed_chomp(
                                            before_chomp[maybe_wrapped - 1],
                                            orig[maybe_wrapped - 1],
                                        );
                                    }
                                    let ghost before_trim = fragments.deep_view();
                                    ltrim_first_plain(fragments, maybe_wrapped, index);
                                    proof {
                                        assert(fragments.deep_view() == join_step(
                                            step_frags,
                                            maybe_wrapped as int,
                                            index as int,
                                        ));
                                        if fragments.deep_view() != before_trim {
                                            let t = choose|t: int|
                                                maybe_wrapped <= t < index && (
                                                #[trigger] before_trim[t]).escape_sequence is None
                                                    && fragments.deep_view() == before_trim.update(
                                                    t,
                                                    ltrimmed(before_trim[t]),
                                                );
                                            lemma_join_trimmed_ltrim(before_trim[t], orig[t]);
                                        }
                                    }
                                    if !can_be_wrapped_again(
                                        next_line.as_slice(),
                                        terminal_width,
                                    ) {
                                        index = maybe_wrapped;
                                        inner_done = true;
                                    }
                                }
                            },
                        }
                    }
                }
            },
        }
    }
    if allow_incomplete && index == 0 && fragments.len() > 1 {
        index = 1;
    }
    let ghost kept = fragments.deep_view();
    fragments.truncate(index);
    proof {
        assert(fragments.deep_view() =~= kept.take(index as int));
    }
    let mut consumed: usize = 0;
    let mut k: usize = 0;
    while k < index
        invariant
            0 <= k <= index <= orig.len(),
            sizes@.len() == orig.len(),
            forall|j: int| 0 <= j < orig.len() ==> sizes@[j] == orig[j].data.len(),
            consumed == prefix_size(orig, k as int),
            list_size(orig) <= usize::MAX,
        decreases index - k,
    {
        proof {
            lemma_list_size_split(orig.take(k as int + 1), k as int);
            assert(orig.take(k as int + 1).take(k as int) =~= orig.take(k as int));
            assert(orig.take(k as int + 1).skip(k as int) =~= seq![orig[k as int]]);
            assert(seq![orig[k as int]].skip(1) =~= Seq::<FragmentModel>::empty());
            assert(list_size(Seq::<FragmentModel>::empty()) == 0);
            lemma_list_size_split(orig, k as int + 1);
            lemma_list_size_nonneg(orig.skip(k as int + 1));
            lemma_list_size_nonneg(orig.take(k as int));
        }
        consumed = consumed + sizes[k];
        k = k + 1;
    }
    proof {
        lemma_list_size_split(orig, index as int);
        lemma_list_size_nonneg(orig.skip(index as int));
        lemma_list_size_nonneg(orig.take(index as int));
    }
    consumed
}

} // verus!

verus! {

/// `out` keeps some of `orig`'s fragments, in order, each at most
/// join-trimmed; anything else was dropped.
pub open spec fn reduced_from(out: Seq<FragmentModel>, orig: Seq<FragmentModel>) -> bool
    decreases orig.len(),
{
    if out.len() == 0 {
        true
    } else if orig.len() == 0 {
        false
    } else {
        (join_trimmed(out[0], orig[0]) && reduced_from(out.skip(1), orig.skip(1))) || reduced_from(
            out,
            orig.skip(1),
        )
    }
}

/// A list is reduced from itself.
pub proof fn lemma_reduced_refl(s: Seq<FragmentModel>)
    ensures
        reduced_from(s, s),
    decreases s.len(),
{
    if s.len() > 0 {
        lemma_join_trimmed_refl(s[0]);
        lemma_reduced_refl(s.skip(1));
    }
}

/// Skipping the head of the source keeps the relation.
pub proof fn lemma_reduced_weaken(out: Seq<FragmentModel>, orig: Seq<FragmentModel>)
    requires
        orig.len() >= 1,
        reduced_from(out, orig.skip(1)),
    ensures
        reduced_from(out, orig),
{
}

/// Dropping any kept fragment keeps the relation.
pub proof fn lemma_reduced_remove(out: Seq<FragmentModel>, orig: Seq<FragmentModel>, i: int)
    requires
        reduced_from(out, orig),
        0 <= i < out.len(),
    ensures
        reduced_from(out.remove(i), orig),
    decreases orig.len(),
{
    if join_trimmed(out[0], orig[0]) && reduced_from(out.skip(1), orig.skip(1)) {
        if i == 0 {
            assert(out.remove(0) =~= out.skip(1));
            lemma_reduced_weaken(out.skip(1), orig);
        } else {
            lemma_reduced_remove(out.skip(1), orig.skip(1), i - 1);
            assert(out.remove(i)[0] == out[0]);
            assert(out.remove(i).skip(1) =~= out.skip(1).remove(i - 1));
            if out.remove(i).len() > 0 {
                assert(reduced_from(out.remove(i), orig));
            }
        }
    } else {
        lemma_reduced_remove(out, orig.skip(1), i);
        lemma_reduced_weaken(out.remove(i), orig);
    }
}

/// Trimming any kept fragment further keeps the relation.
pub proof fn lemma_reduced_update(
    out: Seq<FragmentModel>,
    orig: Seq<FragmentModel>,
    i: int,
    g: FragmentModel,
)
    requires
        reduced_from(out, orig),
        0 <= i < out.len(),
        forall|o: FragmentModel| #[trigger] join_trimmed(out[i], o) ==> join_trimmed(g, o),
    ensures
        reduced_from(out.update(i, g), orig),
    decreases orig.len(),
{
    if join_trimmed(out[0], orig[0]) && reduced_from(out.skip(1), orig.skip(1)) {
        if i == 0 {
            assert(join_trimmed(g, orig[0]));
            assert(out.update(0, g)[0] == g);
            assert(out.update(0, g).skip(1) =~= out.skip(1));
        } else {
            lemma_reduced_update(out.skip(1), orig.skip(1), i - 1, g);
            assert(out.update(i, g)[0] == out[0]);
            assert(out.update(i, g).skip(1) =~= out.skip(1).update(i - 1, g));
        }
    } else {
        lemma_reduced_update(out, orig.skip(1), i, g);
        lemma_reduced_weaken(out.update(i, g), orig);
    }
}

/// Keeping only a prefix of the kept fragments keeps the relation.
pub proof fn lemma_reduced_take(out: Seq<FragmentModel>, orig: Seq<FragmentModel>, p: int)
    requires
        reduced_from(out, orig),
        0 <= p <= out.len(),
    ensures
        reduced_from(out.take(p), orig),
    decreases orig.len(),
{
    if p == 0 || out.len() == 0 {
        assert(out.take(p).len() == 0);
    } else if join_trimmed(out[0], orig[0]) && reduced_from(out.skip(1), orig.skip(1)) {
        lemma_reduced_take(out.skip(1), orig.skip(1), p - 1);
        assert(out.take(p)[0] == out[0]);
        assert(out.take(p).skip(1) =~= out.skip(1).take(p - 1));
    } else {
        lemma_reduced_take(out, orig.skip(1), p);
        lemma_reduced_weaken(out.take(p), orig);
    }
}

/// Stripping a line terminator is a further trim, whatever the source.
pub proof fn lemma_chomp_keeps_trim(f: FragmentModel)
    ensures
        forall|o: FragmentModel| #[trigger] join_trimmed(f, o) ==> join_trimmed(chomped(f), o),
{
    assert forall|o: FragmentModel| #[trigger] join_trimmed(f, o) implies join_trimmed(
        chomped(f),
        o,
    ) by {
        lemma_join_trimmed_chomp(f, o);
    }
}

/// Trimming the leading indent is a further trim, whatever the source.
pub proof fn lemma_ltrim_keeps_trim(f: FragmentModel)
    ensures
        forall|o: FragmentModel| #[trigger] join_trimmed(f, o) ==> join_trimmed(ltrimmed(f), o),
{
    assert forall|o: FragmentModel| #[trigger] join_trimmed(f, o) implies join_trimmed(
        ltrimmed(f),
        o,
    ) by {
        lemma_join_trimmed_ltrim(f, o);
    }
}

} // verus!
