//! Tokenizing a terminal byte stream into fragments.
//!
//! A fragment is either a plain-text run or one escape sequence. Plain runs
//! are cut at the next ESC byte and additionally after an embedded newline,
//! so downstream line-oriented passes need not re-split them. Escape
//! sequences are classified into the closed set [`EscapeSequence`]; anything
//! recognized in shape but not in meaning is `Other`, and a sequence cut off
//! by the end of the available bytes is `Incomplete` (emitted only when the
//! caller allows it, otherwise parsing stops before it).

use vstd::prelude::*;

use crate::byteseq::{find_byte, find_in_range, find_window};
use crate::byteseq::{lemma_find_byte_spec, lemma_find_in_range_spec, lemma_find_window_spec};
use crate::byteseq::{scan_byte, scan_in_range, scan_window};
use vstd::slice::{slice_subrange, slice_to_vec};

verus! {

/// The classification of one tokenized escape sequence, over byte sequences.
pub enum EscapeSequenceModel {
    EndSynchronizedUpdate,
    ShowCursor,
    SetWindowAndIconTitle(Seq<u8>),
    ShowDesktopNotification(Seq<u8>, Seq<u8>),
    Incomplete,
    Other,
}

/// The classification of one tokenized escape sequence.
#[derive(Debug, PartialEq, Clone)]
pub enum EscapeSequence {
    /// `ESC [ ? 2 0 2 6 l`: end of a synchronized (batched) screen update.
    EndSynchronizedUpdate,
    /// `ESC [ ? 2 5 h`: show cursor.
    ShowCursor,
    /// `ESC ] 0 ; text (BEL | ESC \)`: set the window and icon title.
    SetWindowAndIconTitle(Vec<u8>),
    /// `ESC ] 777 ; notify ; title ; body (BEL | ESC \)`: post a desktop
    /// notification. A distinct private OSC number is used so that numeric
    /// payloads of other terminals' OSC 9 conventions cannot be mistaken
    /// for notifications; a payload without a `;` separator is `Other`.
    ShowDesktopNotification(Vec<u8>, Vec<u8>),
    /// An escape sequence cut off by the end of the available bytes.
    Incomplete,
    /// Recognized as an escape sequence in shape only; passed through.
    Other,
}

impl View for EscapeSequence {
    type V = EscapeSequenceModel;

    open spec fn view(&self) -> EscapeSequenceModel {
        match self {
            EscapeSequence::EndSynchronizedUpdate => EscapeSequenceModel::EndSynchronizedUpdate,
            EscapeSequence::ShowCursor => EscapeSequenceModel::ShowCursor,
            EscapeSequence::SetWindowAndIconTitle(p) => EscapeSequenceModel::SetWindowAndIconTitle(
                p@,
            ),
            EscapeSequence::ShowDesktopNotification(t, b) => {
                EscapeSequenceModel::ShowDesktopNotification(t@, b@)
            },
            EscapeSequence::Incomplete => EscapeSequenceModel::Incomplete,
            EscapeSequence::Other => EscapeSequenceModel::Other,
        }
    }
}

impl DeepView for EscapeSequence {
    type V = EscapeSequenceModel;

    open spec fn deep_view(&self) -> EscapeSequenceModel {
        self.view()
    }
}

/// One fragment as a mathematical value: its bytes and its classification
/// (`None` for plain text).
pub struct FragmentModel {
    pub data: Seq<u8>,
    pub escape_sequence: Option<EscapeSequenceModel>,
}

/// A read-only run of bytes, either plain text or one escape sequence.
#[derive(Debug, PartialEq, Clone)]
pub struct Fragment {
    data: Vec<u8>,
    escape_sequence: Option<EscapeSequence>,
}

impl View for Fragment {
    type V = FragmentModel;

    closed spec fn view(&self) -> FragmentModel {
        FragmentModel { data: self.data@, escape_sequence: self.escape_sequence.deep_view() }
    }
}

impl DeepView for Fragment {
    type V = FragmentModel;

    open spec fn deep_view(&self) -> FragmentModel {
        self.view()
    }
}

/// The two-byte-parameter prefix `777;notify;` of a notification OSC.
pub open spec fn notify_prefix() -> Seq<u8> {
    seq![0x37u8, 0x37u8, 0x37u8, 0x3bu8, 0x6eu8, 0x6fu8, 0x74u8, 0x69u8, 0x66u8, 0x79u8, 0x3bu8]
}

/// The bytes `ESC [ ? 2 0 2 6 l` ending a synchronized update.
pub open spec fn end_sync_bytes() -> Seq<u8> {
    seq![0x1bu8, 0x5bu8, 0x3fu8, 0x32u8, 0x30u8, 0x32u8, 0x36u8, 0x6cu8]
}

/// The bytes `ESC [ ? 2 5 h` showing the cursor.
pub open spec fn show_cursor_bytes() -> Seq<u8> {
    seq![0x1bu8, 0x5bu8, 0x3fu8, 0x32u8, 0x35u8, 0x68u8]
}

/// Position and length of the first OSC terminator: a BEL anywhere wins over
/// an `ESC \`, matching the scan order of the tokenizer.
pub open spec fn osc_terminator(data: Seq<u8>) -> Option<(int, int)> {
    match find_byte(data, 2, 0x07) {
        Some(j) => Some((j, 1)),
        None => match find_window(data, 2, 0x1b, 0x5c) {
            Some(j) => Some((j, 2)),
            None => None,
        },
    }
}

/// Classification of a complete OSC whose parameter bytes end at `pe`.
pub open spec fn classify_osc(data: Seq<u8>, pe: int) -> EscapeSequenceModel {
    if 4 <= pe <= data.len() && data[2] == 0x30 && data[3] == 0x3b {
        EscapeSequenceModel::SetWindowAndIconTitle(data.subrange(4, pe))
    } else if 13 <= pe <= data.len() && data.subrange(2, 13) == notify_prefix() {
        let tb = data.subrange(13, pe);
        match find_byte(tb, 0, 0x3b) {
            Some(s) => EscapeSequenceModel::ShowDesktopNotification(tb.take(s), tb.skip(s + 1)),
            None => EscapeSequenceModel::Other,
        }
    } else {
        EscapeSequenceModel::Other
    }
}

/// Classification of a complete non-OSC escape sequence from its own bytes.
pub open spec fn classify_csi(tok: Seq<u8>) -> EscapeSequenceModel {
    if tok == end_sync_bytes() {
        EscapeSequenceModel::EndSynchronizedUpdate
    } else if tok == show_cursor_bytes() {
        EscapeSequenceModel::ShowCursor
    } else {
        EscapeSequenceModel::Other
    }
}

/// The next token of `data`: how many bytes it takes and its classification
/// (`None` in the pair means plain text). The result is `None` when nothing
/// can be emitted: the input is empty, or it begins with an escape sequence
/// that is still incomplete and `allow_incomplete` is false.
pub open spec fn spec_parse_fragment(data: Seq<u8>, allow_incomplete: bool) -> Option<
    (int, Option<EscapeSequenceModel>),
> {
    if data.len() == 0 {
        None
    } else if data[0] != 0x1b {
        let n = match find_byte(data, 0, 0x1b) {
            Some(k) => k,
            None => data.len() as int,
        };
        let m = match find_byte(data.take(n), 0, 0x0a) {
            Some(k) => k + 1,
            None => n,
        };
        Some((m, None))
    } else if data.len() < 2 {
        if allow_incomplete {
            Some((data.len() as int, Some(EscapeSequenceModel::Incomplete)))
        } else {
            None
        }
    } else if data[1] == 0x5d {
        match osc_terminator(data) {
            Some((pe, tl)) => Some((pe + tl, Some(classify_osc(data, pe)))),
            None => if allow_incomplete {
                Some((data.len() as int, Some(EscapeSequenceModel::Incomplete)))
            } else {
                None
            },
        }
    } else if data[1] == 0x5b {
        match find_in_range(data, 2, 0x40, 0x7e) {
            Some(j) => Some((j + 1, Some(classify_csi(data.take(j + 1))))),
            None => if allow_incomplete {
                Some((data.len() as int, Some(EscapeSequenceModel::Incomplete)))
            } else {
                None
            },
        }
    } else if 0x40 <= data[1] < 0x5f {
        Some((2, Some(EscapeSequenceModel::Other)))
    } else {
        match find_in_range(data, 2, 0x30, 0x7e) {
            Some(j) => Some((j + 1, Some(EscapeSequenceModel::Other))),
            None => if allow_incomplete {
                Some((data.len() as int, Some(EscapeSequenceModel::Incomplete)))
            } else {
                None
            },
        }
    }
}

/// A token always takes at least one byte and never more than the input.
pub proof fn lemma_parse_fragment_len(data: Seq<u8>, allow_incomplete: bool)
    ensures
        match spec_parse_fragment(data, allow_incomplete) {
            Some((n, _)) => 1 <= n <= data.len(),
            None => true,
        },
{
    if data.len() == 0 {
    } else if data[0] != 0x1b {
        lemma_find_byte_spec(data, 0, 0x1b);
        let n = match find_byte(data, 0, 0x1b) {
            Some(k) => k,
            None => data.len() as int,
        };
        assert(1 <= n <= data.len());
        lemma_find_byte_spec(data.take(n), 0, 0x0a);
    } else if data.len() < 2 {
    } else if data[1] == 0x5d {
        lemma_find_byte_spec(data, 2, 0x07);
        if find_byte(data, 2, 0x07) is None {
            lemma_find_window_spec(data, 2, 0x1b, 0x5c);
        }
    } else if data[1] == 0x5b {
        lemma_find_in_range_spec(data, 2, 0x40, 0x7e);
    } else if 0x40 <= data[1] < 0x5f {
    } else {
        lemma_find_in_range_spec(data, 2, 0x30, 0x7e);
    }
}

/// The whole token list of `data`: each step takes the next token off the
/// front, until the input is exhausted or an incomplete escape is held back.
pub open spec fn spec_parse_list(data: Seq<u8>, allow_incomplete: bool) -> Seq<FragmentModel>
    decreases data.len(),
{
    match spec_parse_fragment(data, allow_incomplete) {
        Some((n, tag)) => if 1 <= n <= data.len() {
            seq![FragmentModel { data: data.take(n), escape_sequence: tag }] + spec_parse_list(
                data.skip(n),
                allow_incomplete,
            )
        } else {
            seq![]
        },
        None => seq![],
    }
}

/// The total byte count of a fragment list.
pub open spec fn list_size(frags: Seq<FragmentModel>) -> int
    decreases frags.len(),
{
    if frags.len() == 0 {
        0
    } else {
        frags[0].data.len() + list_size(frags.skip(1))
    }
}

/// All the fragments' bytes, in emission order.
pub open spec fn concat_data(frags: Seq<FragmentModel>) -> Seq<u8>
    decreases frags.len(),
{
    if frags.len() == 0 {
        seq![]
    } else {
        frags[0].data + concat_data(frags.skip(1))
    }
}

proof fn lemma_list_cons(f: FragmentModel, rest: Seq<FragmentModel>)
    ensures
        list_size(seq![f] + rest) == f.data.len() + list_size(rest),
        concat_data(seq![f] + rest) == f.data + concat_data(rest),
{
    assert((seq![f] + rest).skip(1) =~= rest);
    assert((seq![f] + rest)[0] == f);
}

/// A fragment list never holds a negative byte count.
pub proof fn lemma_list_size_nonneg(frags: Seq<FragmentModel>)
    ensures
        list_size(frags) >= 0,
    decreases frags.len(),
{
    if frags.len() > 0 {
        lemma_list_size_nonneg(frags.skip(1));
    }
}

/// The byte count of a list splits at any index.
pub proof fn lemma_list_size_split(frags: Seq<FragmentModel>, i: int)
    requires
        0 <= i <= frags.len(),
    ensures
        list_size(frags) == list_size(frags.take(i)) + list_size(frags.skip(i)),
    decreases i,
{
    if i == 0 {
        assert(frags.take(0) =~= Seq::<FragmentModel>::empty());
        assert(frags.skip(0) =~= frags);
    } else {
        assert(frags.take(i)[0] == frags[0]);
        assert(frags.take(i).skip(1) =~= frags.skip(1).take(i - 1));
        assert(frags.skip(i) =~= frags.skip(1).skip(i - 1));
        lemma_list_size_split(frags.skip(1), i - 1);
    }
}

/// Concatenating every fragment's bytes from a parse pass reproduces exactly
/// the consumed prefix of the input; when incomplete trailers may be emitted,
/// the whole input is consumed.
pub proof fn lemma_parse_reproduces_input(data: Seq<u8>, allow_incomplete: bool)
    ensures
        0 <= list_size(spec_parse_list(data, allow_incomplete)) <= data.len(),
        concat_data(spec_parse_list(data, allow_incomplete)) == data.take(
            list_size(spec_parse_list(data, allow_incomplete)),
        ),
        allow_incomplete ==> list_size(spec_parse_list(data, allow_incomplete)) == data.len(),
    decreases data.len(),
{
    lemma_parse_fragment_len(data, allow_incomplete);
    match spec_parse_fragment(data, allow_incomplete) {
        Some((n, tag)) => {
            let f = FragmentModel { data: data.take(n), escape_sequence: tag };
            let rest = spec_parse_list(data.skip(n), allow_incomplete);
            lemma_list_cons(f, rest);
            lemma_parse_reproduces_input(data.skip(n), allow_incomplete);
            let m = list_size(rest);
            assert(data.skip(n).len() == data.len() - n);
            assert(data.take(n) + data.skip(n).take(m) =~= data.take(n + m));
        },
        None => {
            assert(data.take(0) =~= Seq::<u8>::empty());
        },
    }
}

impl Fragment {
    /// A fragment from its bytes and classification.
    pub fn new(data: Vec<u8>, escape_sequence: Option<EscapeSequence>) -> (r: Fragment)
        ensures
            r@.data == data@,
            r@.escape_sequence == escape_sequence.deep_view(),
    {
        Fragment { data, escape_sequence }
    }

    /// The bytes of this fragment, to be written through verbatim.
    pub fn data(&self) -> (r: &[u8])
        ensures
            r@ == self@.data,
    {
        self.data.as_slice()
    }

    /// How many bytes this fragment covers.
    pub fn size(&self) -> (r: usize)
        ensures
            r == self@.data.len(),
    {
        self.data.len()
    }

    /// The classification, or `None` for plain text.
    pub fn escape_sequence(&self) -> (r: Option<&EscapeSequence>)
        ensures
            match r {
                Some(e) => self@.escape_sequence == Some(e@),
                None => self@.escape_sequence is None,
            },
    {
        self.escape_sequence.as_ref()
    }

    /// Whether this fragment is a plain-text run.
    pub fn is_plain_text(&self) -> (r: bool)
        ensures
            r <==> self@.escape_sequence is None,
    {
        self.escape_sequence.is_none()
    }
}

/// `d` with one trailing line terminator (`\r\n` or `\n`) removed.
pub open spec fn chomp_spec(d: Seq<u8>) -> Seq<u8> {
    if d.len() >= 2 && d[d.len() - 2] == 0x0d && d[d.len() - 1] == 0x0a {
        d.take(d.len() - 2)
    } else if d.len() >= 1 && d[d.len() - 1] == 0x0a {
        d.take(d.len() - 1)
    } else {
        d
    }
}

/// The number of spaces at the start of `d`.
pub open spec fn leading_spaces(d: Seq<u8>) -> int
    decreases d.len(),
{
    if d.len() > 0 && d[0] == 0x20 {
        1 + leading_spaces(d.skip(1))
    } else {
        0
    }
}

/// The leading-space count is within bounds and counts only spaces.
pub proof fn lemma_leading_spaces_props(d: Seq<u8>)
    ensures
        0 <= leading_spaces(d) <= d.len(),
        forall|j: int| 0 <= j < leading_spaces(d) ==> d[j] == 0x20,
    decreases d.len(),
{
    if d.len() > 0 && d[0] == 0x20 {
        lemma_leading_spaces_props(d.skip(1));
        assert forall|j: int| 0 <= j < leading_spaces(d) implies d[j] == 0x20 by {
            if j >= 1 {
                assert(d.skip(1)[j - 1] == d[j]);
            }
        }
    }
}

proof fn lemma_leading_spaces(d: Seq<u8>, k: int)
    requires
        0 <= k <= d.len(),
        forall|j: int| 0 <= j < k ==> d[j] == 0x20,
        k < d.len() ==> d[k] != 0x20,
    ensures
        leading_spaces(d) == k,
    decreases k,
{
    if k == 0 {
    } else {
        lemma_leading_spaces(d.skip(1), k - 1);
    }
}

impl Fragment {
    /// Strip one trailing `\r\n` or `\n` from a plain-text fragment.
    pub fn chomp(&mut self)
        ensures
            final (self)@.data == chomp_spec(old(self)@.data),
            final (self)@.escape_sequence == old(self)@.escape_sequence,
    {
        let n = self.data.len();
        if n >= 2 && self.data[n - 2] == 0x0d && self.data[n - 1] == 0x0a {
            self.data.truncate(n - 2);
        } else if n >= 1 && self.data[n - 1] == 0x0a {
            self.data.truncate(n - 1);
        }
    }

    /// Strip the leading run of spaces from a continuation fragment.
    pub fn ltrim(&mut self)
        ensures
            final (self)@.data == old(self)@.data.skip(leading_spaces(old(self)@.data)),
            final (self)@.escape_sequence == old(self)@.escape_sequence,
    {
        let mut k: usize = 0;
        while k < self.data.len() && self.data[k] == 0x20
            invariant
                0 <= k <= self.data@.len(),
                forall|j: int| 0 <= j < k ==> self.data@[j] == 0x20,
                self.data@ == old(self)@.data,
                self.escape_sequence.deep_view() == old(self)@.escape_sequence,
            decreases self.data@.len() - k,
        {
            k = k + 1;
        }
        proof {
            lemma_leading_spaces(self.data@, k as int);
        }
        let rest = slice_to_vec(slice_subrange(self.data.as_slice(), k, self.data.len()));
        proof {
            assert(rest@ =~= old(self)@.data.skip(k as int));
        }
        self.data = rest;
    }
}

impl Fragment {
    /// Carve the next token off the front of `data`. `None` means nothing
    /// can be emitted yet: the input is empty, or it begins with an escape
    /// sequence that may still be completed by more bytes.
    fn parse(data: &[u8], allow_incomplete: bool) -> (r: Option<Fragment>)
        ensures
            match r {
                Some(f) => {
                    &&& spec_parse_fragment(data@, allow_incomplete) matches Some((n, tag))
                    &&& f@.data == data@.take(n)
                    &&& f@.data.len() == n
                    &&& f@.escape_sequence == tag
                },
                None => spec_parse_fragment(data@, allow_incomplete) is None,
            },
    {
        proof {
            lemma_parse_fragment_len(data@, allow_incomplete);
        }
        if data.len() == 0 {
            return None;
        }
        if data[0] != 0x1b {
            let n = match scan_byte(data, 0, 0x1b) {
                Some(k) => k,
                None => data.len(),
            };
            let head = slice_subrange(data, 0, n);
            proof {
                assert(head@ =~= data@.take(n as int));
            }
            let m = match scan_byte(head, 0, 0x0a) {
                Some(k) => k + 1,
                None => n,
            };
            let piece = slice_to_vec(slice_subrange(data, 0, m));
            proof {
                assert(piece@ =~= data@.take(m as int));
            }
            return Some(Fragment { data: piece, escape_sequence: None });
        }
        if data.len() < 2 {
            return Self::emit_incomplete(data, allow_incomplete);
        }
        if data[1] == 0x5d {
            let term = match scan_byte(data, 2, 0x07) {
                Some(j) => Some((j, 1usize)),
                None => match scan_window(data, 2, 0x1b, 0x5c) {
                    Some(j) => Some((j, 2usize)),
                    None => None,
                },
            };
            match term {
                None => Self::emit_incomplete(data, allow_incomplete),
                Some((pe, tl)) => {
                    let n = pe + tl;
                    let tag = Self::classify_osc_exec(data, pe);
                    let piece = slice_to_vec(slice_subrange(data, 0, n));
                    proof {
                        assert(piece@ =~= data@.take(n as int));
                    }
                    Some(Fragment { data: piece, escape_sequence: Some(tag) })
                },
            }
        } else if data[1] == 0x5b {
            match scan_in_range(data, 2, 0x40, 0x7e) {
                None => Self::emit_incomplete(data, allow_incomplete),
                Some(j) => {
                    let n = j + 1;
                    let tag = Self::classify_csi_exec(data, n);
                    let piece = slice_to_vec(slice_subrange(data, 0, n));
                    proof {
                        assert(piece@ =~= data@.take(n as int));
                    }
                    Some(Fragment { data: piece, escape_sequence: Some(tag) })
                },
            }
        } else if 0x40 <= data[1] && data[1] < 0x5f {
            let piece = slice_to_vec(slice_subrange(data, 0, 2));
            proof {
                assert(piece@ =~= data@.take(2));
            }
            Some(Fragment { data: piece, escape_sequence: Some(EscapeSequence::Other) })
        } else {
            match scan_in_range(data, 2, 0x30, 0x7e) {
                None => Self::emit_incomplete(data, allow_incomplete),
                Some(j) => {
                    let n = j + 1;
                    let piece = slice_to_vec(slice_subrange(data, 0, n));
                    proof {
                        assert(piece@ =~= data@.take(n as int));
                    }
                    Some(Fragment { data: piece, escape_sequence: Some(EscapeSequence::Other) })
                },
            }
        }
    }

    /// The whole remainder as one `Incomplete` fragment, when allowed.
    fn emit_incomplete(data: &[u8], allow_incomplete: bool) -> (r: Option<Fragment>)
        ensures
            match r {
                Some(f) => allow_incomplete && f@.data == data@ && f@.escape_sequence == Some(
                    EscapeSequenceModel::Incomplete,
                ),
                None => !allow_incomplete,
            },
    {
        if allow_incomplete {
            let piece = slice_to_vec(data);
            Some(Fragment { data: piece, escape_sequence: Some(EscapeSequence::Incomplete) })
        } else {
            None
        }
    }

    /// Classify a complete OSC whose parameter bytes end at `pe`.
    fn classify_osc_exec(data: &[u8], pe: usize) -> (r: EscapeSequence)
        requires
            pe <= data@.len(),
        ensures
            r@ == classify_osc(data@, pe as int),
    {
        if pe >= 4 && data[2] == 0x30 && data[3] == 0x3b {
            let payload = slice_to_vec(slice_subrange(data, 4, pe));
            proof {
                assert(payload@ =~= data@.subrange(4, pe as int));
            }
            EscapeSequence::SetWindowAndIconTitle(payload)
        } else if pe >= 13 && data[2] == 0x37 && data[3] == 0x37 && data[4] == 0x37 && data[5]
            == 0x3b && data[6] == 0x6e && data[7] == 0x6f && data[8] == 0x74 && data[9] == 0x69
            && data[10] == 0x66 && data[11] == 0x79 && data[12] == 0x3b {
            proof {
                assert(data@.subrange(2, 13) =~= notify_prefix());
            }
            let tb = slice_subrange(data, 13, pe);
            proof {
                assert(tb@ =~= data@.subrange(13, pe as int));
            }
            match scan_byte(tb, 0, 0x3b) {
                Some(s) => {
                    let title = slice_to_vec(slice_subrange(tb, 0, s));
                    let body = slice_to_vec(slice_subrange(tb, s + 1, tb.len()));
                    proof {
                        assert(title@ =~= tb@.take(s as int));
                        assert(body@ =~= tb@.skip(s as int + 1));
                    }
                    EscapeSequence::ShowDesktopNotification(title, body)
                },
                None => EscapeSequence::Other,
            }
        } else {
            proof {
                if 13 <= pe && data@.subrange(2, 13) == notify_prefix() {
                    assert(data@[2] == notify_prefix()[0]);
                    assert(data@[3] == notify_prefix()[1]);
                    assert(data@[4] == notify_prefix()[2]);
                    assert(data@[5] == notify_prefix()[3]);
                    assert(data@[6] == notify_prefix()[4]);
                    assert(data@[7] == notify_prefix()[5]);
                    assert(data@[8] == notify_prefix()[6]);
                    assert(data@[9] == notify_prefix()[7]);
                    assert(data@[10] == notify_prefix()[8]);
                    assert(data@[11] == notify_prefix()[9]);
                    assert(data@[12] == notify_prefix()[10]);
                }
            }
            EscapeSequence::Other
        }
    }

    /// Classify a complete non-OSC escape sequence of `n` bytes.
    fn classify_csi_exec(data: &[u8], n: usize) -> (r: EscapeSequence)
        requires
            n <= data@.len(),
        ensures
            r@ == classify_csi(data@.take(n as int)),
    {
        let tok = slice_subrange(data, 0, n);
        proof {
            assert(tok@ =~= data@.take(n as int));
        }
        if n == 8 && tok[0] == 0x1b && tok[1] == 0x5b && tok[2] == 0x3f && tok[3] == 0x32 && tok[4]
            == 0x30 && tok[5] == 0x32 && tok[6] == 0x36 && tok[7] == 0x6c {
            proof {
                assert(tok@ =~= end_sync_bytes());
            }
            EscapeSequence::EndSynchronizedUpdate
        } else if n == 6 && tok[0] == 0x1b && tok[1] == 0x5b && tok[2] == 0x3f && tok[3] == 0x32
            && tok[4] == 0x35 && tok[5] == 0x68 {
            proof {
                assert(tok@ =~= show_cursor_bytes());
            }
            EscapeSequence::ShowCursor
        } else {
            proof {
                if tok@ == end_sync_bytes() {
                    assert(tok@.len() == 8);
                    assert(tok@[0] == end_sync_bytes()[0]);
                    assert(tok@[1] == end_sync_bytes()[1]);
                    assert(tok@[2] == end_sync_bytes()[2]);
                    assert(tok@[3] == end_sync_bytes()[3]);
                    assert(tok@[4] == end_sync_bytes()[4]);
                    assert(tok@[5] == end_sync_bytes()[5]);
                    assert(tok@[6] == end_sync_bytes()[6]);
                    assert(tok@[7] == end_sync_bytes()[7]);
                }
                if tok@ == show_cursor_bytes() {
                    assert(tok@.len() == 6);
                    assert(tok@[0] == show_cursor_bytes()[0]);
                    assert(tok@[1] == show_cursor_bytes()[1]);
                    assert(tok@[2] == show_cursor_bytes()[2]);
                    assert(tok@[3] == show_cursor_bytes()[3]);
                    assert(tok@[4] == show_cursor_bytes()[4]);
                    assert(tok@[5] == show_cursor_bytes()[5]);
                }
            }
            EscapeSequence::Other
        }
    }
}

/// The fragment list of one parse pass over a byte slice.
pub struct FragmentList {
    inner: Vec<Fragment>,
}

impl View for FragmentList {
    type V = Seq<FragmentModel>;

    closed spec fn view(&self) -> Seq<FragmentModel> {
        self.inner.deep_view()
    }
}

impl FragmentList {
    #[verifier::type_invariant]
    spec fn wf(self) -> bool {
        list_size(self@) <= usize::MAX
    }

    /// Tokenize the longest unambiguous prefix of `data`. A trailing escape
    /// sequence without its terminator is emitted as `Incomplete` only when
    /// `allow_incomplete` is set; otherwise it is left for the next pass.
    pub fn parse(data: &[u8], allow_incomplete: bool) -> (r: FragmentList)
        ensures
            r@ == spec_parse_list(data@, allow_incomplete),
    {
        let total_len = data.len();
        proof {
            assert(data@.len() == total_len);
        }
        let ghost orig = data@;
        let mut rest: &[u8] = data;
        let mut fragments: Vec<Fragment> = Vec::new();
        let mut done = false;
        while !done
            invariant
                spec_parse_list(orig, allow_incomplete) == fragments.deep_view()
                    + spec_parse_list(rest@, allow_incomplete),
                done ==> spec_parse_list(rest@, allow_incomplete) == Seq::<FragmentModel>::empty(),
            decreases (if done {
                0int
            } else {
                1int
            }), rest@.len(),
        {
            proof {
                lemma_parse_fragment_len(rest@, allow_incomplete);
            }
            match Fragment::parse(rest, allow_incomplete) {
                None => {
                    done = true;
                },
                Some(fragment) => {
                    let ghost pre = fragments.deep_view();
                    let ghost rest_pre = rest@;
                    let n = fragment.size();
                    let ghost fm = fragment@;
                    rest = slice_subrange(rest, n, rest.len());
                    fragments.push(fragment);
                    proof {
                        assert(rest@ =~= rest_pre.skip(n as int));
                        assert(fragments.deep_view() =~= pre + seq![fm]);
                        assert(spec_parse_list(rest_pre, allow_incomplete) == seq![fm]
                            + spec_parse_list(rest@, allow_incomplete));
                        assert((pre + seq![fm]) + spec_parse_list(rest@, allow_incomplete) =~= pre
                            + (seq![fm] + spec_parse_list(rest@, allow_incomplete)));
                    }
                },
            }
        }
        proof {
            assert(fragments.deep_view() + Seq::<FragmentModel>::empty() =~= fragments.deep_view());
            assert(fragments.deep_view() == spec_parse_list(orig, allow_incomplete));
            lemma_parse_reproduces_input(orig, allow_incomplete);
            assert(list_size(fragments.deep_view()) <= orig.len());
        }
        FragmentList { inner: fragments }
    }

    /// The fragments, in emission order.
    pub fn into_inner(self) -> (r: Vec<Fragment>)
        ensures
            r.deep_view() == self@,
    {
        self.inner
    }

    /// How many input bytes this parse pass consumed.
    pub fn size(&self) -> (r: usize)
        ensures
            r == list_size(self@),
    {
        proof {
            use_type_invariant(self);
        }
        let mut total: usize = 0;
        let mut i: usize = 0;
        while i < self.inner.len()
            invariant
                0 <= i <= self.inner@.len(),
                total == list_size(self@.take(i as int)),
                list_size(self@) <= usize::MAX,
                self@.len() == self.inner@.len(),
        decreases self.inner@.len() - i,
        {
            proof {
                let s = self@;
                let ii = i as int;
                lemma_list_size_split(s.take(ii + 1), ii);
                assert(s.take(ii + 1).take(ii) =~= s.take(ii));
                assert(s.take(ii + 1).skip(ii) =~= seq![s[ii]]);
                assert(seq![s[ii]].skip(1) =~= Seq::<FragmentModel>::empty());
                assert(list_size(Seq::<FragmentModel>::empty()) == 0);
                assert(list_size(seq![s[ii]]) == s[ii].data.len());
                assert(list_size(s.take(ii + 1)) == list_size(s.take(ii)) + s[ii].data.len());
                lemma_list_size_split(s, ii + 1);
                lemma_list_size_nonneg(s.skip(ii + 1));
                assert(list_size(s.take(ii + 1)) <= list_size(s));
                assert(s[ii] == self.inner@[ii].deep_view());
            }
            total = total + self.inner[i].size();
            i = i + 1;
        }
        proof {
            assert(self@.take(self@.len() as int) =~= self@);
        }
        total
    }
}

} // verus!
