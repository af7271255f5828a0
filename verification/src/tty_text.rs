//! Terminal output tokenization and line-wrap repair.
//!
//! The submodules hold the current pipeline: `fragment` splits a byte
//! stream into plain-text runs and classified escape sequences, `buffer`
//! accumulates reads, and `reformat` optionally rejoins URLs that the
//! terminal wrapped across physical lines.
//!
//! This module itself holds an earlier, simpler pipeline over the same
//! byte stream, kept for callers that only watch window titles and
//! notifications: its tokenizer cuts plain text at OSC introducers only,
//! and its line-wrap repair splits URLs out of plain runs eagerly.

use vstd::prelude::*;

use crate::byteseq::{find_byte, find_in_range, find_window, find_window3, is_graphic, scan_byte, scan_window, scan_window3};
use crate::byteseq::{lemma_find_byte_spec, lemma_find_window_spec};
use crate::tty_text::fragment::osc_terminator;
use vstd::slice::{slice_subrange, slice_to_vec};

pub mod buffer;
pub mod fragment;
pub mod line_wrapping;
pub mod reformat;

verus! {

/// The classification of one OSC token, over byte sequences.
pub enum OscModel {
    ChangeIconNameAndWindowTitle(Seq<u8>),
    PostNotification(Seq<u8>),
    Incomplete,
    Other,
}

/// The classification of one OSC token.
#[derive(Debug, PartialEq, Clone)]
pub enum Osc {
    /// `ESC ] 0 ; text (BEL | ESC \)`: set the icon name and window title.
    ChangeIconNameAndWindowTitle(Vec<u8>),
    /// `ESC ] 9 ; text (BEL | ESC \)`: post a desktop notification.
    PostNotification(Vec<u8>),
    /// An OSC cut off by the end of the available bytes.
    Incomplete,
    /// Some other OSC; passed through verbatim.
    Other,
}

impl View for Osc {
    type V = OscModel;

    open spec fn view(&self) -> OscModel {
        match self {
            Osc::ChangeIconNameAndWindowTitle(p) => OscModel::ChangeIconNameAndWindowTitle(p@),
            Osc::PostNotification(p) => OscModel::PostNotification(p@),
            Osc::Incomplete => OscModel::Incomplete,
            Osc::Other => OscModel::Other,
        }
    }
}

impl DeepView for Osc {
    type V = OscModel;

    open spec fn deep_view(&self) -> OscModel {
        self.view()
    }
}

/// One fragment of this pipeline as a mathematical value.
pub struct OscFragmentModel {
    pub data: Seq<u8>,
    pub osc: Option<OscModel>,
}

/// A run of bytes: plain text, or one OSC token.
#[derive(Debug, PartialEq, Clone)]
pub struct Fragment {
    data: Vec<u8>,
    osc: Option<Osc>,
}

impl View for Fragment {
    type V = OscFragmentModel;

    closed spec fn view(&self) -> OscFragmentModel {
        OscFragmentModel { data: self.data@, osc: self.osc.deep_view() }
    }
}

impl DeepView for Fragment {
    type V = OscFragmentModel;

    open spec fn deep_view(&self) -> OscFragmentModel {
        self.view()
    }
}

impl Fragment {
    /// A fragment from its bytes and classification.
    pub fn new(data: Vec<u8>, osc: Option<Osc>) -> (r: Fragment)
        ensures
            r@.data == data@,
            r@.osc == osc.deep_view(),
    {
        Fragment { data, osc }
    }

    /// The bytes of this fragment.
    pub fn data(&self) -> (r: &[u8])
        ensures
            r@ == self@.data,
    {
        self.data.as_slice()
    }

    /// The classification, or `None` for plain text.
    pub fn osc(&self) -> (r: Option<&Osc>)
        ensures
            match r {
                Some(o) => self@.osc == Some(o@),
                None => self@.osc is None,
            },
    {
        self.osc.as_ref()
    }
}

/// Classification of a complete OSC whose parameter bytes end at `pe`.
pub open spec fn classify_osc_legacy(data: Seq<u8>, pe: int) -> OscModel {
    if 4 <= pe <= data.len() && data[2] == 0x30 && data[3] == 0x3b {
        OscModel::ChangeIconNameAndWindowTitle(data.subrange(4, pe))
    } else if 4 <= pe <= data.len() && data[2] == 0x39 && data[3] == 0x3b {
        OscModel::PostNotification(data.subrange(4, pe))
    } else {
        OscModel::Other
    }
}

/// The next token of `data`: how many bytes it takes and its
/// classification (`None` in the pair means plain text). Plain runs extend
/// to the next `ESC ]`; a trailing OSC without its terminator is emitted
/// whole as `Incomplete` only when the buffer is full, else nothing is
/// emitted. `None` as the whole result means nothing can be emitted.
pub open spec fn spec_parse_osc(data: Seq<u8>, full: bool) -> Option<(int, Option<OscModel>)> {
    if data.len() == 0 {
        None
    } else {
        match find_window(data, 0, 0x1b, 0x5d) {
            None => Some((data.len() as int, None)),
            Some(n) => if n > 0 {
                Some((n, None))
            } else {
                match osc_terminator(data) {
                    Some((pe, tl)) => Some((pe + tl, Some(classify_osc_legacy(data, pe)))),
                    None => if full {
                        Some((data.len() as int, Some(OscModel::Incomplete)))
                    } else {
                        None
                    },
                }
            },
        }
    }
}

/// A token always takes at least one byte and never more than the input.
pub proof fn lemma_parse_osc_len(data: Seq<u8>, full: bool)
    ensures
        match spec_parse_osc(data, full) {
            Some((n, _)) => 1 <= n <= data.len(),
            None => true,
        },
{
    if data.len() > 0 {
        lemma_find_window_spec(data, 0, 0x1b, 0x5d);
        match find_window(data, 0, 0x1b, 0x5d) {
            None => {},
            Some(n) => {
                if n == 0 {
                    lemma_find_byte_spec(data, 2, 0x07);
                    if find_byte(data, 2, 0x07) is None {
                        lemma_find_window_spec(data, 2, 0x1b, 0x5c);
                    }
                }
            },
        }
    }
}

/// The whole token list of `data`.
pub open spec fn spec_parse_osc_list(data: Seq<u8>, full: bool) -> Seq<OscFragmentModel>
    decreases data.len(),
{
    match spec_parse_osc(data, full) {
        Some((n, tag)) => if 1 <= n <= data.len() {
            seq![OscFragmentModel { data: data.take(n), osc: tag }] + spec_parse_osc_list(
                data.skip(n),
                full,
            )
        } else {
            seq![]
        },
        None => seq![],
    }
}

/// The total byte count of a fragment list.
pub open spec fn osc_list_size(frags: Seq<OscFragmentModel>) -> int
    decreases frags.len(),
{
    if frags.len() == 0 {
        0
    } else {
        frags[0].data.len() + osc_list_size(frags.skip(1))
    }
}

/// All the fragments' bytes, in emission order.
pub open spec fn osc_concat_data(frags: Seq<OscFragmentModel>) -> Seq<u8>
    decreases frags.len(),
{
    if frags.len() == 0 {
        seq![]
    } else {
        frags[0].data + osc_concat_data(frags.skip(1))
    }
}

/// Concatenating every fragment's bytes from a parse pass reproduces
/// exactly the consumed prefix of the input; a full buffer is consumed
/// whole.
pub proof fn lemma_osc_parse_reproduces_input(data: Seq<u8>, full: bool)
    ensures
        0 <= osc_list_size(spec_parse_osc_list(data, full)) <= data.len(),
        osc_concat_data(spec_parse_osc_list(data, full)) == data.take(
            osc_list_size(spec_parse_osc_list(data, full)),
        ),
        full ==> osc_list_size(spec_parse_osc_list(data, full)) == data.len(),
    decreases data.len(),
{
    lemma_parse_osc_len(data, full);
    match spec_parse_osc(data, full) {
        Some((n, tag)) => {
            let f = OscFragmentModel { data: data.take(n), osc: tag };
            let rest = spec_parse_osc_list(data.skip(n), full);
            assert((seq![f] + rest).skip(1) =~= rest);
            assert((seq![f] + rest)[0] == f);
            lemma_osc_parse_reproduces_input(data.skip(n), full);
            let m = osc_list_size(rest);
            assert(data.take(n) + data.skip(n).take(m) =~= data.take(n + m));
        },
        None => {
            assert(data.take(0) =~= Seq::<u8>::empty());
        },
    }
}

/// Carve the next token off the front of `data`.
fn parse_osc_fragment(data: &[u8], full: bool) -> (r: Option<Fragment>)
    ensures
        match r {
            Some(f) => {
                &&& spec_parse_osc(data@, full) matches Some((n, tag))
                &&& f@.data == data@.take(n)
                &&& f@.data.len() == n
                &&& f@.osc == tag
            },
            None => spec_parse_osc(data@, full) is None,
        },
{
    proof {
        lemma_parse_osc_len(data@, full);
    }
    if data.len() == 0 {
        return None;
    }
    match scan_window(data, 0, 0x1b, 0x5d) {
        None => {
            let piece = slice_to_vec(data);
            proof {
                assert(piece@ =~= data@.take(data@.len() as int));
            }
            Some(Fragment { data: piece, osc: None })
        },
        Some(n) => {
            if n > 0 {
                let piece = slice_to_vec(slice_subrange(data, 0, n));
                proof {
                    assert(piece@ =~= data@.take(n as int));
                }
                Some(Fragment { data: piece, osc: None })
            } else {
                let term = match scan_byte(data, 2, 0x07) {
                    Some(j) => Some((j, 1usize)),
                    None => match scan_window(data, 2, 0x1b, 0x5c) {
                        Some(j) => Some((j, 2usize)),
                        None => None,
                    },
                };
                match term {
                    None => {
                        if full {
                            let piece = slice_to_vec(data);
                            proof {
                                assert(piece@ =~= data@.take(data@.len() as int));
                            }
                            Some(Fragment { data: piece, osc: Some(Osc::Incomplete) })
                        } else {
                            None
                        }
                    },
                    Some((pe, tl)) => {
                        let tag = if pe >= 4 && data[2] == 0x30 && data[3] == 0x3b {
                            let payload = slice_to_vec(slice_subrange(data, 4, pe));
                            proof {
                                assert(payload@ =~= data@.subrange(4, pe as int));
                            }
                            Osc::ChangeIconNameAndWindowTitle(payload)
                        } else if pe >= 4 && data[2] == 0x39 && data[3] == 0x3b {
                            let payload = slice_to_vec(slice_subrange(data, 4, pe));
                            proof {
                                assert(payload@ =~= data@.subrange(4, pe as int));
                            }
                            Osc::PostNotification(payload)
                        } else {
                            Osc::Other
                        };
                        let piece = slice_to_vec(slice_subrange(data, 0, pe + tl));
                        proof {
                            assert(piece@ =~= data@.take(pe as int + tl as int));
                        }
                        Some(Fragment { data: piece, osc: Some(tag) })
                    },
                }
            }
        },
    }
}

} // verus!

verus! {

/// A fixed-capacity byte store fed by successive reads; `[start, end)` is
/// the unconsumed region.
#[derive(Debug, PartialEq)]
pub struct Buffer<const N: usize> {
    data: Vec<u8>,
    start: usize,
    end: usize,
}

impl<const N: usize> Buffer<N> {
    #[verifier::type_invariant]
    spec fn type_wf(self) -> bool {
        self.data@.len() == N && self.start <= self.end <= N
    }

    /// The bytes read but not yet consumed.
    pub closed spec fn unconsumed(&self) -> Seq<u8> {
        self.data@.subrange(self.start as int, self.end as int)
    }

    /// Where the unconsumed region begins in the store.
    pub closed spec fn spec_start(&self) -> int {
        self.start as int
    }

    /// Where the unconsumed region ends in the store.
    pub closed spec fn spec_end(&self) -> int {
        self.end as int
    }

    /// The store's bounds always hold, and the unconsumed region spans
    /// exactly `[start, end)`.
    pub open spec fn spans(&self) -> bool {
        &&& 0 <= self.spec_start() <= self.spec_end() <= N
        &&& self.unconsumed().len() == self.spec_end() - self.spec_start()
    }

    /// Whether no byte can be read before something is consumed.
    pub open spec fn spec_is_full(&self) -> bool {
        self.spec_start() == 0 && self.spec_end() == N
    }

    /// How many bytes the next read can take: the free tail, after the
    /// compaction that a read triggers when the used part of the store has
    /// reached half its capacity.
    pub open spec fn spec_room(&self) -> int {
        if N <= 2 * self.spec_end() {
            N - (self.spec_end() - self.spec_start())
        } else {
            N - self.spec_end()
        }
    }

    /// An empty buffer of capacity `N`.
    pub fn new() -> (r: Buffer<N>)
        ensures
            r.unconsumed() == Seq::<u8>::empty(),
            r.spec_start() == 0,
            r.spec_end() == 0,
            r.spans(),
            r.spec_room() == N,
            r.spec_is_full() == (N == 0),
    {
        let data = vec![0u8; N];
        let r = Buffer { data, start: 0, end: 0 };
        proof {
            assert(r.unconsumed() =~= Seq::<u8>::empty());
        }
        r
    }

    /// Whether the buffer has no room left before compaction. A caller
    /// uses this to force-classify a trailing incomplete escape sequence,
    /// so that a saturated buffer cannot wedge waiting for bytes that can
    /// never arrive.
    pub fn is_full(&self) -> (r: bool)
        ensures
            r == self.spec_is_full(),
            r <==> self.unconsumed().len() == N,
            self.spans(),
    {
        proof {
            use_type_invariant(self);
        }
        self.start == 0 && self.end == N
    }

    /// Copy as much of `input` as fits, compacting first when the used
    /// part of the store has reached half the capacity. Returns how many
    /// bytes were taken; `0` means end of input or a saturated buffer.
    pub fn extend_from_read(&mut self, input: &[u8]) -> (n: usize)
        ensures
            final (self).unconsumed() == old(self).unconsumed() + input@.take(n as int),
            n == if input@.len() <= old(self).spec_room() {
                input@.len() as int
            } else {
                old(self).spec_room()
            },
            final (self).spec_start() == if N <= 2 * old(self).spec_end() {
                0int
            } else {
                old(self).spec_start()
            },
            final (self).spec_end() == final (self).spec_start() + old(
                self,
            ).unconsumed().len() + n,
            final (self).spans(),
    {
        proof {
            use_type_invariant(&*self);
        }
        let ghost pending = self.unconsumed();
        let compact = N - self.end <= self.end;
        proof {
            assert(compact == (N <= 2 * self.end));
        }
        let keep_start = if compact {
            self.start
        } else {
            0
        };
        let mut nd = slice_to_vec(slice_subrange(self.data.as_slice(), keep_start, self.end));
        let base = nd.len();
        let ghost kept_view = nd@;
        let room = N - base;
        let n = if input.len() <= room {
            input.len()
        } else {
            room
        };
        let ghost joined = nd@ + input@.take(n as int);
        push_taken(&mut nd, input, n);
        pad_to(&mut nd, N);
        let new_start = if compact {
            0
        } else {
            self.start
        };
        let new_end = base + n;
        let ghost old_start = self.start as int;
        let ghost old_end = self.end as int;
        *self = Buffer { data: nd, start: new_start, end: new_end };
        proof {
            assert(self.data@.subrange(0, base as int + n as int) == joined);
            if compact {
                assert(kept_view =~= pending);
                assert(self.unconsumed() == self.data@.subrange(0, base as int + n as int));
                assert(joined =~= pending + input@.take(n as int));
            } else {
                assert(self.unconsumed() =~= joined.subrange(old_start, base as int + n as int));
                assert(joined.subrange(old_start, base as int + n as int) =~= pending
                    + input@.take(n as int));
            }
        }
        n
    }
}

/// Append exactly `n` bytes of `input` to `out`.
fn push_taken(out: &mut Vec<u8>, input: &[u8], n: usize)
    requires
        n <= input@.len(),
    ensures
        final (out)@ == old(out)@ + input@.take(n as int),
{
    let head = slice_subrange(input, 0, n);
    proof {
        assert(head@ =~= input@.take(n as int));
    }
    crate::byteseq::push_bytes(out, head);
}

/// Grow `out` with zero bytes up to length `n`.
fn pad_to(out: &mut Vec<u8>, n: usize)
    requires
        old(out)@.len() <= n,
    ensures
        final (out)@.len() == n,
        final (out)@.subrange(0, old(out)@.len() as int) == old(out)@,
{
    while out.len() < n
        invariant
            old(out)@.len() <= out@.len() <= n,
            out@.subrange(0, old(out)@.len() as int) =~= old(out)@,
        decreases n - out@.len(),
    {
        out.push(0);
    }
}

} // verus!

verus! {

/// The fragments of one parse pass, handed out in order.
pub struct FragmentIterator {
    fragments: Vec<Fragment>,
}

impl View for FragmentIterator {
    type V = Seq<OscFragmentModel>;

    closed spec fn view(&self) -> Seq<OscFragmentModel> {
        self.fragments.deep_view()
    }
}

impl FragmentIterator {
    /// Whether a fragment is still to be handed out.
    pub fn has_next(&self) -> (r: bool)
        ensures
            r <==> self@.len() > 0,
    {
        self.fragments.len() > 0
    }

    /// The next fragment, front to back.
    pub fn next(&mut self) -> (r: Option<Fragment>)
        ensures
            match r {
                Some(f) => old(self)@.len() > 0 && f@ == old(self)@[0] && final (self)@ == old(
                    self,
                )@.skip(1),
                None => old(self)@.len() == 0 && final (self)@ == old(self)@,
            },
    {
        if self.fragments.len() == 0 {
            None
        } else {
            let ghost pre = self.fragments.deep_view();
            let f = self.fragments.remove(0);
            proof {
                assert(f@ == pre[0]);
                assert(self.fragments.deep_view() =~= pre.skip(1));
            }
            Some(f)
        }
    }

    /// All remaining fragments at once.
    pub fn into_fragments(self) -> (r: Vec<Fragment>)
        ensures
            r.deep_view() == self@,
    {
        self.fragments
    }
}

impl<const N: usize> Buffer<N> {
    /// Tokenize and consume the parseable prefix of the unconsumed bytes.
    /// A trailing OSC that still lacks its terminator stays in the buffer
    /// for the next read — unless the buffer is full, in which case it is
    /// emitted whole as `Incomplete` so the stream cannot wedge.
    pub fn drain(&mut self) -> (r: FragmentIterator)
        ensures
            r@ == spec_parse_osc_list(old(self).unconsumed(), old(self).spec_is_full()),
            final (self).unconsumed() == old(self).unconsumed().skip(osc_list_size(r@)),
            final (self).spec_start() == old(self).spec_start() + osc_list_size(r@),
            final (self).spec_end() == old(self).spec_end(),
            final (self).spans(),
    {
        proof {
            use_type_invariant(&*self);
        }
        let full = self.is_full();
        let pend = slice_to_vec(slice_subrange(self.data.as_slice(), self.start, self.end));
        proof {
            assert(pend@ =~= self.unconsumed());
        }
        let ghost orig = pend@;
        let total = pend.len();
        let mut rest: &[u8] = pend.as_slice();
        let mut fragments: Vec<Fragment> = Vec::new();
        let mut consumed: usize = 0;
        let mut done = false;
        proof {
            assert(rest@ =~= orig.skip(0));
        }
        while !done
            invariant
                0 <= consumed <= orig.len(),
                total == orig.len(),
                rest@ == orig.skip(consumed as int),
                spec_parse_osc_list(orig, full) == fragments.deep_view() + spec_parse_osc_list(
                    rest@,
                    full,
                ),
                consumed == osc_list_size(fragments.deep_view()),
                done ==> spec_parse_osc_list(rest@, full) == Seq::<OscFragmentModel>::empty(),
            decreases (if done {
                0int
            } else {
                1int
            }), rest@.len(),
        {
            proof {
                lemma_parse_osc_len(rest@, full);
                lemma_osc_parse_reproduces_input(orig, full);
            }
            match parse_osc_fragment(rest, full) {
                None => {
                    done = true;
                },
                Some(fragment) => {
                    let ghost pre = fragments.deep_view();
                    let ghost rest_pre = rest@;
                    let n = fragment.data.len();
                    let ghost fm = fragment@;
                    rest = slice_subrange(rest, n, rest.len());
                    fragments.push(fragment);
                    consumed = consumed + n;
                    proof {
                        assert(rest@ =~= rest_pre.skip(n as int));
                        assert(orig.skip(consumed as int - n).skip(n as int) =~= orig.skip(
                            consumed as int,
                        ));
                        assert(fragments.deep_view() =~= pre + seq![fm]);
                        assert(spec_parse_osc_list(rest_pre, full) == seq![fm]
                            + spec_parse_osc_list(rest@, full));
                        assert((pre + seq![fm]) + spec_parse_osc_list(rest@, full) =~= pre + (
                        seq![fm] + spec_parse_osc_list(rest@, full)));
                        lemma_osc_size_snoc(pre, fm);
                    }
                },
            }
        }
        proof {
            assert(fragments.deep_view() + Seq::<OscFragmentModel>::empty() =~= (
            fragments.deep_view()));
            assert(fragments.deep_view() == spec_parse_osc_list(orig, full));
        }
        let new_start = self.start + consumed;
        let ghost old_start = self.start as int;
        self.start = new_start;
        proof {
            assert(self.unconsumed() =~= orig.skip(consumed as int));
        }
        FragmentIterator { fragments }
    }
}

proof fn lemma_osc_size_snoc(frags: Seq<OscFragmentModel>, f: OscFragmentModel)
    ensures
        osc_list_size(frags + seq![f]) == osc_list_size(frags) + f.data.len(),
    decreases frags.len(),
{
    if frags.len() == 0 {
        assert(frags + seq![f] =~= seq![f]);
        assert(seq![f].skip(1) =~= Seq::<OscFragmentModel>::empty());
        assert(osc_list_size(Seq::<OscFragmentModel>::empty()) == 0);
        assert(osc_list_size(seq![f]) == f.data.len() + osc_list_size(seq![f].skip(1)));
    } else {
        assert((frags + seq![f]).skip(1) =~= frags.skip(1) + seq![f]);
        assert((frags + seq![f])[0] == frags[0]);
        lemma_osc_size_snoc(frags.skip(1), f);
    }
}

} // verus!

verus! {

/// Whether a byte run contains the URL marker `://`.
pub open spec fn has_url_marker(d: Seq<u8>) -> bool {
    find_window3(d, 0, 0x3a, 0x2f, 0x2f) is Some
}

/// The escape-sequence fragments of a list, in order, plain runs dropped.
pub open spec fn osc_only(s: Seq<OscFragmentModel>) -> Seq<OscFragmentModel>
    decreases s.len(),
{
    if s.len() == 0 {
        seq![]
    } else {
        (if s[0].osc is Some {
            seq![s[0]]
        } else {
            seq![]
        }) + osc_only(s.skip(1))
    }
}

proof fn lemma_osc_only_append(a: Seq<OscFragmentModel>, b: Seq<OscFragmentModel>)
    ensures
        osc_only(a + b) == osc_only(a) + osc_only(b),
    decreases a.len(),
{
    if a.len() == 0 {
        assert(a + b =~= b);
        assert(osc_only(a) + osc_only(b) =~= osc_only(b));
    } else {
        lemma_osc_only_append(a.skip(1), b);
        assert((a + b)[0] == a[0]);
        assert((a + b).skip(1) =~= a.skip(1) + b);
        let head: Seq<OscFragmentModel> = if a[0].osc is Some {
            seq![a[0]]
        } else {
            seq![]
        };
        assert((head + osc_only(a.skip(1))) + osc_only(b) =~= head + (osc_only(a.skip(1))
            + osc_only(b)));
    }
}

proof fn lemma_osc_only_all_plain(s: Seq<OscFragmentModel>)
    requires
        forall|i: int| 0 <= i < s.len() ==> (#[trigger] s[i]).osc is None,
    ensures
        osc_only(s) == Seq::<OscFragmentModel>::empty(),
    decreases s.len(),
{
    if s.len() > 0 {
        assert(forall|i: int| 0 <= i < s.skip(1).len() ==> #[trigger] s.skip(1)[i] == s[i + 1]);
        lemma_osc_only_all_plain(s.skip(1));
        assert(osc_only(s) =~= Seq::<OscFragmentModel>::empty());
    }
}

/// Every appended fragment is plain and carves a contiguous range of `d`.
spec fn appended_pieces_of(
    pre: Seq<OscFragmentModel>,
    post: Seq<OscFragmentModel>,
    d: Seq<u8>,
) -> bool {
    &&& post.len() >= pre.len()
    &&& post.take(pre.len() as int) == pre
    &&& forall|i: int|
        pre.len() <= i < post.len() ==> (#[trigger] post[i]).osc is None && (exists|a: int, b: int|
            0 <= a <= b <= d.len() && post[i].data == #[trigger] d.subrange(a, b))
}

/// A plain piece carved out of some plain fragment of `src`.
pub open spec fn piece_from(piece: OscFragmentModel, src: Seq<OscFragmentModel>) -> bool {
    exists|j: int, a: int, b: int|
        0 <= j < src.len() && src[j].osc is None && 0 <= a <= b <= src[j].data.len()
            && piece.data == #[trigger] src[j].data.subrange(a, b)
}

proof fn lemma_pieces_push(
    pre: Seq<OscFragmentModel>,
    cur: Seq<OscFragmentModel>,
    piece: OscFragmentModel,
    d: Seq<u8>,
    a: int,
    b: int,
)
    requires
        appended_pieces_of(pre, cur, d),
        piece.osc is None,
        0 <= a <= b <= d.len(),
        piece.data == d.subrange(a, b),
    ensures
        appended_pieces_of(pre, cur + seq![piece], d),
{
    let post = cur + seq![piece];
    assert(post.take(pre.len() as int) =~= cur.take(pre.len() as int));
    assert forall|i: int|
        pre.len() <= i < post.len() implies (#[trigger] post[i]).osc is None && (exists|
        a2: int,
        b2: int,
    |
        0 <= a2 <= b2 <= d.len() && post[i].data == #[trigger] d.subrange(a2, b2)) by {
        if i < cur.len() {
            assert(post[i] == cur[i]);
        } else {
            assert(post[i] == piece);
            assert(piece.data == d.subrange(a, b));
        }
    }
}

/// A copy of `data[a..b]`.
fn subvec(data: &Vec<u8>, a: usize, b: usize) -> (r: Vec<u8>)
    requires
        a <= b <= data@.len(),
    ensures
        r@ == data@.subrange(a as int, b as int),
{
    slice_to_vec(slice_subrange(data.as_slice(), a, b))
}

/// First position at or after `i` whose byte is not printable ASCII, or
/// the end of `d`.
pub open spec fn find_break(d: Seq<u8>, i: int) -> int
    decreases d.len() - i,
{
    if i < 0 || i >= d.len() {
        d.len() as int
    } else if !is_graphic(d[i]) {
        i
    } else {
        find_break(d, i + 1)
    }
}

proof fn lemma_find_break_is(d: Seq<u8>, i: int, j: int)
    requires
        0 <= i <= j <= d.len(),
        forall|k: int| i <= k < j ==> is_graphic(#[trigger] d[k]),
        j < d.len() ==> !is_graphic(d[j]),
    ensures
        find_break(d, i) == j,
    decreases j - i,
{
    if i < j {
        lemma_find_break_is(d, i + 1, j);
    }
}

/// One position past the final byte of the CSI sequence starting before
/// `k`, or the end of `d`.
pub open spec fn csi_skip(d: Seq<u8>, k: int) -> int {
    match find_in_range(d, k, 0x40, 0x7e) {
        Some(j) => j + 1,
        None => d.len() as int,
    }
}

/// Where a URL's run of printable bytes continues after the terminal's
/// own interruptions: CSI sequences, and at most one wrap break `\r\n  `.
pub open spec fn walk_spec(d: Seq<u8>, k: int, linebreak_found: bool) -> int
    decreases d.len() - k,
{
    if 0 <= k && k + 1 < d.len() && d[k] == 0x1b && d[k + 1] == 0x5b {
        let k2 = csi_skip(d, k + 2);
        let k2c = if k + 2 <= k2 <= d.len() {
            k2
        } else {
            k + 2
        };
        walk_spec(d, k2c, linebreak_found)
    } else if !linebreak_found && 0 <= k && k + 3 < d.len() && d[k] == 0x0d && d[k + 1] == 0x0a
        && d[k + 2] == 0x20 && d[k + 3] == 0x20 {
        walk_spec(d, k + 4, true)
    } else {
        k
    }
}

/// First position at or after `from` whose byte is not printable ASCII,
/// or the end of `data`.
fn scan_url_break(data: &[u8], from: usize) -> (r: usize)
    requires
        from <= data@.len(),
    ensures
        from <= r <= data@.len(),
        r == find_break(data@, from as int),
{
    let mut k = from;
    while k < data.len()
        invariant
            from <= k <= data@.len(),
            forall|j: int| from <= j < k ==> is_graphic(#[trigger] data@[j]),
        decreases data@.len() - k,
    {
        if !(0x21 <= data[k] && data[k] <= 0x7e) {
            proof {
                lemma_find_break_is(data@, from as int, k as int);
            }
            return k;
        }
        k = k + 1;
    }
    proof {
        lemma_find_break_is(data@, from as int, data@.len() as int);
    }
    k
}

/// Walk past the terminal's own bytes that may interrupt a wrapped URL:
/// CSI sequences, and one wrap break `\r\n  `.
fn walk_continuation(data: &[u8], from: usize) -> (r: usize)
    requires
        from <= data@.len(),
    ensures
        from <= r <= data@.len(),
        r == walk_spec(data@, from as int, false),
{
    let mut k = from;
    let mut linebreak_found = false;
    let mut walking = true;
    while walking
        invariant
            from <= k <= data@.len(),
            walk_spec(data@, from as int, false) == (if walking {
                walk_spec(data@, k as int, linebreak_found)
            } else {
                k as int
            }),
        decreases (if walking {
            1int
        } else {
            0int
        }), data@.len() - k,
    {
        if k < data.len() && data.len() - k > 1 && data[k] == 0x1b && data[k + 1] == 0x5b {
            k = k + 2;
            let ghost k0 = k as int;
            let mut skipping = true;
            while skipping && k < data.len()
                invariant
                    0 <= k0 <= k <= data@.len(),
                    skipping ==> forall|j: int|
                        k0 <= j < k ==> !(0x40 <= #[trigger] data@[j] <= 0x7e),
                    !skipping ==> k0 + 1 <= k && 0x40 <= data@[k - 1] <= 0x7e && (forall|j: int|
                        k0 <= j < k - 1 ==> !(0x40 <= #[trigger] data@[j] <= 0x7e)),
                decreases data@.len() - k,
            {
                if 0x40 <= data[k] && data[k] <= 0x7e {
                    skipping = false;
                }
                k = k + 1;
            }
            proof {
                if skipping {
                    crate::byteseq::lemma_find_in_range_is_none(data@, k0, 0x40, 0x7e);
                } else {
                    crate::byteseq::lemma_find_in_range_is(data@, k0, k as int - 1, 0x40, 0x7e);
                }
                assert(k as int == csi_skip(data@, k0));
            }
        } else if !linebreak_found && k < data.len() && data.len() - k > 3 && data[k] == 0x0d
            && data[k + 1] == 0x0a && data[k + 2] == 0x20 && data[k + 3] == 0x20 {
            linebreak_found = true;
            k = k + 4;
        } else {
            walking = false;
        }
    }
    k
}

/// Whether the bytes just before the marker at `abs` name a recognized
/// URL scheme inside the current run (which starts at `base`).
pub open spec fn legacy_scheme_ok(d: Seq<u8>, base: int, abs: int) -> bool {
    ||| (abs - base >= 4 && d[abs - 4] == 0x66 && d[abs - 3] == 0x69 && d[abs - 2] == 0x6c && d[
        abs - 1] == 0x65)
    ||| (abs - base >= 4 && d[abs - 4] == 0x68 && d[abs - 3] == 0x74 && d[abs - 2] == 0x74 && d[
        abs - 1] == 0x70)
    ||| (abs - base >= 5 && d[abs - 5] == 0x68 && d[abs - 4] == 0x74 && d[abs - 3] == 0x74 && d[
        abs - 2] == 0x70 && d[abs - 1] == 0x73)
}

/// Whether the URL run ends after the gap at `pos`: the run's bytes ran
/// out, the next byte is not printable, or a new list item begins.
pub open spec fn stop_after_gap(d: Seq<u8>, pos: int) -> bool {
    ||| pos >= d.len()
    ||| !is_graphic(d[pos])
    ||| (d[pos] == 0x2d && d.len() - pos > 1 && (d[pos + 1] == 0x20 || d[pos + 1] == 0x0d))
}

/// A plain fragment over the given bytes.
pub open spec fn plain_piece(b: Seq<u8>) -> OscFragmentModel {
    OscFragmentModel { data: b, osc: None }
}

/// The fragment a held-back gap turns into, if any.
pub open spec fn gap_pieces(gap: Option<Seq<u8>>) -> Seq<OscFragmentModel> {
    match gap {
        Some(g) => seq![plain_piece(g)],
        None => seq![],
    }
}

/// The pieces emitted for one plain run from `base` on, scanning for a
/// URL marker from `base + off`: without a recognized `scheme://` the
/// whole rest is one plain fragment; with one, the text up to and
/// including the marker, then the URL's printable pieces with the one
/// wrap break inside the run dropped, then the break that ended the run.
pub open spec fn split_runs_spec(d: Seq<u8>, base: int, off: int) -> Seq<OscFragmentModel>
    decreases d.len() - base, 0int, d.len() - base - off,
{
    if !(0 <= base && 0 <= off && base + off <= d.len()) {
        seq![]
    } else {
        match find_window3(d, base + off, 0x3a, 0x2f, 0x2f) {
            None => seq![plain_piece(d.subrange(base, d.len() as int))],
            Some(abs) => {
                if base + off <= abs && abs + 2 < d.len() {
                    if !legacy_scheme_ok(d, base, abs) {
                        let off2 = if abs - base + 3 <= d.len() - base {
                            abs - base + 3
                        } else {
                            d.len() - base
                        };
                        let off3 = if off2 > off {
                            off2
                        } else {
                            off + 1
                        };
                        if off < off3 <= d.len() - base {
                            split_runs_spec(d, base, off3)
                        } else {
                            seq![]
                        }
                    } else {
                        seq![plain_piece(d.subrange(base, abs + 3))] + url_run_spec(
                            d,
                            abs + 3,
                            None,
                        )
                    }
                } else {
                    seq![]
                }
            },
        }
    }
}

/// The pieces of one URL run from `pos` on: the printable piece up to the
/// break, then — when the walk passed a wrap break — either another piece
/// of the same URL, or the held-back break bytes and the rest of the run.
pub open spec fn url_run_spec(d: Seq<u8>, pos: int, gap: Option<Seq<u8>>) -> Seq<
    OscFragmentModel,
>
    decreases d.len() - pos, 1int, 0int,
{
    if !(0 <= pos <= d.len()) {
        seq![]
    } else {
        let ub0 = find_break(d, pos);
        let ub = if pos <= ub0 <= d.len() {
            ub0
        } else {
            pos
        };
        let uc0 = walk_spec(d, ub, false);
        let uc = if ub <= uc0 <= d.len() {
            uc0
        } else {
            ub
        };
        let piece = plain_piece(d.subrange(pos, ub));
        if uc <= ub {
            seq![piece] + gap_pieces(gap) + split_runs_spec(d, ub, 0)
        } else {
            let g2 = d.subrange(ub, uc);
            if stop_after_gap(d, uc) {
                seq![piece] + seq![plain_piece(g2)] + split_runs_spec(d, uc, 0)
            } else {
                seq![piece] + url_run_spec(d, uc, Some(g2))
            }
        }
    }
}

/// Split the URL runs out of one plain-text run, dropping the wrap break
/// inside each run and re-emitting the break that ends it afterwards. A
/// run without the marker `://` is passed through as one fragment.
fn split_url_runs(data: Vec<u8>, out: &mut Vec<Fragment>)
    ensures
        final (out).deep_view() == old(out).deep_view() + split_runs_spec(data@, 0, 0),
        appended_pieces_of(old(out).deep_view(), final (out).deep_view(), data@),
        !has_url_marker(data@) ==> final (out).deep_view() == old(out).deep_view() + seq![
            OscFragmentModel { data: data@, osc: None },
        ],
{
    let len = data.len();
    let mut base: usize = 0;
    let mut offset: usize = 0;
    let mut finished = false;
    proof {
        assert(out.deep_view().take(old(out).deep_view().len() as int) =~= old(out).deep_view());
    }
    while !finished
        invariant
            len == data@.len(),
            base <= len,
            base + offset <= len,
            old(out).deep_view() + split_runs_spec(data@, 0, 0) == out.deep_view() + (
            if finished {
                Seq::<OscFragmentModel>::empty()
            } else {
                split_runs_spec(data@, base as int, offset as int)
            }),
            appended_pieces_of(old(out).deep_view(), out.deep_view(), data@),
            !has_url_marker(data@) ==> (if finished {
                out.deep_view() == old(out).deep_view() + seq![
                    OscFragmentModel { data: data@, osc: None },
                ]
            } else {
                out.deep_view() == old(out).deep_view() && base == 0 && offset == 0
            }),
        decreases (if finished {
            0int
        } else {
            1int
        }), len - (base + offset),
    {
        match scan_window3(data.as_slice(), base + offset, 0x3a, 0x2f, 0x2f) {
            None => {
                let ghost pre = out.deep_view();
                let piece = subvec(&data, base, len);
                let ghost pm = OscFragmentModel { data: piece@, osc: None };
                out.push(Fragment { data: piece, osc: None });
                finished = true;
                proof {
                    assert(out.deep_view() =~= pre + seq![pm]);
                    lemma_pieces_push(old(out).deep_view(), pre, pm, data@, base as int,
                        len as int,
                    );
                    if !has_url_marker(data@) {
                        assert(data@.subrange(0, len as int) =~= data@);
                    }
                }
            },
            Some(marker) => {
                proof {
                    if base + offset == 0 {
                        assert(has_url_marker(data@));
                    }
                }
                let mi = marker - base;
                let scheme_ok = (mi >= 4 && data[marker - 4] == 0x66 && data[marker - 3] == 0x69
                    && data[marker - 2] == 0x6c && data[marker - 1] == 0x65) || (mi >= 4
                    && data[marker - 4] == 0x68 && data[marker - 3] == 0x74 && data[marker - 2]
                    == 0x74 && data[marker - 1] == 0x70) || (mi >= 5 && data[marker - 5] == 0x68
                    && data[marker - 4] == 0x74 && data[marker - 3] == 0x74 && data[marker - 2]
                    == 0x70 && data[marker - 1] == 0x73);
                if !scheme_ok {
                    offset = mi + 3;
                } else {
                    let ghost pre = out.deep_view();
                    let piece = subvec(&data, base, marker + 3);
                    let ghost pm = OscFragmentModel { data: piece@, osc: None };
                    out.push(Fragment { data: piece, osc: None });
                    proof {
                        assert(out.deep_view() =~= pre + seq![pm]);
                        lemma_pieces_push(old(out).deep_view(), pre, pm, data@, base as int,
                            marker as int + 3,
                        );
                    }
                    let mut pos = marker + 3;
                    let mut gap: Option<Fragment> = None;
                    let mut run_done = false;
                    while !run_done
                        invariant
                            len == data@.len(),
                            marker + 3 <= pos <= len,
                            old(out).deep_view() + split_runs_spec(data@, 0, 0) == out.deep_view()
                                + (if run_done {
                                gap_pieces(
                                    match gap {
                                        Some(g) => Some(g@.data),
                                        None => None::<Seq<u8>>,
                                    },
                                ) + split_runs_spec(data@, pos as int, 0)
                            } else {
                                url_run_spec(
                                    data@,
                                    pos as int,
                                    match gap {
                                        Some(g) => Some(g@.data),
                                        None => None::<Seq<u8>>,
                                    },
                                )
                            }),
                            appended_pieces_of(old(out).deep_view(), out.deep_view(), data@),
                            match gap {
                                Some(g) => g@.osc is None && exists|a: int, b: int|
                                    0 <= a <= b <= data@.len() && g@.data == #[trigger]
                                        data@.subrange(a, b),
                                None => true,
                            },
                        decreases (if run_done {
                            0int
                        } else {
                            1int
                        }), len - pos,
                    {
                        let url_break = scan_url_break(data.as_slice(), pos);
                        let url_cont = walk_continuation(data.as_slice(), url_break);
                        let ghost pre = out.deep_view();
                        let piece = subvec(&data, pos, url_break);
                        let ghost pm = OscFragmentModel { data: piece@, osc: None };
                        out.push(Fragment { data: piece, osc: None });
                        proof {
                            assert(out.deep_view() =~= pre + seq![pm]);
                            lemma_pieces_push(old(out).deep_view(), pre, pm, data@, pos as int,
                                url_break as int,
                            );
                        }
                        if url_cont == url_break {
                            pos = url_cont;
                            run_done = true;
                        } else {
                            gap = Some(Fragment { data: subvec(&data, url_break, url_cont), osc: None });
                            pos = url_cont;
                            if pos >= len {
                                run_done = true;
                            } else {
                                let b = data[pos];
                                if !(0x21 <= b && b <= 0x7e) {
                                    run_done = true;
                                } else if b == 0x2d && len - pos > 1 && (data[pos + 1] == 0x20
                                    || data[pos + 1] == 0x0d) {
                                    run_done = true;
                                }
                            }
                        }
                    }
                    if let Some(g) = gap {
                        let ghost pre = out.deep_view();
                        let ghost gm = g@;
                        let ghost ga = choose|a: int, b: int|
                            0 <= a <= b <= data@.len() && gm.data == #[trigger] data@.subrange(
                                a,
                                b,
                            );
                        out.push(g);
                        proof {
                            assert(out.deep_view() =~= pre + seq![gm]);
                            lemma_pieces_push(old(out).deep_view(), pre, gm, data@, ga.0, ga.1);
                        }
                    }
                    base = pos;
                    offset = 0;
                }
            },
        }
    }
}

/// What one fragment of the list turns into: an escape sequence passes
/// through; a plain run is split around its URLs.
pub open spec fn legacy_contrib(f: OscFragmentModel) -> Seq<OscFragmentModel> {
    if f.osc is Some {
        seq![f]
    } else {
        split_runs_spec(f.data, 0, 0)
    }
}

/// The whole adjustment: each fragment's pieces, in order.
pub open spec fn legacy_adjust_spec(frags: Seq<OscFragmentModel>) -> Seq<OscFragmentModel>
    decreases frags.len(),
{
    if frags.len() == 0 {
        seq![]
    } else {
        legacy_contrib(frags[0]) + legacy_adjust_spec(frags.skip(1))
    }
}

proof fn lemma_legacy_adjust_append(a: Seq<OscFragmentModel>, b: Seq<OscFragmentModel>)
    ensures
        legacy_adjust_spec(a + b) == legacy_adjust_spec(a) + legacy_adjust_spec(b),
    decreases a.len(),
{
    if a.len() == 0 {
        assert(a + b =~= b);
        assert(legacy_adjust_spec(a) + legacy_adjust_spec(b) =~= legacy_adjust_spec(b));
    } else {
        lemma_legacy_adjust_append(a.skip(1), b);
        assert((a + b)[0] == a[0]);
        assert((a + b).skip(1) =~= a.skip(1) + b);
        assert((legacy_contrib(a[0]) + legacy_adjust_spec(a.skip(1))) + legacy_adjust_spec(b)
            =~= legacy_contrib(a[0]) + (legacy_adjust_spec(a.skip(1)) + legacy_adjust_spec(b)));
    }
}

impl FragmentIterator {
    /// Rejoin URLs that the terminal wrapped across physical lines. Inside
    /// each plain-text run, a `file://`, `http://` or `https://` token is
    /// carved out; a wrap break `\r\n  ` interrupting the token's printable
    /// bytes is dropped so the token continues unbroken, and the break that
    /// ends the token is emitted after it. Escape sequences pass through
    /// unchanged and in order; every emitted plain piece is a contiguous
    /// range of one of the input's plain runs; plain runs without a URL
    /// pass through whole.
    pub fn adjust_line_wrapping(self) -> (out: Vec<Fragment>)
        ensures
            out.deep_view() == legacy_adjust_spec(self@),
            (forall|i: int|
                0 <= i < self@.len() && (#[trigger] self@[i]).osc is None ==> !has_url_marker(
                    self@[i].data,
                )) ==> out.deep_view() == self@,
            osc_only(out.deep_view()) == osc_only(self@),
            forall|i: int|
                0 <= i < out.deep_view().len() && (#[trigger] out.deep_view()[i]).osc is None
                    ==> piece_from(out.deep_view()[i], self@),
    {
        let ghost whole = self.fragments.deep_view();
        let mut fragments = self.fragments;
        let mut out: Vec<Fragment> = Vec::new();
        let ghost mut done: int = 0;
        proof {
            assert(out.deep_view() =~= whole.take(0));
            assert(fragments.deep_view() =~= whole.skip(0));
        }
        proof {
            assert(osc_only(Seq::<OscFragmentModel>::empty()) == Seq::<OscFragmentModel>::empty());
            assert(osc_only(whole.take(0)) == Seq::<OscFragmentModel>::empty());
            assert(legacy_adjust_spec(whole.take(0)) == Seq::<OscFragmentModel>::empty());
        }
        while fragments.len() > 0
            invariant
                0 <= done <= whole.len(),
                fragments.deep_view() =~= whole.skip(done),
                out.deep_view() == legacy_adjust_spec(whole.take(done)),
                (forall|i: int|
                    0 <= i < whole.len() && (#[trigger] whole[i]).osc is None ==> !has_url_marker(
                        whole[i].data,
                    )) ==> out.deep_view() == whole.take(done),
                osc_only(out.deep_view()) == osc_only(whole.take(done)),
                forall|i: int|
                    0 <= i < out.deep_view().len() && (#[trigger] out.deep_view()[i]).osc is None
                        ==> piece_from(out.deep_view()[i], whole),
            decreases whole.len() - done,
        {
            let ghost f_pre = fragments.deep_view();
            let ghost out_pre = out.deep_view();
            let f = fragments.remove(0);
            proof {
                assert(f_pre.len() > 0);
                assert(f_pre =~= whole.skip(done));
                assert(whole.skip(done).len() == whole.len() - done);
                assert(0 <= done < whole.len());
                assert(whole.skip(done)[0] == whole[done]);
                assert(f@ == f_pre[0]);
                assert(f@ == whole[done]);
                assert(fragments.deep_view() =~= f_pre.skip(1));
                assert(f_pre.skip(1) =~= whole.skip(done).skip(1));
                assert(whole.skip(done).skip(1) =~= whole.skip(done + 1));
            }
            let ghost fm = f@;
            proof {
                assert(whole.take(done + 1) =~= whole.take(done) + seq![fm]);
                lemma_legacy_adjust_append(whole.take(done), seq![fm]);
                assert(seq![fm].skip(1) =~= Seq::<OscFragmentModel>::empty());
                assert(legacy_adjust_spec(Seq::<OscFragmentModel>::empty())
                    == Seq::<OscFragmentModel>::empty());
                assert(legacy_adjust_spec(seq![fm]) =~= legacy_contrib(fm));
            }
            if f.osc.is_some() {
                out.push(f);
                proof {
                    assert(out.deep_view() =~= out_pre + seq![fm]);
                    lemma_osc_only_append(out_pre, seq![fm]);
                    assert(seq![fm].skip(1) =~= Seq::<OscFragmentModel>::empty());
                    assert(osc_only(Seq::<OscFragmentModel>::empty())
                        == Seq::<OscFragmentModel>::empty());
                    assert(osc_only(seq![fm]) =~= seq![fm]);
                    assert(whole.take(done + 1) =~= whole.take(done) + seq![fm]);
                    lemma_osc_only_append(whole.take(done), seq![fm]);
                    assert forall|i: int|
                        0 <= i < out.deep_view().len() && (
                        #[trigger] out.deep_view()[i]).osc is None implies piece_from(
                        out.deep_view()[i],
                        whole,
                    ) by {
                        assert(out.deep_view()[i] == out_pre[i]);
                    }
                }
            } else {
                proof {
                    assert(fm.osc is None);
                }
                split_url_runs(f.data, &mut out);
                proof {
                    let post = out.deep_view();
                    let appended = post.skip(out_pre.len() as int);
                    assert(post =~= out_pre + appended);
                    assert forall|i: int|
                        0 <= i < appended.len() implies (#[trigger] appended[i]).osc is None by {
                        assert(appended[i] == post[out_pre.len() + i]);
                    }
                    lemma_osc_only_append(out_pre, appended);
                    lemma_osc_only_all_plain(appended);
                    assert(osc_only(out_pre) + Seq::<OscFragmentModel>::empty() =~= osc_only(
                        out_pre,
                    ));
                    assert(whole.take(done + 1) =~= whole.take(done) + seq![fm]);
                    lemma_osc_only_append(whole.take(done), seq![fm]);
                    assert(seq![fm].skip(1) =~= Seq::<OscFragmentModel>::empty());
                    assert(osc_only(Seq::<OscFragmentModel>::empty())
                        == Seq::<OscFragmentModel>::empty());
                    assert(osc_only(seq![fm]) =~= Seq::<OscFragmentModel>::empty());
                    assert(osc_only(whole.take(done)) + Seq::<OscFragmentModel>::empty()
                        =~= osc_only(whole.take(done)));
                    assert forall|i: int|
                        0 <= i < post.len() && (#[trigger] post[i]).osc is None implies piece_from(
                        post[i],
                        whole,
                    ) by {
                        if i < out_pre.len() {
                            assert(post[i] == out_pre[i]);
                        } else {
                            let (a, b) = choose|a: int, b: int|
                                0 <= a <= b <= fm.data.len() && post[i].data == #[trigger]
                                    fm.data.subrange(a, b);
                            assert(whole[done].data.subrange(a, b) == post[i].data);
                            assert(piece_from(post[i], whole));
                        }
                    }
                }
            }
            proof {
                done = done + 1;
                assert(whole.take(done) =~= whole.take(done - 1) + seq![whole[done - 1]]);
            }
        }
        proof {
            assert(whole.take(whole.len() as int) =~= whole);
        }
        out
    }
}

} // verus!
