//! The byte store feeding the tokenizer.
//!
//! A fixed-capacity buffer accumulates reads from the wrapped program;
//! each parse pass consumes the tokenized prefix and leaves incomplete
//! trailers for the next read. Only when the buffer is saturated is a
//! trailing incomplete escape sequence force-emitted, so the stream can
//! never wedge waiting for bytes that cannot arrive.

use vstd::prelude::*;

use crate::tty_text::fragment::{
    lemma_parse_reproduces_input, list_size, spec_parse_list, Fragment, FragmentList,
};
use crate::tty_text::line_wrapping::{prefix_size, reduced_from};
use crate::tty_text::reformat::line_wrapping::cursor_adjust_spec;
use crate::tty_text::reformat::{LineWrapMode, Reformatter};
use vstd::slice::{slice_subrange, slice_to_vec};

verus! {

/// A fixed-capacity byte store fed by successive reads; `[start, end)` is
/// the unconsumed region.
#[derive(Debug, PartialEq)]
pub struct Buffer<const N: usize> {
    data: Vec<u8>,
    start: usize,
    end: usize,
}

impl<const N: usize> Buffer<N> {
    #[verifier::type_invariant]
    spec fn type_wf(self) -> bool {
        self.data@.len() == N && self.start <= self.end <= N
    }

    /// The bytes read but not yet consumed.
    pub closed spec fn unconsumed(&self) -> Seq<u8> {
        self.data@.subrange(self.start as int, self.end as int)
    }

    /// Where the unconsumed region begins in the store.
    pub closed spec fn spec_start(&self) -> int {
        self.start as int
    }

    /// Where the unconsumed region ends in the store.
    pub closed spec fn spec_end(&self) -> int {
        self.end as int
    }

    /// The store's bounds always hold, and the unconsumed region spans
    /// exactly `[start, end)`.
    pub open spec fn spans(&self) -> bool {
        &&& 0 <= self.spec_start() <= self.spec_end() <= N
        &&& self.unconsumed().len() == self.spec_end() - self.spec_start()
    }

    /// Whether no byte can be read before something is consumed.
    pub open spec fn spec_is_full(&self) -> bool {
        self.spec_start() == 0 && self.spec_end() == N
    }

    /// How many bytes the next read can take: the free tail, after the
    /// compaction that a read triggers when something was consumed and the
    /// used part of the store has reached half its capacity.
    pub open spec fn spec_room(&self) -> int {
        if 0 < self.spec_start() && N <= 2 * self.spec_end() {
            N - (self.spec_end() - self.spec_start())
        } else {
            N - self.spec_end()
        }
    }

    /// An empty buffer of capacity `N`.
    pub fn new() -> (r: Buffer<N>)
        ensures
            r.unconsumed() == Seq::<u8>::empty(),
            r.spec_start() == 0,
            r.spec_end() == 0,
            r.spans(),
            r.spec_room() == N,
            r.spec_is_full() == (N == 0),
    {
        let data = vec![0u8; N];
        let r = Buffer { data, start: 0, end: 0 };
        proof {
            assert(r.unconsumed() =~= Seq::<u8>::empty());
        }
        r
    }

    /// Whether the buffer has no room left before compaction.
    pub fn is_full(&self) -> (r: bool)
        ensures
            r == self.spec_is_full(),
            r <==> self.unconsumed().len() == N,
            self.spans(),
    {
        proof {
            use_type_invariant(self);
        }
        self.start == 0 && self.end == N
    }

    /// Copy as much of `input` as fits, compacting first when something
    /// was consumed and the used part of the store has reached half the
    /// capacity. Returns how many bytes were taken; `0` means end of input
    /// or a saturated buffer.
    pub fn extend_from_read(&mut self, input: &[u8]) -> (n: usize)
        ensures
            final (self).unconsumed() == old(self).unconsumed() + input@.take(n as int),
            n == if input@.len() <= old(self).spec_room() {
                input@.len() as int
            } else {
                old(self).spec_room()
            },
            final (self).spec_start() == if 0 < old(self).spec_start() && N <= 2 * old(
                self,
            ).spec_end() {
                0int
            } else {
                old(self).spec_start()
            },
            final (self).spec_end() == final (self).spec_start() + old(
                self,
            ).unconsumed().len() + n,
            final (self).spans(),
    {
        proof {
            use_type_invariant(&*self);
        }
        let ghost pending = self.unconsumed();
        let compact = 0 < self.start && N - self.end <= self.end;
        proof {
            assert(compact == (0 < self.start && N <= 2 * self.end));
        }
        let keep_start = if compact {
            self.start
        } else {
            0
        };
        let mut nd = slice_to_vec(slice_subrange(self.data.as_slice(), keep_start, self.end));
        let base = nd.len();
        let ghost kept_view = nd@;
        let room = N - base;
        let n = if input.len() <= room {
            input.len()
        } else {
            room
        };
        let ghost joined = nd@ + input@.take(n as int);
        push_input(&mut nd, input, n);
        fill_to(&mut nd, N);
        let new_start = if compact {
            0
        } else {
            self.start
        };
        let new_end = base + n;
        let ghost old_start = self.start as int;
        *self = Buffer { data: nd, start: new_start, end: new_end };
        proof {
            assert(self.data@.subrange(0, base as int + n as int) == joined);
            if compact {
                assert(kept_view =~= pending);
                assert(self.unconsumed() == self.data@.subrange(0, base as int + n as int));
                assert(joined =~= pending + input@.take(n as int));
            } else {
                assert(self.unconsumed() =~= joined.subrange(old_start, base as int + n as int));
                assert(joined.subrange(old_start, base as int + n as int) =~= pending
                    + input@.take(n as int));
            }
        }
        n
    }

    /// Tokenize the unconsumed bytes, apply the reformatter's line-wrap
    /// policy, and consume exactly the bytes the emitted fragments stood
    /// for. In `Preserve` mode the whole tokenized prefix is emitted
    /// unchanged; in `Adjust` mode the emitted fragments are drawn from
    /// the tokenized prefix in order, at most join-trimmed, and a
    /// trailing, possibly still-wrapping line may stay in the buffer for
    /// the next read — except that a full buffer always releases at least
    /// one fragment, so the stream cannot wedge.
    pub fn read_fragments(&mut self, formatter: &Reformatter) -> (r: Vec<Fragment>)
        ensures
            ({
                let parsed = spec_parse_list(old(self).unconsumed(), old(self).spec_is_full());
                &&& formatter.spec_mode() == LineWrapMode::Preserve ==> r.deep_view() == parsed
                    && final (self).unconsumed() == old(self).unconsumed().skip(list_size(parsed))
                &&& formatter.spec_mode() == LineWrapMode::Adjust ==> r.deep_view()
                    == cursor_adjust_spec(
                    parsed,
                    old(self).spec_is_full(),
                    formatter.spec_terminal_width(),
                ).0 && final (self).spec_start() - old(self).spec_start() == cursor_adjust_spec(
                    parsed,
                    old(self).spec_is_full(),
                    formatter.spec_terminal_width(),
                ).1 && reduced_from(r.deep_view(), parsed) && (exists|k: int|
                    r.deep_view().len() as int <= k <= parsed.len() && final (self).spec_start()
                        - old(self).spec_start() == prefix_size(parsed, k)) && (old(
                    self,
                ).spec_is_full() && parsed.len() > 0 ==> r.deep_view().len() >= 1)
                &&& exists|c: int|
                    0 <= c <= old(self).unconsumed().len() && final (self).unconsumed() == old(
                    self).unconsumed().skip(c) && final (self).spec_start() == old(
                    self).spec_start() + c
                &&& final (self).spec_end() == old(self).spec_end()
                &&& final (self).spans()
            }),
    {
        proof {
            use_type_invariant(&*self);
            lemma_parse_reproduces_input(self.unconsumed(), self.spec_is_full());
        }
        let full = self.is_full();
        let fragments = FragmentList::parse(
            slice_subrange(self.data.as_slice(), self.start, self.end),
            full,
        );
        proof {
            assert(self.data@.subrange(self.start as int, self.end as int) == self.unconsumed());
        }
        let (consumed, out) = formatter.reformat(fragments, full);
        let ghost old_start = self.start as int;
        self.start = self.start + consumed;
        proof {
            use_type_invariant(&*self);
            assert(self.unconsumed() =~= self.data@.subrange(old_start, self.end as int).skip(
                consumed as int,
            ));
        }
        out
    }
}

/// Append exactly `n` bytes of `input` to `out`.
fn push_input(out: &mut Vec<u8>, input: &[u8], n: usize)
    requires
        n <= input@.len(),
    ensures
        final (out)@ == old(out)@ + input@.take(n as int),
{
    let head = slice_subrange(input, 0, n);
    proof {
        assert(head@ =~= input@.take(n as int));
    }
    crate::byteseq::push_bytes(out, head);
}

/// Grow `out` with zero bytes up to length `n`.
fn fill_to(out: &mut Vec<u8>, n: usize)
    requires
        old(out)@.len() <= n,
    ensures
        final (out)@.len() == n,
        final (out)@.subrange(0, old(out)@.len() as int) == old(out)@,
{
    while out.len() < n
        invariant
            old(out)@.len() <= out@.len() <= n,
            out@.subrange(0, old(out)@.len() as int) =~= old(out)@,
        decreases n - out@.len(),
    {
        out.push(0);
    }
}

} // verus!
