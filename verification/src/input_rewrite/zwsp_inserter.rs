//! Guarding digits typed right after an arrow key.
//!
//! A zero-width space (ZWSP, U+200B) is inserted before the first digit
//! byte that follows a complete CSI Up/Down-arrow sequence, so that a
//! wrapped program cannot mistake the digit for an option selection right
//! after the user navigated with the arrow keys. Every other byte passes
//! through unchanged.

use vstd::prelude::*;

verus! {

/// Where the byte-by-byte scan stands inside a CSI sequence.
#[derive(Debug, PartialEq, Eq, Clone, Copy)]
pub enum State {
    /// Outside any escape sequence.
    Idle,
    /// An ESC byte was seen.
    EscSeen,
    /// `ESC [` was seen; the next byte is a parameter or a final byte.
    CsiStart,
    /// Inside the parameter bytes of a CSI sequence.
    CsiParam,
    /// A complete Up/Down-arrow sequence just ended.
    Triggered,
}

/// The UTF-8 bytes of the zero-width space.
pub open spec fn zwsp_bytes() -> Seq<u8> {
    seq![0xe2u8, 0x80u8, 0x8bu8]
}

/// One step of the scan: the next state, and the bytes written for `b`.
pub open spec fn zwsp_step(state: State, b: u8) -> (State, Seq<u8>) {
    match state {
        State::Idle => (
            if b == 0x1b {
                State::EscSeen
            } else {
                State::Idle
            },
            seq![b],
        ),
        State::EscSeen => (
            if b == 0x5b {
                State::CsiStart
            } else if b == 0x1b {
                State::EscSeen
            } else {
                State::Idle
            },
            seq![b],
        ),
        State::CsiStart => (
            if b == 0x41 || b == 0x42 {
                State::Triggered
            } else if 0x20 <= b <= 0x3f {
                State::CsiParam
            } else {
                State::Idle
            },
            seq![b],
        ),
        State::CsiParam => (
            if b == 0x41 || b == 0x42 {
                State::Triggered
            } else if 0x20 <= b <= 0x3f {
                State::CsiParam
            } else {
                State::Idle
            },
            seq![b],
        ),
        State::Triggered => if 0x30 <= b <= 0x39 {
            (State::Idle, zwsp_bytes() + seq![b])
        } else if b == 0x1b {
            (State::EscSeen, seq![b])
        } else {
            (State::Idle, seq![b])
        },
    }
}

/// The scan over a whole chunk: the final state and everything written.
pub open spec fn zwsp_run(state: State, input: Seq<u8>) -> (State, Seq<u8>)
    decreases input.len(),
{
    if input.len() == 0 {
        (state, seq![])
    } else {
        let step = zwsp_step(state, input[0]);
        let rest = zwsp_run(step.0, input.skip(1));
        (rest.0, step.1 + rest.1)
    }
}

/// Feeding one concatenated chunk equals feeding its parts in turn: the
/// guard's output does not depend on how the input is cut.
pub proof fn lemma_zwsp_run_append(state: State, a: Seq<u8>, b: Seq<u8>)
    ensures
        zwsp_run(state, a + b).0 == zwsp_run(zwsp_run(state, a).0, b).0,
        zwsp_run(state, a + b).1 == zwsp_run(state, a).1 + zwsp_run(zwsp_run(state, a).0, b).1,
    decreases a.len(),
{
    if a.len() == 0 {
        assert(a + b =~= b);
        assert(zwsp_run(state, a).1 + zwsp_run(zwsp_run(state, a).0, b).1 =~= zwsp_run(
            state,
            b,
        ).1);
    } else {
        let step = zwsp_step(state, a[0]);
        assert((a + b)[0] == a[0]);
        assert((a + b).skip(1) =~= a.skip(1) + b);
        lemma_zwsp_run_append(step.0, a.skip(1), b);
        let mid = zwsp_run(step.0, a.skip(1));
        assert((step.1 + mid.1) + zwsp_run(mid.0, b).1 =~= step.1 + (mid.1 + zwsp_run(
            mid.0,
            b,
        ).1));
    }
}

/// The streaming ZWSP guard.
pub struct ZwspInserter {
    state: State,
}

impl ZwspInserter {
    /// The current scan state.
    pub closed spec fn state_view(&self) -> State {
        self.state
    }

    /// A fresh guard, outside any escape sequence.
    pub fn new() -> (r: ZwspInserter)
        ensures
            r.state_view() == State::Idle,
    {
        ZwspInserter { state: State::Idle }
    }

    /// Pass a chunk of input bytes through the guard, inserting a ZWSP
    /// before the first digit after each Up/Down-arrow sequence.
    pub fn process(&mut self, input: &[u8]) -> (out: Vec<u8>)
        ensures
            final (self).state_view() == zwsp_run(old(self).state_view(), input@).0,
            out@ == zwsp_run(old(self).state_view(), input@).1,
    {
        let ghost s0 = self.state;
        let mut out: Vec<u8> = Vec::new();
        let mut i: usize = 0;
        proof {
            assert(input@.skip(0) =~= input@);
            assert(Seq::<u8>::empty() + zwsp_run(s0, input@).1 =~= zwsp_run(s0, input@).1);
        }
        while i < input.len()
            invariant
                0 <= i <= input@.len(),
                zwsp_run(s0, input@).0 == zwsp_run(self.state, input@.skip(i as int)).0,
                zwsp_run(s0, input@).1 == out@ + zwsp_run(self.state, input@.skip(i as int)).1,
            decreases input@.len() - i,
        {
            let ghost rem = input@.skip(i as int);
            let ghost out_pre = out@;
            let ghost cur = self.state;
            let b = input[i];
            proof {
                assert(rem[0] == b);
                assert(rem.skip(1) =~= input@.skip(i as int + 1));
            }
            match self.state {
                State::Idle => {
                    if b == 0x1b {
                        self.state = State::EscSeen;
                    }
                    out.push(b);
                },
                State::EscSeen => {
                    if b == 0x5b {
                        self.state = State::CsiStart;
                    } else if b == 0x1b {
                        // another ESC restarts the sequence (e.g. Alt+Up)
                    } else {
                        self.state = State::Idle;
                    }
                    out.push(b);
                },
                State::CsiStart => {
                    if b == 0x41 || b == 0x42 {
                        self.state = State::Triggered;
                    } else if 0x20 <= b && b <= 0x3f {
                        self.state = State::CsiParam;
                    } else {
                        self.state = State::Idle;
                    }
                    out.push(b);
                },
                State::CsiParam => {
                    if b == 0x41 || b == 0x42 {
                        self.state = State::Triggered;
                    } else if 0x20 <= b && b <= 0x3f {
                        // still inside the parameter bytes
                    } else {
                        self.state = State::Idle;
                    }
                    out.push(b);
                },
                State::Triggered => {
                    if 0x30 <= b && b <= 0x39 {
                        out.push(0xe2);
                        out.push(0x80);
                        out.push(0x8b);
                        self.state = State::Idle;
                    } else if b == 0x1b {
                        self.state = State::EscSeen;
                    } else {
                        self.state = State::Idle;
                    }
                    out.push(b);
                },
            }
            i = i + 1;
            proof {
                let step = zwsp_step(cur, b);
                assert(self.state == step.0);
                assert(out@ =~= out_pre + step.1);
                let next = zwsp_run(self.state, input@.skip(i as int));
                assert(zwsp_run(cur, rem).1 == step.1 + next.1);
                assert((out_pre + step.1) + next.1 =~= out_pre + (step.1 + next.1));
            }
        }
        proof {
            assert(input@.skip(input@.len() as int) =~= Seq::<u8>::empty());
            assert(out@ + Seq::<u8>::empty() =~= out@);
        }
        out
    }
}

} // verus!
