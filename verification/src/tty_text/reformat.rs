//! Choosing how to hand fragments on: as tokenized, or with wrapped URLs
//! rejoined.

pub mod line_wrapping;

use vstd::prelude::*;

use crate::tty_text::fragment::{list_size, Fragment, FragmentList, FragmentModel};
use crate::tty_text::line_wrapping::{prefix_size, reduced_from};
use line_wrapping::{adjust_line_wrapping, cursor_adjust_spec};

verus! {

/// What to do about the terminal's forced line wraps.
#[derive(Debug, Clone, Copy, PartialEq, Eq, Structural)]
pub enum LineWrapMode {
    /// Hand the fragments on exactly as tokenized.
    Preserve,
    /// Rejoin URLs that the terminal wrapped across physical lines.
    Adjust,
}

/// The policy wrapper over the line-wrap reconstructor: the configured
/// mode and the current terminal width.
#[derive(Debug)]
pub struct Reformatter {
    terminal_width: u16,
    mode: LineWrapMode,
}

impl Reformatter {
    /// The configured mode.
    pub closed spec fn spec_mode(&self) -> LineWrapMode {
        self.mode
    }

    /// The current terminal width, in columns.
    pub closed spec fn spec_terminal_width(&self) -> u16 {
        self.terminal_width
    }

    /// A reformatter with the given width and mode.
    pub fn new(terminal_width: u16, mode: LineWrapMode) -> (r: Reformatter)
        ensures
            r.spec_terminal_width() == terminal_width,
            r.spec_mode() == mode,
    {
        Reformatter { terminal_width, mode }
    }

    /// Follow a change of the terminal's size.
    pub fn set_terminal_width(&mut self, terminal_width: u16)
        ensures
            final (self).spec_terminal_width() == terminal_width,
            final (self).spec_mode() == old(self).spec_mode(),
    {
        self.terminal_width = terminal_width;
    }

    /// Apply the configured policy to one parse pass: in `Preserve` mode
    /// every fragment is handed on unchanged and every parsed byte is
    /// consumed; in `Adjust` mode the line-wrap reconstructor runs — the
    /// emitted fragments are drawn from the parse list in order, at most
    /// join-trimmed, and a trailing, possibly still-wrapping line may stay
    /// in the buffer, except that a full buffer always releases at least
    /// one fragment. Returns the consumed byte count and the fragments to
    /// emit.
    pub fn reformat(&self, fragments: FragmentList, is_full: bool) -> (r: (usize, Vec<Fragment>))
        requires
            list_size(fragments@) <= usize::MAX,
        ensures
            r.0 <= list_size(fragments@),
            self.spec_mode() == LineWrapMode::Preserve ==> r.0 == list_size(fragments@)
                && r.1.deep_view() == fragments@,
            self.spec_mode() == LineWrapMode::Adjust ==> r.1.deep_view() == cursor_adjust_spec(
                fragments@,
                is_full,
                self.spec_terminal_width(),
            ).0 && r.0 as int == cursor_adjust_spec(
                fragments@,
                is_full,
                self.spec_terminal_width(),
            ).1 && reduced_from(r.1.deep_view(), fragments@) && (exists|k: int|
                r.1.deep_view().len() as int <= k <= fragments@.len() && r.0 as int == prefix_size(
                    fragments@,
                    k,
                )) && (is_full && fragments@.len() > 0 ==> r.1.deep_view().len() >= 1 && (exists|
                k: int|
                1 <= k <= fragments@.len() && r.0 as int == prefix_size(fragments@, k))),
            exists|k: int|
                0 <= k <= fragments@.len() && r.0 as int == prefix_size(fragments@, k),
    {
        let ghost all = fragments@;
        match self.mode {
            LineWrapMode::Adjust => {
                let mut list = fragments.into_inner();
                let consumed = adjust_line_wrapping(&mut list, is_full, self.terminal_width);
                (consumed, list)
            },
            LineWrapMode::Preserve => {
                let consumed = fragments.size();
                let list = fragments.into_inner();
                proof {
                    assert(all.take(all.len() as int) =~= all);
                    assert(consumed as int == prefix_size(all, all.len() as int));
                }
                (consumed, list)
            },
        }
    }
}

} // verus!
