//! Configuration for the external speech command.
//!
//! Holds the extra arguments that are placed before the spoken message.
//! Running the command is I/O and happens outside the library.

use vstd::prelude::*;

verus! {

pub struct SayCommand {
    args: Vec<String>,
}

impl SayCommand {
    /// The configured argument list, as a sequence of strings.
    pub closed spec fn spec_args(&self) -> Seq<String> {
        self.args@
    }

    #[must_use]
    pub fn new(args: Vec<String>) -> (r: SayCommand)
        ensures
            r.spec_args() == args@,
    {
        SayCommand { args }
    }

    /// The arguments to pass to the speech command before the message.
    pub fn args(&self) -> (r: &Vec<String>)
        ensures
            r@ == self.spec_args(),
    {
        &self.args
    }
}

} // verus!
