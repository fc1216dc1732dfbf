//! A log entry: a state machine command and the term in which the Leader received it.

use crate::log::term::Term;
use vstd::prelude::*;

verus! {

/// The command a client asks the replicated state machine to run.
pub type Command = u8;

//% each log entry stores
//% 	- state machine command
//% 	- term number
#[derive(Debug, Clone, Copy, PartialEq, Eq, Structural)]
pub struct Entry {
    pub term: Term,
    pub command: Command,
}

impl Entry {
    pub fn new(term: Term, command: Command) -> (entry: Entry)
        ensures
            entry == (Entry { term, command }),
    {
        Entry { term, command }
    }
}

} // verus!
