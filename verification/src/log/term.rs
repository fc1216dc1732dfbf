//! An election term.

use vstd::prelude::*;

verus! {

//% `currentTerm` latest term server has seen (initialized to 0 on first boot, increases
//% monotonically)
#[derive(Default, Debug, PartialEq, Eq, PartialOrd, Ord, Clone, Copy, Hash, Structural)]
pub struct Term(pub u64);

impl Term {
    /// A term reached by an election. Term values should be greater than 0.
    pub fn from(value: u64) -> (term: Term)
        requires
            value > 0,
        ensures
            term.0 == value,
    {
        Term(value)
    }

    pub open spec fn initial_spec() -> Term {
        Term(0)
    }

    #[verifier::when_used_as_spec(initial_spec)]
    pub fn initial() -> (term: Term)
        ensures
            term == Term::initial_spec(),
    {
        Term(0)
    }

    pub open spec fn is_initial_spec(&self) -> bool {
        self.0 == 0
    }

    #[verifier::when_used_as_spec(is_initial_spec)]
    pub fn is_initial(&self) -> (initial: bool)
        ensures
            initial == self.is_initial_spec(),
    {
        self.0 == 0
    }

    /// Move to the next term.
    pub fn increment(&mut self)
        requires
            old(self).0 < u64::MAX,
        ensures
            final(self).0 == old(self).0 + 1,
    {
        self.0 = self.0 + 1;
    }
}

} // verus!
