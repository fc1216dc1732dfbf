//! A 1-based position in the log. Zero is the empty prefix that precedes the first entry.

use vstd::prelude::*;

verus! {

//% initialized to 0, increases monotonically
#[derive(Default, Debug, PartialEq, Eq, PartialOrd, Ord, Clone, Copy, Hash, Structural)]
pub struct Idx(pub u64);

impl Idx {
    /// An index that names an entry. Index values should be greater than 0.
    pub fn from(value: u64) -> (idx: Idx)
        requires
            value > 0,
        ensures
            idx.0 == value,
    {
        Idx(value)
    }

    pub open spec fn initial_spec() -> Idx {
        Idx(0)
    }

    /// The empty prefix of every log.
    #[verifier::when_used_as_spec(initial_spec)]
    pub fn initial() -> (idx: Idx)
        ensures
            idx == Idx::initial_spec(),
    {
        Idx(0)
    }

    pub open spec fn is_initial_spec(&self) -> bool {
        self.0 == 0
    }

    #[verifier::when_used_as_spec(is_initial_spec)]
    pub fn is_initial(&self) -> (initial: bool)
        ensures
            initial == self.is_initial_spec(),
    {
        self.0 == 0
    }

    /// The position of this entry in a zero-based vector.
    pub fn as_log_idx(&self) -> (pos: usize)
        requires
            self.0 >= 1,
            self.0 - 1 <= usize::MAX,
        ensures
            pos == self.0 - 1,
    {
        (self.0 - 1) as usize
    }

    /// The index `n` positions later.
    pub fn plus(self, n: u64) -> (idx: Idx)
        requires
            self.0 + n <= u64::MAX,
        ensures
            idx.0 == self.0 + n,
    {
        Idx(self.0 + n)
    }

    /// The index `n` positions earlier.
    pub fn minus(self, n: u64) -> (idx: Idx)
        requires
            self.0 >= n,
        ensures
            idx.0 == self.0 - n,
    {
        Idx(self.0 - n)
    }
}

} // verus!
