//! A (term, index) pair that names one log entry.

use crate::log::{idx::Idx, term::Term};
use vstd::prelude::*;

verus! {

/// Ordered by term first and index second, which is the `up-to-date` order on logs.
#[derive(Debug, PartialEq, Eq, PartialOrd, Ord, Clone, Copy, Hash, Structural)]
pub struct TermIdx {
    pub term: Term,
    pub idx: Idx,
}

impl TermIdx {
    /// Start building a TermIdx; the term is set first and the index second.
    pub fn builder() -> (builder: TermIdxWithTermBuilder)
        ensures
            builder == TermIdxWithTermBuilder,
    {
        TermIdxWithTermBuilder
    }

    pub open spec fn initial_spec() -> TermIdx {
        TermIdx { term: Term(0), idx: Idx(0) }
    }

    /// The pair that precedes the first entry of every log.
    #[verifier::when_used_as_spec(initial_spec)]
    pub fn initial() -> (term_idx: TermIdx)
        ensures
            term_idx == TermIdx::initial_spec(),
    {
        TermIdx { term: Term::initial(), idx: Idx::initial() }
    }

    pub open spec fn is_initial_spec(&self) -> bool {
        self.term.0 == 0 && self.idx.0 == 0
    }

    #[verifier::when_used_as_spec(is_initial_spec)]
    pub fn is_initial(&self) -> (initial: bool)
        ensures
            initial == self.is_initial_spec(),
    {
        self.term.0 == 0 && self.idx.0 == 0
    }

    pub fn term(&self) -> (term: Term)
        ensures
            term == self.term,
    {
        self.term
    }

    pub fn idx(&self) -> (idx: Idx)
        ensures
            idx == self.idx,
    {
        self.idx
    }
}

#[derive(Debug, PartialEq, Eq, Structural)]
pub struct TermIdxWithTermBuilder;

impl TermIdxWithTermBuilder {
    pub fn with_term(self, term: Term) -> (builder: TermIdxWithIdxBuilder)
        ensures
            builder.term == term,
            builder.idx == Idx::initial_spec(),
    {
        TermIdxWithIdxBuilder { term, idx: Idx::initial() }
    }
}

#[derive(Debug)]
pub struct TermIdxWithIdxBuilder {
    pub term: Term,
    pub idx: Idx,
}

impl TermIdxWithIdxBuilder {
    pub fn with_idx(self, idx: Idx) -> (term_idx: TermIdx)
        ensures
            term_idx == (TermIdx { term: self.term, idx }),
    {
        TermIdx { term: self.term, idx }
    }
}

} // verus!
