//! The replicated log. Index 1 names the first entry; index 0 is the empty prefix.

use vstd::prelude::*;

pub mod entry;
pub mod idx;
pub mod term;
pub mod term_idx;

pub use entry::Entry;
pub use idx::Idx;
pub use term::Term;
pub use term_idx::TermIdx;

verus! {

/// The result of comparing a (term, index) pair with the local log.
#[must_use]
#[derive(Debug, Clone, Copy, PartialEq, Eq, Structural)]
pub enum MatchOutcome {
    /// The log holds an entry at the index and its term matches.
    Match,
    /// The log holds an entry at the index but its term differs.
    NoMatch,
    /// The log holds no entry at the index.
    DoesntExist,
}

/// The term of the last entry, or the initial term for an empty log.
pub open spec fn last_term_of(entries: Seq<Entry>) -> Term {
    if entries.len() == 0 {
        Term::initial_spec()
    } else {
        entries.last().term
    }
}

/// The (term, index) pair of the last entry of `entries`.
pub open spec fn last_term_idx_of(entries: Seq<Entry>) -> TermIdx {
    TermIdx { term: last_term_of(entries), idx: Idx(entries.len() as u64) }
}

/// The entry at a 1-based log index, if there is one.
pub open spec fn entry_at(entries: Seq<Entry>, idx: Idx) -> Option<Entry> {
    if idx.0 == 0 || idx.0 > entries.len() {
        None
    } else {
        Some(entries[idx.0 - 1])
    }
}

/// How `term_idx` relates to the log.
///
/// The initial (term, index) pair matches an empty log. Otherwise the outcome is decided by the
/// entry at `term_idx.idx`.
pub open spec fn match_outcome_of(entries: Seq<Entry>, term_idx: TermIdx) -> MatchOutcome {
    if term_idx.is_initial_spec() && entries.len() == 0 {
        MatchOutcome::Match
    } else {
        match entry_at(entries, term_idx.idx) {
            Some(e) => if e.term == term_idx.term {
                MatchOutcome::Match
            } else {
                MatchOutcome::NoMatch
            },
            None => MatchOutcome::DoesntExist,
        }
    }
}

/// The log after placing `entry` at `entry_idx` so that it matches the Leader's log.
///
/// A conflicting entry is dropped together with everything after it; a missing entry is appended.
pub open spec fn matched_to_leader(entries: Seq<Entry>, entry: Entry, entry_idx: Idx) -> Seq<Entry> {
    match match_outcome_of(entries, TermIdx { term: entry.term, idx: entry_idx }) {
        MatchOutcome::Match => entries,
        MatchOutcome::NoMatch => entries.subrange(0, entry_idx.0 - 1).push(entry),
        MatchOutcome::DoesntExist => entries.push(entry),
    }
}

/// Whether a candidate whose last entry is `candidate` has a log at least as up-to-date as a log
/// whose last entry is `local`: a higher last term wins, and on equal terms the longer log wins.
pub open spec fn at_least_as_up_to_date(candidate: TermIdx, local: TermIdx) -> bool {
    candidate.term.0 > local.term.0 || (candidate.term.0 == local.term.0 && candidate.idx.0
        >= local.idx.0)
}

/// The entries from the 1-based index `from` to the end of the log.
pub open spec fn entries_from(entries: Seq<Entry>, from: Idx) -> Seq<Entry> {
    if from.0 == 0 || from.0 - 1 > entries.len() {
        Seq::empty()
    } else {
        entries.subrange(from.0 - 1, entries.len() as int)
    }
}

/// The log after storing the first `n` of `entries`, the first of which goes directly after
/// `prev_idx`. Each entry is placed as `Log::update_to_match_leaders_log` places it.
pub open spec fn store_leader_entries(
    log: Seq<Entry>,
    prev_idx: nat,
    entries: Seq<Entry>,
    n: nat,
) -> Seq<Entry>
    decreases n,
{
    if n == 0 {
        log
    } else {
        matched_to_leader(
            store_leader_entries(log, prev_idx, entries, (n - 1) as nat),
            entries[n - 1],
            Idx((prev_idx + n) as u64),
        )
    }
}

/// Storing `n` entries grows the log by at most `n`.
pub proof fn lemma_store_leader_entries_bound(
    log: Seq<Entry>,
    prev_idx: nat,
    entries: Seq<Entry>,
    n: nat,
)
    requires
        n <= entries.len(),
    ensures
        store_leader_entries(log, prev_idx, entries, n).len() <= log.len() + n,
    decreases n,
{
    if n > 0 {
        lemma_store_leader_entries_bound(log, prev_idx, entries, (n - 1) as nat);
    }
}

#[derive(Debug)]
pub struct Log {
    entries: Vec<Entry>,
}

impl View for Log {
    type V = Seq<Entry>;

    closed spec fn view(&self) -> Seq<Entry> {
        self.entries@
    }
}

impl Log {
    pub fn new() -> (log: Self)
        ensures
            log@ == Seq::<Entry>::empty(),
    {
        Log { entries: Vec::new() }
    }

    /// Append `entries` to the end of the log, in order.
    pub fn push(&mut self, entries: Vec<Entry>)
        ensures
            final(self)@ == old(self)@ + entries@,
    {
        let mut i: usize = 0;
        while i < entries.len()
            invariant
                i <= entries.len(),
                self@ == old(self)@ + entries@.subrange(0, i as int),
            decreases entries.len() - i,
        {
            self.entries.push(entries[i]);
            i = i + 1;
            assert(entries@.subrange(0, i as int) == entries@.subrange(0, i - 1 as int).push(
                entries@[i - 1],
            ));
        }
        assert(entries@.subrange(0, entries.len() as int) == entries@);
    }

    /// The index of the last entry, or the initial index for an empty log.
    pub fn last_idx(&self) -> (idx: Idx)
        ensures
            idx.0 == self@.len(),
    {
        Idx(self.entries.len() as u64)
    }

    /// The (term, index) pair of the last entry in the log.
    pub fn last_term_idx(&self) -> (term_idx: TermIdx)
        ensures
            term_idx == last_term_idx_of(self@),
    {
        let last_term = if self.entries.len() == 0 {
            Term::initial()
        } else {
            self.entries[self.entries.len() - 1].term
        };
        TermIdx::builder().with_term(last_term).with_idx(self.last_idx())
    }

    /// The term of the entry at `idx`, if the log holds one.
    pub fn term_at_idx(&self, idx: &Idx) -> (term: Option<Term>)
        requires
            !idx.is_initial_spec(),
        ensures
            term == (match entry_at(self@, *idx) {
                Some(e) => Some(e.term),
                None => None::<Term>,
            }),
    {
        match self.find_entry_at(idx) {
            Some(e) => Some(e.term),
            None => None,
        }
    }

    /// Place `entry` at `entry_idx` so that the local log matches the Leader's.
    ///
    /// A conflicting entry is dropped together with every entry after it and replaced; a missing
    /// entry is appended; a matching entry is left alone.
    pub fn update_to_match_leaders_log(&mut self, entry: Entry, entry_idx: Idx) -> (outcome:
        MatchOutcome)
        requires
            // The initial index is a placeholder and names no entry.
            !entry_idx.is_initial_spec(),
            // A missing entry may only be appended directly after the last one (or to an empty
            // log), which keeps indexes contiguous.
            old(self)@.len() == 0 || entry_idx.0 <= old(self)@.len() + 1,
        ensures
            outcome == match_outcome_of(old(self)@, TermIdx { term: entry.term, idx: entry_idx }),
            final(self)@ == matched_to_leader(old(self)@, entry, entry_idx),
    {
        let entry_term_idx = TermIdx::builder().with_term(entry.term).with_idx(entry_idx);
        let outcome = self.entry_matches(entry_term_idx);
        match outcome {
            MatchOutcome::NoMatch => {
                assert(entry_idx.0 <= self.entries.len());
                self.entries.truncate(entry_idx.as_log_idx());
                self.entries.push(entry);
            },
            MatchOutcome::DoesntExist => {
                self.entries.push(entry);
            },
            MatchOutcome::Match => {},
        }
        outcome
    }

    /// Whether the log holds an entry at `term_idx.idx` whose term is `term_idx.term`.
    pub fn entry_matches(&self, term_idx: TermIdx) -> (outcome: MatchOutcome)
        ensures
            outcome == match_outcome_of(self@, term_idx),
    {
        if term_idx.is_initial() && self.entries.len() == 0 {
            return MatchOutcome::Match;
        }
        match self.find_entry_at(&term_idx.idx) {
            Some(entry) => {
                if entry.term.0 == term_idx.term.0 {
                    MatchOutcome::Match
                } else {
                    MatchOutcome::NoMatch
                }
            },
            None => MatchOutcome::DoesntExist,
        }
    }

    /// The entry at the 1-based index `idx`; the initial index names no entry.
    pub fn find_entry_at(&self, idx: &Idx) -> (entry: Option<&Entry>)
        ensures
            entry == (match entry_at(self@, *idx) {
                Some(e) => Some(&e),
                None => None::<&Entry>,
            }),
    {
        if idx.0 == 0 || idx.0 > self.entries.len() as u64 {
            return None;
        }
        Some(&self.entries[(idx.0 - 1) as usize])
    }

    /// Whether a candidate whose last entry is `rpc_term_idx` has a log at least as up-to-date
    /// as this one.
    pub fn is_candidate_log_up_to_date(&self, rpc_term_idx: &TermIdx) -> (up_to_date: bool)
        ensures
            up_to_date == at_least_as_up_to_date(*rpc_term_idx, last_term_idx_of(self@)),
    {
        let log_term_idx = self.last_term_idx();
        if rpc_term_idx.term.0 > log_term_idx.term.0 {
            true
        } else if rpc_term_idx.term.0 < log_term_idx.term.0 {
            false
        } else {
            rpc_term_idx.idx.0 >= log_term_idx.idx.0
        }
    }

    /// A copy of the entries from the 1-based index `from` to the end of the log.
    pub fn get_entries(&self, from: &Idx) -> (entries: Vec<Entry>)
        ensures
            entries@ == entries_from(self@, *from),
    {
        let mut out: Vec<Entry> = Vec::new();
        if from.0 == 0 || from.0 - 1 > self.entries.len() as u64 {
            return out;
        }
        let start: usize = (from.0 - 1) as usize;
        let mut i: usize = start;
        while i < self.entries.len()
            invariant
                start <= i <= self.entries.len(),
                start == from.0 - 1,
                out@ == self@.subrange(start as int, i as int),
            decreases self.entries.len() - i,
        {
            out.push(self.entries[i]);
            i = i + 1;
            assert(self@.subrange(start as int, i as int) == self@.subrange(
                start as int,
                i - 1 as int,
            ).push(self@[i - 1]));
        }
        out
    }

    /// Store `entries` directly after the entry at `prev_idx`, each placed as
    /// `update_to_match_leaders_log` places it.
    pub fn store_entries(&mut self, prev_idx: u64, entries: &Vec<Entry>)
        requires
            prev_idx <= old(self)@.len(),
            old(self)@.len() + entries@.len() < u64::MAX,
        ensures
            final(self)@ == store_leader_entries(
                old(self)@,
                prev_idx as nat,
                entries@,
                entries@.len(),
            ),
            final(self)@.len() >= prev_idx + entries@.len(),
    {
        let ghost log0 = self@;
        let mut offset: usize = 0;
        while offset < entries.len()
            invariant
                offset <= entries.len(),
                prev_idx <= log0.len(),
                log0 == old(self)@,
                log0.len() + entries@.len() < u64::MAX,
                self@ == store_leader_entries(log0, prev_idx as nat, entries@, offset as nat),
                self@.len() >= prev_idx + offset,
            decreases entries.len() - offset,
        {
            // Log idx is 1-indexed.
            let entry_idx = Idx(prev_idx + 1 + offset as u64);
            let _match_outcome = self.update_to_match_leaders_log(entries[offset], entry_idx);
            offset = offset + 1;
        }
    }

    /// A copy of this log.
    pub fn duplicate(&self) -> (copy: Log)
        ensures
            copy@ == self@,
    {
        let mut entries: Vec<Entry> = Vec::new();
        let mut i: usize = 0;
        while i < self.entries.len()
            invariant
                i <= self.entries.len(),
                entries@ == self@.subrange(0, i as int),
            decreases self.entries.len() - i,
        {
            entries.push(self.entries[i]);
            i = i + 1;
            assert(self@.subrange(0, i as int) == self@.subrange(0, i - 1 as int).push(self@[i - 1]));
        }
        assert(self@.subrange(0, self@.len() as int) == self@);
        Log { entries }
    }

    pub fn is_empty(&self) -> (empty: bool)
        ensures
            empty == (self@.len() == 0),
    {
        self.entries.len() == 0
    }

    pub fn test_is_empty(&self) -> (empty: bool)
        ensures
            empty == (self@.len() == 0),
    {
        self.entries.len() == 0
    }

    /// The entry at the 1-based index `idx`.
    pub fn test_get_unchecked(&self, idx: u64) -> (entry: Entry)
        requires
            1 <= idx <= self@.len(),
        ensures
            entry == self@[idx - 1],
    {
        let n = self.entries.len();
        assert(idx <= n);
        self.entries[(idx - 1) as usize]
    }

    pub fn test_len(&self) -> (len: usize)
        ensures
            len == self@.len(),
    {
        self.entries.len()
    }

    /// Append `entries` to the end of the log, in order.
    pub fn test_append_entries(&mut self, entries: Vec<Entry>)
        ensures
            final(self)@ == old(self)@ + entries@,
    {
        self.push(entries);
    }
}


/// Placing an entry at an index from 1 up to one past the end of the log leaves the log holding
/// an entry of that term at that index, and leaves every entry before the index untouched.
pub proof fn law_matched_entry_in_place(log: Seq<Entry>, entry: Entry, idx: Idx)
    requires
        1 <= idx.0 <= log.len() + 1,
    ensures
        match_outcome_of(matched_to_leader(log, entry, idx), TermIdx { term: entry.term, idx })
            == MatchOutcome::Match,
        matched_to_leader(log, entry, idx).len() >= idx.0,
        matched_to_leader(log, entry, idx).subrange(0, idx.0 - 1) == log.subrange(0, idx.0 - 1),
{
    let next = matched_to_leader(log, entry, idx);
    assert(next.subrange(0, idx.0 - 1) =~= log.subrange(0, idx.0 - 1));
}

/// After a Follower stores a Leader's entries behind `prev_idx`, its log holds an entry of the
/// Leader's term at each of their indexes, and the entries up to `prev_idx` are the ones it had.
pub proof fn law_stored_entries_match_leader(log: Seq<Entry>, prev_idx: nat, entries: Seq<Entry>)
    requires
        prev_idx <= log.len(),
        prev_idx + entries.len() < u64::MAX,
    ensures
        store_leader_entries(log, prev_idx, entries, entries.len()).len() >= prev_idx + entries.len(),
        store_leader_entries(log, prev_idx, entries, entries.len()).subrange(0, prev_idx as int)
            == log.subrange(0, prev_idx as int),
        forall|j: int|
            0 <= j < entries.len() ==> (#[trigger] store_leader_entries(
                log,
                prev_idx,
                entries,
                entries.len(),
            )[prev_idx + j]).term == entries[j].term,
{
    lemma_stored_prefix(log, prev_idx, entries, entries.len());
}

proof fn lemma_stored_prefix(log: Seq<Entry>, prev_idx: nat, entries: Seq<Entry>, n: nat)
    requires
        prev_idx <= log.len(),
        n <= entries.len(),
        prev_idx + n < u64::MAX,
    ensures
        store_leader_entries(log, prev_idx, entries, n).len() >= prev_idx + n,
        store_leader_entries(log, prev_idx, entries, n).subrange(0, prev_idx as int)
            == log.subrange(0, prev_idx as int),
        forall|j: int|
            0 <= j < n ==> (#[trigger] store_leader_entries(log, prev_idx, entries, n)[prev_idx
                + j]).term == entries[j].term,
    decreases n,
{
    if n > 0 {
        let before = store_leader_entries(log, prev_idx, entries, (n - 1) as nat);
        lemma_stored_prefix(log, prev_idx, entries, (n - 1) as nat);
        let idx = Idx((prev_idx + n) as u64);
        let after = store_leader_entries(log, prev_idx, entries, n);
        assert(after == matched_to_leader(before, entries[n - 1], idx));
        law_matched_entry_in_place(before, entries[n - 1], idx);
        assert forall|j: int| 0 <= j < n implies (#[trigger] after[prev_idx + j]).term
            == entries[j].term by {
            if j < n - 1 {
                assert(after.subrange(0, idx.0 - 1)[prev_idx + j] == after[prev_idx + j]);
                assert(before.subrange(0, idx.0 - 1)[prev_idx + j] == before[prev_idx + j]);
            } else {
                assert(prev_idx + j == idx.0 - 1);
            }
        }
        assert(after.subrange(0, prev_idx as int) =~= after.subrange(0, idx.0 - 1).subrange(
            0,
            prev_idx as int,
        ));
        assert(before.subrange(0, prev_idx as int) =~= before.subrange(0, idx.0 - 1).subrange(
            0,
            prev_idx as int,
        ));
    }
}

/// Comparing how up-to-date two logs are is total: of any two last entries, one is at least as
/// up-to-date as the other, and a log is as up-to-date as itself.
pub proof fn law_up_to_date_is_total(a: TermIdx, b: TermIdx)
    ensures
        at_least_as_up_to_date(a, b) || at_least_as_up_to_date(b, a),
        at_least_as_up_to_date(a, a),
        at_least_as_up_to_date(a, b) && at_least_as_up_to_date(b, a) ==> a == b,
{
}

/// A candidate whose last entry has the later term is more up to date, whatever the indexes; one
/// whose last entry has the earlier term is not; with equal last terms, the longer log wins.
pub proof fn law_up_to_date_orders_by_term_then_index(candidate: TermIdx, local: TermIdx)
    ensures
        candidate.term.0 > local.term.0 ==> at_least_as_up_to_date(candidate, local),
        candidate.term.0 < local.term.0 ==> !at_least_as_up_to_date(candidate, local),
        candidate.term.0 == local.term.0 ==> (at_least_as_up_to_date(candidate, local) <==> candidate.idx.0
            >= local.idx.0),
{
}
} // verus!
