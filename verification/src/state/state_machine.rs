//! Entries that a majority of servers agree on.
//!
//! The Log belongs to the protocol and holds data that may not be replicated yet. The
//! StateMachine belongs to the application and holds only what a majority of servers stored.

use crate::log::{Entry, Idx};
use crate::server::PeerId;
use vstd::prelude::*;

verus! {

//% **Safety:** (State Machine Safety Property). If a server has applied a log entry to state
//% machine, then no other server will apply a different entry to the same log index
#[derive(Debug)]
pub struct StateMachine {
    entries: Vec<CommitEntry>,
}

/// Data which is committed to the StateMachine.
#[derive(Debug, Clone, Copy)]
pub struct CommitEntry {
    // The Entry matching the Log entry.
    pub entry: Entry,
    // The lastApplied log Idx for this Entry.
    pub log_last_applied_idx: Idx,
    // The PeerId whose message led to this commit.
    pub peer_id: PeerId,
    // The mode the server was in when the Entry was committed.
    pub mode: CurrentMode,
}

#[derive(Debug, Copy, Clone, PartialEq, Eq, Structural)]
pub enum CurrentMode {
    Follower,
    Leader,
}

impl View for StateMachine {
    type V = Seq<CommitEntry>;

    closed spec fn view(&self) -> Seq<CommitEntry> {
        self.entries@
    }
}

impl StateMachine {
    pub fn new() -> (sm: Self)
        ensures
            sm@ == Seq::<CommitEntry>::empty(),
    {
        StateMachine { entries: Vec::new() }
    }

    // 'commit' vs 'apply'
    // - The leader 'commits' entries to the state machine.
    // - The follower 'applies' entries to the state machine.
    /// Commit an entry to the StateMachine.
    pub fn commit_entry(&mut self, data: CommitEntry)
        ensures
            final(self)@ == old(self)@.push(data),
    {
        self.entries.push(data);
    }

    /// Apply an entry to the StateMachine.
    pub fn apply(&mut self, data: CommitEntry)
        ensures
            final(self)@ == old(self)@.push(data),
    {
        self.entries.push(data);
    }

    /// The log index of every entry in the StateMachine, in apply order.
    pub fn applied_entries(&self) -> (idxs: Vec<Idx>)
        ensures
            idxs@ == self@.map_values(|c: CommitEntry| c.log_last_applied_idx),
    {
        let mut out: Vec<Idx> = Vec::new();
        let mut i: usize = 0;
        while i < self.entries.len()
            invariant
                i <= self.entries.len(),
                out@ == self@.subrange(0, i as int).map_values(
                    |c: CommitEntry| c.log_last_applied_idx,
                ),
            decreases self.entries.len() - i,
        {
            out.push(self.entries[i].log_last_applied_idx);
            i = i + 1;
            assert(self@.subrange(0, i as int) == self@.subrange(0, i - 1 as int).push(
                self@[i - 1],
            ));
        }
        assert(self@.subrange(0, self.entries.len() as int) == self@);
        out
    }

    /// The command of every entry in the StateMachine, in apply order.
    pub fn applied_commands(&self) -> (commands: Vec<u8>)
        ensures
            commands@ == self@.map_values(|c: CommitEntry| c.entry.command),
    {
        let mut out: Vec<u8> = Vec::new();
        let mut i: usize = 0;
        while i < self.entries.len()
            invariant
                i <= self.entries.len(),
                out@ == self@.subrange(0, i as int).map_values(|c: CommitEntry| c.entry.command),
            decreases self.entries.len() - i,
        {
            out.push(self.entries[i].entry.command);
            i = i + 1;
            assert(self@.subrange(0, i as int) == self@.subrange(0, i - 1 as int).push(
                self@[i - 1],
            ));
        }
        assert(self@.subrange(0, self.entries.len() as int) == self@);
        out
    }
}

} // verus!
