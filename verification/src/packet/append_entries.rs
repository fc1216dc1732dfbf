//! The AppendEntries RPC, by which a Leader replicates its log and asserts its leadership.

use crate::log::{Entry, Idx, Term, TermIdx};
use crate::server::ServerId;
use vstd::prelude::*;

verus! {

/// Type used to encode the number of entries sent over an AppendEntries RPC.
pub type EntriesLenTypeEncoding = u16;

#[must_use]
#[derive(Debug, Clone, PartialEq, Eq)]
pub struct AppendEntries {
    // term: leader’s term
    pub term: Term,
    //% leaderId: so follower can redirect clients
    pub leader_id: ServerId,
    // The last log entry that the peer should already hold. If it matches, the peer is up to date
    // and accepts the entries that follow it.
    //
    //% prevLogIndex: index of log entry immediately preceding new ones
    //% prevLogTerm: term of prevLogIndex entry
    pub prev_log_term_idx: TermIdx,
    // The index of the highest log entry known to be committed.
    pub leader_commit_idx: Idx,
    //% entries[]: log entries to store (empty for heartbeat; may send more than one for
    //% efficiency)
    pub entries: Vec<Entry>,
}

/// An AppendEntries RPC with its entries taken as a sequence.
pub struct AppendEntriesView {
    pub term: Term,
    pub leader_id: ServerId,
    pub prev_log_term_idx: TermIdx,
    pub leader_commit_idx: Idx,
    pub entries: Seq<Entry>,
}

impl View for AppendEntries {
    type V = AppendEntriesView;

    open spec fn view(&self) -> AppendEntriesView {
        AppendEntriesView {
            term: self.term,
            leader_id: self.leader_id,
            prev_log_term_idx: self.prev_log_term_idx,
            leader_commit_idx: self.leader_commit_idx,
            entries: self.entries@,
        }
    }
}

impl AppendEntries {
    pub fn term(&self) -> (term: Term)
        ensures
            term == self.term,
    {
        self.term
    }
}

#[must_use]
#[derive(Debug, Clone, Copy, PartialEq, Eq, Structural)]
pub struct AppendEntriesResp {
    //% term: currentTerm, for leader to update itself
    pub term: Term,
    //% success: true if follower contained entry matching prevLogIndex and prevLogTerm
    pub success: bool,
    // The `prev_log_term_idx` of the AppendEntries being answered. Several RPCs to one peer can
    // be in flight after a retry, and this is what matches a response to its request.
    pub echo_prev_log_term_idx: TermIdx,
    // How many entries of the AppendEntries were stored: all of them on success, none on
    // failure. With the echoed prev this gives the Leader the peer's matchIndex,
    // `echo_prev_log_term_idx.idx + entries_cnt`.
    pub entries_cnt: EntriesLenTypeEncoding,
}

} // verus!
