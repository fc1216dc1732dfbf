//! The RPCs that Raft servers exchange, and the addressed packets that carry them.

use crate::log::{Entry, Idx, Term, TermIdx};
use crate::server::{PeerId, ServerId};
use vstd::prelude::*;

pub mod append_entries;
pub mod codec;
pub mod request_vote;

pub use append_entries::{AppendEntries, AppendEntriesResp, AppendEntriesView, EntriesLenTypeEncoding};
pub use request_vote::{RequestVote, RequestVoteResp};

verus! {

/// The wire tag of a RequestVote RPC.
pub const REQUEST_VOTE_TAG: u8 = 1;

/// The wire tag of a RequestVote response.
pub const REQUEST_VOTE_RESP_TAG: u8 = 2;

/// The wire tag of an AppendEntries RPC.
pub const APPEND_ENTRIES_TAG: u8 = 3;

/// The wire tag of an AppendEntries response.
pub const APPEND_ENTRIES_RESP_TAG: u8 = 4;

#[must_use]
#[derive(Debug, Clone, PartialEq, Eq)]
pub enum Rpc {
    RequestVote(RequestVote),
    RequestVoteResp(RequestVoteResp),
    AppendEntry(AppendEntries),
    AppendEntryResp(AppendEntriesResp),
}

/// An Rpc with its entries taken as a sequence.
pub enum RpcView {
    RequestVote(RequestVote),
    RequestVoteResp(RequestVoteResp),
    AppendEntry(AppendEntriesView),
    AppendEntryResp(AppendEntriesResp),
}

impl View for Rpc {
    type V = RpcView;

    open spec fn view(&self) -> RpcView {
        match self {
            Rpc::RequestVote(r) => RpcView::RequestVote(*r),
            Rpc::RequestVoteResp(r) => RpcView::RequestVoteResp(*r),
            Rpc::AppendEntry(r) => RpcView::AppendEntry(r@),
            Rpc::AppendEntryResp(r) => RpcView::AppendEntryResp(*r),
        }
    }
}

impl RpcView {
    /// The term that the sender of the RPC was in.
    pub open spec fn term(self) -> Term {
        match self {
            RpcView::RequestVote(r) => r.term,
            RpcView::RequestVoteResp(r) => r.term,
            RpcView::AppendEntry(r) => r.term,
            RpcView::AppendEntryResp(r) => r.term,
        }
    }
}

impl Rpc {
    pub fn new_request_vote(term: Term, candidate_id: ServerId, last_log_term_idx: TermIdx) -> (rpc:
        Rpc)
        ensures
            rpc@ == RpcView::RequestVote(RequestVote { term, candidate_id, last_log_term_idx }),
    {
        Rpc::RequestVote(RequestVote { term, candidate_id, last_log_term_idx })
    }

    pub fn new_request_vote_resp(term: Term, vote_granted: bool) -> (rpc: Rpc)
        ensures
            rpc@ == RpcView::RequestVoteResp(RequestVoteResp { term, vote_granted }),
    {
        Rpc::RequestVoteResp(RequestVoteResp { term, vote_granted })
    }

    pub fn new_append_entry(
        term: Term,
        leader_id: ServerId,
        prev_log_term_idx: TermIdx,
        leader_commit_idx: Idx,
        entries: Vec<Entry>,
    ) -> (rpc: Rpc)
        ensures
            rpc@ == RpcView::AppendEntry(
                AppendEntriesView {
                    term,
                    leader_id,
                    prev_log_term_idx,
                    leader_commit_idx,
                    entries: entries@,
                },
            ),
    {
        Rpc::AppendEntry(
            AppendEntries { term, leader_id, prev_log_term_idx, leader_commit_idx, entries },
        )
    }

    pub fn new_append_entry_resp(
        term: Term,
        success: bool,
        echo_prev_log_term_idx: TermIdx,
        entries_cnt: EntriesLenTypeEncoding,
    ) -> (rpc: Rpc)
        ensures
            rpc@ == RpcView::AppendEntryResp(
                AppendEntriesResp { term, success, echo_prev_log_term_idx, entries_cnt },
            ),
    {
        Rpc::AppendEntryResp(
            AppendEntriesResp { term, success, echo_prev_log_term_idx, entries_cnt },
        )
    }

    /// The term that the sender of the RPC was in.
    pub fn term(&self) -> (term: &Term)
        ensures
            *term == self@.term(),
    {
        match self {
            Rpc::RequestVote(r) => &r.term,
            Rpc::RequestVoteResp(r) => &r.term,
            Rpc::AppendEntry(r) => &r.term,
            Rpc::AppendEntryResp(r) => &r.term,
        }
    }
}

/// Who sent a packet and who it is addressed to.
#[derive(Debug, Clone, Copy, PartialEq, Eq)]
pub struct Header {
    pub from: ServerId,
    pub to: ServerId,
}

#[derive(Debug, Clone, PartialEq, Eq)]
pub struct Packet {
    pub header: Header,
    pub rpc: Rpc,
}

/// A packet with its RPC taken as a view.
pub struct PacketView {
    pub header: Header,
    pub rpc: RpcView,
}

impl View for Packet {
    type V = PacketView;

    open spec fn view(&self) -> PacketView {
        PacketView { header: self.header, rpc: self.rpc@ }
    }
}

impl Packet {
    pub fn new(header: Header, rpc: Rpc) -> (packet: Packet)
        ensures
            packet@ == (PacketView { header, rpc: rpc@ }),
    {
        Packet { header, rpc }
    }

    /// A packet that `from` sends to the peer `to`.
    pub fn new_send(from: ServerId, to: PeerId, rpc: Rpc) -> (packet: Packet)
        ensures
            packet@ == (PacketView { header: Header { from, to: ServerId(to.0) }, rpc: rpc@ }),
    {
        Packet { header: Header { from, to: to.as_server_id() }, rpc }
    }

    pub fn rpc(&self) -> (rpc: &Rpc)
        ensures
            *rpc == self.rpc,
    {
        &self.rpc
    }

    pub fn from(&self) -> (from: ServerId)
        ensures
            from == self.header.from,
    {
        self.header.from
    }

    pub fn to(&self) -> (to: ServerId)
        ensures
            to == self.header.to,
    {
        self.header.to
    }
}

} // verus!
