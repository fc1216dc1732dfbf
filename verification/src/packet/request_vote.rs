//! The RequestVote RPC, by which a Candidate asks for votes.

use crate::log::{at_least_as_up_to_date, last_term_idx_of, Term, TermIdx};
use crate::packet::{Rpc, RpcView};
use crate::queue::egress::ServerEgress;
use crate::server::{id::same_bytes, Id, PeerId, ServerId};
use crate::state::raft_state::RaftState;
use vstd::prelude::*;

verus! {

#[must_use]
#[derive(Debug, Clone, Copy, PartialEq, Eq)]
pub struct RequestVote {
    //% term: candidate’s term
    pub term: Term,
    //% candidateId: candidate requesting vote
    pub candidate_id: ServerId,
    //% lastLogIndex: index of candidate’s last log entry (§5.4)
    //% lastLogTerm: term of candidate’s last log entry (§5.4)
    pub last_log_term_idx: TermIdx,
}

/// Whether a server in `state` grants its vote to the RequestVote `rv`.
pub open spec fn grants_vote(state: &RaftState, rv: RequestVote) -> bool {
    //% Reply false if term < currentTerm (§5.1)
    &&& rv.term.0 >= state.current_term.0
    //% If candidate’s log is at least as up-to-date as receiver’s log
    &&& at_least_as_up_to_date(rv.last_log_term_idx, last_term_idx_of(state.log@))
    //% and votedFor is null or candidateId, grant vote (§5.2, §5.4)
    &&& match state.voted_for {
        None => true,
        Some(id) => id.0 == rv.candidate_id.0,
    }
}

impl RequestVote {
    /// Answer a vote request from the peer `peer_id`, recording the vote if it is granted.
    pub fn on_recv<E: ServerEgress>(&self, peer_id: PeerId, raft_state: &mut RaftState, io_egress: &mut E)
        ensures
            final(raft_state).voted_for == (if grants_vote(old(raft_state), *self) {
                Some(Id(self.candidate_id.0))
            } else {
                old(raft_state).voted_for
            }),
            final(raft_state).current_term == old(raft_state).current_term,
            final(raft_state).log@ == old(raft_state).log@,
            final(raft_state).commit_idx == old(raft_state).commit_idx,
            final(raft_state).last_applied == old(raft_state).last_applied,
            final(raft_state).applied() == old(raft_state).applied(),
            //% If election timeout elapses without receiving AppendEntries RPC from current leader or
            //% granting vote to candidate: convert to candidate
            final(raft_state).timeout.reset_pending() == (grants_vote(old(raft_state), *self)
                || old(raft_state).timeout.reset_pending()),
            final(io_egress).sent() == old(io_egress).sent().push(
                (
                    peer_id,
                    RpcView::RequestVoteResp(
                        RequestVoteResp {
                            term: old(raft_state).current_term,
                            vote_granted: grants_vote(old(raft_state), *self),
                        },
                    ),
                ),
            ),
    {
        let current_term = raft_state.current_term;
        let term_criteria = self.term.0 >= current_term.0;
        let log_up_to_date_criteria = raft_state.log.is_candidate_log_up_to_date(
            &self.last_log_term_idx,
        );
        let voted_for_criteria = match raft_state.voted_for() {
            Some(voted_for) => same_bytes(&voted_for.0, &self.candidate_id.0),
            None => true,
        };
        let grant_vote = term_criteria && log_up_to_date_criteria && voted_for_criteria;
        if grant_vote {
            // record the vote in the local state
            raft_state.voted_for = Some(self.candidate_id.into_id());
            // Granting a vote restarts the election timeout.
            raft_state.timeout.reset_timeout();
        }
        let rpc = Rpc::new_request_vote_resp(current_term, grant_vote);
        io_egress.send_packet(peer_id, rpc);
    }
}

#[must_use]
#[derive(Debug, Clone, Copy, PartialEq, Eq, Structural)]
pub struct RequestVoteResp {
    //% term: currentTerm, for candidate to update itself
    pub term: Term,
    //% voteGranted: true means candidate received vote
    pub vote_granted: bool,
}

/// A vote goes only to a Candidate of the receiver's term or a later one, only if the receiver has
/// not voted for another server, and only if the Candidate's last entry is of a later term than
/// the receiver's, or of the same term and at least as far along; and whenever all three hold, it
/// goes.
pub proof fn law_vote_rules(state: RaftState, rv: RequestVote)
    ensures
        //% Reply false if term < currentTerm (§5.1)
        rv.term.0 < state.current_term.0 ==> !grants_vote(&state, rv),
        (state.voted_for is Some && (state.voted_for->0).0 != rv.candidate_id.0) ==> !grants_vote(
            &state,
            rv,
        ),
        rv.last_log_term_idx.term.0 < last_term_idx_of(state.log@).term.0 ==> !grants_vote(&state, rv),
        (rv.last_log_term_idx.term.0 == last_term_idx_of(state.log@).term.0
            && rv.last_log_term_idx.idx.0 < last_term_idx_of(state.log@).idx.0) ==> !grants_vote(
            &state,
            rv,
        ),
        (rv.term.0 >= state.current_term.0 && (state.voted_for is None
            || (state.voted_for->0).0 == rv.candidate_id.0) && (rv.last_log_term_idx.term.0
            > last_term_idx_of(state.log@).term.0 || (rv.last_log_term_idx.term.0
            == last_term_idx_of(state.log@).term.0 && rv.last_log_term_idx.idx.0
            >= last_term_idx_of(state.log@).idx.0))) ==> grants_vote(&state, rv),
{
}

/// Answering a request from an earlier term grants nothing and leaves the vote as it was: the
/// answer refuses, carries the receiver's term, and `voted_for` does not change.
pub proof fn law_stale_request_is_refused(state: RaftState, rv: RequestVote)
    requires
        rv.term.0 < state.current_term.0,
    ensures
        !grants_vote(&state, rv),
        (if grants_vote(&state, rv) {
            Some(Id(rv.candidate_id.0))
        } else {
            state.voted_for
        }) == state.voted_for,
{
}
} // verus!
