//! A Candidate campaigns for votes and becomes Leader once a majority grants them.

use crate::log::{last_term_idx_of, TermIdx};
use crate::mode::{quorum_of, ElectionResult, Mode, ModeTransition, Quorum};
use crate::packet::{
    AppendEntriesResp, RequestVote, RequestVoteResp, Rpc, RpcView,
};
use crate::packet::request_vote::grants_vote;
use crate::queue::egress::ServerEgress;
use crate::server::{id::same_bytes, Id, PeerId, ServerId};
use crate::state::raft_state::RaftState;
use vstd::prelude::*;

verus! {

/// The RequestVote RPCs an election in `term` sends, one to each peer in order.
pub open spec fn request_votes(
    peer_list: Seq<PeerId>,
    term: crate::log::Term,
    server_id: ServerId,
    last_log_term_idx: TermIdx,
) -> Seq<(PeerId, RpcView)> {
    peer_list.map_values(
        |p: PeerId|
            (p, RpcView::RequestVote(RequestVote { term, candidate_id: server_id, last_log_term_idx })),
    )
}

#[derive(Debug, Default)]
pub struct Candidate {
    pub votes_received: Vec<Id>,
}

impl Candidate {
    /// The servers whose vote this Candidate holds in the current election, with no repeats.
    pub open spec fn votes(&self) -> Seq<Id> {
        self.votes_received@
    }

    pub open spec fn wf(&self) -> bool {
        self.votes_received@.no_duplicates()
    }

    /// Count a vote from `id`; a repeated vote is counted once.
    fn insert_vote(&mut self, id: Id)
        requires
            old(self).wf(),
        ensures
            final(self).wf(),
            final(self).votes() == (if old(self).votes().contains(id) {
                old(self).votes()
            } else {
                old(self).votes().push(id)
            }),
    {
        let mut i: usize = 0;
        while i < self.votes_received.len()
            invariant
                i <= self.votes_received.len(),
                self.votes_received@ == old(self).votes_received@,
                self.wf(),
                forall|j: int| 0 <= j < i ==> self.votes_received@[j] != id,
            decreases self.votes_received.len() - i,
        {
            if same_bytes(&self.votes_received[i].0, &id.0) {
                assert(self.votes_received@[i as int] == id);
                return ;
            }
            i = i + 1;
        }
        self.votes_received.push(id);
    }

    /// Start an election on becoming a Candidate.
    pub fn on_candidate<E: ServerEgress>(
        &mut self,
        server_id: &ServerId,
        peer_list: &[PeerId],
        raft_state: &mut RaftState,
        io_egress: &mut E,
    ) -> (transition: ModeTransition)
        requires
            old(raft_state).wf(),
            old(raft_state).current_term.0 < u64::MAX,
            peer_list@.len() < usize::MAX,
        ensures
            final(self).wf(),
            started_election(
                old(raft_state),
                final(raft_state),
                *server_id,
                peer_list@,
                final(self).votes(),
                transition,
                old(io_egress).sent(),
                final(io_egress).sent(),
            ),
    {
        //% On conversion to candidate, start election:
        self.start_election(server_id, peer_list, raft_state, io_egress)
    }

    /// Start a new election when the previous one timed out without a winner.
    pub fn on_timeout<E: ServerEgress>(
        &mut self,
        server_id: &ServerId,
        peer_list: &[PeerId],
        raft_state: &mut RaftState,
        io_egress: &mut E,
    ) -> (transition: ModeTransition)
        requires
            old(raft_state).wf(),
            old(raft_state).current_term.0 < u64::MAX,
            peer_list@.len() < usize::MAX,
        ensures
            final(self).wf(),
            started_election(
                old(raft_state),
                final(raft_state),
                *server_id,
                peer_list@,
                final(self).votes(),
                transition,
                old(io_egress).sent(),
                final(io_egress).sent(),
            ),
    {
        //% A timeout occurs and there is no winner (can happen if too many servers become
        //% candidates at the same time)
        //% - increment its term
        //% - start a new election by initiating another round of RequestVote
        self.start_election(server_id, peer_list, raft_state, io_egress)
    }

    /// Handle an RPC from `peer_id`.
    ///
    /// An AppendEntries from a Leader of the current term or a later one ends the election: the
    /// Candidate becomes a Follower and the RPC is handed back to be processed again in that mode.
    pub fn on_recv<'a, E: ServerEgress>(
        &mut self,
        peer_id: PeerId,
        rpc: &'a Rpc,
        peer_list: &[PeerId],
        raft_state: &mut RaftState,
        io_egress: &mut E,
    ) -> (res: (ModeTransition, Option<&'a Rpc>))
        requires
            old(self).wf(),
            old(raft_state).wf(),
            peer_list@.len() < usize::MAX,
        ensures
            final(self).wf(),
            final(raft_state).wf(),
            candidate_received(
                old(self).votes(),
                final(self).votes(),
                old(raft_state),
                final(raft_state),
                peer_id,
                rpc@,
                peer_list@,
                res.0,
                res.1 is Some,
                old(io_egress).sent(),
                final(io_egress).sent(),
            ),
            res.1 is Some ==> res.1->0 == rpc,
    {
        match rpc {
            Rpc::RequestVote(request_vote) => {
                request_vote.on_recv(peer_id, raft_state, io_egress);
                (ModeTransition::Noop, None)
            },
            Rpc::RequestVoteResp(request_vote_resp) => {
                let transition = self.on_recv_request_vote_resp(
                    peer_id,
                    request_vote_resp,
                    peer_list,
                    raft_state,
                );
                (transition, None)
            },
            Rpc::AppendEntry(append_entries) => {
                //% another server establishes itself as a leader
                //% - a candidate receives AppendEntries from another server claiming to be a leader
                if append_entries.term.0 >= raft_state.current_term.0 {
                    //% if that leader's current term is >= the candidate's
                    //% - recognize the server as the new leader
                    //% - then the candidate reverts to a follower
                    (ModeTransition::ToFollower, Some(rpc))
                } else {
                    //% if the leader's current term is < the candidate's
                    //% - reject the RPC and continue in the candidate state
                    let term = raft_state.current_term;
                    // A rejected RPC stored no entries.
                    let resp = Rpc::new_append_entry_resp(
                        term,
                        false,
                        append_entries.prev_log_term_idx,
                        0,
                    );
                    io_egress.send_packet(peer_id, resp);
                    (ModeTransition::Noop, None)
                }
            },
            Rpc::AppendEntryResp(_) => {
                // A Leader could have sent requests before stepping down. Ignore the responses.
                (ModeTransition::Noop, None)
            },
        }
    }

    /// Count a vote granted in the current term, and report whether it completes a majority.
    pub fn on_recv_request_vote_resp(
        &mut self,
        peer_id: PeerId,
        request_vote_resp: &RequestVoteResp,
        peer_list: &[PeerId],
        raft_state: &RaftState,
    ) -> (transition: ModeTransition)
        requires
            old(self).wf(),
            peer_list@.len() < usize::MAX,
        ensures
            final(self).wf(),
            final(self).votes() == (if counts_vote(raft_state, *request_vote_resp) {
                votes_with(old(self).votes(), Id(peer_id.0))
            } else {
                old(self).votes()
            }),
            transition == (if counts_vote(raft_state, *request_vote_resp) && final(self).votes().len()
                >= quorum_of(peer_list@.len()) {
                ModeTransition::ToLeader
            } else {
                ModeTransition::Noop
            }),
    {
        let term_matches = raft_state.current_term.0 == request_vote_resp.term.0;
        if term_matches && request_vote_resp.vote_granted {
            //% wins election
            //%	- receives majority of votes in cluster (ensures a single winner)
            //%	- a server can only vote once for a given term (first-come basis)
            let granted_vote = self.on_vote_received(&peer_id, peer_list);
            if granted_vote == ElectionResult::Elected {
                //% If votes received from majority of servers: become leader
                return ModeTransition::ToLeader;
            }
        }
        ModeTransition::Noop
    }

    /// Increment the term, vote for self and ask every peer for its vote.
    pub fn start_election<E: ServerEgress>(
        &mut self,
        server_id: &ServerId,
        peer_list: &[PeerId],
        raft_state: &mut RaftState,
        io_egress: &mut E,
    ) -> (transition: ModeTransition)
        requires
            old(raft_state).wf(),
            old(raft_state).current_term.0 < u64::MAX,
            peer_list@.len() < usize::MAX,
        ensures
            final(self).wf(),
            started_election(
                old(raft_state),
                final(raft_state),
                *server_id,
                peer_list@,
                final(self).votes(),
                transition,
                old(io_egress).sent(),
                final(io_egress).sent(),
            ),
    {
        // Retrieve the last log term index before incrementing the currentTerm
        let last_log_term_idx = raft_state.on_start_election();

        //% a server can only vote once for a given term (first-come basis)
        self.votes_received.clear();

        //% Reset election timer
        raft_state.timeout.reset_timeout();

        //% Vote for self
        if self.on_vote_for_self(server_id, raft_state, peer_list) == ElectionResult::Elected {
            //% If votes received from majority of servers: become leader
            return ModeTransition::ToLeader;
        }

        //% Send RequestVote RPCs to all other servers
        let ghost sent0 = io_egress.sent();
        let mut i: usize = 0;
        while i < peer_list.len()
            invariant
                i <= peer_list.len(),
                io_egress.sent() == sent0 + request_votes(
                    peer_list@.subrange(0, i as int),
                    raft_state.current_term,
                    *server_id,
                    last_log_term_idx,
                ),
            decreases peer_list.len() - i,
        {
            let rpc = Rpc::new_request_vote(raft_state.current_term, *server_id, last_log_term_idx);
            peer_list[i].send_rpc(rpc, io_egress);
            i = i + 1;
            proof {
                assert(peer_list@.subrange(0, i as int) == peer_list@.subrange(0, i - 1 as int).push(
                    peer_list@[i - 1],
                ));
            }
        }
        proof {
            assert(peer_list@.subrange(0, peer_list@.len() as int) == peer_list@);
        }
        ModeTransition::Noop
    }

    /// Record the vote for self and report whether it alone is a majority.
    pub fn on_vote_for_self(
        &mut self,
        server_id: &ServerId,
        raft_state: &mut RaftState,
        peer_list: &[PeerId],
    ) -> (result: ElectionResult)
        requires
            old(self).wf(),
            peer_list@.len() < usize::MAX,
        ensures
            final(self).wf(),
            final(self).votes() == votes_with(old(self).votes(), Id(server_id.0)),
            final(raft_state).voted_for == Some(Id(server_id.0)),
            final(raft_state).current_term == old(raft_state).current_term,
            final(raft_state).log@ == old(raft_state).log@,
            final(raft_state).commit_idx == old(raft_state).commit_idx,
            final(raft_state).last_applied == old(raft_state).last_applied,
            final(raft_state).applied() == old(raft_state).applied(),
            final(raft_state).timeout == old(raft_state).timeout,
            result == election_result(final(self).votes(), peer_list@.len()),
    {
        raft_state.voted_for_self(*server_id);
        self.insert_vote(server_id.into_id());
        self.check_election_result(Mode::quorum(peer_list))
    }

    /// Record the vote of `peer_id` and report whether the votes now make a majority.
    pub fn on_vote_received(&mut self, peer_id: &PeerId, peer_list: &[PeerId]) -> (result:
        ElectionResult)
        requires
            old(self).wf(),
            peer_list@.len() < usize::MAX,
        ensures
            final(self).wf(),
            final(self).votes() == votes_with(old(self).votes(), Id(peer_id.0)),
            result == election_result(final(self).votes(), peer_list@.len()),
    {
        self.insert_vote(peer_id.into_id());
        self.check_election_result(Mode::quorum(peer_list))
    }

    /// Elected once the votes reach `quorum`.
    pub fn check_election_result(&self, quorum: Quorum) -> (result: ElectionResult)
        ensures
            result == (if self.votes().len() >= quorum.0 {
                ElectionResult::Elected
            } else {
                ElectionResult::Pending
            }),
    {
        if self.votes_received.len() >= quorum.0 {
            ElectionResult::Elected
        } else {
            ElectionResult::Pending
        }
    }
}

/// The votes after `id` votes; a repeated vote is counted once.
pub open spec fn votes_with(votes: Seq<Id>, id: Id) -> Seq<Id> {
    if votes.contains(id) {
        votes
    } else {
        votes.push(id)
    }
}

/// Whether `votes` make a majority of a cluster with `peers` peers.
pub open spec fn election_result(votes: Seq<Id>, peers: nat) -> ElectionResult {
    if votes.len() >= quorum_of(peers) {
        ElectionResult::Elected
    } else {
        ElectionResult::Pending
    }
}

/// Whether a Candidate in `state` counts the response `resp`: a vote granted in the current term.
pub open spec fn counts_vote(state: &RaftState, resp: RequestVoteResp) -> bool {
    resp.term == state.current_term && resp.vote_granted
}

/// What starting an election from `old` does.
///
//% On conversion to candidate, start election:
//% - Increment currentTerm
//% - Vote for self
//% - Reset election timer
//% - Send RequestVote RPCs to all other servers
pub open spec fn started_election(
    old: &RaftState,
    new: &RaftState,
    server_id: ServerId,
    peer_list: Seq<PeerId>,
    votes: Seq<Id>,
    transition: ModeTransition,
    sent_before: Seq<(PeerId, RpcView)>,
    sent_after: Seq<(PeerId, RpcView)>,
) -> bool {
    &&& new.wf()
    &&& new.current_term.0 == old.current_term.0 + 1
    &&& new.voted_for == Some(Id(server_id.0))
    &&& new.log@ == old.log@
    &&& new.commit_idx == old.commit_idx
    &&& new.applied() == old.applied()
    &&& new.timeout.reset_pending()
    // The votes of an earlier election do not carry over.
    &&& votes == seq![Id(server_id.0)]
    // With no peers the self vote is a majority, and the election is won without asking anyone.
    &&& transition == (if peer_list.len() == 0 {
        ModeTransition::ToLeader
    } else {
        ModeTransition::Noop
    })
    &&& sent_after == (if peer_list.len() == 0 {
        sent_before
    } else {
        sent_before + request_votes(
            peer_list,
            new.current_term,
            server_id,
            last_term_idx_of(old.log@),
        )
    })
}

/// What a Candidate does with an RPC from `peer_id`.
pub open spec fn candidate_received(
    votes_before: Seq<Id>,
    votes_after: Seq<Id>,
    old: &RaftState,
    new: &RaftState,
    peer_id: PeerId,
    rpc: RpcView,
    peer_list: Seq<PeerId>,
    transition: ModeTransition,
    process_again: bool,
    sent_before: Seq<(PeerId, RpcView)>,
    sent_after: Seq<(PeerId, RpcView)>,
) -> bool {
    match rpc {
        RpcView::RequestVote(rv) => {
            &&& new.voted_for == (if grants_vote(old, rv) {
                Some(Id(rv.candidate_id.0))
            } else {
                old.voted_for
            })
            &&& new.current_term == old.current_term
            &&& new.log@ == old.log@
            &&& new.commit_idx == old.commit_idx
            &&& new.applied() == old.applied()
            &&& new.timeout.reset_pending() == (grants_vote(old, rv) || old.timeout.reset_pending())
            &&& votes_after == votes_before
            &&& transition == ModeTransition::Noop
            &&& !process_again
            &&& sent_after == sent_before.push(
                (
                    peer_id,
                    RpcView::RequestVoteResp(
                        RequestVoteResp { term: old.current_term, vote_granted: grants_vote(old, rv) },
                    ),
                ),
            )
        },
        RpcView::RequestVoteResp(resp) => {
            &&& *new == *old
            &&& votes_after == (if counts_vote(old, resp) {
                votes_with(votes_before, Id(peer_id.0))
            } else {
                votes_before
            })
            &&& transition == (if counts_vote(old, resp) && votes_after.len() >= quorum_of(
                peer_list.len(),
            ) {
                ModeTransition::ToLeader
            } else {
                ModeTransition::Noop
            })
            &&& !process_again
            &&& sent_after == sent_before
        },
        RpcView::AppendEntry(ae) => {
            &&& *new == *old
            &&& votes_after == votes_before
            &&& if ae.term.0 >= old.current_term.0 {
                &&& transition == ModeTransition::ToFollower
                &&& process_again
                &&& sent_after == sent_before
            } else {
                &&& transition == ModeTransition::Noop
                &&& !process_again
                &&& sent_after == sent_before.push(
                    (
                        peer_id,
                        RpcView::AppendEntryResp(
                            AppendEntriesResp {
                                term: old.current_term,
                                success: false,
                                echo_prev_log_term_idx: ae.prev_log_term_idx,
                                entries_cnt: 0,
                            },
                        ),
                    ),
                )
            }
        },
        RpcView::AppendEntryResp(_) => {
            &&& *new == *old
            &&& votes_after == votes_before
            &&& transition == ModeTransition::Noop
            &&& !process_again
            &&& sent_after == sent_before
        },
    }
}

} // verus!
