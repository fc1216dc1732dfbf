//! A Follower answers RPCs from Leaders and Candidates and starts an election when the Leader
//! goes quiet.

use crate::log::{match_outcome_of, store_leader_entries, Entry, Idx, MatchOutcome, Term};
use crate::mode::ModeTransition;
use crate::packet::{
    AppendEntries, AppendEntriesResp, AppendEntriesView, EntriesLenTypeEncoding, Rpc, RpcView,
};
use crate::queue::egress::ServerEgress;
use crate::packet::request_vote::grants_vote;
use crate::packet::RequestVoteResp;
use crate::server::{Id, PeerId};
use crate::state::raft_state::{commits_for, RaftState};
use crate::state::state_machine::CurrentMode;
use vstd::prelude::*;

verus! {

/// Whether a Follower in `state` accepts the AppendEntries `ae`.
///
//% Reply false if term < currentTerm (§5.1)
//% Reply false if log doesn’t contain an entry at prevLogIndex whose term matches prevLogTerm
//% (§5.3)
///
/// Every log contains the empty prefix, so an initial `prev_log_term_idx` always matches.
pub open spec fn accepts_append_entries(state: &RaftState, ae: AppendEntriesView) -> bool {
    &&& ae.term.0 >= state.current_term.0
    &&& (ae.prev_log_term_idx.is_initial_spec() || match_outcome_of(state.log@, ae.prev_log_term_idx)
        == MatchOutcome::Match)
}

/// The Follower's log after answering `ae`.
pub open spec fn log_after_append(state: &RaftState, ae: AppendEntriesView) -> Seq<Entry> {
    if accepts_append_entries(state, ae) {
        store_leader_entries(
            state.log@,
            ae.prev_log_term_idx.idx.0 as nat,
            ae.entries,
            ae.entries.len(),
        )
    } else {
        state.log@
    }
}

/// Whether answering `ae` moves the Follower's commit index.
pub open spec fn append_moves_commit(state: &RaftState, ae: AppendEntriesView) -> bool {
    accepts_append_entries(state, ae) && ae.leader_commit_idx.0 > state.commit_idx.0
}

/// The Follower's commit index after answering `ae`.
///
//% If leaderCommit > commitIndex, set commitIndex = min(leaderCommit, index of last new entry)
pub open spec fn commit_after_append(state: &RaftState, ae: AppendEntriesView) -> Idx {
    if append_moves_commit(state, ae) {
        let last = log_after_append(state, ae).len();
        if ae.leader_commit_idx.0 < last {
            ae.leader_commit_idx
        } else {
            Idx(last as u64)
        }
    } else {
        state.commit_idx
    }
}

/// Answering `ae` does not move the commit index backwards. It only could if the Leader
/// overwrote entries this server had already committed, which Raft rules out.
pub open spec fn append_keeps_commit(state: &RaftState, ae: AppendEntriesView) -> bool {
    append_moves_commit(state, ae) ==> log_after_append(state, ae).len() >= state.commit_idx.0
}

/// The response a Follower in `state` sends to `ae`.
pub open spec fn append_entries_response(state: &RaftState, ae: AppendEntriesView) -> RpcView {
    let success = accepts_append_entries(state, ae);
    RpcView::AppendEntryResp(
        AppendEntriesResp {
            term: state.current_term,
            success,
            echo_prev_log_term_idx: ae.prev_log_term_idx,
            // The entries are stored all or nothing.
            entries_cnt: if success {
                ae.entries.len() as u16
            } else {
                0
            },
        },
    )
}

/// Everything a Follower in `old` changes when it answers `ae` from `peer_id`, as `new`.
pub open spec fn follower_answered_append(
    old: &RaftState,
    new: &RaftState,
    ae: AppendEntriesView,
    peer_id: PeerId,
) -> bool {
    &&& new.wf()
    &&& new.current_term == old.current_term
    &&& new.voted_for == old.voted_for
    &&& new.log@ == log_after_append(old, ae)
    &&& new.commit_idx == commit_after_append(old, ae)
    &&& new.applied() == old.applied() + (if append_moves_commit(old, ae) {
        commits_for(
            log_after_append(old, ae),
            old.commit_idx.0 as nat,
            commit_after_append(old, ae).0 as nat,
            peer_id,
            CurrentMode::Follower,
        )
    } else {
        Seq::empty()
    })
    //% If election timeout elapses without receiving AppendEntries RPC from current leader or
    //% granting vote to candidate: convert to candidate
    &&& new.timeout.reset_pending() == (accepts_append_entries(old, ae)
        || old.timeout.reset_pending())
}

#[derive(Debug, Default)]
pub struct Follower {
    //% leaderId: so follower can redirect clients
    //
    // The Leader this Follower last accepted an AppendEntries from.
    pub current_leader: Option<PeerId>,
}

impl Follower {
    pub fn on_follower(&mut self)
        ensures
            *final(self) == *old(self),
    {
    }

    /// The Leader to redirect a client to, if this Follower knows of one.
    pub fn current_leader(&self) -> (leader: Option<PeerId>)
        ensures
            leader == self.current_leader,
    {
        self.current_leader
    }

    pub fn on_timeout(&mut self) -> (transition: ModeTransition)
        ensures
            transition == ModeTransition::ToCandidate,
            *final(self) == *old(self),
    {
        //% If election timeout elapses without receiving AppendEntries RPC from current
        //% leader or granting vote to candidate: convert to candidate
        //
        // A new election is started once the server transitions to Candidate
        ModeTransition::ToCandidate
    }

    /// Answer an AppendEntries RPC from the Leader `peer_id`.
    pub fn on_recv_append_entries<E: ServerEgress>(
        &mut self,
        peer_id: PeerId,
        append_entries: &AppendEntries,
        raft_state: &mut RaftState,
        io_egress: &mut E,
    )
        requires
            old(raft_state).wf(),
            old(raft_state).log@.len() + append_entries.entries@.len() < u64::MAX,
            append_keeps_commit(old(raft_state), append_entries@),
        ensures
            follower_answered_append(old(raft_state), final(raft_state), append_entries@, peer_id),
            final(self).current_leader == (if accepts_append_entries(
                old(raft_state),
                append_entries@,
            ) {
                Some(peer_id)
            } else {
                old(self).current_leader
            }),
            final(io_egress).sent() == old(io_egress).sent().push(
                (peer_id, append_entries_response(old(raft_state), append_entries@)),
            ),
    {
        let ghost old_state = *raft_state;
        let current_term = raft_state.current_term;
        let prev_log_term_idx = append_entries.prev_log_term_idx;
        //% Reply false if term < currentTerm (§5.1)
        let rpc_term_lt_current_term = append_entries.term.0 < current_term.0;
        //% Reply false if log doesn’t contain an entry at prevLogIndex whose term
        //% matches prevLogTerm (§5.3)
        let log_contains_matching_prev_entry = prev_log_term_idx.is_initial() || match raft_state.log.entry_matches(prev_log_term_idx) {
            MatchOutcome::Match => true,
            _ => false,
        };
        let response = !rpc_term_lt_current_term && log_contains_matching_prev_entry;

        if response {
            // Accepting the RPC means recognizing the sender as the current Leader.
            self.current_leader = Some(peer_id);
            // A heartbeat landed, so the Leader is alive.
            raft_state.timeout.reset_timeout();

            //% If an existing entry conflicts with a new one (same index but different terms),
            //% delete the existing entry and all that follow it (§5.3)
            //% Append any new entries not already in the log
            // The RPC's entries are contiguous and start immediately after prev.
            raft_state.log.store_entries(prev_log_term_idx.idx.0, &append_entries.entries);

            //% If leaderCommit > commitIndex, set commitIndex = min(leaderCommit, index of
            //% last new entry)
            if append_entries.leader_commit_idx.0 > raft_state.commit_idx().0 {
                let last_idx = raft_state.log.last_idx();
                let commit_idx = if append_entries.leader_commit_idx.0 < last_idx.0 {
                    append_entries.leader_commit_idx
                } else {
                    last_idx
                };
                raft_state.update_commit_idx(commit_idx, peer_id, CurrentMode::Follower);
            }
        }
        // The entries are stored all or nothing, so a success accounts for every entry sent.

        let entries_cnt: EntriesLenTypeEncoding = if response {
            append_entries.entries.len() as EntriesLenTypeEncoding
        } else {
            0
        };
        let rpc = Rpc::new_append_entry_resp(current_term, response, prev_log_term_idx, entries_cnt);
        io_egress.send_packet(peer_id, rpc);
    }
}


/// What a Follower does with an RPC from `peer_id`; `leader_before` and `leader_after` are the
/// Leader it knows of.
pub open spec fn follower_received(
    old: &RaftState,
    new: &RaftState,
    leader_before: Option<PeerId>,
    leader_after: Option<PeerId>,
    peer_id: PeerId,
    rpc: RpcView,
    sent_before: Seq<(PeerId, RpcView)>,
    sent_after: Seq<(PeerId, RpcView)>,
) -> bool {
    match rpc {
        RpcView::RequestVote(rv) => {
            &&& new.voted_for == (if grants_vote(old, rv) {
                Some(Id(rv.candidate_id.0))
            } else {
                old.voted_for
            })
            &&& new.current_term == old.current_term
            &&& new.log@ == old.log@
            &&& new.commit_idx == old.commit_idx
            &&& new.applied() == old.applied()
            &&& new.timeout.reset_pending() == (grants_vote(old, rv) || old.timeout.reset_pending())
            &&& leader_after == leader_before
            &&& sent_after == sent_before.push(
                (
                    peer_id,
                    RpcView::RequestVoteResp(
                        RequestVoteResp { term: old.current_term, vote_granted: grants_vote(old, rv) },
                    ),
                ),
            )
        },
        RpcView::AppendEntry(ae) => {
            &&& follower_answered_append(old, new, ae, peer_id)
            &&& leader_after == (if accepts_append_entries(old, ae) {
                Some(peer_id)
            } else {
                leader_before
            })
            &&& sent_after == sent_before.push((peer_id, append_entries_response(old, ae)))
        },
        // A Follower sends no requests, so a response is a leftover and is ignored.
        _ => {
            &&& *new == *old
            &&& leader_after == leader_before
            &&& sent_after == sent_before
        },
    }
}

/// Whether a Follower in `state` can take `rpc`: an AppendEntries must fit the index space, and
/// must not move the commit index backwards.
pub open spec fn follower_can_take(state: &RaftState, rpc: RpcView) -> bool {
    match rpc {
        RpcView::AppendEntry(ae) => {
            &&& state.log@.len() + ae.entries.len() < u64::MAX
            &&& append_keeps_commit(state, ae)
        },
        _ => true,
    }
}

impl Follower {
    /// Respond to an RPC from a Candidate or a Leader.
    pub fn on_recv<E: ServerEgress>(
        &mut self,
        peer_id: PeerId,
        rpc: &Rpc,
        raft_state: &mut RaftState,
        io_egress: &mut E,
    )
        requires
            old(raft_state).wf(),
            follower_can_take(old(raft_state), rpc@),
        ensures
            final(raft_state).wf(),
            follower_received(
                old(raft_state),
                final(raft_state),
                old(self).current_leader,
                final(self).current_leader,
                peer_id,
                rpc@,
                old(io_egress).sent(),
                final(io_egress).sent(),
            ),
    {
        //% Respond to RPCs from candidates and leaders
        match rpc {
            Rpc::RequestVote(request_vote) => request_vote.on_recv(peer_id, raft_state, io_egress),
            Rpc::AppendEntry(append_entries) => {
                self.on_recv_append_entries(peer_id, append_entries, raft_state, io_egress)
            },
            Rpc::RequestVoteResp(_) | Rpc::AppendEntryResp(_) => {
                // Ignore since a Follower doesn't send AppendEntry or RequestVote
            },
        }
    }
}


/// Whether a Follower with `state`, but in `term` and having cast the vote `voted_for`, can take
/// `rpc`.
pub fn follower_can_take_check(state: &RaftState, term: Term, rpc: &Rpc) -> (ok: bool)
    requires
        state.log@.len() < u64::MAX,
    ensures
        forall|voted_for: Option<Id>|
            ok == #[trigger] follower_can_take(
                &RaftState { current_term: term, voted_for, ..*state },
                rpc@,
            ),
{
    match rpc {
        Rpc::AppendEntry(ae) => {
            let log_len = state.log.test_len();
            if ae.entries.len() as u128 + log_len as u128 >= u64::MAX as u128 {
                return false;
            }
            let prev = ae.prev_log_term_idx;
            let accepts = ae.term.0 >= term.0 && (prev.is_initial() || match state.log.entry_matches(
                prev,
            ) {
                MatchOutcome::Match => true,
                _ => false,
            });
            if accepts && ae.leader_commit_idx.0 > state.commit_idx.0 {
                proof {
                    if !prev.is_initial() {
                        assert(prev.idx.0 <= state.log@.len());
                    }
                }
                let mut scratch = state.log.duplicate();
                scratch.store_entries(prev.idx.0, &ae.entries);
                scratch.test_len() as u64 >= state.commit_idx.0
            } else {
                true
            }
        },
        _ => true,
    }
}

} // verus!
