//! What every step of one server keeps, whatever the step: the term never goes back, a vote is
//! never changed within a term, the commit index never goes back, what was applied stays applied,
//! a Leader never rewrites its log, and only a majority makes a Leader.

use crate::mode::candidate::candidate_received;
use crate::mode::leader::count_at_least;
use crate::mode::{
    candidate_votes_after, mode_can_take, mode_received, mode_timed_out, quorum_of, state_for_rpc,
    Mode, ModeTransition,
};
use crate::packet::RpcView;
use crate::server::{PeerId, ServerId};
use crate::state::raft_state::RaftState;
use vstd::prelude::*;

verus! {

/// What holds of the persistent and volatile state across any step from `old` to `new`.
pub open spec fn state_step_is_safe(old: &RaftState, new: &RaftState) -> bool {
    //% currentTerm ... increases monotonically
    &&& new.current_term.0 >= old.current_term.0
    //% votedFor candidateId that received vote in current term
    &&& (new.current_term == old.current_term && old.voted_for is Some) ==> new.voted_for
        == old.voted_for
    //% commitIndex ... increases monotonically
    &&& new.commit_idx.0 >= old.commit_idx.0
    &&& old.applied().len() <= new.applied().len()
    &&& new.applied().subrange(0, old.applied().len() as int) == old.applied()
}

/// Any two majorities of a cluster of `peers` peers and the server itself share a server: their
/// sizes add up to more than the cluster.
pub proof fn law_quorums_intersect(peers: nat)
    ensures
        quorum_of(peers) + quorum_of(peers) > peers + 1,
        quorum_of(peers) <= peers + 1,
{
}

/// Handling an RPC that the server can take keeps the state safe. A Leader that stays Leader
/// keeps its log as it was and moves its commit index only to an entry of its own term that a
/// majority holds, and a server that becomes Leader was a Candidate whose votes, the new one
/// included, make a majority.
#[verifier::spinoff_prover]
pub proof fn law_received_is_safe(
    old_mode: &Mode,
    new_mode: &Mode,
    old: &RaftState,
    new: &RaftState,
    server_id: ServerId,
    peer_id: PeerId,
    rpc: RpcView,
    peer_list: Seq<PeerId>,
    sent_before: Seq<(PeerId, RpcView)>,
    sent_after: Seq<(PeerId, RpcView)>,
)
    requires
        mode_can_take(old_mode, old, peer_id, rpc),
        mode_received(
            old_mode,
            new_mode,
            old,
            new,
            server_id,
            peer_id,
            rpc,
            peer_list,
            sent_before,
            sent_after,
        ),
    ensures
        state_step_is_safe(old, new),
        (old_mode is Leader && new_mode is Leader) ==> new.log@ == old.log@,
        //% If there exists an N such that N > commitIndex, a majority of matchIndex[i] ≥ N, and
        //% log[N].term == currentTerm: set commitIndex = N (§5.3, §5.4).
        (old_mode is Leader && new_mode is Leader && new.commit_idx.0 > old.commit_idx.0) ==> {
            &&& count_at_least(new_mode->Leader_0.match_idx@, new.commit_idx) + 1 >= quorum_of(
                peer_list.len(),
            )
            &&& 1 <= new.commit_idx.0 <= new.log@.len()
            &&& new.log@[new.commit_idx.0 - 1].term == new.current_term
        },
        (new_mode is Leader && !(old_mode is Leader)) ==> {
            &&& old_mode is Candidate
            &&& candidate_votes_after(
                old_mode->Candidate_0.votes(),
                peer_id,
                &state_for_rpc(old, rpc),
                rpc,
            ).len() >= quorum_of(peer_list.len())
        },
{
    let s1 = state_for_rpc(old, rpc);
    assert(old.applied().subrange(0, old.applied().len() as int) =~= old.applied());
    assert(state_step_is_safe(old, &s1));
    if new_mode is Leader && !(old_mode is Leader) {
        let c = old_mode->Candidate_0;
        let votes = candidate_votes_after(c.votes(), peer_id, &s1, rpc);
        assert(candidate_received(
            c.votes(),
            votes,
            &s1,
            new,
            peer_id,
            rpc,
            peer_list,
            ModeTransition::ToLeader,
            false,
            sent_before,
            sent_before,
        ));
    }
    assert(new.applied().subrange(0, old.applied().len() as int) =~= old.applied());
}

/// A timeout keeps the state safe. A server that is not Leader starts an election in the next
/// term, voting for itself, and is Leader after it only when it has no peers.
pub proof fn law_timed_out_is_safe(
    old_mode: &Mode,
    new_mode: &Mode,
    old: &RaftState,
    new: &RaftState,
    server_id: ServerId,
    peer_list: Seq<PeerId>,
    sent_before: Seq<(PeerId, RpcView)>,
    sent_after: Seq<(PeerId, RpcView)>,
)
    requires
        mode_timed_out(old_mode, new_mode, old, new, server_id, peer_list, sent_before, sent_after),
    ensures
        state_step_is_safe(old, new),
        old_mode is Leader ==> *new_mode == *old_mode && *new == *old,
        !(old_mode is Leader) ==> {
            &&& new.current_term.0 == old.current_term.0 + 1
            &&& new.log@ == old.log@
            &&& (new_mode is Leader <==> peer_list.len() == 0)
        },
{
    assert(old.applied().subrange(0, old.applied().len() as int) =~= old.applied());
}

} // verus!
