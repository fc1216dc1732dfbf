//! Raft state diagram.
//!
//! 1: startup
//! 2: timeout. start election
//! 3: timeout. new election
//! 4: recv vote from majority of servers
//! 5: discover current leader or new term
//! 6: discover server with higher term
//!
//! ```none
//!
//!     |                       ------
//!     | 1                    |  3   |
//!     v             2        |      v
//! +----------+ --------->  +-----------+
//! |          |             |           |
//! | Follower |             | Candidate |
//! |          |             |           |
//! +----------+  <--------- +-----------+
//!        ^          5             |
//!        |                        | 4
//!        |                        v
//!        |          6        +--------+
//!         ------------------ |        |
//!                            | Leader |
//!                            |        |
//!                            +--------+
//!
//! ```

use crate::log::{last_term_idx_of, Idx};
use crate::mode::candidate::{candidate_received, request_votes, started_election, Candidate};
use crate::mode::follower::{follower_can_take, follower_can_take_check, follower_received, Follower};
use crate::mode::leader::{leader_can_take, leader_received, Leader};
use crate::packet::{Rpc, RpcView};
use crate::queue::egress::ServerEgress;
use crate::server::{Id, PeerId, ServerId};
use crate::state::raft_state::RaftState;
use vstd::prelude::*;

pub mod candidate;
pub mod follower;
pub mod leader;
pub mod safety;

verus! {

#[must_use]
#[derive(Debug, Clone, Copy, PartialEq, Eq, Structural)]
pub enum ModeTransition {
    Noop,
    ToFollower,
    ToCandidate,
    ToLeader,
}

#[must_use]
#[derive(Debug, Clone, Copy, PartialEq, Eq, Structural)]
pub enum ElectionResult {
    Elected,
    Pending,
}

/// The number of votes, the server's own included, that makes a majority.
#[derive(Debug, Clone, Copy, PartialEq, Eq, PartialOrd, Ord, Structural)]
pub struct Quorum(pub usize);

/// The servers as the protocol sees them at one moment: one of three modes.
pub enum Mode {
    Follower(follower::Follower),
    Candidate(candidate::Candidate),
    Leader(leader::Leader),
}

/// The state the term rule leaves behind: an RPC from a later term moves the server into that
/// term, where it has not voted yet.
///
//% If RPC request or response contains term T > currentTerm: set currentTerm = T, convert to
//% follower (§5.1)
pub open spec fn state_for_rpc(state: &RaftState, rpc: RpcView) -> RaftState {
    if rpc.term().0 > state.current_term.0 {
        RaftState { current_term: rpc.term(), voted_for: None, ..*state }
    } else {
        *state
    }
}

/// The mode the term rule leaves behind.
pub open spec fn mode_for_rpc(mode: &Mode, state: &RaftState, rpc: RpcView) -> Mode {
    if rpc.term().0 > state.current_term.0 {
        Mode::Follower(Follower { current_leader: None })
    } else {
        *mode
    }
}

/// A Leader freshly elected in `state` with `peer_list` as its peers.
pub open spec fn fresh_leader(leader: &Leader, peer_list: Seq<PeerId>, state: &RaftState) -> bool {
    &&& leader.peers@ == peer_list
    &&& leader.wf(state.log@.len())
    &&& forall|i: int|
        0 <= i < peer_list.len() ==> (#[trigger] leader.next_idx@[i]).0 == state.log@.len() + 1
    &&& forall|i: int| 0 <= i < peer_list.len() ==> (#[trigger] leader.match_idx@[i]) == Idx::initial_spec()
}

/// What an election that starts in `old` leaves behind: a Candidate waiting for votes, or, when
/// the server has no peers, a Leader.
pub open spec fn mode_started_election(
    old: &RaftState,
    new: &RaftState,
    new_mode: Mode,
    server_id: ServerId,
    peer_list: Seq<PeerId>,
    sent_before: Seq<(PeerId, RpcView)>,
    sent_after: Seq<(PeerId, RpcView)>,
) -> bool {
    let transition = if peer_list.len() == 0 {
        ModeTransition::ToLeader
    } else {
        ModeTransition::Noop
    };
    &&& match new_mode {
        Mode::Candidate(c) => started_election(
            old,
            new,
            server_id,
            peer_list,
            c.votes(),
            transition,
            sent_before,
            sent_after,
        ) && peer_list.len() > 0,
        Mode::Leader(l) => started_election(
            old,
            new,
            server_id,
            peer_list,
            seq![Id(server_id.0)],
            transition,
            sent_before,
            sent_after,
        ) && peer_list.len() == 0 && fresh_leader(&l, peer_list, new),
        Mode::Follower(_) => false,
    }
}

impl Mode {
    /// The mode is consistent with the peers of the server and a log of `log_len` entries.
    pub open spec fn wf(&self, peer_list: Seq<PeerId>, log_len: nat) -> bool {
        match self {
            Mode::Follower(_) => true,
            Mode::Candidate(c) => c.wf(),
            Mode::Leader(l) => l.wf(log_len) && l.peers@ == peer_list,
        }
    }

    /// Every server starts as a Follower that knows of no Leader.
    pub fn new() -> (mode: Mode)
        ensures
            mode == Mode::Follower(Follower { current_leader: None }),
    {
        Mode::Follower(Follower { current_leader: None })
    }

    pub fn is_leader(&self) -> (leader: bool)
        ensures
            leader == self is Leader,
    {
        match self {
            Mode::Leader(_) => true,
            _ => false,
        }
    }

    pub fn is_follower(&self) -> (follower: bool)
        ensures
            follower == self is Follower,
    {
        match self {
            Mode::Follower(_) => true,
            _ => false,
        }
    }

    pub fn is_candidate(&self) -> (candidate: bool)
        ensures
            candidate == self is Candidate,
    {
        match self {
            Mode::Candidate(_) => true,
            _ => false,
        }
    }

    /// Who this server would redirect a client to: a Leader names itself, a Follower the Leader
    /// it last accepted, and a Candidate nobody.
    pub fn current_leader(&self, server_id: &ServerId) -> (leader: Option<PeerId>)
        ensures
            leader == (match self {
                Mode::Follower(f) => f.current_leader,
                Mode::Candidate(_) => None::<PeerId>,
                Mode::Leader(_) => Some(PeerId(server_id.0)),
            }),
    {
        match self {
            Mode::Follower(follower) => follower.current_leader(),
            Mode::Candidate(_) => None,
            Mode::Leader(_) => Some(server_id.as_peer_id()),
        }
    }

    /// The number of votes that is a majority of `peer_list` plus this server.
    pub fn quorum(peer_list: &[PeerId]) -> (quorum: Quorum)
        requires
            peer_list@.len() < usize::MAX,
        ensures
            quorum.0 == quorum_of(peer_list@.len()),
    {
        let peer_plus_self = peer_list.len() + 1;
        let half = peer_plus_self / 2;
        Quorum(half + 1)
    }
}

/// A majority of a cluster of `peers` peers plus the server itself.
pub open spec fn quorum_of(peers: nat) -> nat {
    (peers + 1) / 2 + 1
}


impl Mode {
    /// Become a Follower that knows of no Leader yet.
    pub fn on_follower(&mut self)
        ensures
            *final(self) == Mode::Follower(Follower { current_leader: None }),
    {
        *self = Mode::Follower(Follower { current_leader: None });
        match self {
            Mode::Follower(follower) => follower.on_follower(),
            _ => {},
        }
    }

    /// Become a Candidate and start an election; with no peers the election is won at once.
    pub fn on_candidate<E: ServerEgress>(
        &mut self,
        server_id: &ServerId,
        peer_list: &[PeerId],
        raft_state: &mut RaftState,
        io_egress: &mut E,
    )
        requires
            old(raft_state).wf(),
            old(raft_state).current_term.0 < u64::MAX,
            old(raft_state).log@.len() < u64::MAX,
            peer_list@.len() < usize::MAX,
        ensures
            final(self).wf(peer_list@, final(raft_state).log@.len()),
            mode_started_election(
                old(raft_state),
                final(raft_state),
                *final(self),
                *server_id,
                peer_list@,
                old(io_egress).sent(),
                final(io_egress).sent(),
            ),
    {
        let mut candidate = Candidate { votes_received: Vec::new() };
        let transition = candidate.on_candidate(server_id, peer_list, raft_state, io_egress);
        *self = Mode::Candidate(candidate);
        match transition {
            ModeTransition::ToLeader => {
                // If the quorum size is 1, then a candidate will become leader immediately
                let ghost sent1 = io_egress.sent();
                self.on_leader(server_id, peer_list, raft_state, io_egress);
                proof {
                    assert(peer_list@.len() == 0);
                    assert(peer_list@.map_values(
                        |p: PeerId| p,
                    ).len() == 0);
                }
            },
            _ => {},
        }
    }

    /// Become Leader and announce it to every peer.
    pub fn on_leader<E: ServerEgress>(
        &mut self,
        server_id: &ServerId,
        peer_list: &[PeerId],
        raft_state: &RaftState,
        io_egress: &mut E,
    )
        requires
            raft_state.log@.len() < u64::MAX,
        ensures
            (*final(self)) is Leader,
            fresh_leader(&(*final(self))->Leader_0, peer_list@, raft_state),
            final(io_egress).sent() == old(io_egress).sent() + (*final(self))->Leader_0.broadcast(
                peer_list@,
                raft_state,
                *server_id,
            ),
    {
        let mut leader = Leader::new(peer_list, raft_state);
        leader.on_leader(server_id, peer_list, raft_state, io_egress);
        *self = Mode::Leader(leader);
    }
}


/// Whether the server can take `rpc` from `peer_id` in `mode` and `state`: after the term rule,
/// a Follower must be able to store what an AppendEntries carries, and a Leader must be able to
/// take a response.
pub open spec fn mode_can_take(mode: &Mode, state: &RaftState, peer_id: PeerId, rpc: RpcView) -> bool {
    let s1 = state_for_rpc(state, rpc);
    match mode_for_rpc(mode, state, rpc) {
        Mode::Follower(_) => follower_can_take(&s1, rpc),
        Mode::Candidate(_) => match rpc {
            RpcView::AppendEntry(ae) => ae.term.0 >= s1.current_term.0 ==> follower_can_take(&s1, rpc),
            _ => true,
        },
        Mode::Leader(l) => leader_can_take(&l, s1.current_term, peer_id, rpc),
    }
}

/// What the server does with `rpc` from `peer_id`: the term rule first, then the mode handles the
/// RPC. A Candidate that learns of a Leader becomes a Follower and handles the RPC as one.
pub open spec fn mode_received(
    old_mode: &Mode,
    new_mode: &Mode,
    old: &RaftState,
    new: &RaftState,
    server_id: ServerId,
    peer_id: PeerId,
    rpc: RpcView,
    peer_list: Seq<PeerId>,
    sent_before: Seq<(PeerId, RpcView)>,
    sent_after: Seq<(PeerId, RpcView)>,
) -> bool {
    let s1 = state_for_rpc(old, rpc);
    match mode_for_rpc(old_mode, old, rpc) {
        Mode::Follower(f) => {
            &&& new_mode is Follower
            &&& follower_received(
                &s1,
                new,
                f.current_leader,
                new_mode->Follower_0.current_leader,
                peer_id,
                rpc,
                sent_before,
                sent_after,
            )
        },
        Mode::Candidate(c) => match rpc {
            RpcView::AppendEntry(ae) => if ae.term.0 >= s1.current_term.0 {
                //% If AppendEntries RPC received from new leader: convert to follower
                &&& new_mode is Follower
                &&& follower_received(
                    &s1,
                    new,
                    None,
                    new_mode->Follower_0.current_leader,
                    peer_id,
                    rpc,
                    sent_before,
                    sent_after,
                )
            } else {
                &&& new_mode is Candidate
                &&& new_mode->Candidate_0.votes() == c.votes()
                &&& candidate_received(
                    c.votes(),
                    c.votes(),
                    &s1,
                    new,
                    peer_id,
                    rpc,
                    peer_list,
                    ModeTransition::Noop,
                    false,
                    sent_before,
                    sent_after,
                )
            },
            RpcView::RequestVoteResp(_) => {
                // Either the vote completes a majority and the Candidate takes office, or it is
                // counted and the election goes on.
                ||| {
                    &&& new_mode is Leader
                    &&& candidate_received(
                        c.votes(),
                        candidate_votes_after(c.votes(), peer_id, &s1, rpc),
                        &s1,
                        new,
                        peer_id,
                        rpc,
                        peer_list,
                        ModeTransition::ToLeader,
                        false,
                        sent_before,
                        sent_before,
                    )
                    &&& fresh_leader(&new_mode->Leader_0, peer_list, new)
                    &&& sent_after == sent_before + new_mode->Leader_0.broadcast(
                        peer_list,
                        new,
                        server_id,
                    )
                }
                ||| {
                    &&& new_mode is Candidate
                    &&& candidate_received(
                        c.votes(),
                        new_mode->Candidate_0.votes(),
                        &s1,
                        new,
                        peer_id,
                        rpc,
                        peer_list,
                        ModeTransition::Noop,
                        false,
                        sent_before,
                        sent_after,
                    )
                }
            },
            _ => {
                &&& new_mode is Candidate
                &&& candidate_received(
                    c.votes(),
                    new_mode->Candidate_0.votes(),
                    &s1,
                    new,
                    peer_id,
                    rpc,
                    peer_list,
                    ModeTransition::Noop,
                    false,
                    sent_before,
                    sent_after,
                )
            },
        },
        Mode::Leader(l) => {
            &&& new_mode is Leader
            &&& leader_received(
                &l,
                &new_mode->Leader_0,
                &s1,
                new,
                server_id,
                peer_id,
                rpc,
                peer_list.len(),
                sent_before,
                sent_after,
            )
        },
    }
}

/// The votes of a Candidate in `state` after the response `rpc` from `peer_id`.
pub open spec fn candidate_votes_after(
    votes: Seq<Id>,
    peer_id: PeerId,
    state: &RaftState,
    rpc: RpcView,
) -> Seq<Id> {
    match rpc {
        RpcView::RequestVoteResp(resp) => if crate::mode::candidate::counts_vote(state, resp) {
            crate::mode::candidate::votes_with(votes, Id(peer_id.0))
        } else {
            votes
        },
        _ => votes,
    }
}

/// What a timeout does: a Follower or Candidate starts an election, and a Leader sends
/// heartbeats.
pub open spec fn mode_timed_out(
    old_mode: &Mode,
    new_mode: &Mode,
    old: &RaftState,
    new: &RaftState,
    server_id: ServerId,
    peer_list: Seq<PeerId>,
    sent_before: Seq<(PeerId, RpcView)>,
    sent_after: Seq<(PeerId, RpcView)>,
) -> bool {
    match old_mode {
        Mode::Leader(l) => {
            &&& *new_mode == *old_mode
            &&& *new == *old
            &&& sent_after == sent_before + l.broadcast(peer_list, old, server_id)
        },
        //% If election timeout elapses without receiving AppendEntries RPC from current leader or
        //% granting vote to candidate: convert to candidate
        //% If election timeout elapses: start new election
        _ => mode_started_election(old, new, *new_mode, server_id, peer_list, sent_before, sent_after),
    }
}

impl Mode {
    /// React to the election timeout (or, for a Leader, the heartbeat timeout).
    pub fn on_timeout<E: ServerEgress>(
        &mut self,
        server_id: &ServerId,
        peer_list: &[PeerId],
        raft_state: &mut RaftState,
        io_egress: &mut E,
    )
        requires
            old(self).wf(peer_list@, old(raft_state).log@.len()),
            old(raft_state).wf(),
            old(raft_state).current_term.0 < u64::MAX,
            old(raft_state).log@.len() < u64::MAX,
            peer_list@.len() < usize::MAX,
        ensures
            final(self).wf(peer_list@, final(raft_state).log@.len()),
            final(raft_state).wf(),
            mode_timed_out(
                old(self),
                final(self),
                old(raft_state),
                final(raft_state),
                *server_id,
                peer_list@,
                old(io_egress).sent(),
                final(io_egress).sent(),
            ),
    {
        match self {
            Mode::Leader(leader) => {
                leader.on_timeout(server_id, peer_list, raft_state, io_egress);
            },
            _ => {
                //% A new election is started once the server transitions to Candidate
                self.on_candidate(server_id, peer_list, raft_state, io_egress);
            },
        }
    }

    /// Handle `rpc` from `peer_id`.
    pub fn on_recv<E: ServerEgress>(
        &mut self,
        server_id: &ServerId,
        peer_id: PeerId,
        rpc: &Rpc,
        peer_list: &[PeerId],
        raft_state: &mut RaftState,
        io_egress: &mut E,
    )
        requires
            old(self).wf(peer_list@, old(raft_state).log@.len()),
            old(raft_state).wf(),
            old(raft_state).log@.len() < u64::MAX,
            peer_list@.len() < usize::MAX,
            mode_can_take(old(self), old(raft_state), peer_id, rpc@),
        ensures
            final(raft_state).wf(),
            final(self).wf(peer_list@, final(raft_state).log@.len()),
            mode_received(
                old(self),
                final(self),
                old(raft_state),
                final(raft_state),
                *server_id,
                peer_id,
                rpc@,
                peer_list@,
                old(io_egress).sent(),
                final(io_egress).sent(),
            ),
    {
        //% If RPC request or response contains term T > currentTerm: set currentTerm = T, convert
        //% to follower (§5.1)
        if rpc.term().0 > raft_state.current_term.0 {
            raft_state.on_new_term(*rpc.term());
            self.on_follower();
        }
        let ghost s1 = *raft_state;
        let ghost sent1 = io_egress.sent();
        match self {
            Mode::Follower(follower) => {
                //% Respond to RPCs from candidates and leaders
                follower.on_recv(peer_id, rpc, raft_state, io_egress);
            },
            Mode::Candidate(candidate) => {
                let (transition, process_again) = candidate.on_recv(
                    peer_id,
                    rpc,
                    peer_list,
                    raft_state,
                    io_egress,
                );
                let process_again = process_again.is_some();
                match transition {
                    ModeTransition::ToLeader => {
                        //% If votes received from majority of servers: become leader
                        self.on_leader(server_id, peer_list, raft_state, io_egress);
                    },
                    ModeTransition::ToFollower => {
                        self.on_follower();
                    },
                    _ => {},
                }
                // An RPC that ended the election is handled again by the new Follower.
                if process_again {
                    match self {
                        Mode::Follower(follower) => {
                            follower.on_recv(peer_id, rpc, raft_state, io_egress);
                        },
                        _ => {},
                    }
                }
            },
            Mode::Leader(leader) => {
                leader.on_recv(server_id, peer_id, peer_list, rpc, raft_state, io_egress);
            },
        }
    }
}


impl Mode {
    /// Whether the server can take `rpc` from `peer_id`; see `mode_can_take`.
    pub fn can_take(&self, raft_state: &RaftState, peer_id: &PeerId, rpc: &Rpc) -> (ok: bool)
        requires
            self.wf(self.leader_peers(), raft_state.log@.len()),
            raft_state.log@.len() < u64::MAX,
        ensures
            ok == mode_can_take(self, raft_state, *peer_id, rpc@),
    {
        let term = *rpc.term();
        if term.0 > raft_state.current_term.0 {
            let ok = follower_can_take_check(raft_state, term, rpc);
            proof {
                assert(ok == follower_can_take(&state_for_rpc(raft_state, rpc@), rpc@));
            }
            return ok;
        }
        let current_term = raft_state.current_term;
        let ok = match self {
            Mode::Follower(_) => follower_can_take_check(raft_state, current_term, rpc),
            Mode::Candidate(_) => match rpc {
                Rpc::AppendEntry(ae) => {
                    if ae.term.0 >= current_term.0 {
                        follower_can_take_check(raft_state, current_term, rpc)
                    } else {
                        true
                    }
                },
                _ => true,
            },
            Mode::Leader(leader) => leader.can_take(current_term, peer_id, rpc),
        };
        proof {
            let v = raft_state.voted_for;
            assert(RaftState { current_term, voted_for: v, ..*raft_state } == *raft_state);
        }
        ok
    }

    /// The peers a Leader replicates to; empty for the other modes.
    pub open spec fn leader_peers(&self) -> Seq<PeerId> {
        match self {
            Mode::Leader(l) => l.peers@,
            _ => Seq::empty(),
        }
    }
}

/// The quorum is the smallest majority of a cluster of `peers` peers and the server itself: twice
/// the quorum exceeds the cluster, and twice one less does not.
pub proof fn law_quorum_is_smallest_majority(peers: nat)
    ensures
        2 * quorum_of(peers) > peers + 1,
        2 * (quorum_of(peers) - 1) <= peers + 1,
        1 <= quorum_of(peers) <= peers + 1,
{
}
} // verus!
