//! A Leader replicates its log to every peer and decides which entries are committed.

use crate::log::{entries_from, Entry, Idx, Term, TermIdx};
use crate::mode::{quorum_of, Mode};
use crate::packet::{AppendEntriesResp, AppendEntriesView, RequestVoteResp, Rpc, RpcView};
use crate::packet::request_vote::grants_vote;
use crate::queue::egress::ServerEgress;
use crate::server::{id::same_bytes, Id, PeerId, ServerId};
use crate::state::raft_state::{commits_for, RaftState};
use crate::state::state_machine::CurrentMode;
use vstd::prelude::*;

verus! {

/// The first position of `p` in `s`, or -1 when `s` does not hold it.
pub open spec fn first_pos(s: Seq<PeerId>, p: PeerId) -> int
    decreases s.len(),
{
    if s.len() == 0 {
        -1
    } else {
        let k = first_pos(s.drop_last(), p);
        if k >= 0 {
            k
        } else if s.last() == p {
            s.len() - 1
        } else {
            -1
        }
    }
}

pub proof fn lemma_first_pos(s: Seq<PeerId>, p: PeerId)
    ensures
        first_pos(s, p) >= 0 <==> s.contains(p),
        first_pos(s, p) >= 0 ==> {
            &&& first_pos(s, p) < s.len()
            &&& s[first_pos(s, p)] == p
            &&& forall|j: int| 0 <= j < first_pos(s, p) ==> s[j] != p
        },
        first_pos(s, p) >= -1,
    decreases s.len(),
{
    if s.len() > 0 {
        let d = s.drop_last();
        lemma_first_pos(d, p);
        assert forall|j: int| 0 <= j < d.len() implies s[j] == d[j] by {}
        let k = first_pos(d, p);
        if k >= 0 {
            assert(s[k] == p);
            assert(s.contains(p));
        } else if s.last() == p {
            assert(s[s.len() - 1] == p);
            assert forall|j: int| 0 <= j < s.len() - 1 implies s[j] != p by {
                if s[j] == p {
                    assert(d[j] == p);
                    assert(d.contains(p));
                }
            }
        } else {
            if s.contains(p) {
                let j = choose|j: int| 0 <= j < s.len() && s[j] == p;
                if j < s.len() - 1 {
                    assert(d[j] == p);
                    assert(d.contains(p));
                }
            }
        }
    }
}

/// The prevLogIndex / prevLogTerm of an AppendEntries whose entries start at `next`.
///
/// Before the first entry it is the empty prefix, which every log contains.
pub open spec fn prev_term_idx_for(log: Seq<Entry>, next: Idx) -> TermIdx {
    if next.0 <= 1 {
        TermIdx::initial_spec()
    } else {
        TermIdx { term: log[next.0 - 2].term, idx: Idx((next.0 - 1) as u64) }
    }
}

/// The AppendEntries a Leader in `state` sends to a peer whose next index is `next`.
pub open spec fn append_entries_for(state: &RaftState, server_id: ServerId, next: Idx) -> RpcView {
    RpcView::AppendEntry(
        AppendEntriesView {
            term: state.current_term,
            leader_id: server_id,
            prev_log_term_idx: prev_term_idx_for(state.log@, next),
            leader_commit_idx: state.commit_idx,
            entries: entries_from(state.log@, next),
        },
    )
}

/// How many of `match_idx` are at least `n`.
pub open spec fn count_at_least(match_idx: Seq<Idx>, n: Idx) -> nat
    decreases match_idx.len(),
{
    if match_idx.len() == 0 {
        0
    } else {
        count_at_least(match_idx.drop_last(), n) + if match_idx.last().0 >= n.0 {
            1nat
        } else {
            0nat
        }
    }
}

#[derive(Debug)]
pub struct Leader {
    /// The peers this Leader replicates to, in the order it was given them.
    pub peers: Vec<PeerId>,
    // ==== Volatile state on leaders ====
    //% `nextIndex[]` for each server, index of the next log entry to send to that server
    //% (initialized to leader last log index + 1)
    pub next_idx: Vec<Idx>,
    //% `matchIndex[]` for each server, index of highest log entry known to be replicated on server
    //% (initialized to 0, increases monotonically)
    pub match_idx: Vec<Idx>,
}

impl Leader {
    /// One next index and one match index per peer; every next index names a position from the
    /// first entry up to just past the end of a log of `log_len` entries, and every match index
    /// names an entry of that log or the empty prefix.
    pub open spec fn wf(&self, log_len: nat) -> bool {
        &&& self.next_idx@.len() == self.peers@.len()
        &&& self.match_idx@.len() == self.peers@.len()
        &&& forall|i: int|
            0 <= i < self.peers@.len() ==> 1 <= (#[trigger] self.next_idx@[i]).0 <= log_len + 1
        &&& forall|i: int| 0 <= i < self.peers@.len() ==> (#[trigger] self.match_idx@[i]).0 <= log_len
    }

    /// The next index of `p`.
    pub open spec fn next_of(&self, p: PeerId) -> Idx {
        self.next_idx@[first_pos(self.peers@, p)]
    }

    /// The match index of `p`.
    pub open spec fn match_of(&self, p: PeerId) -> Idx {
        self.match_idx@[first_pos(self.peers@, p)]
    }

    /// The AppendEntries RPCs a broadcast from `state` sends, one to each peer in order.
    pub open spec fn broadcast(
        &self,
        peer_list: Seq<PeerId>,
        state: &RaftState,
        server_id: ServerId,
    ) -> Seq<(PeerId, RpcView)> {
        peer_list.map_values(
            |p: PeerId| (p, append_entries_for(state, server_id, self.next_of(p))),
        )
    }

    /// Whether the response `resp` from `p` answers the AppendEntries most recently sent to it by
    /// this Leader in `term`: it was sent in that term, and the echoed prev is the one that
    /// `next_idx` implies. A response from an earlier term answers some earlier Leader's RPC and
    /// says nothing of this Leader's log.
    pub open spec fn answers_current_rpc(&self, term: Term, p: PeerId, resp: AppendEntriesResp) -> bool {
        &&& resp.term == term
        &&& resp.echo_prev_log_term_idx.idx.0 == self.next_of(p).0 - 1
    }

    /// The match index that a successful response `resp` reports.
    pub open spec fn reported_match(resp: AppendEntriesResp) -> int {
        resp.echo_prev_log_term_idx.idx.0 + resp.entries_cnt
    }

    /// Whether `resp` from `p` is a failure to match the empty prefix. Every log contains the empty
    /// prefix, so a peer that reports this is malfunctioning and there is nothing to back off to.
    pub open spec fn rejects_empty_prefix(&self, term: Term, p: PeerId, resp: AppendEntriesResp) -> bool {
        self.answers_current_rpc(term, p, resp) && !resp.success && self.next_of(p).0 <= 1
    }

    pub fn new(peer_list: &[PeerId], raft_state: &RaftState) -> (leader: Leader)
        requires
            raft_state.log@.len() < u64::MAX,
        ensures
            leader.peers@ == peer_list@,
            leader.wf(raft_state.log@.len()),
            //% (initialized to leader last log index + 1)
            forall|i: int|
                0 <= i < peer_list@.len() ==> (#[trigger] leader.next_idx@[i]).0 == raft_state.log@.len()
                    + 1,
            //% (initialized to 0, increases monotonically)
            forall|i: int|
                0 <= i < peer_list@.len() ==> (#[trigger] leader.match_idx@[i]) == Idx::initial_spec(),
    {
        let next_log_idx = raft_state.log.last_idx().plus(1);
        let initial_idx = Idx::initial();
        let mut peers: Vec<PeerId> = Vec::new();
        let mut next_idx: Vec<Idx> = Vec::new();
        let mut match_idx: Vec<Idx> = Vec::new();
        let mut i: usize = 0;
        while i < peer_list.len()
            invariant
                i <= peer_list.len(),
                next_log_idx.0 == raft_state.log@.len() + 1,
                initial_idx == Idx::initial_spec(),
                peers@ == peer_list@.subrange(0, i as int),
                next_idx@.len() == i,
                match_idx@.len() == i,
                forall|j: int| 0 <= j < i ==> (#[trigger] next_idx@[j]) == next_log_idx,
                forall|j: int| 0 <= j < i ==> (#[trigger] match_idx@[j]) == initial_idx,
            decreases peer_list.len() - i,
        {
            peers.push(peer_list[i]);
            next_idx.push(next_log_idx);
            match_idx.push(initial_idx);
            i = i + 1;
        }
        assert(peer_list@.subrange(0, peer_list@.len() as int) == peer_list@);
        Leader { peers, next_idx, match_idx }
    }

    /// The position of `peer_id` among the peers, if it is one.
    fn find_peer(&self, peer_id: &PeerId) -> (pos: Option<usize>)
        ensures
            pos is Some <==> self.peers@.contains(*peer_id),
            pos is Some ==> pos->0 == first_pos(self.peers@, *peer_id),
    {
        let mut i: usize = 0;
        while i < self.peers.len()
            invariant
                i <= self.peers.len(),
                forall|j: int| 0 <= j < i ==> self.peers@[j] != *peer_id,
            decreases self.peers.len() - i,
        {
            if same_bytes(&self.peers[i].0, &peer_id.0) {
                proof {
                    lemma_first_pos(self.peers@, *peer_id);
                    assert(self.peers@[i as int] == *peer_id);
                    let fp = first_pos(self.peers@, *peer_id);
                    assert(self.peers@.contains(*peer_id));
                    assert(fp >= 0);
                    if fp < i {
                        assert(self.peers@[fp] != *peer_id);
                    }
                    if fp > i {
                        assert(self.peers@[i as int] != *peer_id);
                    }
                }
                return Some(i);
            }
            i = i + 1;
        }
        proof {
            lemma_first_pos(self.peers@, *peer_id);
            if self.peers@.contains(*peer_id) {
                let j = choose|j: int| 0 <= j < self.peers@.len() && self.peers@[j] == *peer_id;
                assert(self.peers@[j] != *peer_id);
            }
        }
        None
    }

    /// The next index of `peer_id`, if it is a peer.
    pub fn next_idx_of(&self, peer_id: &PeerId) -> (idx: Option<Idx>)
        requires
            self.next_idx@.len() == self.peers@.len(),
        ensures
            idx == (if self.peers@.contains(*peer_id) {
                Some(self.next_of(*peer_id))
            } else {
                None::<Idx>
            }),
    {
        proof {
            lemma_first_pos(self.peers@, *peer_id);
        }
        match self.find_peer(peer_id) {
            Some(pos) => Some(self.next_idx[pos]),
            None => None,
        }
    }
}


impl Leader {
    /// Send `peer_id` the entries from its next index on, preceded by the entry before them.
    pub fn on_send_append_entry<E: ServerEgress>(
        &self,
        server_id: &ServerId,
        peer_id: &PeerId,
        raft_state: &RaftState,
        io_egress: &mut E,
    )
        requires
            self.wf(raft_state.log@.len()),
            self.peers@.contains(*peer_id),
        ensures
            final(io_egress).sent() == old(io_egress).sent().push(
                (*peer_id, append_entries_for(raft_state, *server_id, self.next_of(*peer_id))),
            ),
    {
        proof {
            lemma_first_pos(self.peers@, *peer_id);
        }
        let pos = match self.find_peer(peer_id) {
            Some(pos) => pos,
            None => {
                proof {
                    assert(false);
                }
                return ;
            },
        };
        let leader_current_term = raft_state.current_term;
        let leader_commit_idx = *raft_state.commit_idx();
        let peer_next_idx = self.next_idx[pos];
        assert(1 <= self.next_idx@[pos as int].0);
        //% prevLogIndex: index of log entry immediately preceding new ones
        //% prevLogTerm: term of prevLogIndex entry
        let prev_idx = peer_next_idx.minus(1);
        let prev_log_term_idx = if prev_idx.is_initial() {
            // The peer holds nothing, so the entries are preceded by the empty prefix. Every log
            // contains that prefix, so the peer cannot reject on this.
            TermIdx::initial()
        } else {
            // next_idx is at most last_idx + 1, so prev_idx always names an existing entry.
            let prev_term = match raft_state.log.term_at_idx(&prev_idx) {
                Some(term) => term,
                None => {
                    proof {
                        assert(false);
                    }
                    return ;
                },
            };
            TermIdx::builder().with_term(prev_term).with_idx(prev_idx)
        };
        let entries = raft_state.log.get_entries(&peer_next_idx);
        let rpc = Rpc::new_append_entry(
            leader_current_term,
            *server_id,
            prev_log_term_idx,
            leader_commit_idx,
            entries,
        );
        peer_id.send_rpc(rpc, io_egress);
    }

    /// Send every peer in `peer_list` an AppendEntries, in order.
    pub fn broadcast_send_append_entries<E: ServerEgress>(
        &self,
        server_id: &ServerId,
        peer_list: &[PeerId],
        raft_state: &RaftState,
        io_egress: &mut E,
    )
        requires
            self.wf(raft_state.log@.len()),
            self.peers@ == peer_list@,
        ensures
            final(io_egress).sent() == old(io_egress).sent() + self.broadcast(
                peer_list@,
                raft_state,
                *server_id,
            ),
    {
        let ghost sent0 = io_egress.sent();
        let mut i: usize = 0;
        while i < peer_list.len()
            invariant
                i <= peer_list.len(),
                self.wf(raft_state.log@.len()),
                self.peers@ == peer_list@,
                io_egress.sent() == sent0 + self.broadcast(
                    peer_list@.subrange(0, i as int),
                    raft_state,
                    *server_id,
                ),
            decreases peer_list.len() - i,
        {
            assert(self.peers@[i as int] == peer_list@[i as int]);
            self.on_send_append_entry(server_id, &peer_list[i], raft_state, io_egress);
            i = i + 1;
            proof {
                assert(peer_list@.subrange(0, i as int) == peer_list@.subrange(0, i - 1 as int).push(
                    peer_list@[i - 1],
                ));
                assert(self.broadcast(peer_list@.subrange(0, i as int), raft_state, *server_id)
                    =~= self.broadcast(peer_list@.subrange(0, i - 1 as int), raft_state, *server_id).push(
                    (
                        peer_list@[i - 1],
                        append_entries_for(raft_state, *server_id, self.next_of(peer_list@[i - 1])),
                    ),
                ));
            }
        }
        proof {
            assert(peer_list@.subrange(0, peer_list@.len() as int) == peer_list@);
        }
    }

    /// Take office: reinitialize the replication state of every peer and announce the new term.
    pub fn on_leader<E: ServerEgress>(
        &mut self,
        server_id: &ServerId,
        peer_list: &[PeerId],
        raft_state: &RaftState,
        io_egress: &mut E,
    )
        requires
            old(self).next_idx@.len() == old(self).peers@.len(),
            old(self).match_idx@.len() == old(self).peers@.len(),
            old(self).peers@ == peer_list@,
            raft_state.log@.len() < u64::MAX,
        ensures
            final(self).peers@ == old(self).peers@,
            final(self).wf(raft_state.log@.len()),
            forall|i: int|
                0 <= i < peer_list@.len() ==> (#[trigger] final(self).next_idx@[i]).0
                    == raft_state.log@.len() + 1,
            forall|i: int|
                0 <= i < peer_list@.len() ==> (#[trigger] final(self).match_idx@[i])
                    == Idx::initial_spec(),
            final(io_egress).sent() == old(io_egress).sent() + final(self).broadcast(
                peer_list@,
                raft_state,
                *server_id,
            ),
    {
        //% "Reinitialized after election"
        let leader_last_idx_plus_one = raft_state.log.last_idx().plus(1);
        let mut i: usize = 0;
        while i < self.next_idx.len()
            invariant
                i <= self.next_idx@.len(),
                self.next_idx@.len() == self.peers@.len(),
                self.match_idx@.len() == self.peers@.len(),
                self.peers@ == old(self).peers@,
                leader_last_idx_plus_one.0 == raft_state.log@.len() + 1,
                forall|j: int| 0 <= j < i ==> (#[trigger] self.next_idx@[j]) == leader_last_idx_plus_one,
                forall|j: int| 0 <= j < i ==> (#[trigger] self.match_idx@[j]) == Idx::initial_spec(),
            decreases self.next_idx@.len() - i,
        {
            self.next_idx.set(i, leader_last_idx_plus_one);
            self.match_idx.set(i, Idx::initial());
            i = i + 1;
        }
        //% Upon election: send initial empty AppendEntries RPCs (heartbeat) to each server; repeat
        //% during idle periods to prevent election timeouts (§5.2)
        self.broadcast_send_append_entries(server_id, peer_list, raft_state, io_egress);
    }

    /// Heartbeat: send every peer an AppendEntries from its own next index.
    pub fn on_timeout<E: ServerEgress>(
        &self,
        server_id: &ServerId,
        peer_list: &[PeerId],
        raft_state: &RaftState,
        io_egress: &mut E,
    )
        requires
            self.wf(raft_state.log@.len()),
            self.peers@ == peer_list@,
        ensures
            final(io_egress).sent() == old(io_egress).sent() + self.broadcast(
                peer_list@,
                raft_state,
                *server_id,
            ),
    {
        //% Upon election: send initial empty AppendEntries RPCs (heartbeat) to each server; repeat
        //% during idle periods to prevent election timeouts (§5.2)
        self.broadcast_send_append_entries(server_id, peer_list, raft_state, io_egress);
    }
}


/// Whether a Leader in `state` whose match indexes are `match_idx` commits index `n`.
///
//% If there exists an N such that N > commitIndex, a majority of matchIndex[i] ≥ N, and
//% log[N].term == currentTerm: set commitIndex = N (§5.3, §5.4).
///
/// The Leader counts itself toward the majority: it holds every entry of its own log.
pub open spec fn leader_commits(
    match_idx: Seq<Idx>,
    n: Idx,
    peers: nat,
    state: &RaftState,
) -> bool {
    &&& n.0 > state.commit_idx.0
    &&& count_at_least(match_idx, n) + 1 >= quorum_of(peers)
    &&& 1 <= n.0 <= state.log@.len()
    &&& state.log@[n.0 - 1].term == state.current_term
}

/// The state of a Leader after it considers committing `n`, as `leader_commits` decides.
pub open spec fn leader_committed(
    old: &RaftState,
    new: &RaftState,
    match_idx: Seq<Idx>,
    n: Idx,
    peers: nat,
    peer_id: PeerId,
) -> bool {
    if leader_commits(match_idx, n, peers, old) {
        &&& new.wf()
        &&& new.commit_idx == n
        &&& new.applied() == old.applied() + commits_for(
            old.log@,
            old.commit_idx.0 as nat,
            n.0 as nat,
            peer_id,
            CurrentMode::Leader,
        )
        &&& new.current_term == old.current_term
        &&& new.voted_for == old.voted_for
        &&& new.log@ == old.log@
        &&& new.timeout == old.timeout
    } else {
        *new == *old
    }
}

impl Leader {
    /// The match index of `peer_id`, if it is a peer.
    pub fn match_idx_of(&self, peer_id: &PeerId) -> (idx: Option<Idx>)
        requires
            self.match_idx@.len() == self.peers@.len(),
        ensures
            idx == (if self.peers@.contains(*peer_id) {
                Some(self.match_of(*peer_id))
            } else {
                None::<Idx>
            }),
    {
        proof {
            lemma_first_pos(self.peers@, *peer_id);
        }
        match self.find_peer(peer_id) {
            Some(pos) => Some(self.match_idx[pos]),
            None => None,
        }
    }

    /// Commit index `newly_inserted_match_idx` if a majority holds it and it is from this term.
    pub fn update_commit_idx(
        &self,
        newly_inserted_match_idx: Idx,
        peer_list: &[PeerId],
        raft_state: &mut RaftState,
        peer_id: PeerId,
    )
        requires
            old(raft_state).wf(),
            self.wf(old(raft_state).log@.len()),
            self.peers@ == peer_list@,
            peer_list@.len() < usize::MAX,
        ensures
            leader_committed(
                old(raft_state),
                final(raft_state),
                self.match_idx@,
                newly_inserted_match_idx,
                peer_list@.len(),
                peer_id,
            ),
    {
        //% N > commitIndex
        let larger_than_current_commit_idx = newly_inserted_match_idx.0 > raft_state.commit_idx().0;
        if !larger_than_current_commit_idx {
            return ;
        }
        let mut larger_match_idx_count: usize = 0;
        let mut i: usize = 0;
        while i < self.match_idx.len()
            invariant
                i <= self.match_idx@.len(),
                larger_match_idx_count <= i,
                larger_match_idx_count == count_at_least(
                    self.match_idx@.subrange(0, i as int),
                    newly_inserted_match_idx,
                ),
            decreases self.match_idx@.len() - i,
        {
            //% matchIndex[i] ≥ N
            if self.match_idx[i].0 >= newly_inserted_match_idx.0 {
                larger_match_idx_count = larger_match_idx_count + 1;
            }
            i = i + 1;
            proof {
                assert(self.match_idx@.subrange(0, i as int).drop_last() == self.match_idx@.subrange(
                    0,
                    i - 1 as int,
                ));
            }
        }
        proof {
            assert(self.match_idx@.subrange(0, self.match_idx@.len() as int) == self.match_idx@);
        }
        //% majority
        let new_idx_larger_than_majority = larger_match_idx_count + 1 >= Mode::quorum(peer_list).0;
        //% log[N].term == currentTerm
        let matches_current_term = match raft_state.log.term_at_idx(&newly_inserted_match_idx) {
            Some(term) => term.0 == raft_state.current_term.0,
            None => false,
        };
        if new_idx_larger_than_majority && matches_current_term {
            //% set commitIndex = N (§5.3, §5.4).
            raft_state.update_commit_idx(newly_inserted_match_idx, peer_id, CurrentMode::Leader);
        }
    }

    /// Handle the AppendEntries response `append_entries_resp` from `peer_id`.
    ///
    /// Returns the peer's new match index when the response answers the RPC most recently sent to
    /// the peer and reports success. A failure backs the peer's next index off by one and resends
    /// from there. A response from an earlier term, a response to a superseded RPC, or one that
    /// claims more entries than this log holds, changes nothing.
    pub fn on_recv_append_entry_resp<E: ServerEgress>(
        &mut self,
        server_id: &ServerId,
        peer_id: PeerId,
        append_entries_resp: &AppendEntriesResp,
        raft_state: &RaftState,
        io_egress: &mut E,
    ) -> (check_match_idx: Option<Idx>)
        requires
            old(self).wf(raft_state.log@.len()),
            raft_state.log@.len() < u64::MAX,
            old(self).peers@.contains(peer_id),
            !old(self).rejects_empty_prefix(raft_state.current_term, peer_id, *append_entries_resp),
        ensures
            final(self).wf(raft_state.log@.len()),
            final(self).peers@ == old(self).peers@,
            leader_took_response(
                old(self),
                final(self),
                raft_state,
                *server_id,
                peer_id,
                *append_entries_resp,
                check_match_idx,
                old(io_egress).sent(),
                final(io_egress).sent(),
            ),
    {
        proof {
            lemma_first_pos(self.peers@, peer_id);
        }
        let pos = match self.find_peer(&peer_id) {
            Some(pos) => pos,
            None => {
                proof {
                    assert(false);
                }
                return None;
            },
        };
        let current_next_idx = self.next_idx[pos];
        assert(1 <= self.next_idx@[pos as int].0);
        // The RPC echoes the prev TermIdx that was sent, which is next_idx - 1.
        let expected_echo_prev_idx = current_next_idx.minus(1);
        let echo = append_entries_resp.echo_prev_log_term_idx.idx;

        // Only process the response if it answers the RPC sent in this term at the current
        // next_idx. Responses can arrive out of order after a timeout and retransmission, and one
        // from an earlier term answers another Leader.
        if append_entries_resp.term.0 != raft_state.current_term.0 || expected_echo_prev_idx.0 != echo.0 {
            return None;
        }
        if append_entries_resp.success {
            //% If successful: update nextIndex and matchIndex for follower (§5.3)
            //
            // The peer stored every entry sent after the echoed prev.
            let last_idx = raft_state.log.last_idx();
            let cnt = append_entries_resp.entries_cnt as u64;
            if cnt > last_idx.0 - echo.0 {
                // More entries than this log holds past prev: not an answer to anything sent.
                return None;
            }
            let new_match_idx = echo.plus(cnt);
            self.next_idx.set(pos, new_match_idx.plus(1));
            self.match_idx.set(pos, new_match_idx);
            Some(new_match_idx)
        } else {
            //% If AppendEntries fails because of log inconsistency: decrement nextIndex and retry
            //% (§5.3)
            //
            // next_idx bottoms out at 1, where prev is the empty prefix that every log matches.
            self.next_idx.set(pos, current_next_idx.minus(1));
            proof {
                assert(first_pos(self.peers@, peer_id) == pos);
            }
            self.on_send_append_entry(server_id, &peer_id, raft_state, io_egress);
            None
        }
    }

    /// Handle an RPC from `peer_id` while leading.
    pub fn on_recv<E: ServerEgress>(
        &mut self,
        server_id: &ServerId,
        peer_id: PeerId,
        peer_list: &[PeerId],
        rpc: &Rpc,
        raft_state: &mut RaftState,
        io_egress: &mut E,
    )
        requires
            old(raft_state).wf(),
            old(self).wf(old(raft_state).log@.len()),
            old(self).peers@ == peer_list@,
            peer_list@.len() < usize::MAX,
            old(raft_state).log@.len() < u64::MAX,
            leader_can_take(old(self), old(raft_state).current_term, peer_id, rpc@),
        ensures
            final(raft_state).wf(),
            final(self).wf(final(raft_state).log@.len()),
            final(self).peers@ == old(self).peers@,
            leader_received(
                old(self),
                final(self),
                old(raft_state),
                final(raft_state),
                *server_id,
                peer_id,
                rpc@,
                peer_list@.len(),
                old(io_egress).sent(),
                final(io_egress).sent(),
            ),
    {
        match rpc {
            Rpc::RequestVote(request_vote) => {
                request_vote.on_recv(peer_id, raft_state, io_egress);
            },
            Rpc::RequestVoteResp(_request_vote_resp) => {
                // Ignore: the election is already won.
            },
            Rpc::AppendEntry(_append_entries) => {
                // A newer Leader already turned this one into a Follower before the RPC got
                // here, and Raft elects one Leader per term, so nothing is left to do.
            },
            Rpc::AppendEntryResp(append_entries_resp) => {
                if let Some(check_match_idx) = self.on_recv_append_entry_resp(
                    server_id,
                    peer_id,
                    append_entries_resp,
                    raft_state,
                    io_egress,
                ) {
                    self.update_commit_idx(check_match_idx, peer_list, raft_state, peer_id);
                }
            },
        }
    }
}

/// Whether a Leader can take `rpc` from `p`: a response must come from a peer, and cannot be a
/// failure to match the empty prefix.
pub open spec fn leader_can_take(leader: &Leader, term: Term, p: PeerId, rpc: RpcView) -> bool {
    match rpc {
        RpcView::AppendEntryResp(resp) => leader.peers@.contains(p) && !leader.rejects_empty_prefix(
            term,
            p,
            resp,
        ),
        _ => true,
    }
}

/// What a Leader does with the AppendEntries response `resp` from `p`.
pub open spec fn leader_took_response(
    old: &Leader,
    new: &Leader,
    state: &RaftState,
    server_id: ServerId,
    p: PeerId,
    resp: AppendEntriesResp,
    check_match_idx: Option<Idx>,
    sent_before: Seq<(PeerId, RpcView)>,
    sent_after: Seq<(PeerId, RpcView)>,
) -> bool {
    let pos = first_pos(old.peers@, p);
    let m = Leader::reported_match(resp);
    if old.answers_current_rpc(state.current_term, p, resp) && resp.success && m <= state.log@.len() {
        &&& check_match_idx == Some(Idx(m as u64))
        &&& new.next_idx@ == old.next_idx@.update(pos, Idx((m + 1) as u64))
        &&& new.match_idx@ == old.match_idx@.update(pos, Idx(m as u64))
        &&& sent_after == sent_before
    } else if old.answers_current_rpc(state.current_term, p, resp) && !resp.success {
        let next = Idx((old.next_of(p).0 - 1) as u64);
        &&& check_match_idx == None::<Idx>
        &&& new.next_idx@ == old.next_idx@.update(pos, next)
        &&& new.match_idx@ == old.match_idx@
        &&& sent_after == sent_before.push((p, append_entries_for(state, server_id, next)))
    } else {
        &&& check_match_idx == None::<Idx>
        &&& new.next_idx@ == old.next_idx@
        &&& new.match_idx@ == old.match_idx@
        &&& sent_after == sent_before
    }
}

/// What a Leader does with an RPC from `p`.
pub open spec fn leader_received(
    old_leader: &Leader,
    new_leader: &Leader,
    old: &RaftState,
    new: &RaftState,
    server_id: ServerId,
    p: PeerId,
    rpc: RpcView,
    peers: nat,
    sent_before: Seq<(PeerId, RpcView)>,
    sent_after: Seq<(PeerId, RpcView)>,
) -> bool {
    match rpc {
        RpcView::RequestVote(rv) => {
            &&& new_leader.next_idx@ == old_leader.next_idx@
            &&& new_leader.match_idx@ == old_leader.match_idx@
            &&& new.voted_for == (if grants_vote(old, rv) {
                Some(Id(rv.candidate_id.0))
            } else {
                old.voted_for
            })
            &&& new.current_term == old.current_term
            &&& new.log@ == old.log@
            &&& new.commit_idx == old.commit_idx
            &&& new.applied() == old.applied()
            &&& new.timeout.reset_pending() == (grants_vote(old, rv) || old.timeout.reset_pending())
            &&& sent_after == sent_before.push(
                (
                    p,
                    RpcView::RequestVoteResp(
                        RequestVoteResp { term: old.current_term, vote_granted: grants_vote(old, rv) },
                    ),
                ),
            )
        },
        RpcView::AppendEntryResp(resp) => {
            let m = Leader::reported_match(resp);
            let pos = first_pos(old_leader.peers@, p);
            &&& exists|check: Option<Idx>|
                leader_took_response(
                    old_leader,
                    new_leader,
                    old,
                    server_id,
                    p,
                    resp,
                    check,
                    sent_before,
                    sent_after,
                )
            &&& if old_leader.answers_current_rpc(old.current_term, p, resp) && resp.success && m <= old.log@.len() {
                leader_committed(old, new, new_leader.match_idx@, Idx(m as u64), peers, p)
            } else {
                *new == *old
            }
        },
        _ => {
            &&& new_leader.next_idx@ == old_leader.next_idx@
            &&& new_leader.match_idx@ == old_leader.match_idx@
            &&& *new == *old
            &&& sent_after == sent_before
        },
    }
}


impl Leader {
    /// Whether this Leader can take `rpc` from `peer_id`.
    pub fn can_take(&self, term: Term, peer_id: &PeerId, rpc: &Rpc) -> (ok: bool)
        requires
            self.next_idx@.len() == self.peers@.len(),
        ensures
            ok == leader_can_take(self, term, *peer_id, rpc@),
    {
        match rpc {
            Rpc::AppendEntryResp(resp) => {
                match self.next_idx_of(peer_id) {
                    Some(next) => {
                        let answers_current = resp.term.0 == term.0 && next.0 >= 1
                            && resp.echo_prev_log_term_idx.idx.0 == next.0 - 1;
                        !(answers_current && !resp.success && next.0 <= 1)
                    },
                    None => false,
                }
            },
            _ => true,
        }
    }
}

/// A match index counts toward `n` exactly when it is at least `n`: `count_at_least` is the
/// number of positions whose match index is `n` or more, so a peer that holds more than `n`
/// entries counts toward a majority for `n`, and one that holds fewer does not.
pub proof fn law_count_at_least_counts_peers_at_or_past(match_idx: Seq<Idx>, n: Idx)
    ensures
        count_at_least(match_idx, n) == match_idx.filter(|m: Idx| m.0 >= n.0).len(),
        forall|x: Idx|
            #![trigger match_idx.push(x)]
            count_at_least(match_idx.push(x), n) == count_at_least(match_idx, n) + if x.0 >= n.0 {
                1nat
            } else {
                0nat
            },
        count_at_least(match_idx, n) <= match_idx.len(),
    decreases match_idx.len(),
{
    let pred = |m: Idx| m.0 >= n.0;
    if match_idx.len() > 0 {
        law_count_at_least_counts_peers_at_or_past(match_idx.drop_last(), n);
        assert(match_idx.drop_last().push(match_idx.last()) =~= match_idx);
        match_idx.drop_last().lemma_filter_len_push(pred, match_idx.last());
    } else {
        reveal(Seq::filter);
    }
    assert forall|x: Idx|
        #![trigger match_idx.push(x)]
        count_at_least(match_idx.push(x), n) == count_at_least(match_idx, n) + if x.0 >= n.0 {
            1nat
        } else {
            0nat
        } by {
        assert(match_idx.push(x).drop_last() =~= match_idx);
    }
}

/// A Leader can take every AppendEntries response from one of its peers, whatever its term or
/// echo, except a current failure to match the empty prefix; and it can take every other RPC.
pub proof fn law_leader_takes_all_but_empty_prefix_failures(l: Leader, term: Term, p: PeerId, rpc: RpcView)
    ensures
        match rpc {
            RpcView::AppendEntryResp(r) => leader_can_take(&l, term, p, rpc) <==> (l.peers@.contains(p)
                && !(r.term == term && r.echo_prev_log_term_idx.idx.0 == l.next_of(p).0 - 1
                && !r.success && l.next_of(p).0 <= 1)),
            _ => leader_can_take(&l, term, p, rpc),
        },
{
}

/// A response that does not answer the RPC this Leader most recently sent to the peer in its term
/// (an earlier term, or another echoed prev, as after a retransmission) changes nothing: the
/// next and match indexes stay, nothing is sent, and no match is reported.
pub proof fn law_out_of_order_response_changes_nothing(
    old: Leader,
    new: Leader,
    state: RaftState,
    server_id: ServerId,
    p: PeerId,
    resp: AppendEntriesResp,
    check_match_idx: Option<Idx>,
    sent_before: Seq<(PeerId, RpcView)>,
    sent_after: Seq<(PeerId, RpcView)>,
)
    requires
        leader_took_response(&old, &new, &state, server_id, p, resp, check_match_idx, sent_before, sent_after),
        resp.term != state.current_term || resp.echo_prev_log_term_idx.idx.0 != old.next_of(p).0 - 1,
    ensures
        new.next_idx@ == old.next_idx@,
        new.match_idx@ == old.match_idx@,
        sent_after == sent_before,
        check_match_idx is None,
{
}
} // verus!
