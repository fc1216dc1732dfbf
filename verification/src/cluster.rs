//! A whole cluster as one state machine: the servers, and every packet any of them ever sent.
//!
//! The network may delay, reorder, duplicate or drop packets, so a packet, once sent, stays
//! deliverable forever, and nothing forces it to be delivered. A step is one server timing out,
//! one server taking one packet addressed to it, or one server taking a client command; each is
//! what the server's own contract (`Server::on_timeout`, `Server::recv_packet`,
//! `Server::on_client_request`) says it does to its mode and state.

use crate::log::{Entry, Idx, Term};
use crate::mode::safety::{law_quorums_intersect, law_received_is_safe, law_timed_out_is_safe};
use crate::mode::leader::{leader_committed, leader_took_response, Leader};
use crate::mode::{
    candidate_votes_after, mode_can_take, mode_for_rpc, mode_received, mode_timed_out, quorum_of,
    state_for_rpc, Mode,
};
use crate::packet::request_vote::grants_vote;
use crate::packet::{PacketView, RequestVoteResp, RpcView};
use crate::server::{outgoing, Id, PeerId, Server, ServerId};
use crate::state::raft_state::RaftState;
use vstd::prelude::*;

pub mod matching;

verus! {

/// The servers of a cluster and every packet any of them has sent so far.
pub struct ClusterView {
    pub servers: Seq<Server>,
    pub sent: Set<PacketView>,
}

/// One step of a cluster.
pub enum ClusterStep {
    /// The server at this position times out.
    Timeout(usize),
    /// The server at this position takes this packet, which some server sent to it.
    Deliver(usize, PacketView),
    /// The server at this position takes this client command.
    ClientRequest(usize, u8),
}

/// The identities of `servers`, as votes name them.
pub open spec fn ids_of(servers: Seq<Server>) -> Seq<Id> {
    servers.map_values(|s: Server| Id(s.server_id.0))
}

/// The start of a cluster: every server as `Server::new` makes it, each with all the others as
/// its peers, and nothing sent yet.
pub open spec fn cluster_init(c: ClusterView) -> bool {
    &&& c.sent == Set::<PacketView>::empty()
    &&& ids_of(c.servers).no_duplicates()
    &&& forall|k: int|
        #![trigger c.servers[k]]
        0 <= k < c.servers.len() ==> {
            &&& c.servers[k].mode == Mode::Follower(
                crate::mode::follower::Follower { current_leader: None },
            )
            &&& c.servers[k].state.current_term == Term::initial_spec()
            &&& c.servers[k].state.voted_for == None::<Id>
            &&& c.servers[k].state.log@ == Seq::<Entry>::empty()
            &&& c.servers[k].state.commit_idx == Idx::initial_spec()
            &&& c.servers[k].peer_list@.len() + 1 == c.servers.len()
            &&& c.servers[k].wf()
        }
}

/// A cluster of `n` servers at its start: server `i` is addressed by `unique_bytes(i)` and has every
/// other server as its peers, in order.
pub fn new_cluster(n: usize) -> (servers: Vec<Server>)
    requires
        n < u64::MAX,
    ensures
        servers@.len() == n,
        cluster_init(ClusterView { servers: servers@, sent: Set::empty() }),
        forall|i: int| 0 <= i < n ==> (#[trigger] servers@[i]).server_id.0@ == crate::sim::unique_bytes_spec(i as nat),
        forall|i: int| 0 <= i < n ==> (#[trigger] servers@[i]).peer_list@ == crate::sim::peers_of(
            servers@.map_values(|s: Server| s.server_id),
            i,
        ),
{
    let mut ids: Vec<ServerId> = Vec::new();
    let mut i: usize = 0;
    while i < n
        invariant
            i <= n,
            n < u64::MAX,
            ids@.len() == i,
            forall|j: int| 0 <= j < i ==> (#[trigger] ids@[j]).0@ == crate::sim::unique_bytes_spec(j as nat),
        decreases n - i,
    {
        ids.push(ServerId::new(crate::sim::unique_bytes(i)));
        i = i + 1;
    }
    let mut servers: Vec<Server> = Vec::new();
    let mut k: usize = 0;
    while k < n
        invariant
            k <= n,
            ids@.len() == n,
            servers@.len() == k,
            forall|j: int|
                #![trigger servers@[j]]
                0 <= j < k ==> {
                    &&& servers@[j].server_id == ids@[j]
                    &&& servers@[j].peer_list@ == crate::sim::peers_of(ids@, j)
                    &&& servers@[j].wf()
                    &&& servers@[j].mode == Mode::Follower(crate::mode::follower::Follower { current_leader: None })
                    &&& servers@[j].state.current_term == Term::initial_spec()
                    &&& servers@[j].state.voted_for == None::<Id>
                    &&& servers@[j].state.log@ == Seq::<Entry>::empty()
                    &&& servers@[j].state.commit_idx == Idx::initial_spec()
                },
        decreases n - k,
    {
        let peers = crate::sim::peer_list_for(&ids, k);
        assert(peers@.len() == n - 1);
        servers.push(Server::new(ids[k], peers));
        k = k + 1;
    }
    proof {
        assert(servers@.map_values(|s: Server| s.server_id) =~= ids@);
        let ids_v = ids_of(servers@);
        assert forall|a: int, b: int| 0 <= a < ids_v.len() && 0 <= b < ids_v.len() && a != b implies ids_v[a] != ids_v[b] by {
            crate::sim::law_unique_bytes_are_unique(a as nat, b as nat);
            assert(ids@[a].0@ != ids@[b].0@);
        }
    }
    servers
}

/// A timeout of one server, from `old` to `new`, in which it sent `sent`; as `Server::on_timeout`
/// promises.
pub open spec fn server_timed_out(old: Server, new: Server, sent: Seq<(PeerId, RpcView)>) -> bool {
    &&& new.wf()
    &&& new.server_id == old.server_id
    &&& new.peer_list@ == old.peer_list@
    &&& mode_timed_out(
        &old.mode,
        &new.mode,
        &old.state,
        &new.state,
        old.server_id,
        old.peer_list@,
        Seq::empty(),
        sent,
    )
}

/// One server, from `old` to `new`, took the packet `p` and sent `sent`; as
/// `Server::recv_packet` promises.
pub open spec fn server_took(old: Server, new: Server, p: PacketView, sent: Seq<(PeerId, RpcView)>) -> bool {
    &&& new.wf()
    &&& new.server_id == old.server_id
    &&& new.peer_list@ == old.peer_list@
    &&& mode_can_take(&old.mode, &old.state, PeerId(p.header.from.0), p.rpc)
    &&& mode_received(
        &old.mode,
        &new.mode,
        &old.state,
        &new.state,
        old.server_id,
        PeerId(p.header.from.0),
        p.rpc,
        old.peer_list@,
        Seq::empty(),
        sent,
    )
}

/// One server, from `old` to `new`, took the client command `command`; as
/// `Server::on_client_request` promises.
pub open spec fn server_took_command(old: Server, new: Server, command: u8) -> bool {
    &&& new.wf()
    &&& new.server_id == old.server_id
    &&& new.peer_list@ == old.peer_list@
    &&& new.mode == old.mode
    &&& if old.mode is Leader {
        &&& new.state.log@ == old.state.log@.push(Entry { term: old.state.current_term, command })
        &&& new.state.current_term == old.state.current_term
        &&& new.state.voted_for == old.state.voted_for
        &&& new.state.commit_idx == old.state.commit_idx
        &&& new.state.applied() == old.state.applied()
    } else {
        new.state == old.state
    }
}

/// The cluster went from `old` to `new` by `step`. Only the server that steps changes, and what
/// it sends joins the packets sent so far.
pub open spec fn cluster_step(old: ClusterView, new: ClusterView, step: ClusterStep) -> bool {
    match step {
        ClusterStep::Timeout(x) => {
            let id = old.servers[x as int].server_id;
            &&& x < old.servers.len()
            &&& new.servers == old.servers.update(x as int, new.servers[x as int])
            &&& exists|sent: Seq<(PeerId, RpcView)>|
                {
                    &&& #[trigger] server_timed_out(old.servers[x as int], new.servers[x as int], sent)
                    &&& new.sent == old.sent.union(outgoing(id, sent).to_set())
                }
        },
        ClusterStep::Deliver(x, p) => {
            let id = old.servers[x as int].server_id;
            &&& x < old.servers.len()
            &&& old.sent.contains(p)
            &&& p.header.to == id
            &&& new.servers == old.servers.update(x as int, new.servers[x as int])
            &&& exists|sent: Seq<(PeerId, RpcView)>|
                {
                    &&& #[trigger] server_took(old.servers[x as int], new.servers[x as int], p, sent)
                    &&& new.sent == old.sent.union(outgoing(id, sent).to_set())
                }
        },
        ClusterStep::ClientRequest(x, command) => {
            &&& x < old.servers.len()
            &&& new.servers == old.servers.update(x as int, new.servers[x as int])
            &&& server_took_command(old.servers[x as int], new.servers[x as int], command)
            &&& new.sent == old.sent
        },
    }
}

/// What `Server::recv_packet` promises when it takes a packet is a step of the server here.
pub proof fn lemma_took_packet_is_step(old: Server, new: Server, p: PacketView)
    requires
        Server::took_packet(&old, &new, p),
        new.wf(),
    ensures
        exists|sent: Seq<(PeerId, RpcView)>| #[trigger] server_took(old, new, p, sent),
{
    reveal(Server::took_packet);
    let sent = choose|sent: Seq<(PeerId, RpcView)>|
        mode_received(
            &old.mode,
            &new.mode,
            &old.state,
            &new.state,
            old.server_id,
            PeerId(p.header.from.0),
            p.rpc,
            old.peer_list@,
            Seq::empty(),
            sent,
        ) && new.queue.egress_queue@ == crate::server::flush(
            old.queue.egress_queue@,
            old.queue.egress_queue.capacity(),
            outgoing(old.server_id, sent),
        );
    assert(server_took(old, new, p, sent));
}

/// What `Server::on_timeout` promises is a step of the server here.
pub proof fn lemma_timed_out_is_step(old: Server, new: Server)
    requires
        Server::timed_out(old, new),
        new.wf(),
    ensures
        exists|sent: Seq<(PeerId, RpcView)>| #[trigger] server_timed_out(old, new, sent),
{
    let sent = choose|sent: Seq<(PeerId, RpcView)>|
        mode_timed_out(
            &old.mode,
            &new.mode,
            &old.state,
            &new.state,
            old.server_id,
            old.peer_list@,
            Seq::empty(),
            sent,
        ) && new.queue.egress_queue@ == crate::server::flush(
            old.queue.egress_queue@,
            old.queue.egress_queue.capacity(),
            outgoing(old.server_id, sent),
        );
    assert(server_timed_out(old, new, sent));
}

/// `trace` lists the cluster from its start through each of `steps`.
pub open spec fn cluster_run(trace: Seq<ClusterView>, steps: Seq<ClusterStep>) -> bool {
    &&& trace.len() == steps.len() + 1
    &&& cluster_init(trace[0])
    &&& forall|k: int|
        #![trigger steps[k]]
        0 <= k < steps.len() ==> cluster_step(trace[k], trace[k + 1], steps[k])
}

/// `p` is a vote that the server `from` granted to `to` in `term`.
pub open spec fn grants_in(p: PacketView, from: ServerId, to: ServerId, term: Term) -> bool {
    &&& p.header.from == from
    &&& p.header.to == to
    &&& p.rpc == RpcView::RequestVoteResp(RequestVoteResp { term, vote_granted: true })
}

/// The Candidate `cand` holds the vote of `voter` in `term`: its own, or one granted to it by a
/// packet that was sent.
pub open spec fn holds_vote(sent: Set<PacketView>, voter: Id, cand: ServerId, term: Term) -> bool {
    ||| voter == Id(cand.0)
    ||| exists|p: PacketView| #[trigger] sent.contains(p) && grants_in(p, ServerId(voter.0), cand, term)
}

/// What a server sends when it takes `rpc` in `old` and ends in `new`: never a vote request, and a
/// granted vote only in answer to a request it granted, recorded in `new`.
pub open spec fn sends_after_receive(
    old: RaftState,
    new: RaftState,
    peer_id: PeerId,
    rpc: RpcView,
    sent: Seq<(PeerId, RpcView)>,
) -> bool {
    forall|k: int|
        #![trigger sent[k]]
        0 <= k < sent.len() ==> {
            &&& !(sent[k].1 is RequestVote)
            &&& sent[k].1 is RequestVoteResp ==> {
                &&& rpc is RequestVote
                &&& sent[k].0 == peer_id
                &&& sent[k].1->RequestVoteResp_0.term == state_for_rpc(&old, rpc).current_term
                &&& sent[k].1->RequestVoteResp_0.vote_granted ==> {
                    &&& grants_vote(&state_for_rpc(&old, rpc), rpc->RequestVote_0)
                    &&& new.voted_for == Some(Id(rpc->RequestVote_0.candidate_id.0))
                    &&& new.current_term == state_for_rpc(&old, rpc).current_term
                }
            }
        }
}

/// What a server sends when it takes an RPC: no vote request, and a granted vote only where it
/// records that vote.
pub proof fn lemma_received_sends(
    old_mode: &Mode,
    new_mode: &Mode,
    old: &RaftState,
    new: &RaftState,
    server_id: ServerId,
    peer_id: PeerId,
    rpc: RpcView,
    peer_list: Seq<PeerId>,
    sent: Seq<(PeerId, RpcView)>,
)
    requires
        mode_received(old_mode, new_mode, old, new, server_id, peer_id, rpc, peer_list, Seq::empty(), sent),
    ensures
        sends_after_receive(*old, *new, peer_id, rpc, sent),
{
    let s1 = state_for_rpc(old, rpc);
    assert forall|k: int| 0 <= k < sent.len() implies {
        &&& !(sent[k].1 is RequestVote)
        &&& sent[k].1 is RequestVoteResp ==> {
            &&& rpc is RequestVote
            &&& sent[k].0 == peer_id
            &&& sent[k].1->RequestVoteResp_0.term == s1.current_term
            &&& sent[k].1->RequestVoteResp_0.vote_granted ==> {
                &&& grants_vote(&s1, rpc->RequestVote_0)
                &&& new.voted_for == Some(Id(rpc->RequestVote_0.candidate_id.0))
                &&& new.current_term == s1.current_term
            }
        }
    } by {
        match rpc {
            RpcView::RequestVote(rv) => {
                assert(sent =~= Seq::<(PeerId, RpcView)>::empty().push(
                    (peer_id, RpcView::RequestVoteResp(RequestVoteResp { term: s1.current_term, vote_granted: grants_vote(&s1, rv) })),
                ));
            },
            _ => {
                assert(!(sent[k].1 is RequestVoteResp) && !(sent[k].1 is RequestVote)) by {
                    match mode_for_rpc(old_mode, old, rpc) {
                        Mode::Leader(l) => {
                            if new_mode is Leader {
                                let ghost n = new_mode->Leader_0;
                                match rpc {
                                    RpcView::AppendEntryResp(resp) => {
                                        let check = choose|check: Option<Idx>| leader_took_response(&l, &n, &s1, server_id, peer_id, resp, check, Seq::empty(), sent);
                                        assert(leader_took_response(&l, &n, &s1, server_id, peer_id, resp, check, Seq::empty(), sent));
                                    },
                                    _ => {},
                                }
                            }
                        },
                        Mode::Candidate(c) => {
                            if new_mode is Leader {
                                let ghost n = new_mode->Leader_0;
                                assert(sent[k] == n.broadcast(peer_list, new, server_id)[k]);
                            }
                        },
                        _ => {},
                    }
                }
            },
        }
    }
}

/// A server that is Candidate or Leader after taking an RPC was one before it, and the RPC left
/// its term as it was; a Candidate that stays one counts the vote the RPC may carry.
pub proof fn lemma_received_office(
    old_mode: &Mode,
    new_mode: &Mode,
    old: &RaftState,
    new: &RaftState,
    server_id: ServerId,
    peer_id: PeerId,
    rpc: RpcView,
    peer_list: Seq<PeerId>,
    sent: Seq<(PeerId, RpcView)>,
)
    requires
        mode_received(old_mode, new_mode, old, new, server_id, peer_id, rpc, peer_list, Seq::empty(), sent),
    ensures
        !(new_mode is Follower) ==> {
            &&& !(old_mode is Follower)
            &&& state_for_rpc(old, rpc) == *old
            &&& new.current_term == old.current_term
        },
        (old_mode is Candidate && new_mode is Candidate) ==> new_mode->Candidate_0.votes()
            == candidate_votes_after(old_mode->Candidate_0.votes(), peer_id, old, rpc),
        new_mode is Candidate ==> old_mode is Candidate,
        (old_mode is Leader && !(new_mode is Follower)) ==> new_mode is Leader,
        (old_mode is Leader && !(new_mode is Leader)) ==> new.current_term.0 > old.current_term.0,
        new.log@ == (if rpc is AppendEntry && new_mode is Follower {
            crate::mode::follower::log_after_append(&state_for_rpc(old, rpc), rpc->AppendEntry_0)
        } else {
            old.log@
        }),
{
    if !(new_mode is Follower) {
        match rpc {
            RpcView::AppendEntryResp(resp) => {
                if old_mode is Leader {
                    let l = old_mode->Leader_0;
                    let n = new_mode->Leader_0;
                    let m = Leader::reported_match(resp);
                    if l.answers_current_rpc(old.current_term, peer_id, resp) && resp.success && m <= old.log@.len() {
                        assert(leader_committed(old, new, n.match_idx@, Idx(m as u64), peer_list.len(), peer_id));
                    }
                }
            },
            _ => {},
        }
    }
}

/// What a timeout sends: no vote answer, and vote requests only for the server itself. A server
/// that does not lead starts an election in the next term, voting for itself.
pub proof fn lemma_timed_out_sends(
    old_mode: &Mode,
    new_mode: &Mode,
    old: &RaftState,
    new: &RaftState,
    server_id: ServerId,
    peer_list: Seq<PeerId>,
    sent: Seq<(PeerId, RpcView)>,
)
    requires
        mode_timed_out(old_mode, new_mode, old, new, server_id, peer_list, Seq::empty(), sent),
    ensures
        forall|k: int|
            #![trigger sent[k]]
            0 <= k < sent.len() ==> {
                &&& !(sent[k].1 is RequestVoteResp)
                &&& sent[k].1 is RequestVote ==> {
                    &&& sent[k].1->RequestVote_0.candidate_id == server_id
                    &&& sent[k].1->RequestVote_0.term == new.current_term
                    &&& !(old_mode is Leader)
                }
            },
        old_mode is Leader ==> *new_mode == *old_mode && *new == *old,
        (!(old_mode is Leader) && peer_list.len() > 0) ==> sent.len() > 0 && sent[0].1 is RequestVote,
        !(old_mode is Leader) ==> {
            &&& !(new_mode is Follower)
            &&& new.voted_for == Some(Id(server_id.0))
            &&& new.current_term.0 == old.current_term.0 + 1
            &&& new_mode is Candidate ==> new_mode->Candidate_0.votes() == seq![Id(server_id.0)]
            &&& new_mode is Leader ==> peer_list.len() == 0
        },
{
    law_timed_out_is_safe(old_mode, new_mode, old, new, server_id, peer_list, Seq::empty(), sent);
    assert forall|k: int| 0 <= k < sent.len() implies {
        &&& !(#[trigger] sent[k].1 is RequestVoteResp)
        &&& sent[k].1 is RequestVote ==> {
            &&& sent[k].1->RequestVote_0.candidate_id == server_id
            &&& sent[k].1->RequestVote_0.term == new.current_term
            &&& !(old_mode is Leader)
        }
    } by {
        match old_mode {
            Mode::Leader(l) => {
                assert(sent[k] == l.broadcast(peer_list, old, server_id)[k]);
            },
            _ => {},
        }
    }
}

/// Whether the packet `p` is a granted vote.
pub open spec fn is_granted_vote(p: PacketView) -> bool {
    p.rpc is RequestVoteResp && p.rpc->RequestVoteResp_0.vote_granted
}

/// `q` is a list of distinct servers of `c` whose votes the server at `k` holds in its term.
pub open spec fn votes_evidence(c: ClusterView, k: int, q: Seq<Id>) -> bool {
    &&& q.no_duplicates()
    &&& forall|j: int|
        #![trigger q[j]]
        0 <= j < q.len() ==> {
            &&& ids_of(c.servers).contains(q[j])
            &&& holds_vote(c.sent, q[j], c.servers[k].server_id, c.servers[k].state.current_term)
        }
}

/// The server `cand` sent a vote request in `term`.
pub open spec fn asked_for_votes(sent: Set<PacketView>, cand: ServerId, term: Term) -> bool {
    exists|r: PacketView|
        #[trigger] sent.contains(r) && r.header.from == cand && r.rpc is RequestVote
            && r.rpc->RequestVote_0.term == term
}

/// What every reachable cluster keeps about votes.
pub open spec fn election_inv(c: ClusterView) -> bool {
    let n = c.servers.len();
    &&& ids_of(c.servers).no_duplicates()
    &&& forall|k: int| 0 <= k < n ==> #[trigger] c.servers[k].peer_list@.len() + 1 == n
    &&& forall|k: int| 0 <= k < n ==> #[trigger] c.servers[k].wf()
    // Every packet comes from a server of the cluster.
    &&& forall|p: PacketView| #[trigger] c.sent.contains(p) ==> ids_of(c.servers).contains(Id(p.header.from.0))
    // A vote request names its sender as the Candidate.
    &&& forall|p: PacketView|
        #[trigger] c.sent.contains(p) && p.rpc is RequestVote ==> p.rpc->RequestVote_0.candidate_id
            == p.header.from
    // A granted vote is still recorded by its voter, unless the voter moved on to a later term.
    &&& forall|k: int, p: PacketView|
        #![trigger c.sent.contains(p), c.servers[k]]
        0 <= k < n && c.sent.contains(p) && p.header.from == c.servers[k].server_id
            && is_granted_vote(p) ==> {
            ||| c.servers[k].state.current_term.0 > p.rpc->RequestVoteResp_0.term.0
            ||| {
                &&& c.servers[k].state.current_term == p.rpc->RequestVoteResp_0.term
                &&& c.servers[k].state.voted_for == Some(Id(p.header.to.0))
            }
        }
    // A server grants at most one Candidate its vote in a term.
    &&& forall|p1: PacketView, p2: PacketView|
        #![trigger c.sent.contains(p1), c.sent.contains(p2)]
        c.sent.contains(p1) && c.sent.contains(p2) && is_granted_vote(p1) && is_granted_vote(p2)
            && p1.header.from == p2.header.from && p1.rpc->RequestVoteResp_0.term
            == p2.rpc->RequestVoteResp_0.term ==> p1.header.to == p2.header.to
    // A server that asked for votes in a term voted for itself in it, unless it moved on.
    &&& forall|k: int, p: PacketView|
        #![trigger c.sent.contains(p), c.servers[k]]
        0 <= k < n && c.sent.contains(p) && p.header.from == c.servers[k].server_id
            && p.rpc is RequestVote ==> {
            ||| c.servers[k].state.current_term.0 > p.rpc->RequestVote_0.term.0
            ||| {
                &&& c.servers[k].state.current_term == p.rpc->RequestVote_0.term
                &&& c.servers[k].state.voted_for == Some(Id(c.servers[k].server_id.0))
            }
        }
    // A server that asked for votes in a term granted its vote in it to itself alone.
    &&& forall|r: PacketView, g: PacketView|
        #![trigger c.sent.contains(r), c.sent.contains(g)]
        c.sent.contains(r) && c.sent.contains(g) && r.rpc is RequestVote && is_granted_vote(g)
            && r.header.from == g.header.from && r.rpc->RequestVote_0.term
            == g.rpc->RequestVoteResp_0.term ==> g.header.to == g.header.from
    // A Candidate or Leader with peers asked them for votes in its term.
    &&& forall|k: int|
        0 <= k < n && !(#[trigger] c.servers[k].mode is Follower) && c.servers[k].peer_list@.len()
            > 0 ==> asked_for_votes(c.sent, c.servers[k].server_id, c.servers[k].state.current_term)
    // Candidates and Leaders voted for themselves.
    &&& forall|k: int|
        0 <= k < n && !(#[trigger] c.servers[k].mode is Follower) ==> c.servers[k].state.voted_for
            == Some(Id(c.servers[k].server_id.0))
    // A Candidate holds the votes it counts.
    &&& forall|k: int|
        0 <= k < n && #[trigger] c.servers[k].mode is Candidate ==> votes_evidence(
            c,
            k,
            c.servers[k].mode->Candidate_0.votes(),
        )
    // A Leader holds the votes of a majority.
    &&& forall|k: int|
        0 <= k < n && #[trigger] c.servers[k].mode is Leader ==> exists|q: Seq<Id>|
            #[trigger] votes_evidence(c, k, q) && q.len() >= quorum_of(
                c.servers[k].peer_list@.len(),
            )
}

/// The start of a cluster keeps the invariant.
pub proof fn lemma_init_inv(c: ClusterView)
    requires
        cluster_init(c),
    ensures
        election_inv(c),
{
}

/// Two servers that lead in the same term are the same server.
pub proof fn lemma_inv_one_leader(c: ClusterView, i: int, j: int)
    requires
        election_inv(c),
        0 <= i < c.servers.len(),
        0 <= j < c.servers.len(),
        c.servers[i].mode is Leader,
        c.servers[j].mode is Leader,
        c.servers[i].state.current_term == c.servers[j].state.current_term,
    ensures
        i == j,
{
    let n = c.servers.len();
    let ids = ids_of(c.servers);
    let si = c.servers[i];
    let sj = c.servers[j];
    let t = si.state.current_term;
    let qi = choose|q: Seq<Id>| #[trigger] votes_evidence(c, i, q) && q.len() >= quorum_of(si.peer_list@.len());
    let qj = choose|q: Seq<Id>| #[trigger] votes_evidence(c, j, q) && q.len() >= quorum_of(sj.peer_list@.len());
    law_quorums_intersect((n - 1) as nat);
    let u = ids.to_set();
    let a = qi.to_set();
    let b = qj.to_set();
    ids.unique_seq_to_set();
    qi.unique_seq_to_set();
    qj.unique_seq_to_set();
    assert(a.subset_of(u));
    assert(b.subset_of(u));
    vstd::set_lib::lemma_set_intersect_union_lens(a, b);
    vstd::set_lib::lemma_len_subset(a.union(b), u);
    let both = a.intersect(b);
    assert(both.len() > 0);
    let v = both.choose();
    assert(both.contains(v));
    let ji = choose|x: int| 0 <= x < qi.len() && qi[x] == v;
    let jj = choose|x: int| 0 <= x < qj.len() && qj[x] == v;
    assert(holds_vote(c.sent, qi[ji], si.server_id, t));
    assert(holds_vote(c.sent, qj[jj], sj.server_id, t));
    assert(c.servers[i].state.voted_for == Some(Id(si.server_id.0)));
    assert(c.servers[j].state.voted_for == Some(Id(sj.server_id.0)));
    if v == Id(si.server_id.0) {
        if v != Id(sj.server_id.0) {
            let p = choose|p: PacketView| #[trigger] c.sent.contains(p) && grants_in(p, ServerId(v.0), sj.server_id, t);
            assert(p.header.from == c.servers[i].server_id);
        }
    } else if v == Id(sj.server_id.0) {
        let p = choose|p: PacketView| #[trigger] c.sent.contains(p) && grants_in(p, ServerId(v.0), si.server_id, t);
        assert(p.header.from == c.servers[j].server_id);
    } else {
        let p1 = choose|p: PacketView| #[trigger] c.sent.contains(p) && grants_in(p, ServerId(v.0), si.server_id, t);
        let p2 = choose|p: PacketView| #[trigger] c.sent.contains(p) && grants_in(p, ServerId(v.0), sj.server_id, t);
        assert(p1.header.to == p2.header.to);
    }
    assert(si.server_id == sj.server_id);
    assert(ids[i] == ids[j]);
}

/// A packet that a server sent names it as the sender and carries one of the RPCs it sent.
pub(crate) proof fn lemma_outgoing_member(id: ServerId, sent: Seq<(PeerId, RpcView)>, p: PacketView)
    requires
        outgoing(id, sent).to_set().contains(p),
    ensures
        exists|i: int|
            0 <= i < sent.len() && p.header.from == id && p.header.to == ServerId(sent[i].0.0)
                && p.rpc == #[trigger] sent[i].1,
{
    let i = choose|i: int| 0 <= i < outgoing(id, sent).len() && outgoing(id, sent)[i] == p;
    assert(p.rpc == sent[i].1);
}

/// The votes a server holds stay held while it keeps its identity and term, as more is sent.
proof fn lemma_evidence_grows(old: ClusterView, new: ClusterView, k: int, q: Seq<Id>)
    requires
        votes_evidence(old, k, q),
        old.sent.subset_of(new.sent),
        ids_of(new.servers) == ids_of(old.servers),
        new.servers[k].server_id == old.servers[k].server_id,
        new.servers[k].state.current_term == old.servers[k].state.current_term,
    ensures
        votes_evidence(new, k, q),
{
    assert forall|j: int| 0 <= j < q.len() implies {
        &&& ids_of(new.servers).contains(#[trigger] q[j])
        &&& holds_vote(new.sent, q[j], new.servers[k].server_id, new.servers[k].state.current_term)
    } by {
        if q[j] != Id(old.servers[k].server_id.0) {
            let p = choose|p: PacketView|
                #[trigger] old.sent.contains(p) && grants_in(
                    p,
                    ServerId(q[j].0),
                    old.servers[k].server_id,
                    old.servers[k].state.current_term,
                );
            assert(new.sent.contains(p));
        }
    }
}

/// A timeout keeps the invariant.
pub(crate) proof fn lemma_timeout_keeps_inv(old: ClusterView, new: ClusterView, x: usize)
    requires
        election_inv(old),
        cluster_step(old, new, ClusterStep::Timeout(x)),
    ensures
        election_inv(new),
{
    let n = old.servers.len();
    let xi = x as int;
    let id = old.servers[xi].server_id;
    let so = old.servers[xi];
    let sn = new.servers[xi];
    let sent = choose|sent: Seq<(PeerId, RpcView)>|
        #[trigger] server_timed_out(so, sn, sent) && new.sent == old.sent.union(
            outgoing(id, sent).to_set(),
        );
    lemma_timed_out_sends(&so.mode, &sn.mode, &so.state, &sn.state, id, so.peer_list@, sent);
    assert(ids_of(new.servers) =~= ids_of(old.servers));
    assert(ids_of(old.servers)[xi] == Id(id.0));
    assert forall|k: int| 0 <= k < n && k != xi implies #[trigger] old.servers[k].server_id != id by {
        assert(ids_of(old.servers)[k] != ids_of(old.servers)[xi]);
    }
    assert forall|p: PacketView| #[trigger] new.sent.contains(p) && !old.sent.contains(p) implies {
        &&& p.header.from == id
        &&& !is_granted_vote(p)
        &&& p.rpc is RequestVote ==> p.rpc->RequestVote_0.candidate_id == p.header.from
    } by {
        lemma_outgoing_member(id, sent, p);
    }
    assert forall|k: int, p: PacketView|
        #![trigger new.sent.contains(p), new.servers[k]]
        0 <= k < n && new.sent.contains(p) && p.header.from == new.servers[k].server_id
            && is_granted_vote(p) implies {
        ||| new.servers[k].state.current_term.0 > p.rpc->RequestVoteResp_0.term.0
        ||| {
            &&& new.servers[k].state.current_term == p.rpc->RequestVoteResp_0.term
            &&& new.servers[k].state.voted_for == Some(Id(p.header.to.0))
        }
    } by {
        assert(old.sent.contains(p));
        assert(old.servers[k].server_id == new.servers[k].server_id);
    }
    assert forall|p: PacketView| #[trigger] new.sent.contains(p) && !old.sent.contains(p) implies {
        p.rpc is RequestVote ==> {
            &&& p.rpc->RequestVote_0.term == sn.state.current_term
            &&& !(so.mode is Leader)
        }
    } by {
        lemma_outgoing_member(id, sent, p);
    }
    assert forall|k: int, p: PacketView|
        #![trigger new.sent.contains(p), new.servers[k]]
        0 <= k < n && new.sent.contains(p) && p.header.from == new.servers[k].server_id
            && p.rpc is RequestVote implies {
        ||| new.servers[k].state.current_term.0 > p.rpc->RequestVote_0.term.0
        ||| {
            &&& new.servers[k].state.current_term == p.rpc->RequestVote_0.term
            &&& new.servers[k].state.voted_for == Some(Id(new.servers[k].server_id.0))
        }
    } by {
        if old.sent.contains(p) {
            assert(old.servers[k].server_id == new.servers[k].server_id);
        }
    }
    assert forall|r: PacketView, g: PacketView|
        #![trigger new.sent.contains(r), new.sent.contains(g)]
        new.sent.contains(r) && new.sent.contains(g) && r.rpc is RequestVote && is_granted_vote(g)
            && r.header.from == g.header.from && r.rpc->RequestVote_0.term
            == g.rpc->RequestVoteResp_0.term implies g.header.to == g.header.from by {
        if !old.sent.contains(r) {
            assert(old.sent.contains(g) && old.servers[xi].server_id == g.header.from);
        }
    }
    assert forall|k: int|
        0 <= k < n && !(#[trigger] new.servers[k].mode is Follower) && new.servers[k].peer_list@.len()
            > 0 implies asked_for_votes(new.sent, new.servers[k].server_id, new.servers[k].state.current_term) by {
        if k == xi && !(so.mode is Leader) {
            let r = outgoing(id, sent)[0];
            assert(outgoing(id, sent).to_set().contains(r));
            assert(new.sent.contains(r));
        } else {
            assert(!(old.servers[k].mode is Follower));
            let r = choose|r: PacketView|
                #[trigger] old.sent.contains(r) && r.header.from == old.servers[k].server_id && r.rpc is RequestVote
                    && r.rpc->RequestVote_0.term == old.servers[k].state.current_term;
            assert(new.sent.contains(r));
        }
    }
    assert forall|k: int|
        0 <= k < n && #[trigger] new.servers[k].mode is Candidate implies votes_evidence(
        new,
        k,
        new.servers[k].mode->Candidate_0.votes(),
    ) by {
        if k == xi && !(so.mode is Leader) {
            let q = new.servers[k].mode->Candidate_0.votes();
            assert(q == seq![Id(id.0)]);
            assert(q[0] == ids_of(new.servers)[xi]);
        } else {
            lemma_evidence_grows(old, new, k, new.servers[k].mode->Candidate_0.votes());
        }
    }
    assert forall|k: int| 0 <= k < n && #[trigger] new.servers[k].mode is Leader implies exists|q: Seq<Id>|
        #[trigger] votes_evidence(new, k, q) && q.len() >= quorum_of(new.servers[k].peer_list@.len()) by {
        if k == xi && !(so.mode is Leader) {
            let q = seq![Id(id.0)];
            assert(q[0] == ids_of(new.servers)[xi]);
            assert(votes_evidence(new, k, q));
        } else {
            let q = choose|q: Seq<Id>|
                #[trigger] votes_evidence(old, k, q) && q.len() >= quorum_of(old.servers[k].peer_list@.len());
            lemma_evidence_grows(old, new, k, q);
        }
    }
}

/// A client command keeps the invariant.
pub(crate) proof fn lemma_command_keeps_inv(old: ClusterView, new: ClusterView, x: usize, command: u8)
    requires
        election_inv(old),
        cluster_step(old, new, ClusterStep::ClientRequest(x, command)),
    ensures
        election_inv(new),
{
    let n = old.servers.len();
    assert(ids_of(new.servers) =~= ids_of(old.servers));
    assert forall|k: int|
        0 <= k < n && #[trigger] new.servers[k].mode is Candidate implies votes_evidence(
        new,
        k,
        new.servers[k].mode->Candidate_0.votes(),
    ) by {
        lemma_evidence_grows(old, new, k, new.servers[k].mode->Candidate_0.votes());
    }
    assert forall|k: int| 0 <= k < n && #[trigger] new.servers[k].mode is Leader implies exists|q: Seq<Id>|
        #[trigger] votes_evidence(new, k, q) && q.len() >= quorum_of(new.servers[k].peer_list@.len()) by {
        let q = choose|q: Seq<Id>|
            #[trigger] votes_evidence(old, k, q) && q.len() >= quorum_of(old.servers[k].peer_list@.len());
        lemma_evidence_grows(old, new, k, q);
    }
}

/// A Candidate that takes the packet `p` while in the same term holds the votes it counts after
/// it.
proof fn lemma_counted_votes(old: ClusterView, new: ClusterView, x: int, votes: Seq<Id>, p: PacketView)
    requires
        election_inv(old),
        votes_evidence(old, x, votes),
        0 <= x < old.servers.len(),
        old.sent.contains(p),
        p.header.to == old.servers[x].server_id,
        old.sent.subset_of(new.sent),
        ids_of(new.servers) == ids_of(old.servers),
        new.servers[x].server_id == old.servers[x].server_id,
        new.servers[x].state.current_term == old.servers[x].state.current_term,
    ensures
        votes_evidence(
            new,
            x,
            candidate_votes_after(votes, PeerId(p.header.from.0), &old.servers[x].state, p.rpc),
        ),
{
    lemma_evidence_grows(old, new, x, votes);
    let after = candidate_votes_after(votes, PeerId(p.header.from.0), &old.servers[x].state, p.rpc);
    if after != votes {
        let v = Id(p.header.from.0);
        assert(after == votes.push(v));
        assert(new.sent.contains(p));
        assert(grants_in(p, ServerId(v.0), new.servers[x].server_id, new.servers[x].state.current_term));
        assert forall|j: int| 0 <= j < after.len() implies {
            &&& ids_of(new.servers).contains(#[trigger] after[j])
            &&& holds_vote(new.sent, after[j], new.servers[x].server_id, new.servers[x].state.current_term)
        } by {
            if j < votes.len() {
                assert(after[j] == votes[j]);
            }
        }
        assert(after.no_duplicates()) by {
            assert forall|a: int, b: int| 0 <= a < b < after.len() implies after[a] != after[b] by {
                if b == votes.len() {
                    assert(votes.contains(votes[a]));
                }
            }
        }
    }
}

/// Taking a packet keeps the invariant.
#[verifier::rlimit(50)]
pub(crate) proof fn lemma_deliver_keeps_inv(old: ClusterView, new: ClusterView, x: usize, p: PacketView)
    requires
        election_inv(old),
        cluster_step(old, new, ClusterStep::Deliver(x, p)),
    ensures
        election_inv(new),
{
    let n = old.servers.len();
    let xi = x as int;
    let id = old.servers[xi].server_id;
    let so = old.servers[xi];
    let sn = new.servers[xi];
    let peer = PeerId(p.header.from.0);
    let sent = choose|sent: Seq<(PeerId, RpcView)>|
        #[trigger] server_took(so, sn, p, sent) && new.sent == old.sent.union(
            outgoing(id, sent).to_set(),
        );
    lemma_received_sends(&so.mode, &sn.mode, &so.state, &sn.state, id, peer, p.rpc, so.peer_list@, sent);
    lemma_received_office(&so.mode, &sn.mode, &so.state, &sn.state, id, peer, p.rpc, so.peer_list@, sent);
    law_received_is_safe(
        &so.mode,
        &sn.mode,
        &so.state,
        &sn.state,
        id,
        peer,
        p.rpc,
        so.peer_list@,
        Seq::empty(),
        sent,
    );
    let s1 = state_for_rpc(&so.state, p.rpc);
    assert(ids_of(new.servers) =~= ids_of(old.servers));
    assert(ids_of(old.servers)[xi] == Id(id.0));
    assert forall|k: int| 0 <= k < n && k != xi implies #[trigger] old.servers[k].server_id != id by {
        assert(ids_of(old.servers)[k] != ids_of(old.servers)[xi]);
    }
    // What the server sent.
    assert forall|q: PacketView| #[trigger] new.sent.contains(q) && !old.sent.contains(q) implies {
        &&& q.header.from == id
        &&& !(q.rpc is RequestVote)
        &&& is_granted_vote(q) ==> {
            &&& p.rpc is RequestVote
            &&& q.header.to == p.header.from
            &&& q.rpc->RequestVoteResp_0.term == s1.current_term
            &&& grants_vote(&s1, p.rpc->RequestVote_0)
            &&& sn.state.voted_for == Some(Id(q.header.to.0))
            &&& sn.state.current_term == s1.current_term
        }
    } by {
        lemma_outgoing_member(id, sent, q);
    }
    assert forall|k: int, q: PacketView|
        #![trigger new.sent.contains(q), new.servers[k]]
        0 <= k < n && new.sent.contains(q) && q.header.from == new.servers[k].server_id
            && is_granted_vote(q) implies {
        ||| new.servers[k].state.current_term.0 > q.rpc->RequestVoteResp_0.term.0
        ||| {
            &&& new.servers[k].state.current_term == q.rpc->RequestVoteResp_0.term
            &&& new.servers[k].state.voted_for == Some(Id(q.header.to.0))
        }
    } by {
        if old.sent.contains(q) {
            assert(old.servers[k].server_id == new.servers[k].server_id);
        }
    }
    assert forall|q1: PacketView, q2: PacketView|
        #![trigger new.sent.contains(q1), new.sent.contains(q2)]
        new.sent.contains(q1) && new.sent.contains(q2) && is_granted_vote(q1) && is_granted_vote(q2)
            && q1.header.from == q2.header.from && q1.rpc->RequestVoteResp_0.term
            == q2.rpc->RequestVoteResp_0.term implies q1.header.to == q2.header.to by {
        if old.sent.contains(q1) && !old.sent.contains(q2) {
            assert(old.sent.contains(q1) && old.servers[xi].server_id == q1.header.from);
            assert(so.state.current_term == s1.current_term);
        } else if !old.sent.contains(q1) && old.sent.contains(q2) {
            assert(old.sent.contains(q2) && old.servers[xi].server_id == q2.header.from);
            assert(so.state.current_term == s1.current_term);
        }
    }
    assert forall|k: int, q: PacketView|
        #![trigger new.sent.contains(q), new.servers[k]]
        0 <= k < n && new.sent.contains(q) && q.header.from == new.servers[k].server_id
            && q.rpc is RequestVote implies {
        ||| new.servers[k].state.current_term.0 > q.rpc->RequestVote_0.term.0
        ||| {
            &&& new.servers[k].state.current_term == q.rpc->RequestVote_0.term
            &&& new.servers[k].state.voted_for == Some(Id(new.servers[k].server_id.0))
        }
    } by {
        assert(old.sent.contains(q));
        assert(old.servers[k].server_id == new.servers[k].server_id);
    }
    assert forall|r: PacketView, g: PacketView|
        #![trigger new.sent.contains(r), new.sent.contains(g)]
        new.sent.contains(r) && new.sent.contains(g) && r.rpc is RequestVote && is_granted_vote(g)
            && r.header.from == g.header.from && r.rpc->RequestVote_0.term
            == g.rpc->RequestVoteResp_0.term implies g.header.to == g.header.from by {
        assert(old.sent.contains(r));
        if !old.sent.contains(g) {
            assert(old.sent.contains(r) && old.servers[xi].server_id == r.header.from);
            assert(so.state.current_term == s1.current_term);
        }
    }
    assert forall|k: int|
        0 <= k < n && !(#[trigger] new.servers[k].mode is Follower) && new.servers[k].peer_list@.len()
            > 0 implies asked_for_votes(new.sent, new.servers[k].server_id, new.servers[k].state.current_term) by {
        assert(!(old.servers[k].mode is Follower));
        let r = choose|r: PacketView|
            #[trigger] old.sent.contains(r) && r.header.from == old.servers[k].server_id && r.rpc is RequestVote
                && r.rpc->RequestVote_0.term == old.servers[k].state.current_term;
        assert(new.sent.contains(r));
    }
    assert forall|k: int|
        0 <= k < n && !(#[trigger] new.servers[k].mode is Follower) implies new.servers[k].state.voted_for
        == Some(Id(new.servers[k].server_id.0)) by {
        if k == xi {
            assert(!(old.servers[k].mode is Follower));
        }
    }
    assert forall|k: int|
        0 <= k < n && #[trigger] new.servers[k].mode is Candidate implies votes_evidence(
        new,
        k,
        new.servers[k].mode->Candidate_0.votes(),
    ) by {
        if k == xi {
            assert(old.servers[k].mode is Candidate);
            lemma_counted_votes(old, new, xi, so.mode->Candidate_0.votes(), p);
        } else {
            lemma_evidence_grows(old, new, k, new.servers[k].mode->Candidate_0.votes());
        }
    }
    assert forall|k: int| 0 <= k < n && #[trigger] new.servers[k].mode is Leader implies exists|q: Seq<Id>|
        #[trigger] votes_evidence(new, k, q) && q.len() >= quorum_of(new.servers[k].peer_list@.len()) by {
        if k == xi && so.mode is Candidate {
            let q = candidate_votes_after(so.mode->Candidate_0.votes(), peer, &so.state, p.rpc);
            assert(old.servers[k].mode is Candidate);
            lemma_counted_votes(old, new, xi, so.mode->Candidate_0.votes(), p);
            assert(votes_evidence(new, k, q));
        } else {
            if k == xi {
                assert(!(old.servers[k].mode is Follower));
            }
            let q = choose|q: Seq<Id>|
                #[trigger] votes_evidence(old, k, q) && q.len() >= quorum_of(old.servers[k].peer_list@.len());
            lemma_evidence_grows(old, new, k, q);
        }
    }
}

/// Any step keeps the invariant and the servers' identities, and forgets nothing sent.
pub(crate) proof fn lemma_step_keeps_inv(old: ClusterView, new: ClusterView, step: ClusterStep)
    requires
        election_inv(old),
        cluster_step(old, new, step),
    ensures
        election_inv(new),
        ids_of(new.servers) == ids_of(old.servers),
        old.sent.subset_of(new.sent),
{
    match step {
        ClusterStep::Timeout(x) => lemma_timeout_keeps_inv(old, new, x),
        ClusterStep::Deliver(x, p) => lemma_deliver_keeps_inv(old, new, x, p),
        ClusterStep::ClientRequest(x, command) => lemma_command_keeps_inv(old, new, x, command),
    }
    assert(ids_of(new.servers) =~= ids_of(old.servers));
}

/// Every cluster of a run keeps the invariant and the servers it started with.
pub(crate) proof fn lemma_run_inv(trace: Seq<ClusterView>, steps: Seq<ClusterStep>, k: int)
    requires
        cluster_run(trace, steps),
        0 <= k < trace.len(),
    ensures
        election_inv(trace[k]),
        ids_of(trace[k].servers) == ids_of(trace[0].servers),
    decreases k,
{
    if k == 0 {
        lemma_init_inv(trace[0]);
    } else {
        lemma_run_inv(trace, steps, k - 1);
        assert(cluster_step(trace[k - 1], trace[k], steps[k - 1]));
        lemma_step_keeps_inv(trace[k - 1], trace[k], steps[k - 1]);
    }
}

/// What a run has sent stays sent.
pub(crate) proof fn lemma_sent_grows(trace: Seq<ClusterView>, steps: Seq<ClusterStep>, k1: int, k2: int)
    requires
        cluster_run(trace, steps),
        0 <= k1 <= k2 < trace.len(),
    ensures
        trace[k1].sent.subset_of(trace[k2].sent),
    decreases k2 - k1,
{
    if k1 < k2 {
        lemma_sent_grows(trace, steps, k1, k2 - 1);
        lemma_run_inv(trace, steps, k2 - 1);
        assert(cluster_step(trace[k2 - 1], trace[k2], steps[k2 - 1]));
        lemma_step_keeps_inv(trace[k2 - 1], trace[k2], steps[k2 - 1]);
    }
}

/// Two Leaders of one term, the first seen no later than the second, are the same server.
proof fn lemma_leaders_agree(trace: Seq<ClusterView>, steps: Seq<ClusterStep>, k1: int, k2: int, i: int, j: int)
    requires
        cluster_run(trace, steps),
        0 <= k1 <= k2 < trace.len(),
        0 <= i < trace[k1].servers.len(),
        0 <= j < trace[k2].servers.len(),
        trace[k1].servers[i].mode is Leader,
        trace[k2].servers[j].mode is Leader,
        trace[k1].servers[i].state.current_term == trace[k2].servers[j].state.current_term,
    ensures
        trace[k1].servers[i].server_id == trace[k2].servers[j].server_id,
{
    let c1 = trace[k1];
    let c2 = trace[k2];
    lemma_run_inv(trace, steps, k1);
    lemma_run_inv(trace, steps, k2);
    lemma_sent_grows(trace, steps, k1, k2);
    let ids = ids_of(c2.servers);
    let n = c2.servers.len();
    assert(c1.servers.len() == ids_of(c1.servers).len());
    let id1 = c1.servers[i].server_id;
    let id2 = c2.servers[j].server_id;
    let t = c2.servers[j].state.current_term;
    assert(ids_of(c1.servers)[i] == Id(id1.0));
    assert(ids[j] == Id(id2.0));
    if n == 1 {
        assert(ids[i] == Id(id1.0));
        return;
    }
    assert(c1.servers[i].peer_list@.len() > 0);
    assert(c2.servers[j].peer_list@.len() > 0);
    let q1 = choose|q: Seq<Id>|
        #[trigger] votes_evidence(c1, i, q) && q.len() >= quorum_of(c1.servers[i].peer_list@.len());
    let q2 = choose|q: Seq<Id>|
        #[trigger] votes_evidence(c2, j, q) && q.len() >= quorum_of(c2.servers[j].peer_list@.len());
    assert(asked_for_votes(c1.sent, id1, t));
    assert(asked_for_votes(c2.sent, id2, t));
    let r1 = choose|r: PacketView|
        #[trigger] c1.sent.contains(r) && r.header.from == id1 && r.rpc is RequestVote
            && r.rpc->RequestVote_0.term == t;
    let r2 = choose|r: PacketView|
        #[trigger] c2.sent.contains(r) && r.header.from == id2 && r.rpc is RequestVote
            && r.rpc->RequestVote_0.term == t;
    assert(c2.sent.contains(r1));
    law_quorums_intersect((n - 1) as nat);
    let u = ids.to_set();
    let a = q1.to_set();
    let b = q2.to_set();
    ids.unique_seq_to_set();
    q1.unique_seq_to_set();
    q2.unique_seq_to_set();
    assert(a.subset_of(u)) by {
        assert forall|v: Id| a.contains(v) implies u.contains(v) by {
            let x = choose|x: int| 0 <= x < q1.len() && q1[x] == v;
            assert(ids_of(c1.servers).contains(q1[x]));
        }
    }
    assert(b.subset_of(u));
    vstd::set_lib::lemma_set_intersect_union_lens(a, b);
    vstd::set_lib::lemma_len_subset(a.union(b), u);
    let both = a.intersect(b);
    assert(both.len() > 0);
    let v = both.choose();
    assert(both.contains(v));
    let x1 = choose|x: int| 0 <= x < q1.len() && q1[x] == v;
    let x2 = choose|x: int| 0 <= x < q2.len() && q2[x] == v;
    assert(holds_vote(c1.sent, q1[x1], id1, t));
    assert(holds_vote(c2.sent, q2[x2], id2, t));
    if v == Id(id1.0) {
        if v != Id(id2.0) {
            let g = choose|p: PacketView| #[trigger] c2.sent.contains(p) && grants_in(p, ServerId(v.0), id2, t);
            assert(g.header.from == id1);
        }
    } else if v == Id(id2.0) {
        let g = choose|p: PacketView| #[trigger] c1.sent.contains(p) && grants_in(p, ServerId(v.0), id1, t);
        assert(c2.sent.contains(g));
        assert(g.header.from == id2);
    } else {
        let g1 = choose|p: PacketView| #[trigger] c1.sent.contains(p) && grants_in(p, ServerId(v.0), id1, t);
        let g2 = choose|p: PacketView| #[trigger] c2.sent.contains(p) && grants_in(p, ServerId(v.0), id2, t);
        assert(c2.sent.contains(g1));
        assert(g1.header.to == g2.header.to);
    }
}

/// Election Safety: at most one server is elected Leader in a term. Whenever, at any two moments
/// of a run, a server leads in some term and a server leads in the same term, they are the same
/// server.
pub proof fn law_one_leader_per_term(
    trace: Seq<ClusterView>,
    steps: Seq<ClusterStep>,
    k1: int,
    k2: int,
    i: int,
    j: int,
)
    requires
        cluster_run(trace, steps),
        0 <= k1 < trace.len(),
        0 <= k2 < trace.len(),
        0 <= i < trace[k1].servers.len(),
        0 <= j < trace[k2].servers.len(),
        trace[k1].servers[i].mode is Leader,
        trace[k2].servers[j].mode is Leader,
        trace[k1].servers[i].state.current_term == trace[k2].servers[j].state.current_term,
    ensures
        trace[k1].servers[i].server_id == trace[k2].servers[j].server_id,
{
    if k1 <= k2 {
        lemma_leaders_agree(trace, steps, k1, k2, i, j);
    } else {
        lemma_leaders_agree(trace, steps, k2, k1, j, i);
    }
}

/// The commit index and what was applied at each server after one step, against before it.
pub open spec fn commit_kept(old: Server, new: Server) -> bool {
    &&& old.state.commit_idx.0 <= new.state.commit_idx.0
    &&& old.state.last_applied.0 <= new.state.last_applied.0
    &&& old.state.applied().len() <= new.state.applied().len()
    &&& new.state.applied().subrange(0, old.state.applied().len() as int) == old.state.applied()
}

/// One step keeps what every server committed and applied.
proof fn lemma_step_keeps_commit(old: ClusterView, new: ClusterView, step: ClusterStep, i: int)
    requires
        election_inv(old),
        cluster_step(old, new, step),
        0 <= i < old.servers.len(),
    ensures
        commit_kept(old.servers[i], new.servers[i]),
{
    lemma_step_keeps_inv(old, new, step);
    let so = old.servers[i];
    let sn = new.servers[i];
    assert(so.wf() && sn.wf());
    assert(so.state.applied().subrange(0, so.state.applied().len() as int) =~= so.state.applied());
    match step {
        ClusterStep::Timeout(x) => {
            if i == x {
                let sent = choose|sent: Seq<(PeerId, RpcView)>|
                    #[trigger] server_timed_out(so, sn, sent) && new.sent == old.sent.union(
                        outgoing(so.server_id, sent).to_set(),
                    );
                law_timed_out_is_safe(&so.mode, &sn.mode, &so.state, &sn.state, so.server_id, so.peer_list@, Seq::empty(), sent);
            }
        },
        ClusterStep::Deliver(x, p) => {
            if i == x {
                let sent = choose|sent: Seq<(PeerId, RpcView)>|
                    #[trigger] server_took(so, sn, p, sent) && new.sent == old.sent.union(
                        outgoing(so.server_id, sent).to_set(),
                    );
                law_received_is_safe(
                    &so.mode,
                    &sn.mode,
                    &so.state,
                    &sn.state,
                    so.server_id,
                    PeerId(p.header.from.0),
                    p.rpc,
                    so.peer_list@,
                    Seq::empty(),
                    sent,
                );
            }
        },
        ClusterStep::ClientRequest(x, command) => {},
    }
}

/// Every server's commit index and last applied index never decrease along a run, and what it
/// applied stays applied, in order: at any two moments, what it had applied at the first is the
/// start of what it has applied at the second. At every moment it has applied exactly what it
/// committed.
pub proof fn law_commit_index_never_decreases_in_run(
    trace: Seq<ClusterView>,
    steps: Seq<ClusterStep>,
    k1: int,
    k2: int,
    i: int,
)
    requires
        cluster_run(trace, steps),
        0 <= k1 <= k2 < trace.len(),
        0 <= i < trace[k1].servers.len(),
    ensures
        i < trace[k2].servers.len(),
        commit_kept(trace[k1].servers[i], trace[k2].servers[i]),
        trace[k2].servers[i].state.last_applied == trace[k2].servers[i].state.commit_idx,
    decreases k2 - k1,
{
    lemma_run_inv(trace, steps, k1);
    lemma_run_inv(trace, steps, k2);
    assert(ids_of(trace[k1].servers).len() == ids_of(trace[k2].servers).len());
    assert(trace[k2].servers[i].wf());
    if k1 == k2 {
        let a = trace[k1].servers[i].state.applied();
        assert(a.subrange(0, a.len() as int) =~= a);
    } else {
        law_commit_index_never_decreases_in_run(trace, steps, k1, k2 - 1, i);
        lemma_run_inv(trace, steps, k2 - 1);
        assert(cluster_step(trace[k2 - 1], trace[k2], steps[k2 - 1]));
        lemma_step_keeps_commit(trace[k2 - 1], trace[k2], steps[k2 - 1], i);
        let a = trace[k1].servers[i].state.applied();
        let b = trace[k2 - 1].servers[i].state.applied();
        let c = trace[k2].servers[i].state.applied();
        assert(c.subrange(0, a.len() as int) =~= c.subrange(0, b.len() as int).subrange(0, a.len() as int));
    }
}

/// Among the packets `sent`, the server `from` told `to` in `term` that it stored what `to` sent
/// it, up to index `m`.
pub open spec fn acknowledged(sent: Set<PacketView>, from: ServerId, to: ServerId, term: Term, m: int) -> bool {
    exists|r: PacketView|
        #[trigger] sent.contains(r) && r.header.from == from && r.header.to == to
            && r.rpc is AppendEntryResp && r.rpc->AppendEntryResp_0.term == term
            && r.rpc->AppendEntryResp_0.success && Leader::reported_match(r.rpc->AppendEntryResp_0) == m
}

/// Every match index a Leader holds was reported to it, in its own term, by that peer.
pub open spec fn matches_acknowledged(c: ClusterView) -> bool {
    forall|k: int, j: int|
        #![trigger c.servers[k].mode->Leader_0.match_idx@[j]]
        0 <= k < c.servers.len() && c.servers[k].mode is Leader && 0 <= j
            < c.servers[k].mode->Leader_0.match_idx@.len() && c.servers[k].mode->Leader_0.match_idx@[j].0
            > 0 ==> acknowledged(
            c.sent,
            ServerId(c.servers[k].mode->Leader_0.peers@[j].0),
            c.servers[k].server_id,
            c.servers[k].state.current_term,
            c.servers[k].mode->Leader_0.match_idx@[j].0 as int,
        )
}

/// Taking a packet keeps every Leader's match indexes acknowledged.
#[verifier::rlimit(50)]
proof fn lemma_deliver_keeps_matches(old: ClusterView, new: ClusterView, x: usize, p: PacketView)
    requires
        election_inv(old),
        matches_acknowledged(old),
        cluster_step(old, new, ClusterStep::Deliver(x, p)),
    ensures
        matches_acknowledged(new),
{
    lemma_deliver_keeps_inv(old, new, x, p);
    let xi = x as int;
    let id = old.servers[xi].server_id;
    let so = old.servers[xi];
    let sn = new.servers[xi];
    let peer = PeerId(p.header.from.0);
    let sent = choose|sent: Seq<(PeerId, RpcView)>|
        #[trigger] server_took(so, sn, p, sent) && new.sent == old.sent.union(
            outgoing(id, sent).to_set(),
        );
    assert(so.wf());
    lemma_received_office(&so.mode, &sn.mode, &so.state, &sn.state, id, peer, p.rpc, so.peer_list@, sent);
    assert forall|k: int, j: int|
        #![trigger new.servers[k].mode->Leader_0.match_idx@[j]]
        0 <= k < new.servers.len() && new.servers[k].mode is Leader && 0 <= j
            < new.servers[k].mode->Leader_0.match_idx@.len() && new.servers[k].mode->Leader_0.match_idx@[j].0
            > 0 implies acknowledged(
        new.sent,
        ServerId(new.servers[k].mode->Leader_0.peers@[j].0),
        new.servers[k].server_id,
        new.servers[k].state.current_term,
        new.servers[k].mode->Leader_0.match_idx@[j].0 as int,
    ) by {
        let nl = new.servers[k].mode->Leader_0;
        if k == xi && so.mode is Leader {
            let l = so.mode->Leader_0;
            let s1 = state_for_rpc(&so.state, p.rpc);
            assert(s1 == so.state);
            assert(l.match_idx@.len() == nl.match_idx@.len());
            let changed = match p.rpc {
                RpcView::AppendEntryResp(resp) => l.answers_current_rpc(s1.current_term, peer, resp)
                    && resp.success && Leader::reported_match(resp) <= s1.log@.len() && j
                    == crate::mode::leader::first_pos(l.peers@, peer),
                _ => false,
            };
            match p.rpc {
                RpcView::AppendEntryResp(resp) => {
                    let check = choose|check: Option<Idx>|
                        leader_took_response(&l, &nl, &s1, id, peer, resp, check, Seq::empty(), sent);
                    assert(leader_took_response(&l, &nl, &s1, id, peer, resp, check, Seq::empty(), sent));
                    let pos = crate::mode::leader::first_pos(l.peers@, peer);
                    crate::mode::leader::lemma_first_pos(l.peers@, peer);
                    if changed {
                        assert(l.peers@[pos] == peer);
                        assert(new.sent.contains(p));
                    }
                },
                _ => {},
            }
            if !changed {
                assert(nl.match_idx@[j] == l.match_idx@[j]);
                let r = choose|r: PacketView|
                    #[trigger] old.sent.contains(r) && r.header.from == ServerId(l.peers@[j].0) && r.header.to == id
                        && r.rpc is AppendEntryResp && r.rpc->AppendEntryResp_0.term == so.state.current_term
                        && r.rpc->AppendEntryResp_0.success && Leader::reported_match(r.rpc->AppendEntryResp_0)
                        == l.match_idx@[j].0 as int;
                assert(new.sent.contains(r));
            }
        } else if k == xi {
            assert(so.mode is Candidate);
            assert(crate::mode::fresh_leader(&nl, so.peer_list@, &sn.state));
        } else {
            let ol = old.servers[k].mode->Leader_0;
            assert(old.servers[k] == new.servers[k]);
            let r = choose|r: PacketView|
                #[trigger] old.sent.contains(r) && r.header.from == ServerId(ol.peers@[j].0)
                    && r.header.to == old.servers[k].server_id && r.rpc is AppendEntryResp
                    && r.rpc->AppendEntryResp_0.term == old.servers[k].state.current_term
                    && r.rpc->AppendEntryResp_0.success && Leader::reported_match(r.rpc->AppendEntryResp_0)
                    == ol.match_idx@[j].0 as int;
            assert(new.sent.contains(r));
        }
    }
}

/// Any step keeps every Leader's match indexes acknowledged.
proof fn lemma_step_keeps_matches(old: ClusterView, new: ClusterView, step: ClusterStep)
    requires
        election_inv(old),
        matches_acknowledged(old),
        cluster_step(old, new, step),
    ensures
        matches_acknowledged(new),
{
    match step {
        ClusterStep::Deliver(x, p) => lemma_deliver_keeps_matches(old, new, x, p),
        ClusterStep::Timeout(x) => {
            lemma_timeout_keeps_inv(old, new, x);
            let xi = x as int;
            let so = old.servers[xi];
            let sn = new.servers[xi];
            let sent = choose|sent: Seq<(PeerId, RpcView)>|
                #[trigger] server_timed_out(so, sn, sent) && new.sent == old.sent.union(
                    outgoing(so.server_id, sent).to_set(),
                );
            lemma_timed_out_sends(&so.mode, &sn.mode, &so.state, &sn.state, so.server_id, so.peer_list@, sent);
            assert forall|k: int, j: int|
                #![trigger new.servers[k].mode->Leader_0.match_idx@[j]]
                0 <= k < new.servers.len() && new.servers[k].mode is Leader && 0 <= j
                    < new.servers[k].mode->Leader_0.match_idx@.len()
                    && new.servers[k].mode->Leader_0.match_idx@[j].0 > 0 implies acknowledged(
                new.sent,
                ServerId(new.servers[k].mode->Leader_0.peers@[j].0),
                new.servers[k].server_id,
                new.servers[k].state.current_term,
                new.servers[k].mode->Leader_0.match_idx@[j].0 as int,
            ) by {
                if k == xi && !(so.mode is Leader) {
                    assert(sn.wf());
                    assert(new.servers[k].mode->Leader_0.match_idx@.len() == 0);
                } else {
                    let ol = old.servers[k].mode->Leader_0;
                    let r = choose|r: PacketView|
                        #[trigger] old.sent.contains(r) && r.header.from == ServerId(ol.peers@[j].0)
                            && r.header.to == old.servers[k].server_id && r.rpc is AppendEntryResp
                            && r.rpc->AppendEntryResp_0.term == old.servers[k].state.current_term
                            && r.rpc->AppendEntryResp_0.success && Leader::reported_match(
                            r.rpc->AppendEntryResp_0,
                        ) == ol.match_idx@[j].0 as int;
                    assert(new.sent.contains(r));
                }
            }
        },
        ClusterStep::ClientRequest(x, command) => {
            assert(new.servers.len() == old.servers.len());
        },
    }
}

/// Every cluster of a run keeps every Leader's match indexes acknowledged.
proof fn lemma_run_matches(trace: Seq<ClusterView>, steps: Seq<ClusterStep>, k: int)
    requires
        cluster_run(trace, steps),
        0 <= k < trace.len(),
    ensures
        matches_acknowledged(trace[k]),
    decreases k,
{
    if k > 0 {
        lemma_run_matches(trace, steps, k - 1);
        lemma_run_inv(trace, steps, k - 1);
        assert(cluster_step(trace[k - 1], trace[k], steps[k - 1]));
        lemma_step_keeps_matches(trace[k - 1], trace[k], steps[k - 1]);
    }
}

/// A Leader counts only what its peers told it in its own term: in every cluster of a run, each
/// match index `m > 0` that a Leader holds for a peer was reported to it by that peer, in a
/// successful AppendEntries response of the Leader's current term, as the echoed prev plus the
/// entries stored. A response from an earlier term, which answered another Leader, never counts.
pub proof fn law_leader_counts_only_its_own_term(
    trace: Seq<ClusterView>,
    steps: Seq<ClusterStep>,
    k: int,
    i: int,
    j: int,
)
    requires
        cluster_run(trace, steps),
        0 <= k < trace.len(),
        0 <= i < trace[k].servers.len(),
        trace[k].servers[i].mode is Leader,
        0 <= j < trace[k].servers[i].mode->Leader_0.match_idx@.len(),
        trace[k].servers[i].mode->Leader_0.match_idx@[j].0 > 0,
    ensures
        acknowledged(
            trace[k].sent,
            ServerId(trace[k].servers[i].mode->Leader_0.peers@[j].0),
            trace[k].servers[i].server_id,
            trace[k].servers[i].state.current_term,
            trace[k].servers[i].mode->Leader_0.match_idx@[j].0 as int,
        ),
{
    lemma_run_matches(trace, steps, k);
    let c = trace[k];
    assert(c.servers[i].mode->Leader_0.match_idx@[j] == c.servers[i].mode->Leader_0.match_idx@[j]);
}

} // verus!
