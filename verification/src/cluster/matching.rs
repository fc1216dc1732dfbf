//! Log Matching over a whole cluster: wherever two logs hold an entry of the same term at one
//! index, they agree on every entry up to it.
//!
//! The proof looks at every place entries live: the log of each server and the entries of every
//! AppendEntries that was sent. Each is a fragment of a log, from some index on, together with the
//! term of the entry just before it. Entries of one index and term agree, with the terms before
//! them, wherever they live; a Leader holds every entry of its own term; and every entry's term was
//! won by a server that led in it.

use crate::cluster::{
    asked_for_votes, cluster_run, cluster_step, election_inv, holds_vote, ids_of, lemma_outgoing_member,
    lemma_received_office, lemma_run_inv, lemma_timed_out_sends, server_timed_out, server_took,
    votes_evidence, ClusterStep, ClusterView,
};
use crate::log::{store_leader_entries, Entry, Term};
use crate::mode::follower::{accepts_append_entries, log_after_append};
use crate::mode::leader::{append_entries_for, lemma_first_pos, Leader};
use crate::mode::{mode_received, mode_timed_out, quorum_of, state_for_rpc, Mode};
use crate::packet::{AppendEntriesView, PacketView, RpcView};
use crate::server::{outgoing, Id, PeerId, ServerId};
use crate::sim::{log_pair_matches, logs_match_spec};
use vstd::prelude::*;

verus! {

/// Entries that sit at the indexes after `offset`, and the term of the entry at `offset`.
pub struct Fragment {
    pub offset: nat,
    pub prev_term: Term,
    pub entries: Seq<Entry>,
}

impl Fragment {
    /// The fragment holds an entry at the 1-based index `i`.
    pub open spec fn has(self, i: int) -> bool {
        self.offset < i <= self.offset + self.entries.len()
    }

    /// The entry at the 1-based index `i`.
    pub open spec fn at(self, i: int) -> Entry {
        self.entries[i - self.offset - 1]
    }

    /// The term of the entry just before index `i`.
    pub open spec fn pred(self, i: int) -> Term {
        if i == self.offset + 1 {
            self.prev_term
        } else {
            self.entries[i - self.offset - 2].term
        }
    }
}

/// A whole log, from its first index on.
pub open spec fn log_fragment(log: Seq<Entry>) -> Fragment {
    Fragment { offset: 0, prev_term: Term::initial_spec(), entries: log }
}

/// The entries an AppendEntries carries, behind its prev.
pub open spec fn ae_fragment(ae: AppendEntriesView) -> Fragment {
    Fragment { offset: ae.prev_log_term_idx.idx.0 as nat, prev_term: ae.prev_log_term_idx.term, entries: ae.entries }
}

/// `f` is the log of a server of `c`, or the entries of an AppendEntries that was sent.
pub open spec fn is_fragment(c: ClusterView, f: Fragment) -> bool {
    ||| exists|k: int| 0 <= k < c.servers.len() && f == log_fragment(#[trigger] c.servers[k].state.log@)
    ||| exists|p: PacketView|
        #[trigger] c.sent.contains(p) && p.rpc is AppendEntry && f == ae_fragment(p.rpc->AppendEntry_0)
}

/// Every index of `f` is held by `g`, with the same entry and the same term before it.
pub open spec fn sub_fragment(f: Fragment, g: Fragment) -> bool {
    forall|i: int| #![trigger f.at(i)] f.has(i) ==> g.has(i) && g.at(i) == f.at(i) && g.pred(i) == f.pred(i)
}

/// Every index of `f` is held by some fragment of `c`, with the same entry and the same term before
/// it.
pub open spec fn covered(c: ClusterView, f: Fragment) -> bool {
    forall|i: int| #![trigger covered_at(c, f, i)] f.has(i) ==> covered_at(c, f, i)
}

/// Some fragment of `c` holds the entry of `f` at `i`, with the same term before it.
pub open spec fn covered_at(c: ClusterView, f: Fragment, i: int) -> bool {
    exists|g: Fragment|
        #[trigger] is_fragment(c, g) && g.has(i) && g.at(i) == f.at(i) && g.pred(i) == f.pred(i)
}

/// The server at `k` won `t`, and leads in it or has moved past it.
pub open spec fn term_led_by(c: ClusterView, k: int, t: Term) -> bool {
    &&& elected_in(c, c.servers[k].server_id, t)
    &&& {
        ||| c.servers[k].state.current_term.0 > t.0
        ||| c.servers[k].state.current_term == t && c.servers[k].mode is Leader
    }
}

/// The server `cand` holds the votes of a majority in `t`, and asked for them if it has peers.
pub open spec fn won_with(c: ClusterView, cand: ServerId, t: Term, q: Seq<Id>) -> bool {
    &&& ids_of(c.servers).contains(Id(cand.0))
    &&& q.no_duplicates()
    &&& q.len() >= quorum_of((c.servers.len() - 1) as nat)
    &&& forall|j: int|
        #![trigger q[j]]
        0 <= j < q.len() ==> ids_of(c.servers).contains(q[j]) && holds_vote(c.sent, q[j], cand, t)
    &&& c.servers.len() > 1 ==> asked_for_votes(c.sent, cand, t)
}

/// The server `cand` won an election in `t`.
pub open spec fn elected_in(c: ClusterView, cand: ServerId, t: Term) -> bool {
    exists|q: Seq<Id>| #[trigger] won_with(c, cand, t, q)
}

/// Entries of one index and term agree, with the terms before them, wherever they live in `c`.
pub open spec fn fragments_agree(c: ClusterView) -> bool {
    forall|f: Fragment, g: Fragment, i: int|
        #![trigger is_fragment(c, f), is_fragment(c, g), f.at(i), g.at(i)]
        is_fragment(c, f) && is_fragment(c, g) && f.has(i) && g.has(i) && f.at(i).term == g.at(i).term
            ==> f.at(i) == g.at(i) && f.pred(i) == g.pred(i)
}

/// A Leader holds every entry of its own term.
pub open spec fn leaders_hold_their_terms(c: ClusterView) -> bool {
    forall|k: int, f: Fragment, i: int|
        #![trigger c.servers[k], is_fragment(c, f), f.at(i)]
        0 <= k < c.servers.len() && c.servers[k].mode is Leader && is_fragment(c, f) && f.has(i)
            && f.at(i).term == c.servers[k].state.current_term ==> {
            &&& 1 <= i <= c.servers[k].state.log@.len()
            &&& c.servers[k].state.log@[i - 1] == f.at(i)
        }
}

/// What every reachable cluster keeps about entries.
pub open spec fn log_inv(c: ClusterView) -> bool {
    &&& fragments_agree(c)
    &&& leaders_hold_their_terms(c)
    &&& terms_were_led(c)
}

/// Two servers that won the same term are the same server.
pub proof fn lemma_elected_unique(c: ClusterView, a: ServerId, b: ServerId, t: Term)
    requires
        election_inv(c),
        elected_in(c, a, t),
        elected_in(c, b, t),
    ensures
        a == b,
{
    let n = c.servers.len();
    let ids = ids_of(c.servers);
    let qa = choose|q: Seq<Id>| #[trigger] won_with(c, a, t, q);
    let qb = choose|q: Seq<Id>| #[trigger] won_with(c, b, t, q);
    if n <= 1 {
        let xa = choose|x: int| 0 <= x < ids.len() && ids[x] == Id(a.0);
        let xb = choose|x: int| 0 <= x < ids.len() && ids[x] == Id(b.0);
        assert(Id(a.0) == Id(b.0));
        return;
    }
    let ra = choose|r: PacketView|
        #[trigger] c.sent.contains(r) && r.header.from == a && r.rpc is RequestVote
            && r.rpc->RequestVote_0.term == t;
    let rb = choose|r: PacketView|
        #[trigger] c.sent.contains(r) && r.header.from == b && r.rpc is RequestVote
            && r.rpc->RequestVote_0.term == t;
    crate::mode::safety::law_quorums_intersect((n - 1) as nat);
    let u = ids.to_set();
    let sa = qa.to_set();
    let sb = qb.to_set();
    ids.unique_seq_to_set();
    qa.unique_seq_to_set();
    qb.unique_seq_to_set();
    assert(sa.subset_of(u));
    assert(sb.subset_of(u));
    vstd::set_lib::lemma_set_intersect_union_lens(sa, sb);
    vstd::set_lib::lemma_len_subset(sa.union(sb), u);
    let both = sa.intersect(sb);
    assert(both.len() > 0);
    let v = both.choose();
    assert(both.contains(v));
    let xa = choose|x: int| 0 <= x < qa.len() && qa[x] == v;
    let xb = choose|x: int| 0 <= x < qb.len() && qb[x] == v;
    assert(holds_vote(c.sent, qa[xa], a, t));
    assert(holds_vote(c.sent, qb[xb], b, t));
    if v == Id(a.0) {
        if v != Id(b.0) {
            let g = choose|p: PacketView| #[trigger] c.sent.contains(p) && crate::cluster::grants_in(p, ServerId(v.0), b, t);
            assert(g.header.from == a);
        }
    } else if v == Id(b.0) {
        let g = choose|p: PacketView| #[trigger] c.sent.contains(p) && crate::cluster::grants_in(p, ServerId(v.0), a, t);
        assert(g.header.from == b);
    } else {
        let g1 = choose|p: PacketView| #[trigger] c.sent.contains(p) && crate::cluster::grants_in(p, ServerId(v.0), a, t);
        let g2 = choose|p: PacketView| #[trigger] c.sent.contains(p) && crate::cluster::grants_in(p, ServerId(v.0), b, t);
        assert(g1.header.to == g2.header.to);
    }
}

/// A won election stays won as more is sent.
pub proof fn lemma_elected_grows(old: ClusterView, new: ClusterView, a: ServerId, t: Term)
    requires
        elected_in(old, a, t),
        old.sent.subset_of(new.sent),
        ids_of(new.servers) == ids_of(old.servers),
    ensures
        elected_in(new, a, t),
{
    let q = choose|q: Seq<Id>| #[trigger] won_with(old, a, t, q);
    assert(new.servers.len() == ids_of(new.servers).len());
    assert(old.servers.len() == ids_of(old.servers).len());
    assert forall|j: int| 0 <= j < q.len() implies ids_of(new.servers).contains(#[trigger] q[j])
        && holds_vote(new.sent, q[j], a, t) by {
        if q[j] != Id(a.0) {
            let p = choose|p: PacketView| #[trigger] old.sent.contains(p) && crate::cluster::grants_in(p, ServerId(q[j].0), a, t);
            assert(new.sent.contains(p));
        }
    }
    if new.servers.len() > 1 {
        let r = choose|r: PacketView|
            #[trigger] old.sent.contains(r) && r.header.from == a && r.rpc is RequestVote
                && r.rpc->RequestVote_0.term == t;
        assert(new.sent.contains(r));
    }
    assert(won_with(new, a, t, q));
}

/// A Leader won its term.
pub proof fn lemma_leader_elected(c: ClusterView, k: int)
    requires
        election_inv(c),
        0 <= k < c.servers.len(),
        c.servers[k].mode is Leader,
    ensures
        elected_in(c, c.servers[k].server_id, c.servers[k].state.current_term),
{
    let q = choose|q: Seq<Id>|
        #[trigger] votes_evidence(c, k, q) && q.len() >= quorum_of(c.servers[k].peer_list@.len());
    assert(ids_of(c.servers)[k] == Id(c.servers[k].server_id.0));
    assert(c.servers[k].peer_list@.len() + 1 == c.servers.len());
    assert(won_with(c, c.servers[k].server_id, c.servers[k].state.current_term, q));
}

/// Two fragments that hold an entry of the same term at `i` agree on every index up to it that
/// both hold.
pub proof fn lemma_fragments_chain(c: ClusterView, f: Fragment, g: Fragment, i: int)
    requires
        fragments_agree(c),
        is_fragment(c, f),
        is_fragment(c, g),
        f.has(i),
        g.has(i),
        f.at(i).term == g.at(i).term,
    ensures
        forall|j: int| #![trigger f.at(j), g.at(j)] f.has(j) && g.has(j) && j <= i ==> f.at(j) == g.at(j),
    decreases i,
{
    assert(f.at(i) == g.at(i) && f.pred(i) == g.pred(i));
    if f.has(i - 1) && g.has(i - 1) {
        assert(f.pred(i) == f.at(i - 1).term);
        assert(g.pred(i) == g.at(i - 1).term);
        lemma_fragments_chain(c, f, g, i - 1);
    }
}

/// The AppendEntries a Leader in `st` sends from `nx` carries a piece of its log.
pub proof fn lemma_ae_from_log(st: crate::state::raft_state::RaftState, id: ServerId, nx: crate::log::Idx)
    requires
        1 <= nx.0 <= st.log@.len() + 1,
    ensures
        append_entries_for(&st, id, nx) is AppendEntry,
        sub_fragment(ae_fragment(append_entries_for(&st, id, nx)->AppendEntry_0), log_fragment(st.log@)),
{
    let f = ae_fragment(append_entries_for(&st, id, nx)->AppendEntry_0);
    let g = log_fragment(st.log@);
    assert(f.offset == nx.0 - 1);
    assert(f.entries =~= st.log@.subrange(nx.0 - 1, st.log@.len() as int));
    assert forall|i: int| #![trigger f.at(i)] f.has(i) implies g.has(i) && g.at(i) == f.at(i) && g.pred(i) == f.pred(i) by {
        if i == f.offset + 1 && nx.0 > 1 {
            assert(f.prev_term == st.log@[nx.0 - 2].term);
        }
    }
}

/// What a Leader broadcasts carries pieces of its log.
pub proof fn lemma_broadcast_copies(l: Leader, peer_list: Seq<PeerId>, st: crate::state::raft_state::RaftState, id: ServerId)
    requires
        l.wf(st.log@.len()),
        l.peers@ == peer_list,
    ensures
        forall|k: int|
            #![trigger l.broadcast(peer_list, &st, id)[k]]
            0 <= k < peer_list.len() ==> {
                &&& l.broadcast(peer_list, &st, id)[k].1 is AppendEntry
                &&& sub_fragment(
                    ae_fragment(l.broadcast(peer_list, &st, id)[k].1->AppendEntry_0),
                    log_fragment(st.log@),
                )
            },
{
    assert forall|k: int| #![trigger l.broadcast(peer_list, &st, id)[k]] 0 <= k < peer_list.len() implies {
        &&& l.broadcast(peer_list, &st, id)[k].1 is AppendEntry
        &&& sub_fragment(
            ae_fragment(l.broadcast(peer_list, &st, id)[k].1->AppendEntry_0),
            log_fragment(st.log@),
        )
    } by {
        let p = peer_list[k];
        lemma_first_pos(l.peers@, p);
        assert(l.peers@.contains(p));
        let nx = l.next_of(p);
        assert(l.broadcast(peer_list, &st, id)[k] == (p, append_entries_for(&st, id, nx)));
        lemma_ae_from_log(st, id, nx);
    }
}

/// What a timeout sends carries pieces of the Leader's log, which it leaves as it was.
pub proof fn lemma_timed_out_copies(
    old_mode: &Mode,
    new_mode: &Mode,
    old: &crate::state::raft_state::RaftState,
    new: &crate::state::raft_state::RaftState,
    server_id: ServerId,
    peer_list: Seq<PeerId>,
    sent: Seq<(PeerId, RpcView)>,
)
    requires
        mode_timed_out(old_mode, new_mode, old, new, server_id, peer_list, Seq::empty(), sent),
        old_mode.wf(peer_list, old.log@.len()),
    ensures
        new.log@ == old.log@,
        forall|k: int|
            #![trigger sent[k]]
            0 <= k < sent.len() && sent[k].1 is AppendEntry ==> sub_fragment(
                ae_fragment(sent[k].1->AppendEntry_0),
                log_fragment(old.log@),
            ),
{
    crate::mode::safety::law_timed_out_is_safe(old_mode, new_mode, old, new, server_id, peer_list, Seq::empty(), sent);
    match old_mode {
        Mode::Leader(l) => {
            lemma_broadcast_copies(*l, peer_list, *old, server_id);
            assert forall|k: int| #![trigger sent[k]] 0 <= k < sent.len() && sent[k].1 is AppendEntry implies sub_fragment(
                ae_fragment(sent[k].1->AppendEntry_0),
                log_fragment(old.log@),
            ) by {
                assert(sent[k] == l.broadcast(peer_list, old, server_id)[k]);
            }
        },
        _ => {
            lemma_timed_out_sends(old_mode, new_mode, old, new, server_id, peer_list, sent);
            assert forall|k: int| #![trigger sent[k]] 0 <= k < sent.len() implies !(sent[k].1 is AppendEntry) by {
                if peer_list.len() > 0 {
                    assert(sent[k] == crate::mode::candidate::request_votes(
                        peer_list,
                        new.current_term,
                        server_id,
                        crate::log::last_term_idx_of(old.log@),
                    )[k]);
                }
            }
        },
    }
}

/// What taking an RPC sends carries pieces of the Leader's log, which it leaves as it was.
pub proof fn lemma_received_copies(
    old_mode: &Mode,
    new_mode: &Mode,
    old: &crate::state::raft_state::RaftState,
    new: &crate::state::raft_state::RaftState,
    server_id: ServerId,
    peer_id: PeerId,
    rpc: RpcView,
    peer_list: Seq<PeerId>,
    sent: Seq<(PeerId, RpcView)>,
)
    requires
        crate::mode::mode_can_take(old_mode, old, peer_id, rpc),
        mode_received(old_mode, new_mode, old, new, server_id, peer_id, rpc, peer_list, Seq::empty(), sent),
        old_mode.wf(peer_list, old.log@.len()),
    ensures
        forall|k: int|
            #![trigger sent[k]]
            0 <= k < sent.len() && sent[k].1 is AppendEntry ==> {
                &&& new.log@ == old.log@
                &&& sub_fragment(ae_fragment(sent[k].1->AppendEntry_0), log_fragment(old.log@))
            },
{
    lemma_received_office(old_mode, new_mode, old, new, server_id, peer_id, rpc, peer_list, sent);
    let s1 = state_for_rpc(old, rpc);
    assert forall|k: int| #![trigger sent[k]] 0 <= k < sent.len() && sent[k].1 is AppendEntry implies {
        &&& new.log@ == old.log@
        &&& sub_fragment(ae_fragment(sent[k].1->AppendEntry_0), log_fragment(old.log@))
    } by {
        match crate::mode::mode_for_rpc(old_mode, old, rpc) {
            Mode::Follower(f) => {
                match rpc {
                    RpcView::RequestVote(rv) => {
                        assert(sent =~= Seq::<(PeerId, RpcView)>::empty().push(
                            (peer_id, RpcView::RequestVoteResp(crate::packet::RequestVoteResp { term: s1.current_term, vote_granted: crate::packet::request_vote::grants_vote(&s1, rv) })),
                        ));
                    },
                    RpcView::AppendEntry(ae) => {
                        assert(sent =~= Seq::<(PeerId, RpcView)>::empty().push(
                            (peer_id, crate::mode::follower::append_entries_response(&s1, ae)),
                        ));
                    },
                    _ => {},
                }
            },
            Mode::Candidate(c) => {
                if new_mode is Leader {
                    let n = new_mode->Leader_0;
                    lemma_broadcast_copies(n, peer_list, *new, server_id);
                    assert(sent[k] == n.broadcast(peer_list, new, server_id)[k]);
                } else {
                    match rpc {
                        RpcView::RequestVote(rv) => {
                            assert(sent =~= Seq::<(PeerId, RpcView)>::empty().push(
                                (peer_id, RpcView::RequestVoteResp(crate::packet::RequestVoteResp { term: s1.current_term, vote_granted: crate::packet::request_vote::grants_vote(&s1, rv) })),
                            ));
                        },
                        RpcView::AppendEntry(ae) => {
                            if ae.term.0 >= s1.current_term.0 {
                                assert(sent =~= Seq::<(PeerId, RpcView)>::empty().push(
                                    (peer_id, crate::mode::follower::append_entries_response(&s1, ae)),
                                ));
                            } else {
                                assert(sent[k].1 is AppendEntryResp);
                            }
                        },
                        _ => {},
                    }
                }
            },
            Mode::Leader(l) => {
                let n = new_mode->Leader_0;
                match rpc {
                    RpcView::RequestVote(rv) => {
                        assert(sent =~= Seq::<(PeerId, RpcView)>::empty().push(
                            (peer_id, RpcView::RequestVoteResp(crate::packet::RequestVoteResp { term: s1.current_term, vote_granted: crate::packet::request_vote::grants_vote(&s1, rv) })),
                        ));
                    },
                    RpcView::AppendEntryResp(resp) => {
                        let check = choose|check: Option<crate::log::Idx>|
                            crate::mode::leader::leader_took_response(&l, &n, &s1, server_id, peer_id, resp, check, Seq::empty(), sent);
                        assert(crate::mode::leader::leader_took_response(&l, &n, &s1, server_id, peer_id, resp, check, Seq::empty(), sent));
                        lemma_first_pos(l.peers@, peer_id);
                        let next = crate::log::Idx((l.next_of(peer_id).0 - 1) as u64);
                        if l.answers_current_rpc(s1.current_term, peer_id, resp) && !resp.success {
                            lemma_ae_from_log(s1, server_id, next);
                            assert(sent[k] == (peer_id, append_entries_for(&s1, server_id, next)));
                        }
                    },
                    _ => {},
                }
            },
        }
    }
}

/// The log a Follower in `st` keeps after answering `ae` is covered by its old log and the
/// entries `ae` carries.
pub proof fn lemma_append_covered(c: ClusterView, st: crate::state::raft_state::RaftState, ae: AppendEntriesView)
    requires
        fragments_agree(c),
        is_fragment(c, log_fragment(st.log@)),
        is_fragment(c, ae_fragment(ae)),
        st.log@.len() + ae.entries.len() < u64::MAX,
    ensures
        covered(c, log_fragment(log_after_append(&st, ae))),
{
    let ff = log_fragment(st.log@);
    let r = log_after_append(&st, ae);
    if !accepts_append_entries(&st, ae) {
        assert forall|i: int| #![trigger covered_at(c, log_fragment(r), i)] log_fragment(r).has(i) implies covered_at(c, log_fragment(r), i) by {
            assert(is_fragment(c, ff) && ff.has(i));
        }
        return;
    }
    let f = st.log@;
    let m = ae_fragment(ae);
    let prev = ae.prev_log_term_idx.idx.0 as nat;
    let k = ae.entries.len();
    assert(prev <= f.len());
    assert(prev == 0 || f[prev - 1].term == ae.prev_log_term_idx.term);
    let v = f.subrange(0, prev as int) + ae.entries;
    assert(log_pair_matches(v, f)) by {
        assert forall|p: int| #![trigger v[p], f[p]] 0 <= p < v.len() && p < f.len() && v[p].term == f[p].term implies v.subrange(0, p + 1) == f.subrange(0, p + 1) by {
            if p >= prev {
                let i = p + 1;
                assert(m.has(i) && ff.has(i));
                assert(m.at(i) == v[p]);
                lemma_fragments_chain(c, m, ff, i);
                assert forall|q: int| 0 <= q <= p implies v[q] == f[q] by {
                    if q >= prev {
                        assert(m.at(q + 1) == v[q]);
                        assert(ff.at(q + 1) == f[q]);
                    }
                }
            }
            assert(v.subrange(0, p + 1) =~= f.subrange(0, p + 1));
        }
    }
    assert(ae.entries =~= v.subrange(prev as int, (prev + k) as int));
    crate::sim::lemma_store_follows_leader(v, f, prev, ae.entries, k, k);
    assert(r == store_leader_entries(f, prev, ae.entries, k));
    if r.len() > prev + k {
        assert(r == f);
    } else {
        assert(r =~= r.subrange(0, (prev + k) as int));
        assert(r =~= v);
    }
    let fr = log_fragment(r);
    assert forall|i: int| #![trigger covered_at(c, fr, i)] fr.has(i) implies covered_at(c, fr, i) by {
        if r == f || i <= prev {
            assert(ff.has(i) && ff.at(i) == fr.at(i) && ff.pred(i) == fr.pred(i));
        } else {
            assert(m.has(i) && m.at(i) == fr.at(i));
            assert(m.pred(i) == fr.pred(i));
        }
    }
}

/// After a step in which only the server at `x` changed and what it sent joined the packets sent
/// so far, a fragment is that server's log, a fragment from before, or a newly sent AppendEntries.
pub proof fn lemma_fragment_source(old: ClusterView, new: ClusterView, x: int, f: Fragment)
    requires
        0 <= x < old.servers.len(),
        new.servers == old.servers.update(x, new.servers[x]),
        old.sent.subset_of(new.sent),
        is_fragment(new, f),
    ensures
        f == log_fragment(new.servers[x].state.log@) || is_fragment(old, f) || exists|p: PacketView|
            #[trigger] new.sent.contains(p) && !old.sent.contains(p) && p.rpc is AppendEntry && f
                == ae_fragment(p.rpc->AppendEntry_0),
{
    if exists|k: int| 0 <= k < new.servers.len() && f == log_fragment(#[trigger] new.servers[k].state.log@) {
        let k = choose|k: int| 0 <= k < new.servers.len() && f == log_fragment(#[trigger] new.servers[k].state.log@);
        if k != x {
            assert(f == log_fragment(old.servers[k].state.log@));
        }
    } else {
        let p = choose|p: PacketView|
            #[trigger] new.sent.contains(p) && p.rpc is AppendEntry && f == ae_fragment(p.rpc->AppendEntry_0);
        if old.sent.contains(p) {
            assert(is_fragment(old, f));
        }
    }
}

/// Fragments that are each covered by the fragments of a cluster where fragments agree agree too.
pub proof fn lemma_agree_from_cover(old: ClusterView, new: ClusterView)
    requires
        fragments_agree(old),
        forall|f: Fragment| #[trigger] is_fragment(new, f) ==> covered(old, f),
    ensures
        fragments_agree(new),
{
    assert forall|f: Fragment, g: Fragment, i: int|
        #![trigger is_fragment(new, f), is_fragment(new, g), f.at(i), g.at(i)]
        is_fragment(new, f) && is_fragment(new, g) && f.has(i) && g.has(i) && f.at(i).term == g.at(i).term
            implies f.at(i) == g.at(i) && f.pred(i) == g.pred(i) by {
        assert(covered(old, f) && covered(old, g));
        assert(covered_at(old, f, i) && covered_at(old, g, i));
        let f2 = choose|h: Fragment| #[trigger] is_fragment(old, h) && h.has(i) && h.at(i) == f.at(i) && h.pred(i) == f.pred(i);
        let g2 = choose|h: Fragment| #[trigger] is_fragment(old, h) && h.has(i) && h.at(i) == g.at(i) && h.pred(i) == g.pred(i);
    }
}

/// The term of every entry was won by a server that leads in it or moved past it.
pub open spec fn terms_were_led(c: ClusterView) -> bool {
    forall|f: Fragment, i: int|
        #![trigger is_fragment(c, f), f.at(i)]
        is_fragment(c, f) && f.has(i) ==> term_was_led(c, f.at(i).term)
}

/// Some server of `c` won `t`, and leads in it or moved past it.
pub open spec fn term_was_led(c: ClusterView, t: Term) -> bool {
    exists|k: int| 0 <= k < c.servers.len() && #[trigger] term_led_by(c, k, t)
}

/// Entries covered by those of a cluster whose terms were led keep their terms led, when whoever
/// led a term still does or moved past it.
pub proof fn lemma_led_from_cover(old: ClusterView, new: ClusterView)
    requires
        terms_were_led(old),
        new.servers.len() == old.servers.len(),
        forall|f: Fragment| #[trigger] is_fragment(new, f) ==> covered(old, f),
        forall|k: int, t: Term| 0 <= k < old.servers.len() && #[trigger] term_led_by(old, k, t) ==> term_led_by(new, k, t),
    ensures
        terms_were_led(new),
{
    assert forall|f: Fragment, i: int| #![trigger is_fragment(new, f), f.at(i)] is_fragment(new, f) && f.has(i)
        implies term_was_led(new, f.at(i).term) by {
        assert(covered(old, f));
        assert(covered_at(old, f, i));
        let g = choose|h: Fragment| #[trigger] is_fragment(old, h) && h.has(i) && h.at(i) == f.at(i) && h.pred(i) == f.pred(i);
        let k = choose|k: int| 0 <= k < old.servers.len() && #[trigger] term_led_by(old, k, g.at(i).term);
        assert(term_led_by(new, k, f.at(i).term));
    }
}

/// A piece of a fragment of `c` is covered by `c`.
pub proof fn lemma_sub_covered(c: ClusterView, f: Fragment, g: Fragment)
    requires
        is_fragment(c, g),
        sub_fragment(f, g),
    ensures
        covered(c, f),
{
    assert forall|i: int| #![trigger covered_at(c, f, i)] f.has(i) implies covered_at(c, f, i) by {
        assert(sub_fragment(f, g));
        assert(f.has(i));
        let e = f.at(i);
        assert(g.has(i));
        assert(g.has(i) && g.at(i) == f.at(i) && g.pred(i) == f.pred(i));
        assert(is_fragment(c, g));
    }
}

/// The log of a server is a fragment.
pub proof fn lemma_log_is_fragment(c: ClusterView, k: int)
    requires
        0 <= k < c.servers.len(),
    ensures
        is_fragment(c, log_fragment(c.servers[k].state.log@)),
{
}

/// A timeout keeps the invariant on entries.
pub(crate) proof fn lemma_timeout_keeps_log_inv(old: ClusterView, new: ClusterView, x: usize)
    requires
        election_inv(old),
        log_inv(old),
        cluster_step(old, new, ClusterStep::Timeout(x)),
    ensures
        log_inv(new),
{
    crate::cluster::lemma_timeout_keeps_inv(old, new, x);
    let n = old.servers.len();
    let xi = x as int;
    let id = old.servers[xi].server_id;
    let so = old.servers[xi];
    let sn = new.servers[xi];
    let sent = choose|sent: Seq<(PeerId, RpcView)>|
        #[trigger] server_timed_out(so, sn, sent) && new.sent == old.sent.union(
            outgoing(id, sent).to_set(),
        );
    assert(so.wf());
    lemma_timed_out_copies(&so.mode, &sn.mode, &so.state, &sn.state, id, so.peer_list@, sent);
    lemma_timed_out_sends(&so.mode, &sn.mode, &so.state, &sn.state, id, so.peer_list@, sent);
    assert(ids_of(new.servers) =~= ids_of(old.servers));
    lemma_log_is_fragment(old, xi);
    assert forall|f: Fragment| #[trigger] is_fragment(new, f) implies covered(old, f) by {
        lemma_fragment_source(old, new, xi, f);
        if f == log_fragment(sn.state.log@) {
            lemma_sub_covered(old, f, log_fragment(so.state.log@));
        } else if is_fragment(old, f) {
            lemma_sub_covered(old, f, f);
        } else {
            let p = choose|p: PacketView|
                #[trigger] new.sent.contains(p) && !old.sent.contains(p) && p.rpc is AppendEntry && f
                    == ae_fragment(p.rpc->AppendEntry_0);
            lemma_outgoing_member(id, sent, p);
            let i = choose|i: int|
                0 <= i < sent.len() && p.header.from == id && p.header.to == ServerId(sent[i].0.0)
                    && p.rpc == #[trigger] sent[i].1;
            lemma_sub_covered(old, f, log_fragment(so.state.log@));
        }
    }
    lemma_agree_from_cover(old, new);
    assert forall|k: int, t: Term| 0 <= k < old.servers.len() && #[trigger] term_led_by(old, k, t) implies term_led_by(new, k, t) by {
        lemma_elected_grows(old, new, old.servers[k].server_id, t);
    }
    lemma_led_from_cover(old, new);
    assert forall|k: int, f: Fragment, i: int|
        #![trigger new.servers[k], is_fragment(new, f), f.at(i)]
        0 <= k < new.servers.len() && new.servers[k].mode is Leader && is_fragment(new, f) && f.has(i)
            && f.at(i).term == new.servers[k].state.current_term implies {
        &&& 1 <= i <= new.servers[k].state.log@.len()
        &&& new.servers[k].state.log@[i - 1] == f.at(i)
    } by {
        assert(covered(old, f));
        assert(covered_at(old, f, i));
        let g = choose|h: Fragment| #[trigger] is_fragment(old, h) && h.has(i) && h.at(i) == f.at(i) && h.pred(i) == f.pred(i);
        if k == xi && !(so.mode is Leader) {
            assert(term_was_led(old, g.at(i).term));
            let k2 = choose|k2: int| 0 <= k2 < old.servers.len() && #[trigger] term_led_by(old, k2, g.at(i).term);
            assert(n == 1);
            assert(k2 == xi);
        }
    }
}

/// Taking a packet keeps the invariant on entries.
#[verifier::rlimit(50)]
pub(crate) proof fn lemma_deliver_keeps_log_inv(old: ClusterView, new: ClusterView, x: usize, p: PacketView)
    requires
        election_inv(old),
        log_inv(old),
        cluster_step(old, new, ClusterStep::Deliver(x, p)),
    ensures
        log_inv(new),
{
    crate::cluster::lemma_deliver_keeps_inv(old, new, x, p);
    let n = old.servers.len();
    let xi = x as int;
    let id = old.servers[xi].server_id;
    let so = old.servers[xi];
    let sn = new.servers[xi];
    let peer = PeerId(p.header.from.0);
    let sent = choose|sent: Seq<(PeerId, RpcView)>|
        #[trigger] server_took(so, sn, p, sent) && new.sent == old.sent.union(
            outgoing(id, sent).to_set(),
        );
    assert(so.wf());
    lemma_received_office(&so.mode, &sn.mode, &so.state, &sn.state, id, peer, p.rpc, so.peer_list@, sent);
    lemma_received_copies(&so.mode, &sn.mode, &so.state, &sn.state, id, peer, p.rpc, so.peer_list@, sent);
    crate::mode::safety::law_received_is_safe(
        &so.mode,
        &sn.mode,
        &so.state,
        &sn.state,
        id,
        peer,
        p.rpc,
        so.peer_list@,
        Seq::empty(),
        sent,
    );
    let s1 = state_for_rpc(&so.state, p.rpc);
    assert(ids_of(new.servers) =~= ids_of(old.servers));
    lemma_log_is_fragment(old, xi);
    assert forall|f: Fragment| #[trigger] is_fragment(new, f) implies covered(old, f) by {
        lemma_fragment_source(old, new, xi, f);
        if f == log_fragment(sn.state.log@) {
            if p.rpc is AppendEntry && sn.mode is Follower {
                let ae = p.rpc->AppendEntry_0;
                assert(s1.log@ == so.state.log@);
                assert(is_fragment(old, ae_fragment(ae)));
                assert(s1.log@.len() + ae.entries.len() < u64::MAX);
                lemma_append_covered(old, s1, ae);
            } else {
                lemma_sub_covered(old, f, log_fragment(so.state.log@));
            }
        } else if is_fragment(old, f) {
            lemma_sub_covered(old, f, f);
        } else {
            let q = choose|q: PacketView|
                #[trigger] new.sent.contains(q) && !old.sent.contains(q) && q.rpc is AppendEntry && f
                    == ae_fragment(q.rpc->AppendEntry_0);
            lemma_outgoing_member(id, sent, q);
            let i = choose|i: int|
                0 <= i < sent.len() && q.header.from == id && q.header.to == ServerId(sent[i].0.0)
                    && q.rpc == #[trigger] sent[i].1;
            lemma_sub_covered(old, f, log_fragment(so.state.log@));
        }
    }
    lemma_agree_from_cover(old, new);
    assert forall|k: int, t: Term| 0 <= k < old.servers.len() && #[trigger] term_led_by(old, k, t) implies term_led_by(new, k, t) by {
        lemma_elected_grows(old, new, old.servers[k].server_id, t);
    }
    lemma_led_from_cover(old, new);
    assert forall|k: int, f: Fragment, i: int|
        #![trigger new.servers[k], is_fragment(new, f), f.at(i)]
        0 <= k < new.servers.len() && new.servers[k].mode is Leader && is_fragment(new, f) && f.has(i)
            && f.at(i).term == new.servers[k].state.current_term implies {
        &&& 1 <= i <= new.servers[k].state.log@.len()
        &&& new.servers[k].state.log@[i - 1] == f.at(i)
    } by {
        assert(covered(old, f));
        assert(covered_at(old, f, i));
        let g = choose|h: Fragment| #[trigger] is_fragment(old, h) && h.has(i) && h.at(i) == f.at(i) && h.pred(i) == f.pred(i);
        if k == xi && !(so.mode is Leader) {
            let t = g.at(i).term;
            assert(term_was_led(old, t));
            let k2 = choose|k2: int| 0 <= k2 < old.servers.len() && #[trigger] term_led_by(old, k2, t);
            lemma_elected_grows(old, new, old.servers[k2].server_id, t);
            lemma_leader_elected(new, xi);
            lemma_elected_unique(new, old.servers[k2].server_id, id, t);
            assert(ids_of(old.servers)[k2] == ids_of(old.servers)[xi]);
            assert(k2 == xi);
        }
    }
}

/// A client command keeps the invariant on entries.
#[verifier::rlimit(50)]
pub(crate) proof fn lemma_command_keeps_log_inv(old: ClusterView, new: ClusterView, x: usize, command: u8)
    requires
        election_inv(old),
        log_inv(old),
        cluster_step(old, new, ClusterStep::ClientRequest(x, command)),
    ensures
        log_inv(new),
{
    crate::cluster::lemma_command_keeps_inv(old, new, x, command);
    let n = old.servers.len();
    let xi = x as int;
    let id = old.servers[xi].server_id;
    let so = old.servers[xi];
    let sn = new.servers[xi];
    let lo = so.state.log@;
    let ln = sn.state.log@;
    let lf = log_fragment(lo);
    let nf = log_fragment(ln);
    let top = lo.len() + 1;
    assert(ids_of(new.servers) =~= ids_of(old.servers));
    lemma_log_is_fragment(old, xi);
    assert(sub_fragment(lf, nf));
    // Every fragment but the new entry of the Leader's log was there before.
    assert forall|f: Fragment, i: int| is_fragment(new, f) && f.has(i) && !(f == nf && i == top && so.mode is Leader)
        implies #[trigger] covered_at(old, f, i) by {
        lemma_fragment_source(old, new, xi, f);
        if f == nf {
            assert(lf.has(i) && lf.at(i) == f.at(i) && lf.pred(i) == f.pred(i));
        } else {
            assert(is_fragment(old, f));
        }
    }
    assert forall|k: int, t: Term| 0 <= k < old.servers.len() && #[trigger] term_led_by(old, k, t) implies term_led_by(new, k, t) by {
        lemma_elected_grows(old, new, old.servers[k].server_id, t);
    }
    assert forall|f: Fragment, g: Fragment, i: int|
        #![trigger is_fragment(new, f), is_fragment(new, g), f.at(i), g.at(i)]
        is_fragment(new, f) && is_fragment(new, g) && f.has(i) && g.has(i) && f.at(i).term == g.at(i).term
            implies f.at(i) == g.at(i) && f.pred(i) == g.pred(i) by {
        let fnew = f == nf && i == top && so.mode is Leader;
        let gnew = g == nf && i == top && so.mode is Leader;
        if fnew && gnew {
        } else if fnew {
            assert(covered_at(old, g, i));
            let g2 = choose|h: Fragment| #[trigger] is_fragment(old, h) && h.has(i) && h.at(i) == g.at(i) && h.pred(i) == g.pred(i);
            assert(old.servers[xi].mode is Leader);
        } else if gnew {
            assert(covered_at(old, f, i));
            let f2 = choose|h: Fragment| #[trigger] is_fragment(old, h) && h.has(i) && h.at(i) == f.at(i) && h.pred(i) == f.pred(i);
            assert(old.servers[xi].mode is Leader);
        } else {
            assert(covered_at(old, f, i) && covered_at(old, g, i));
            let f2 = choose|h: Fragment| #[trigger] is_fragment(old, h) && h.has(i) && h.at(i) == f.at(i) && h.pred(i) == f.pred(i);
            let g2 = choose|h: Fragment| #[trigger] is_fragment(old, h) && h.has(i) && h.at(i) == g.at(i) && h.pred(i) == g.pred(i);
        }
    }
    assert forall|f: Fragment, i: int| #![trigger is_fragment(new, f), f.at(i)] is_fragment(new, f) && f.has(i)
        implies term_was_led(new, f.at(i).term) by {
        if f == nf && i == top && so.mode is Leader {
            lemma_leader_elected(new, xi);
            assert(term_led_by(new, xi, f.at(i).term));
        } else {
            assert(covered_at(old, f, i));
            let g = choose|h: Fragment| #[trigger] is_fragment(old, h) && h.has(i) && h.at(i) == f.at(i) && h.pred(i) == f.pred(i);
            let k = choose|k: int| 0 <= k < old.servers.len() && #[trigger] term_led_by(old, k, g.at(i).term);
            assert(term_led_by(new, k, f.at(i).term));
        }
    }
    assert forall|k: int, f: Fragment, i: int|
        #![trigger new.servers[k], is_fragment(new, f), f.at(i)]
        0 <= k < new.servers.len() && new.servers[k].mode is Leader && is_fragment(new, f) && f.has(i)
            && f.at(i).term == new.servers[k].state.current_term implies {
        &&& 1 <= i <= new.servers[k].state.log@.len()
        &&& new.servers[k].state.log@[i - 1] == f.at(i)
    } by {
        if f == nf && i == top && so.mode is Leader {
            if k != xi {
                crate::cluster::lemma_inv_one_leader(new, xi, k);
            }
        } else {
            assert(covered_at(old, f, i));
            let g = choose|h: Fragment| #[trigger] is_fragment(old, h) && h.has(i) && h.at(i) == f.at(i) && h.pred(i) == f.pred(i);
        }
    }
}

/// The start of a cluster keeps the invariant on entries: no entry exists yet.
proof fn lemma_init_log_inv(c: ClusterView)
    requires
        crate::cluster::cluster_init(c),
    ensures
        log_inv(c),
{
    assert forall|f: Fragment, i: int| is_fragment(c, f) implies !#[trigger] f.has(i) by {
        if exists|k: int| 0 <= k < c.servers.len() && f == log_fragment(#[trigger] c.servers[k].state.log@) {
            let k = choose|k: int| 0 <= k < c.servers.len() && f == log_fragment(#[trigger] c.servers[k].state.log@);
        } else {
            let p = choose|p: PacketView|
                #[trigger] c.sent.contains(p) && p.rpc is AppendEntry && f == ae_fragment(p.rpc->AppendEntry_0);
        }
    }
}

/// Any step keeps the invariant on entries.
proof fn lemma_step_keeps_log_inv(old: ClusterView, new: ClusterView, step: ClusterStep)
    requires
        election_inv(old),
        log_inv(old),
        cluster_step(old, new, step),
    ensures
        log_inv(new),
{
    match step {
        ClusterStep::Timeout(x) => lemma_timeout_keeps_log_inv(old, new, x),
        ClusterStep::Deliver(x, p) => lemma_deliver_keeps_log_inv(old, new, x, p),
        ClusterStep::ClientRequest(x, command) => lemma_command_keeps_log_inv(old, new, x, command),
    }
}

/// Every cluster of a run keeps the invariant on entries.
proof fn lemma_run_log_inv(trace: Seq<ClusterView>, steps: Seq<ClusterStep>, k: int)
    requires
        cluster_run(trace, steps),
        0 <= k < trace.len(),
    ensures
        log_inv(trace[k]),
    decreases k,
{
    if k == 0 {
        lemma_init_log_inv(trace[0]);
    } else {
        lemma_run_log_inv(trace, steps, k - 1);
        lemma_run_inv(trace, steps, k - 1);
        assert(cluster_step(trace[k - 1], trace[k], steps[k - 1]));
        lemma_step_keeps_log_inv(trace[k - 1], trace[k], steps[k - 1]);
    }
}

/// The logs of `servers`, in order.
pub open spec fn logs_of(servers: Seq<crate::server::Server>) -> Seq<Seq<Entry>> {
    servers.map_values(|s: crate::server::Server| s.state.log@)
}

/// Log Matching: in every cluster reachable from the start, wherever two servers' logs hold an
/// entry of the same term at one index, the two logs are identical in every entry up to it.
pub proof fn law_logs_match(trace: Seq<ClusterView>, steps: Seq<ClusterStep>, k: int)
    requires
        cluster_run(trace, steps),
        0 <= k < trace.len(),
    ensures
        logs_match_spec(logs_of(trace[k].servers)),
{
    let c = trace[k];
    lemma_run_log_inv(trace, steps, k);
    let logs = logs_of(c.servers);
    assert forall|a: int, b: int| #![trigger logs[a], logs[b]] 0 <= a < b < logs.len() implies log_pair_matches(logs[a], logs[b]) by {
        let x = logs[a];
        let y = logs[b];
        lemma_log_is_fragment(c, a);
        lemma_log_is_fragment(c, b);
        let fx = log_fragment(x);
        let fy = log_fragment(y);
        assert forall|p: int| #![trigger x[p], y[p]] 0 <= p < x.len() && p < y.len() && x[p].term == y[p].term
            implies x.subrange(0, p + 1) == y.subrange(0, p + 1) by {
            assert(fx.at(p + 1) == x[p] && fy.at(p + 1) == y[p]);
            lemma_fragments_chain(c, fx, fy, p + 1);
            assert forall|q: int| 0 <= q <= p implies x[q] == y[q] by {
                assert(fx.at(q + 1) == x[q] && fy.at(q + 1) == y[q]);
            }
            assert(x.subrange(0, p + 1) =~= y.subrange(0, p + 1));
        }
    }
}

} // verus!
