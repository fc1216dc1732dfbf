use raft_rs::log::{Entry, Idx, Log, Term, TermIdx};
use raft_rs::state::raft_state::RaftState;
use raft_rs::packet::{Packet, Rpc};
use raft_rs::queue::{NetEgress, NetIngress};
use raft_rs::server::{ClientResponse, PeerId, RecvError, Server, ServerId};
use raft_rs::state::state_machine::{CommitEntry, CurrentMode, StateMachine};
use raft_rs::timeout::{Timeout, MAX_REARM_MILLIS, MIN_REARM_MILLIS};

fn id(fill: u8) -> ServerId {
    ServerId::new([fill; 16])
}

/// Move everything `from` queued for the network onto the ingress of `to`.
fn deliver(from: &mut Server, to: &mut Server) {
    while let Some(bytes) = from.queue.get_send() {
        to.queue.push_recv_bytes(bytes);
    }
}

#[test]
fn a_new_server_is_an_idle_follower() {
    let server = Server::new(id(1), vec![id(2).as_peer_id()]);
    assert!(server.mode.is_follower());
    assert_eq!(server.state.current_term, Term::initial());
    assert_eq!(server.state.commit_idx(), &Idx::initial());
    assert!(server.query_state_machine().is_empty());
    assert!(!server.queue.egress_ready());
}

#[test]
fn a_follower_redirects_clients() {
    let mut server = Server::new(id(1), vec![id(2).as_peer_id()]);
    assert_eq!(server.on_client_request(7), ClientResponse::Redirect(None));
    assert!(server.state.log.test_is_empty());
}

/// A single server elects itself on its first timeout and then takes client commands.
#[test]
fn a_lone_server_leads_and_appends() {
    let mut server = Server::new(id(1), vec![]);
    server.on_timeout();
    assert!(server.mode.is_leader());
    assert_eq!(server.state.current_term, Term::from(1));
    assert!(server.take_timeout_reset());
    assert!(!server.take_timeout_reset());

    assert_eq!(server.on_client_request(7), ClientResponse::Appended(Idx::from(1)));
    assert_eq!(server.on_client_request(8), ClientResponse::Appended(Idx::from(2)));
    assert_eq!(server.state.log.test_get_unchecked(2), Entry::new(Term::from(1), 8));
}

/// Two servers elect a Leader, replicate a command and commit it on both, over the byte queues.
#[test]
fn two_servers_elect_replicate_and_commit() {
    let mut a = Server::new(id(1), vec![id(2).as_peer_id()]);
    let mut b = Server::new(id(2), vec![id(1).as_peer_id()]);

    // a times out and asks b for its vote.
    a.on_timeout();
    assert!(a.mode.is_candidate());
    deliver(&mut a, &mut b);
    assert_eq!(b.recv(), Ok(()));
    assert_eq!(b.state.voted_for(), &Some(id(1).into_id()));

    // b's vote makes a the Leader, which sends b a heartbeat.
    deliver(&mut b, &mut a);
    assert_eq!(a.recv(), Ok(()));
    assert!(a.mode.is_leader());
    deliver(&mut a, &mut b);
    assert_eq!(b.recv(), Ok(()));
    assert_eq!(b.on_client_request(1), ClientResponse::Redirect(Some(id(1).as_peer_id())));
    deliver(&mut b, &mut a);
    assert_eq!(a.recv(), Ok(()));

    // A command appended by a reaches b on the next heartbeat.
    assert_eq!(a.on_client_request(42), ClientResponse::Appended(Idx::from(1)));
    a.on_timeout();
    deliver(&mut a, &mut b);
    assert_eq!(b.recv(), Ok(()));
    assert_eq!(b.state.log.test_len(), 1);

    // b's answer gives a a majority for idx 1, so a commits and applies it.
    deliver(&mut b, &mut a);
    assert_eq!(a.recv(), Ok(()));
    assert_eq!(a.state.commit_idx(), &Idx::from(1));
    assert_eq!(a.state.applied_commands(), vec![42]);
    assert_eq!(a.query_state_machine(), vec![Idx::from(1)]);

    // The next heartbeat carries the commit index to b.
    a.on_timeout();
    deliver(&mut a, &mut b);
    assert_eq!(b.recv(), Ok(()));
    assert_eq!(b.state.commit_idx(), &Idx::from(1));
    assert_eq!(b.state.applied_commands(), vec![42]);
}

#[test]
fn bytes_that_are_not_a_packet_are_malformed() {
    let mut server = Server::new(id(1), vec![id(2).as_peer_id()]);
    server.queue.push_recv_bytes(vec![0; 40]);
    assert_eq!(server.recv(), Err(RecvError::MalformedPacket));
    // The bytes were read off the queue.
    assert_eq!(server.queue.ingress_queue.len(), 0);
}

/// A Leader refuses a peer's claim that the empty prefix does not match.
#[test]
fn a_leader_cannot_take_a_rejected_empty_prefix() {
    let mut server = Server::new(id(1), vec![]);
    server.on_timeout();
    assert!(server.mode.is_leader());

    let resp = Rpc::new_append_entry_resp(Term::from(1), false, TermIdx::initial(), 0);
    let packet = Packet::new_send(id(9), id(1).as_peer_id(), resp);
    // id(9) is not a peer, so the response cannot be taken either.
    assert_eq!(server.recv_packet(&packet), Err(RecvError::CannotTake));
}

#[test]
fn progress_runs_what_is_ready() {
    let mut server = Server::new(id(1), vec![]);
    assert_eq!(server.progress(false, false), Ok(()));
    assert!(server.mode.is_follower());
    assert_eq!(server.progress(true, true), Ok(()));
    assert!(server.mode.is_leader());
}

#[test]
fn election_timeouts_fall_in_the_window() {
    let mut seen = Vec::new();
    for _ in 0..100 {
        let millis = Timeout::rearm_duration_millis();
        assert!(MIN_REARM_MILLIS <= millis && millis < MAX_REARM_MILLIS);
        seen.push(millis);
    }
    // Random picks: a hundred of them from 150 values are not all the same.
    assert!(seen.iter().any(|m| *m != seen[0]));
    let mut t = Timeout::new();
    t.reset_timeout();
    assert!(t.take_reset());
    assert!(!t.take_reset());
}

#[test]
fn state_machine_applies_in_order() {
    let mut sm = StateMachine::new();
    sm.apply(CommitEntry {
        entry: Entry::new(Term::from(1), 5),
        log_last_applied_idx: Idx::from(1),
        peer_id: PeerId::new([2; 16]),
        mode: CurrentMode::Leader,
    });
    sm.commit_entry(CommitEntry {
        entry: Entry::new(Term::from(1), 6),
        log_last_applied_idx: Idx::from(2),
        peer_id: PeerId::new([2; 16]),
        mode: CurrentMode::Follower,
    });
    assert_eq!(sm.applied_commands(), vec![5, 6]);
    assert_eq!(sm.applied_entries(), vec![Idx::from(1), Idx::from(2)]);
}

/// A server reads back exactly the packets written to its ingress queue, in order.
#[test]
fn recv_takes_every_packet_written() {
    let mut server = Server::new(id(1), vec![id(2).as_peer_id(), id(3).as_peer_id()]);
    let vote_2 = Rpc::new_request_vote(Term::from(1), id(2), TermIdx::initial());
    let vote_3 = Rpc::new_request_vote(Term::from(1), id(3), TermIdx::initial());
    let mut bytes = Packet::new_send(id(2), id(1).as_peer_id(), vote_2).to_bytes();
    bytes.extend(Packet::new_send(id(3), id(1).as_peer_id(), vote_3).to_bytes());
    server.queue.push_recv_bytes(bytes);

    assert_eq!(server.recv(), Ok(()));
    assert_eq!(server.queue.ingress_queue.len(), 0);
    // Both were taken, in order: the first candidate got the vote, the second did not.
    assert_eq!(server.state.current_term, Term::from(1));
    assert_eq!(server.state.voted_for(), &Some(id(2).into_id()));
    let mut answers = Vec::new();
    while let Some(out) = server.queue.get_send() {
        let mut at = 0;
        while at < out.len() {
            let (packet, n) = Packet::decode(&out[at..]).unwrap();
            answers.push((packet.to(), packet.rpc().clone()));
            at += n;
        }
    }
    assert_eq!(
        answers,
        vec![
            (id(2), Rpc::new_request_vote_resp(Term::from(1), true)),
            (id(3), Rpc::new_request_vote_resp(Term::from(1), false)),
        ]
    );
}

/// Committing the index that is already committed reads nothing from the log, so it is accepted
/// even when the log has since been cut below the commit index.
#[test]
fn recommitting_the_commit_index_is_a_no_op() {
    let mut state = RaftState::new();
    state.log.test_append_entries(vec![Entry::new(Term::from(1), 7)]);
    state.set_commit_idx(Idx::from(1), PeerId::new([2; 16]), CurrentMode::Follower);
    assert_eq!(state.applied_commands(), vec![7]);

    state.log = Log::new();
    state.set_commit_idx(Idx::from(1), PeerId::new([2; 16]), CurrentMode::Follower);
    state.update_commit_idx(Idx::from(1), PeerId::new([2; 16]), CurrentMode::Follower);
    assert_eq!(state.commit_idx(), &Idx::from(1));
    assert_eq!(state.last_applied(), &Idx::from(1));
    assert_eq!(state.applied_commands(), vec![7]);
}
