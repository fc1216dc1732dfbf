use raft_rs::log::{Entry, Idx, MatchOutcome, Term, TermIdx};
use raft_rs::mode::candidate::Candidate;
use raft_rs::mode::follower::Follower;
use raft_rs::mode::leader::Leader;
use raft_rs::mode::{ElectionResult, Mode, ModeTransition, Quorum};
use raft_rs::packet::{AppendEntriesResp, RequestVote, RequestVoteResp, Rpc};
use raft_rs::queue::testing::{helper_inspect_next_sent_packet, helper_inspect_one_sent_packet, MockIo};
use raft_rs::server::{PeerId, PeerInfo, ServerId};
use raft_rs::state::raft_state::RaftState;

// ---------------------------------------------------------------------------------------------
// Follower

#[test]
fn test_recv_append_entries() {
    let leader_id = ServerId::new([2; 16]);
    let peer_id = PeerId::new([10; 16]);
    let mut state = RaftState::new();
    let current_term = Term::from(2);
    state.current_term = current_term;

    let mut follower = Follower::default();
    let leader_commit_idx = Idx::initial();
    let prev_log_term_idx = TermIdx::initial();

    let mut io = MockIo::new(leader_id);

    // Expect response true, but no entries are sent
    {
        let recv_rpc = Rpc::new_append_entry(
            current_term,
            leader_id,
            prev_log_term_idx,
            leader_commit_idx,
            vec![],
        );
        follower.on_recv(peer_id, &recv_rpc, &mut state, &mut io);

        let packet = helper_inspect_one_sent_packet(&mut io);
        let expected_rpc = Rpc::new_append_entry_resp(current_term, true, TermIdx::initial(), 0);
        assert_eq!(&expected_rpc, packet.rpc());
        assert!(state.log.test_is_empty());
    }

    // Expect response false: term < current_term
    {
        let prev_log_term_idx = TermIdx::initial();
        let recv_rpc = Rpc::new_append_entry(
            Term::from(1),
            leader_id,
            prev_log_term_idx,
            leader_commit_idx,
            vec![Entry::new(current_term, 3), Entry::new(current_term, 6)],
        );
        follower.on_recv(peer_id, &recv_rpc, &mut state, &mut io);

        let packet = helper_inspect_one_sent_packet(&mut io);
        let expected_rpc = Rpc::new_append_entry_resp(current_term, false, TermIdx::initial(), 0);
        assert_eq!(&expected_rpc, packet.rpc());
        assert!(state.log.test_is_empty());
    }

    // Expect response false: log doesnt contain prev entry
    {
        let prev_log_term_idx = TermIdx::builder()
            .with_term(Term::from(1))
            .with_idx(Idx::from(1));
        let recv_rpc = Rpc::new_append_entry(
            current_term,
            leader_id,
            prev_log_term_idx,
            leader_commit_idx,
            vec![Entry::new(current_term, 3), Entry::new(current_term, 6)],
        );
        follower.on_recv(peer_id, &recv_rpc, &mut state, &mut io);

        let packet = helper_inspect_one_sent_packet(&mut io);
        let expected_rpc = Rpc::new_append_entry_resp(
            current_term,
            false,
            TermIdx::builder()
                .with_term(Term::from(1))
                .with_idx(Idx::from(1)),
            0,
        );
        assert_eq!(&expected_rpc, packet.rpc());
        assert!(state.log.test_is_empty());
    }

    // Expect response true: process entries and update commit_idx
    let leader_commit_idx = Idx::from(1);
    {
        assert!(state.log.test_is_empty());
        assert_eq!(state.commit_idx(), &Idx::initial());

        let recv_rpc = Rpc::new_append_entry(
            current_term,
            leader_id,
            prev_log_term_idx,
            leader_commit_idx,
            vec![Entry::new(current_term, 3), Entry::new(current_term, 6)],
        );
        follower.on_recv(peer_id, &recv_rpc, &mut state, &mut io);

        let packet = helper_inspect_one_sent_packet(&mut io);
        let expected_rpc = Rpc::new_append_entry_resp(current_term, true, TermIdx::initial(), 2);
        assert_eq!(&expected_rpc, packet.rpc());

        // expect received entries to be in the log
        assert!(state.log.test_len() == 2);
        assert_eq!(state.log.test_get_unchecked(1), Entry::new(current_term, 3));
        assert_eq!(state.log.test_get_unchecked(2), Entry::new(current_term, 6));

        // commit_idx should be updated, and the committed entry applied
        assert_eq!(state.commit_idx(), &leader_commit_idx);
        assert_eq!(state.applied_commands(), vec![3]);
        assert_eq!(follower.current_leader(), Some(peer_id));
    }
}

// A prev_log_term_idx of TermIdx::initial is used to repair the Follower logs.
#[test]
fn test_recv_append_entries_initial_prev_with_non_empty_log() {
    let leader_id = ServerId::new([2; 16]);
    let peer_id = PeerId::new([10; 16]);
    let mut state = RaftState::new();
    let old_term = Term::from(1);
    let current_term = Term::from(2);
    state.current_term = current_term;

    // The Follower holds two entries from an earlier term, which the Leader will overwrite.
    state
        .log
        .test_append_entries(vec![Entry::new(old_term, 3), Entry::new(old_term, 6)]);

    let mut follower = Follower::default();
    let mut io = MockIo::new(leader_id);

    let recv_rpc = Rpc::new_append_entry(
        current_term,
        leader_id,
        TermIdx::initial(),
        Idx::initial(),
        vec![Entry::new(current_term, 9)],
    );
    follower.on_recv(peer_id, &recv_rpc, &mut state, &mut io);

    let packet = helper_inspect_one_sent_packet(&mut io);
    let expected_rpc = Rpc::new_append_entry_resp(current_term, true, TermIdx::initial(), 1);
    assert_eq!(&expected_rpc, packet.rpc());

    // The conflicting entry at idx 1 is replaced and everything following it is dropped.
    assert_eq!(state.log.test_len(), 1);
    assert_eq!(state.log.test_get_unchecked(1), Entry::new(current_term, 9));
}

// A Leader's commit_idx can outrun a lagging Follower's log, so the Follower clamps it to its own
// last_idx instead of trusting it.
#[test]
fn test_recv_append_entries_leader_commit_idx_past_end_of_log() {
    let leader_id = ServerId::new([2; 16]);
    let peer_id = PeerId::new([10; 16]);
    let mut state = RaftState::new();
    let current_term = Term::from(2);
    state.current_term = current_term;

    let mut follower = Follower::default();
    let mut io = MockIo::new(leader_id);

    let leader_commit_idx = Idx::from(5);
    let recv_rpc = Rpc::new_append_entry(
        current_term,
        leader_id,
        TermIdx::initial(),
        leader_commit_idx,
        vec![Entry::new(current_term, 3)],
    );
    follower.on_recv(peer_id, &recv_rpc, &mut state, &mut io);

    let packet = helper_inspect_one_sent_packet(&mut io);
    let expected_rpc = Rpc::new_append_entry_resp(current_term, true, TermIdx::initial(), 1);
    assert_eq!(&expected_rpc, packet.rpc());

    assert_eq!(state.log.test_len(), 1);
    assert_eq!(state.commit_idx(), &Idx::from(1));
}

/// A Follower grants one vote per term: a second Candidate in the same term is refused.
#[test]
fn follower_votes_once_per_term() {
    let mut state = RaftState::new();
    state.current_term = Term::from(3);
    let mut follower = Follower::default();
    let mut io = MockIo::new(ServerId::new([1; 16]));

    let first = Rpc::new_request_vote(Term::from(3), ServerId::new([7; 16]), TermIdx::initial());
    follower.on_recv(PeerId::new([7; 16]), &first, &mut state, &mut io);
    let second = Rpc::new_request_vote(Term::from(3), ServerId::new([8; 16]), TermIdx::initial());
    follower.on_recv(PeerId::new([8; 16]), &second, &mut state, &mut io);
    // The first Candidate asking again still gets the vote.
    follower.on_recv(PeerId::new([7; 16]), &first, &mut state, &mut io);

    let granted: Vec<bool> = (0..3)
        .map(|_| match helper_inspect_next_sent_packet(&mut io).rpc() {
            Rpc::RequestVoteResp(RequestVoteResp { vote_granted, .. }) => *vote_granted,
            _ => panic!("expected a vote response"),
        })
        .collect();
    assert_eq!(granted, vec![true, false, true]);
    assert_eq!(io.send_queue_len(), 0);
}

/// A vote goes only to a Candidate whose log is at least as up-to-date.
#[test]
fn follower_refuses_a_stale_candidate_log() {
    let mut state = RaftState::new();
    state.current_term = Term::from(3);
    state.log.test_append_entries(vec![Entry::new(Term::from(2), 1)]);
    let mut follower = Follower::default();
    let mut io = MockIo::new(ServerId::new([1; 16]));

    let stale = Rpc::new_request_vote(
        Term::from(3),
        ServerId::new([7; 16]),
        TermIdx::builder().with_term(Term::from(1)).with_idx(Idx::from(5)),
    );
    follower.on_recv(PeerId::new([7; 16]), &stale, &mut state, &mut io);
    let packet = helper_inspect_one_sent_packet(&mut io);
    assert_eq!(packet.rpc(), &Rpc::new_request_vote_resp(Term::from(3), false));
    assert_eq!(state.voted_for(), &None);
}

// ---------------------------------------------------------------------------------------------
// Candidate

#[test]
fn test_start_election() {
    let server_id = ServerId::new([1; 16]);
    let peer_id = PeerId::new([11; 16]);
    let peer_id_2 = PeerId::new([12; 16]);
    let peer_list = vec![peer_id, peer_id_2];
    let mut state = RaftState::new();
    assert!(state.current_term.is_initial());

    let mut io = MockIo::new(server_id);
    let mut candidate = Candidate::default();

    // Trigger election
    let transition = candidate.start_election(&server_id, &peer_list, &mut state, &mut io);

    // Expect no transitions since quorum is >1
    assert!(matches!(transition, ModeTransition::Noop));
    // Expect current_term to be incremented
    assert_eq!(state.current_term, Term::from(1));

    // Expect RequestVote RPC sent to all peers, in order
    let expected_rpc = Rpc::new_request_vote(state.current_term, server_id, TermIdx::initial());
    for peer in peer_list.iter() {
        let packet = helper_inspect_next_sent_packet(&mut io);
        assert_eq!(&expected_rpc, packet.rpc());
        assert_eq!(packet.to(), peer.as_server_id());
        assert_eq!(packet.from(), server_id);
    }
}

#[test]
fn test_start_election_with_no_peers() {
    let server_id = ServerId::new([6; 16]);
    let peer_list: Vec<PeerId> = vec![];
    let mut state = RaftState::new();

    let mut io = MockIo::new(server_id);
    let mut candidate = Candidate::default();
    assert_eq!(Mode::quorum(&peer_list), Quorum(1));

    // Elect self
    let transition = candidate.start_election(&server_id, &peer_list, &mut state, &mut io);
    assert!(matches!(transition, ModeTransition::ToLeader));

    // No RPC sent.
    assert_eq!(io.send_queue_len(), 0);
}

/// A new election starts the vote tally from scratch.
#[test]
fn votes_do_not_carry_across_elections() {
    let mut state = RaftState::new();

    let self_id = ServerId::new([1; 16]);
    let peer_list = vec![
        PeerId::new([11; 16]),
        PeerId::new([12; 16]),
        PeerId::new([13; 16]),
        PeerId::new([14; 16]),
    ];
    let mut io = MockIo::new(self_id);

    // Quorum is 3 of 5, so a self vote plus one peer is not enough to win.
    assert_eq!(Mode::quorum(&peer_list), Quorum(3));

    // First election. Vote for self, then bank a single peer vote.
    let mut candidate = Candidate::default();
    assert!(matches!(
        candidate.start_election(&self_id, &peer_list, &mut state, &mut io),
        ModeTransition::Noop
    ));
    assert!(matches!(
        candidate.on_vote_received(&peer_list[0], &peer_list),
        ElectionResult::Pending
    ));
    assert_eq!(candidate.votes_received.len(), 2);

    // The election times out and the Candidate campaigns again in a higher term.
    let first_term = state.current_term;
    assert!(matches!(
        candidate.start_election(&self_id, &peer_list, &mut state, &mut io),
        ModeTransition::Noop
    ));
    assert!(state.current_term > first_term);

    // One peer voting in this term is two of five, short of quorum.
    assert!(matches!(
        candidate.on_vote_received(&peer_list[1], &peer_list),
        ElectionResult::Pending
    ));

    // A quorum granted inside this term still elects.
    assert!(matches!(
        candidate.on_vote_received(&peer_list[2], &peer_list),
        ElectionResult::Elected
    ));
}

#[test]
fn test_vote_received() {
    let mut state = RaftState::new();

    let self_id = ServerId::new([1; 16]);
    let peer2_id = PeerId::new([11; 16]);
    let peer3_id = PeerId::new([12; 16]);
    let peer_list = vec![peer2_id, peer3_id];

    let mut candidate = Candidate::default();
    assert_eq!(Mode::quorum(&peer_list), Quorum(2));
    assert!(Mode::quorum(&peer_list) > Quorum(candidate.votes_received.len()));

    // Receive peer's vote
    assert!(matches!(
        candidate.on_vote_received(&peer2_id, &peer_list),
        ElectionResult::Pending
    ));
    assert!(Mode::quorum(&peer_list) > Quorum(candidate.votes_received.len()));

    // Don't count same vote
    assert!(matches!(
        candidate.on_vote_received(&peer2_id, &peer_list),
        ElectionResult::Pending
    ));
    assert!(Mode::quorum(&peer_list) > Quorum(candidate.votes_received.len()));

    // Vote for self and reach quorum
    assert!(matches!(
        candidate.on_vote_for_self(&self_id, &mut state, &peer_list),
        ElectionResult::Elected
    ));
    assert_eq!(Mode::quorum(&peer_list), Quorum(2));
}

#[test]
fn test_recv_request_vote_resp_term() {
    let server_id = ServerId::new([1; 16]);
    let peer2_id = PeerId::new([11; 16]);
    let peer_list = vec![peer2_id];
    let mut state = RaftState::new();

    let term_current = Term::from(2);
    let term_election = Term::from(3);
    state.current_term = term_current;

    let mut io = MockIo::new(server_id);
    assert_eq!(Mode::quorum(&peer_list), Quorum(2));

    // Initialize Candidate (votes for self)
    let mut candidate = Candidate::default();
    assert_eq!(candidate.votes_received.len(), 0);
    let transition = candidate.start_election(&server_id, &peer_list, &mut state, &mut io);
    assert!(matches!(transition, ModeTransition::Noop));
    assert_eq!(candidate.votes_received.len(), 1);

    // peer 2 DOES grant vote but has older Term
    let prev_term_rpc = RequestVoteResp {
        term: term_current,
        vote_granted: true,
    };
    let transition =
        candidate.on_recv_request_vote_resp(peer2_id, &prev_term_rpc, &peer_list, &state);
    assert!(matches!(transition, ModeTransition::Noop));
    assert_eq!(candidate.votes_received.len(), 1);

    // peer 2 DOES grant vote and has the election Term
    let election_term_rpc = RequestVoteResp {
        term: term_election,
        vote_granted: true,
    };
    let transition =
        candidate.on_recv_request_vote_resp(peer2_id, &election_term_rpc, &peer_list, &state);
    assert!(matches!(transition, ModeTransition::ToLeader));
    assert_eq!(candidate.votes_received.len(), 2);
}

#[test]
fn test_recv_request_vote_resp_grant_vote() {
    let server_id = ServerId::new([1; 16]);
    let peer2_id = PeerId::new([11; 16]);
    let peer3_id = PeerId::new([12; 16]);
    let peer4_id = PeerId::new([13; 16]);
    let peer_list = vec![peer2_id, peer3_id, peer4_id];
    let mut state = RaftState::new();

    let term_current = Term::from(2);
    let term_election = Term::from(3);
    state.current_term = term_current;

    let mut io = MockIo::new(server_id);
    assert_eq!(Mode::quorum(&peer_list), Quorum(3));

    let mut candidate = Candidate::default();
    assert_eq!(candidate.votes_received.len(), 0);
    let transition = candidate.start_election(&server_id, &peer_list, &mut state, &mut io);
    assert!(matches!(transition, ModeTransition::Noop));
    assert_eq!(candidate.votes_received.len(), 1);

    let grant_vote_rpc = RequestVoteResp {
        term: term_election,
        vote_granted: true,
    };
    let no_grant_vote_rpc = RequestVoteResp {
        term: term_election,
        vote_granted: false,
    };

    // peer 2 DOES grant vote
    let transition =
        candidate.on_recv_request_vote_resp(peer2_id, &grant_vote_rpc, &peer_list, &state);
    assert!(matches!(transition, ModeTransition::Noop));
    assert_eq!(candidate.votes_received.len(), 2);

    // peer 3 does NOT grant vote
    let transition =
        candidate.on_recv_request_vote_resp(peer3_id, &no_grant_vote_rpc, &peer_list, &state);
    assert!(matches!(transition, ModeTransition::Noop));
    assert_eq!(candidate.votes_received.len(), 2);

    // peer 3 DOES grant vote
    let transition =
        candidate.on_recv_request_vote_resp(peer3_id, &grant_vote_rpc, &peer_list, &state);
    assert!(matches!(transition, ModeTransition::ToLeader));
    assert_eq!(candidate.votes_received.len(), 3);
}

// ---------------------------------------------------------------------------------------------
// Leader

fn log_two_entries(state: &mut RaftState) {
    let current_term = state.current_term;
    for i in 1..=2 {
        let entry = Entry {
            term: current_term,
            command: i,
        };
        let outcome = state
            .log
            .update_to_match_leaders_log(entry, Idx::from(i as u64));
        assert!(matches!(outcome, MatchOutcome::DoesntExist));
    }
}

#[test]
fn on_leader() {
    let server_id = ServerId::new([1; 16]);
    let peer2_id = PeerId::new([11; 16]);
    let peer3_id = PeerId::new([12; 16]);
    let peer_list = vec![peer2_id, peer3_id];
    let state = RaftState::new();
    let current_term = state.current_term;
    let mut leader = Leader::new(&peer_list, &state);
    assert_eq!(leader.next_idx_of(&peer2_id).unwrap(), Idx::from(1));
    assert_eq!(leader.next_idx_of(&peer3_id).unwrap(), Idx::from(1));

    let mut io = MockIo::new(server_id);

    leader.on_leader(&server_id, &peer_list, &state, &mut io);

    // Expect append_entry is sent to both peers
    for _ in 0..2 {
        let packet = helper_inspect_next_sent_packet(&mut io);

        // log is empty so expect to recieve a RPC with initial term and idx
        let expected_rpc = Rpc::new_append_entry(
            current_term,
            server_id,
            TermIdx::initial(),
            Idx::initial(),
            vec![],
        );
        assert_eq!(&expected_rpc, packet.rpc());
    }
}

#[test]
fn on_leader_with_entries() {
    let server_id = ServerId::new([1; 16]);
    let peer2_id = PeerId::new([11; 16]);
    let peer3_id = PeerId::new([12; 16]);
    let peer_list = vec![peer2_id, peer3_id];
    let mut state = RaftState::new();
    let current_term = state.current_term;
    log_two_entries(&mut state);
    let mut leader = Leader::new(&peer_list, &state);
    assert_eq!(leader.next_idx_of(&peer2_id).unwrap(), Idx::from(3));
    assert_eq!(leader.next_idx_of(&peer3_id).unwrap(), Idx::from(3));

    let mut io = MockIo::new(server_id);
    leader.on_leader(&server_id, &peer_list, &state, &mut io);

    for _ in 0..2 {
        let packet = helper_inspect_next_sent_packet(&mut io);
        let expected_rpc = Rpc::new_append_entry(
            current_term,
            server_id,
            TermIdx {
                term: current_term,
                idx: Idx::from(2),
            },
            Idx::initial(),
            vec![],
        );
        assert_eq!(&expected_rpc, packet.rpc());
    }
}

#[test]
fn on_timeout() {
    let server_id = ServerId::new([1; 16]);
    let peer2_id = PeerId::new([11; 16]);
    let peer3_id = PeerId::new([12; 16]);
    let peer_list = vec![peer2_id, peer3_id];
    let mut state = RaftState::new();
    let current_term = state.current_term;
    let mut leader = Leader::new(&peer_list, &state);

    let mut io = MockIo::new(server_id);

    // A timeout triggers a heartbeat (empty AppendEntries) to each peer.
    leader.on_timeout(&server_id, &peer_list, &mut state, &mut io);

    for _ in 0..2 {
        let packet = helper_inspect_next_sent_packet(&mut io);
        let expected_rpc = Rpc::new_append_entry(
            current_term,
            server_id,
            TermIdx::initial(),
            Idx::initial(),
            vec![],
        );
        assert_eq!(&expected_rpc, packet.rpc());
    }
}

// on_timeout sends each peer a heartbeat based on that peer's existing next_idx and, unlike
// on_leader, does not reinitialize next_idx/match_idx.
#[test]
fn on_timeout_uses_peer_next_idx() {
    let server_id = ServerId::new([1; 16]);
    let peer2_id = PeerId::new([11; 16]);
    let peer3_id = PeerId::new([12; 16]);
    let peer_list = vec![peer2_id, peer3_id];
    let mut state = RaftState::new();
    let current_term = state.current_term;
    log_two_entries(&mut state);

    let mut leader = Leader::new(&peer_list, &state);
    assert_eq!(leader.next_idx_of(&peer2_id).unwrap(), Idx::from(3));
    assert_eq!(leader.next_idx_of(&peer3_id).unwrap(), Idx::from(3));

    // Record that peer2 is behind (next_idx == 1).
    leader.next_idx[0] = Idx::from(1);

    let mut io = MockIo::new(server_id);
    leader.on_timeout(&server_id, &peer_list, &mut state, &mut io);

    // next_idx is unchanged after a timeout heartbeat.
    assert_eq!(leader.next_idx_of(&peer2_id).unwrap(), Idx::from(1));
    assert_eq!(leader.next_idx_of(&peer3_id).unwrap(), Idx::from(3));

    let expected_peer2 = (
        TermIdx::initial(),
        vec![Entry::new(current_term, 1), Entry::new(current_term, 2)],
    );
    let expected_peer3 = (
        TermIdx {
            term: current_term,
            idx: Idx::from(2),
        },
        vec![],
    );
    for (expected_term_idx, expected_entries) in [expected_peer2, expected_peer3] {
        let packet = helper_inspect_next_sent_packet(&mut io);
        let expected_rpc = Rpc::new_append_entry(
            current_term,
            server_id,
            expected_term_idx,
            Idx::initial(),
            expected_entries,
        );
        assert_eq!(&expected_rpc, packet.rpc());
    }
}

/// A success answering the current RPC records the peer's match index as the echoed prev plus
/// the entries it stored; a response to a superseded RPC or from another term, and a failure,
/// report no match.
#[test]
fn leader_records_match_from_echo_and_entries_cnt() {
    let server_id = ServerId::new([1; 16]);
    let peer2_id = PeerId::new([11; 16]);
    let peer3_id = PeerId::new([12; 16]);
    let peer_list = vec![peer2_id, peer3_id];
    let mut state = RaftState::new();
    let current_term = state.current_term;
    log_two_entries(&mut state);

    let mut leader = Leader::new(&peer_list, &state);
    let mut io = MockIo::new(server_id);

    // Echo idx doesn't match the peer's next_idx - 1.
    let resp = AppendEntriesResp {
        term: current_term,
        success: true,
        echo_prev_log_term_idx: TermIdx::builder().with_term(Term::from(2)).with_idx(Idx::from(1)),
        entries_cnt: 0,
    };
    assert!(leader
        .on_recv_append_entry_resp(&server_id, peer2_id, &resp, &state, &mut io)
        .is_none());

    // A success sent in another term answers another Leader's RPC.
    let resp = AppendEntriesResp {
        term: Term::from(7),
        success: true,
        echo_prev_log_term_idx: TermIdx::builder().with_term(Term::from(2)).with_idx(Idx::from(2)),
        entries_cnt: 0,
    };
    assert!(leader
        .on_recv_append_entry_resp(&server_id, peer2_id, &resp, &state, &mut io)
        .is_none());
    assert_eq!(leader.match_idx_of(&peer2_id), Some(Idx::initial()));

    // The peer had nothing new to store past prev == 2.
    let resp = AppendEntriesResp {
        term: current_term,
        success: true,
        echo_prev_log_term_idx: TermIdx::builder().with_term(Term::from(2)).with_idx(Idx::from(2)),
        entries_cnt: 0,
    };
    assert_eq!(
        leader.on_recv_append_entry_resp(&server_id, peer2_id, &resp, &state, &mut io),
        Some(Idx::from(2))
    );
    assert_eq!(leader.match_idx_of(&peer2_id), Some(Idx::from(2)));
    assert_eq!(leader.next_idx_of(&peer2_id), Some(Idx::from(3)));

    // A claim of more entries than the log holds past prev answers nothing that was sent.
    let resp = AppendEntriesResp {
        term: current_term,
        success: true,
        echo_prev_log_term_idx: TermIdx::builder().with_term(Term::from(2)).with_idx(Idx::from(2)),
        entries_cnt: 1,
    };
    assert!(leader
        .on_recv_append_entry_resp(&server_id, peer2_id, &resp, &state, &mut io)
        .is_none());

    // A failure at the now current echo backs next_idx off and resends.
    let resp = AppendEntriesResp {
        term: current_term,
        success: false,
        echo_prev_log_term_idx: TermIdx::builder().with_term(Term::from(2)).with_idx(Idx::from(2)),
        entries_cnt: 0,
    };
    assert!(leader
        .on_recv_append_entry_resp(&server_id, peer2_id, &resp, &state, &mut io)
        .is_none());
    assert_eq!(leader.next_idx_of(&peer2_id), Some(Idx::from(2)));
    let resent = helper_inspect_one_sent_packet(&mut io);
    assert_eq!(
        resent.rpc(),
        &Rpc::new_append_entry(
            current_term,
            server_id,
            TermIdx { term: current_term, idx: Idx::from(1) },
            Idx::initial(),
            vec![Entry::new(current_term, 2)],
        )
    );
}

#[test]
fn on_recv_append_entry_resp_matches_on_echoed_prev_idx() {
    let server_id = ServerId::new([1; 16]);
    let peer2_id = PeerId::new([11; 16]);
    let peer3_id = PeerId::new([12; 16]);
    let peer_list = vec![peer2_id, peer3_id];
    let mut state = RaftState::new();
    let current_term = state.current_term;
    log_two_entries(&mut state);

    let mut leader = Leader::new(&peer_list, &state);
    assert_eq!(leader.next_idx_of(&peer2_id).unwrap(), Idx::from(3));
    let mut io = MockIo::new(server_id);

    // A response echoing anything other than next_idx - 1 answers a superseded RPC and is
    // dropped, so next_idx is left alone.
    {
        let append_entries_resp = AppendEntriesResp {
            term: current_term,
            success: false,
            echo_prev_log_term_idx: TermIdx::builder()
                .with_term(current_term)
                .with_idx(Idx::from(1)),
            entries_cnt: 0,
        };
        let _ = leader.on_recv_append_entry_resp(
            &server_id,
            peer2_id,
            &append_entries_resp,
            &state,
            &mut io,
        );
        assert_eq!(leader.next_idx_of(&peer2_id).unwrap(), Idx::from(3));
    }

    // A response echoing next_idx - 1 is current and is processed.
    {
        let append_entries_resp = AppendEntriesResp {
            term: current_term,
            success: false,
            echo_prev_log_term_idx: TermIdx::builder()
                .with_term(current_term)
                .with_idx(Idx::from(2)),
            entries_cnt: 0,
        };
        let idx = leader.on_recv_append_entry_resp(
            &server_id,
            peer2_id,
            &append_entries_resp,
            &state,
            &mut io,
        );

        assert!(idx.is_none());
        assert_eq!(leader.next_idx_of(&peer2_id).unwrap(), Idx::from(2));
    }
}

// A Leader ignores stale RequestVoteResp after it has already won the election.
#[test]
fn leader_ignores_stale_request_vote_resp() {
    let server_id = ServerId::new([1; 16]);
    let peer2_id = PeerId::new([11; 16]);
    let peer3_id = PeerId::new([12; 16]);
    let peer_list = vec![peer2_id, peer3_id];
    let mut state = RaftState::new();
    let current_term = state.current_term;
    let mut leader = Leader::new(&peer_list, &state);
    let mut io = MockIo::new(server_id);

    let next_idx_before = leader.next_idx.clone();
    let match_idx_before = leader.match_idx.clone();

    let stale_vote = Rpc::new_request_vote_resp(current_term, true);
    leader.on_recv(&server_id, peer2_id, &peer_list, &stale_vote, &mut state, &mut io);

    // The Leader neither replies nor mutates any state.
    assert_eq!(io.send_queue_len(), 0);
    assert_eq!(leader.next_idx, next_idx_before);
    assert_eq!(leader.match_idx, match_idx_before);
    assert_eq!(state.current_term, current_term);
}

// commitIdx only advances once a majority of matchIndex[] have reached N (§5.3, §5.4).
#[test]
fn update_commit_idx_requires_majority() {
    let peer2_id = PeerId::new([11; 16]);
    let peer3_id = PeerId::new([12; 16]);
    let peer_list = vec![peer2_id, peer3_id];
    let mut state = RaftState::new();
    let current_term = state.current_term;

    let entry = Entry {
        term: current_term,
        command: 1,
    };
    let outcome = state.log.update_to_match_leaders_log(entry, Idx::from(1));
    assert!(matches!(outcome, MatchOutcome::DoesntExist));

    let mut leader = Leader::new(&peer_list, &state);
    assert_eq!(state.commit_idx(), &Idx::initial());

    // Only the Leader has idx 1 (1 of 3): no commit.
    leader.update_commit_idx(Idx::from(1), &peer_list, &mut state, peer2_id);
    assert_eq!(state.commit_idx(), &Idx::initial());

    // One peer has replicated idx 1: with the Leader that is 2 of 3.
    leader.match_idx[0] = Idx::from(1);
    leader.update_commit_idx(Idx::from(1), &peer_list, &mut state, peer2_id);
    assert_eq!(state.commit_idx(), &Idx::from(1));
    assert_eq!(state.applied_commands(), vec![1]);

    // N is not greater than the current commit_idx: no change.
    leader.update_commit_idx(Idx::from(1), &peer_list, &mut state, peer2_id);
    assert_eq!(state.commit_idx(), &Idx::from(1));
    assert_eq!(state.applied_commands(), vec![1]);
}

#[test]
fn update_commit_idx_leader_counts_itself_3_node() {
    let peer2_id = PeerId::new([11; 16]);
    let peer3_id = PeerId::new([12; 16]);
    let peer_list = vec![peer2_id, peer3_id];

    for (peers_at_n, expect_commit) in [(0, false), (1, true)] {
        let mut state = RaftState::new();
        let entry = Entry {
            term: state.current_term,
            command: 1,
        };
        let _ = state.log.update_to_match_leaders_log(entry, Idx::from(1));

        let mut leader = Leader::new(&peer_list, &state);
        for i in 0..peers_at_n {
            leader.match_idx[i] = Idx::from(1);
        }

        leader.update_commit_idx(Idx::from(1), &peer_list, &mut state, peer2_id);

        let expected = if expect_commit {
            Idx::from(1)
        } else {
            Idx::initial()
        };
        assert_eq!(
            state.commit_idx(),
            &expected,
            "3-node cluster with {peers_at_n} replicating peer(s)"
        );
    }
}

// A Leader never commits an entry from a previous term, even with a majority (§5.4.2).
#[test]
fn update_commit_idx_only_commits_current_term() {
    let peer2_id = PeerId::new([11; 16]);
    let peer3_id = PeerId::new([12; 16]);
    let peer_list = vec![peer2_id, peer3_id];
    let mut state = RaftState::new();

    let old_term = state.current_term;
    let entry = Entry {
        term: old_term,
        command: 1,
    };
    let outcome = state.log.update_to_match_leaders_log(entry, Idx::from(1));
    assert!(matches!(outcome, MatchOutcome::DoesntExist));
    state.current_term = Term::from(2);

    let mut leader = Leader::new(&peer_list, &state);

    leader.match_idx[0] = Idx::from(1);
    leader.match_idx[1] = Idx::from(1);
    leader.update_commit_idx(Idx::from(1), &peer_list, &mut state, peer2_id);
    assert_eq!(state.commit_idx(), &Idx::initial());
}

// ---------------------------------------------------------------------------------------------
// Mode

#[test]
fn test_quorum() {
    let peer2_id = PeerId::new([2; 16]);
    let peer3_id = PeerId::new([3; 16]);
    let peer4_id = PeerId::new([4; 16]);

    assert_eq!(Mode::quorum(&[]), Quorum(1));
    assert_eq!(Mode::quorum(&[peer2_id]), Quorum(2));
    assert_eq!(Mode::quorum(&[peer2_id, peer3_id]), Quorum(2));
    assert_eq!(Mode::quorum(&[peer2_id, peer3_id, peer4_id]), Quorum(3));
}

// A Candidate that hears from a Leader of its term becomes a Follower and answers as one.
#[test]
fn candidate_stays_candidate_on_recv_append_entries() {
    let server_id = ServerId::new([1; 16]);
    let leader_id = ServerId::new([2; 16]);
    let peer_list = vec![leader_id.as_peer_id()];
    let mut state = RaftState::new();
    let current_term = Term::from(2);
    state.current_term = current_term;

    let mut mode = Mode::Candidate(Candidate::default());

    let append_entries = Rpc::new_append_entry(
        current_term,
        leader_id,
        TermIdx::initial(),
        Idx::initial(),
        vec![],
    );
    let mut leader_io = MockIo::new(server_id);
    mode.on_recv(
        &server_id,
        leader_id.as_peer_id(),
        &append_entries,
        &peer_list,
        &mut state,
        &mut leader_io,
    );

    // expect Mode::Follower
    assert!(matches!(mode, Mode::Follower(_)));
    assert_eq!(mode.current_leader(&server_id), Some(leader_id.as_peer_id()));

    let sent = helper_inspect_one_sent_packet(&mut leader_io);
    let expected_rpc = Rpc::new_append_entry_resp(current_term, true, TermIdx::initial(), 0);
    assert_eq!(&expected_rpc, sent.rpc());
}

// A Candidate refuses an AppendEntries from an older term and stays a Candidate.
#[test]
fn candidate_switches_to_follower_on_recv_append_entries() {
    let current_term = Term::from(2);
    let server_id = ServerId::new([1; 16]);
    let peer_id = ServerId::new([2; 16]);
    let peer_list = vec![peer_id.as_peer_id()];
    let mut state = RaftState::new();
    state.current_term = current_term;

    let mut io = MockIo::new(server_id);
    let mut mode = Mode::Candidate(Candidate::default());

    let append_entries = Rpc::new_append_entry(
        Term::from(1),
        peer_id,
        TermIdx::initial(),
        Idx::initial(),
        vec![],
    );
    mode.on_recv(
        &server_id,
        peer_id.as_peer_id(),
        &append_entries,
        &peer_list,
        &mut state,
        &mut io,
    );

    // expect Mode::Candidate
    assert!(matches!(mode, Mode::Candidate(_)));

    assert_eq!(io.send_queue_len(), 1);
    let sent = helper_inspect_one_sent_packet(&mut io);
    let expected_rpc = Rpc::new_append_entry_resp(current_term, false, TermIdx::initial(), 0);
    assert_eq!(&expected_rpc, sent.rpc());
}

/// An RPC from a later term turns any mode into a Follower of that term that has not voted.
#[test]
fn higher_term_turns_leader_into_follower() {
    let server_id = ServerId::new([1; 16]);
    let peer = PeerId::new([2; 16]);
    let peer_list = vec![peer];
    let mut state = RaftState::new();
    let mut io = MockIo::new(server_id);
    let mut mode = Mode::new();

    // One peer: the self vote alone is not a majority, so the timeout makes a Candidate.
    mode.on_timeout(&server_id, &peer_list, &mut state, &mut io);
    assert!(mode.is_candidate());
    assert_eq!(state.current_term, Term::from(1));
    assert_eq!(state.voted_for(), &Some(server_id.into_id()));
    let _ = helper_inspect_one_sent_packet(&mut io);

    // The peer's vote makes it Leader, which announces itself.
    mode.on_recv(
        &server_id,
        peer,
        &Rpc::new_request_vote_resp(Term::from(1), true),
        &peer_list,
        &mut state,
        &mut io,
    );
    assert!(mode.is_leader());
    assert_eq!(mode.current_leader(&server_id), Some(server_id.as_peer_id()));
    let _ = helper_inspect_one_sent_packet(&mut io);

    // A response from term 5 moves the server to term 5 as a Follower.
    mode.on_recv(
        &server_id,
        peer,
        &Rpc::new_request_vote_resp(Term::from(5), false),
        &peer_list,
        &mut state,
        &mut io,
    );
    assert!(mode.is_follower());
    assert_eq!(state.current_term, Term::from(5));
    assert_eq!(state.voted_for(), &None);
    assert_eq!(mode.current_leader(&server_id), None);
}

#[test]
fn raft_state_on_start_election() {
    let mut state = RaftState::new();
    let current_term = Term::from(100);
    state.current_term = current_term;

    let t1 = Term::from(1);
    state.log.test_append_entries(vec![Entry::new(t1, 8)]);
    state.log.test_append_entries(vec![Entry::new(t1, 8)]);
    let last_log_term_idx = state.on_start_election();
    assert_eq!(
        last_log_term_idx,
        TermIdx::builder().with_term(t1).with_idx(Idx::from(2))
    );
    assert_eq!(state.current_term, Term::from(101));

    let t2 = Term::from(2);
    state.log.test_append_entries(vec![Entry::new(t2, 8)]);
    state.log.test_append_entries(vec![Entry::new(t2, 8)]);
    let last_log_term_idx = state.on_start_election();
    assert_eq!(
        last_log_term_idx,
        TermIdx::builder().with_term(t2).with_idx(Idx::from(4))
    );
    assert_eq!(state.current_term, Term::from(102));
}

#[test]
fn peer_info_addresses_the_peer() {
    let peer = PeerInfo::new(ServerId::new([4; 16]));
    let mut io = MockIo::new(ServerId::new([1; 16]));
    peer.send_rpc(Rpc::new_request_vote_resp(Term::from(1), true), &mut io);
    let packet = helper_inspect_one_sent_packet(&mut io);
    assert_eq!(packet.to(), ServerId::new([4; 16]));
    assert_eq!(packet.from(), ServerId::new([1; 16]));
    assert_eq!(packet.rpc(), &Rpc::new_request_vote_resp(Term::from(1), true));
}

#[test]
fn mock_io_hands_back_received_bytes_in_order() {
    let mut io = MockIo::new(ServerId::new([1; 16]));
    assert_eq!(io.recv_raw(), None);
    io.push_recv(vec![1, 2]);
    io.push_recv(vec![3]);
    assert_eq!(io.recv_raw(), Some(vec![1, 2]));
    assert_eq!(io.recv_raw(), Some(vec![3]));
    assert_eq!(io.recv_raw(), None);
}

#[test]
fn peer_mocks_fill_their_ids() {
    let (id, peer) = PeerInfo::mock(3);
    assert_eq!(id, ServerId::new([3; 16]));
    assert_eq!(peer.id, id);

    let map = PeerInfo::mock_as_map(&[1, 2, 1]);
    assert_eq!(map.len(), 2);
    assert_eq!(map[&ServerId::new([2; 16])], PeerInfo::new(ServerId::new([2; 16])));
    assert!(map.contains_key(&ServerId::new([1; 16])));
}

/// Granting a vote restarts the election timeout; refusing one leaves the timeout alone.
#[test]
fn granting_a_vote_restarts_the_election_timeout() {
    let mut state = RaftState::new();
    let mut io = MockIo::new(ServerId::new([1; 16]));
    let first = RequestVote {
        term: Term::from(1),
        candidate_id: ServerId::new([2; 16]),
        last_log_term_idx: TermIdx::initial(),
    };
    first.on_recv(PeerId::new([2; 16]), &mut state, &mut io);
    assert_eq!(state.voted_for(), &Some(ServerId::new([2; 16]).into_id()));
    assert!(state.timeout.take_reset());

    // The vote of this term is taken, so a second Candidate is refused.
    let second = RequestVote {
        term: Term::from(1),
        candidate_id: ServerId::new([3; 16]),
        last_log_term_idx: TermIdx::initial(),
    };
    second.on_recv(PeerId::new([3; 16]), &mut state, &mut io);
    assert_eq!(state.voted_for(), &Some(ServerId::new([2; 16]).into_id()));
    assert!(!state.timeout.take_reset());
}
