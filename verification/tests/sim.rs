use raft_rs::log::{Entry, Idx, Term};
use raft_rs::server::{PeerId, ServerId};
use raft_rs::sim::{
    committed_entries_agree, committed_len, logs_match, peer_list_for, sole_leader, unique_bytes,
    Operation, RunMillis, ServerIdx, ServerPick, MAX_CLUSTER_SIZE,
};

#[test]
fn picks_fold_into_the_cluster() {
    assert_eq!(ServerPick(6).resolve(5), ServerIdx(1));
    assert_eq!(ServerPick(4).resolve(5), ServerIdx(4));
    assert_eq!(ServerPick(MAX_CLUSTER_SIZE - 1).resolve(3), ServerIdx(0));
    let op = Operation::ClientRequest(ServerPick(2), 9);
    assert_eq!(op, Operation::ClientRequest(ServerPick(2), 9));
    assert_ne!(Operation::RunUntil(RunMillis(1)), Operation::Pause(ServerPick(1)));
}

#[test]
fn unique_bytes_count_from_one() {
    let b = unique_bytes(0);
    assert_eq!(&b[..8], &[0, 0, 0, 0, 0, 0, 0, 1]);
    assert_eq!(&b[8..], &[0; 8]);
    assert_eq!(&unique_bytes(257)[..8], &[0, 0, 0, 0, 0, 0, 1, 2]);
    assert_ne!(unique_bytes(3), unique_bytes(4));
}

#[test]
fn peers_are_every_other_server() {
    let ids = vec![ServerId::new([1; 16]), ServerId::new([2; 16]), ServerId::new([3; 16])];
    assert_eq!(
        peer_list_for(&ids, 1),
        vec![PeerId::new([1; 16]), PeerId::new([3; 16])]
    );
    assert_eq!(peer_list_for(&ids, 0).len(), 2);
}

#[test]
fn sole_leader_needs_exactly_one() {
    assert_eq!(sole_leader(&vec![false, true, false]), Some(ServerIdx(1)));
    assert_eq!(sole_leader(&vec![false, false]), None);
    assert_eq!(sole_leader(&vec![true, false, true]), None);
    assert_eq!(committed_len(Idx::initial()), 0);
    assert_eq!(committed_len(Idx::from(4)), 4);
}

fn e(term: u64, command: u8) -> Entry {
    Entry::new(Term::from(term), command)
}

#[test]
fn log_matching_allows_different_terms_but_not_divergent_prefixes() {
    // Differing only where the terms differ is legal.
    assert!(logs_match(&vec![vec![e(1, 1), e(2, 2)], vec![e(1, 1), e(3, 9)], vec![e(1, 1)]]));
    // Same term at idx 2 but a different entry before it is not.
    assert!(!logs_match(&vec![vec![e(1, 1), e(2, 2)], vec![e(1, 5), e(2, 2)]]));
    // Same term and index but a different command is not.
    assert!(!logs_match(&vec![vec![e(1, 1)], vec![e(1, 2)]]));
    assert!(logs_match(&vec![]));
}

#[test]
fn committed_entries_must_agree() {
    let logs = vec![vec![e(1, 1), e(2, 2)], vec![e(1, 1), e(3, 9)]];
    // Only idx 1 is committed on both.
    assert!(committed_entries_agree(&logs, &vec![1, 2], &vec![vec![1], vec![1, 9]]));
    // Both claim idx 2 committed, but hold different entries there.
    assert!(!committed_entries_agree(&logs, &vec![2, 2], &vec![vec![1], vec![1]]));
    // Applied commands diverge.
    assert!(!committed_entries_agree(&logs, &vec![1, 1], &vec![vec![1], vec![2]]));
}
