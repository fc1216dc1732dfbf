use raft_rs::log::{Entry, Idx, Log, MatchOutcome, Term, TermIdx};

#[test]
fn test_find_log_entry() {
    let mut log = Log::new();
    let entry = Entry {
        term: Term::from(1),
        command: 8,
    };

    // Empty log
    assert!(log.find_entry_at(&Idx::from(1)).is_none());

    log.push(vec![entry.clone()]);

    // Find Idx::initial
    assert!(log.find_entry_at(&Idx::initial()).is_none());

    // Find existing entry
    assert_eq!(*log.find_entry_at(&Idx::from(1)).unwrap(), entry);
}

#[test]
fn test_entry_matches() {
    let mut log = Log::new();
    let term = Term::from(1);
    let entry = Entry { term, command: 8 };

    // Empty log
    assert!(matches!(
        log.entry_matches(TermIdx::initial()),
        MatchOutcome::Match
    ));

    // Non-empty log
    log.push(vec![entry.clone()]);
    assert!(matches!(
        log.entry_matches(TermIdx::initial()),
        MatchOutcome::DoesntExist
    ));

    // Log entry match
    let term_idx = TermIdx::builder().with_term(term).with_idx(Idx::from(1));
    assert!(matches!(log.entry_matches(term_idx), MatchOutcome::Match));

    // Log entry mismatch
    let mis_match_term_idx = TermIdx {
        term: Term::from(2),
        idx: Idx::from(1),
    };
    assert!(matches!(
        log.entry_matches(mis_match_term_idx),
        MatchOutcome::NoMatch
    ));

    // Non-existing entry
    let non_existing_term_idx = TermIdx {
        term: Term::from(2),
        idx: Idx::from(2),
    };
    assert!(matches!(
        log.entry_matches(non_existing_term_idx),
        MatchOutcome::DoesntExist
    ));
}

#[test]
fn valid_term_at_idx() {
    let mut log = Log::new();
    let expected_term = Term::from(1);
    let entry = Entry {
        term: expected_term,
        command: 8,
    };
    log.push(vec![entry]);

    let term = log.term_at_idx(&Idx::from(1)).unwrap();
    assert_eq!(expected_term, term);
}

#[test]
fn match_leaders_log_for_empty_logs() {
    let mut log = Log::new();

    let outcome = log.update_to_match_leaders_log(
        Entry {
            term: Term::from(1),
            command: 8,
        },
        Idx::from(1),
    );
    assert!(matches!(outcome, MatchOutcome::DoesntExist));

    let outcome = log.update_to_match_leaders_log(
        Entry {
            term: Term::from(1),
            command: 8,
        },
        Idx::from(2),
    );
    assert!(matches!(outcome, MatchOutcome::DoesntExist));
}

#[test]
fn test_match_leaders_log() {
    let mut log = Log::new();
    log.push(vec![
        // Idx 1
        Entry {
            term: Term::from(2),
            command: 8,
        },
        // Idx 2
        Entry {
            term: Term::from(2),
            command: 8,
        },
        // Idx 3
        Entry {
            term: Term::from(4),
            command: 8,
        },
    ]);

    // matches
    let match_outcome = log.update_to_match_leaders_log(
        Entry {
            term: Term::from(2),
            command: 8,
        },
        Idx::from(1),
    );
    assert!(matches!(match_outcome, MatchOutcome::Match));

    // doesnt match
    let no_match_outcome = log.update_to_match_leaders_log(
        Entry {
            term: Term::from(3),
            command: 8,
        },
        Idx::from(3),
    );
    assert!(matches!(no_match_outcome, MatchOutcome::NoMatch));

    // doesnt exist
    let doesnt_exist_outcome = log.update_to_match_leaders_log(
        Entry {
            term: Term::from(4),
            command: 8,
        },
        Idx::from(4),
    );
    assert!(matches!(doesnt_exist_outcome, MatchOutcome::DoesntExist));
}

#[test]
fn test_log_up_to_date() {
    let mut log = Log::new();

    let t1 = Term::from(1);
    let t2 = Term::from(2);
    let t3 = Term::from(3);
    let i1 = Idx::from(1);
    let i2 = Idx::from(2);
    let i3 = Idx::from(3);
    let ti_initial = TermIdx::initial();

    // Initial IS up-to-date
    // log: []
    assert!(log.is_candidate_log_up_to_date(&ti_initial));

    // log: [ [t:1] [t:2] ]
    log.push(vec![Entry::new(t1, 8)]);
    log.push(vec![Entry::new(t2, 8)]);
    assert_eq!(log.test_len(), 2);

    // Initial NOT up-to-date
    assert!(!log.is_candidate_log_up_to_date(&ti_initial));

    // == Equal TermIdx ==
    let term_idx_eq = TermIdx::builder().with_term(t2).with_idx(i2);
    assert!(log.is_candidate_log_up_to_date(&term_idx_eq));

    // == Different Term ==
    // term <
    let term_lt = TermIdx::builder().with_term(t1).with_idx(i2);
    assert!(!log.is_candidate_log_up_to_date(&term_lt));
    // term >
    let term_gt = TermIdx::builder().with_term(t3).with_idx(i2);
    assert!(log.is_candidate_log_up_to_date(&term_gt));

    // == Same Term ==
    // idx <
    let idx_lt = TermIdx::builder().with_term(t2).with_idx(i1);
    assert!(!log.is_candidate_log_up_to_date(&idx_lt));
    // idx >
    let idx_gt = TermIdx::builder().with_term(t2).with_idx(i3);
    assert!(log.is_candidate_log_up_to_date(&idx_gt));
}

/// A mismatch drops the entry at the index and everything after it, and puts the Leader's entry
/// in its place.
#[test]
fn mismatch_truncates_the_log_from_the_index() {
    let mut log = Log::new();
    log.push(vec![
        Entry::new(Term::from(1), 1),
        Entry::new(Term::from(1), 2),
        Entry::new(Term::from(2), 3),
    ]);

    let outcome = log.update_to_match_leaders_log(Entry::new(Term::from(3), 9), Idx::from(2));
    assert!(matches!(outcome, MatchOutcome::NoMatch));
    assert_eq!(log.test_len(), 2);
    assert_eq!(log.test_get_unchecked(1), Entry::new(Term::from(1), 1));
    assert_eq!(log.test_get_unchecked(2), Entry::new(Term::from(3), 9));
    assert_eq!(log.last_term_idx(), TermIdx { term: Term::from(3), idx: Idx::from(2) });
}

/// Entries past the leader's prefix are replaced by the leader's; a matching prefix is kept.
#[test]
fn store_entries_overwrites_a_conflicting_suffix() {
    let mut log = Log::new();
    log.push(vec![
        Entry::new(Term::from(1), 1),
        Entry::new(Term::from(1), 2),
        Entry::new(Term::from(1), 3),
    ]);

    // The leader agrees on idx 1, then sends [t2:7, t2:8].
    log.store_entries(1, &vec![Entry::new(Term::from(1), 2), Entry::new(Term::from(2), 8)]);
    assert_eq!(log.test_len(), 3);
    assert_eq!(log.test_get_unchecked(2), Entry::new(Term::from(1), 2));
    assert_eq!(log.test_get_unchecked(3), Entry::new(Term::from(2), 8));

    // Entries that already match are left as they are.
    log.store_entries(0, &vec![Entry::new(Term::from(1), 1)]);
    assert_eq!(log.test_len(), 3);
}

#[test]
fn get_entries_from_an_index() {
    let mut log = Log::new();
    log.push(vec![
        Entry::new(Term::from(1), 1),
        Entry::new(Term::from(2), 2),
        Entry::new(Term::from(3), 3),
    ]);
    assert_eq!(
        log.get_entries(&Idx::from(2)),
        vec![Entry::new(Term::from(2), 2), Entry::new(Term::from(3), 3)]
    );
    assert_eq!(log.get_entries(&Idx::from(4)), vec![]);
    assert_eq!(log.get_entries(&Idx::from(1)).len(), 3);
    assert_eq!(log.last_idx(), Idx::from(3));
    assert_eq!(log.term_at_idx(&Idx::from(4)), None);
}
