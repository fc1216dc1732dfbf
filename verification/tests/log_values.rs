use raft_rs::log::{Idx, Term, TermIdx};

#[test]
fn idx_initial_value() {
    let idx = Idx::default();
    assert_eq!(idx.0, 0);
}

#[test]
fn cmp_idx() {
    let idx = 4;

    let i = Idx(idx);
    let i_eq = Idx(idx);
    let i_lt = Idx(idx - 1);
    let i_gt = Idx(idx + 1);

    assert_eq!(i_eq, i);
    assert!(i_lt < i);
    assert!(i_gt > i);
}

#[test]
fn term_initial_value() {
    assert_eq!(Term::initial().0, 0);
}

#[test]
fn cmp_term() {
    let term = 4;
    let i = Term(term);
    let i_eq = Term(term);
    let i_lt = Term(term - 1);
    let i_gt = Term(term + 1);

    assert_eq!(i_eq, i);
    assert!(i_lt < i);
    assert!(i_gt > i);
}

#[test]
fn term_idx_initial_value() {
    let idx = Idx::default();
    assert_eq!(idx.0, 0);

    let term = Term::default();
    assert_eq!(term.0, 0);
}

#[test]
fn term_idx_cmp_term_idx() {
    let term = 2;
    let idx = 4;

    let term_idx = TermIdx {
        term: Term::from(term),
        idx: Idx::from(idx),
    };

    // equal
    let eq = TermIdx {
        term: Term::from(term),
        idx: Idx::from(idx),
    };
    assert_eq!(term_idx, eq);

    // term compare
    let term_lt = TermIdx {
        term: Term::from(term - 1),
        idx: Idx::from(idx),
    };
    let term_gt = TermIdx {
        term: Term::from(term + 1),
        idx: Idx::from(idx),
    };
    assert!(term_lt < term_idx);
    assert!(term_gt > term_idx);

    // idx compare
    let idx_lt = TermIdx {
        term: Term::from(term),
        idx: Idx::from(idx - 1),
    };
    let idx_gt = TermIdx {
        term: Term::from(term),
        idx: Idx::from(idx + 1),
    };
    assert!(idx_lt < term_idx);
    assert!(idx_gt > term_idx);
}

#[test]
fn idx_and_term_arithmetic() {
    assert_eq!(Idx::from(3).plus(4), Idx(7));
    assert_eq!(Idx::from(3).minus(3), Idx(0));
    assert_eq!(Idx::from(5).as_log_idx(), 4);
    assert!(Idx::initial().is_initial());
    assert!(!Idx::from(1).is_initial());

    let mut t = Term::initial();
    assert!(t.is_initial());
    t.increment();
    assert_eq!(t, Term(1));
    assert!(!t.is_initial());
}

#[test]
fn term_idx_builder_and_getters() {
    let ti = TermIdx::builder().with_term(Term(6)).with_idx(Idx(9));
    assert_eq!(ti.term(), Term(6));
    assert_eq!(ti.idx(), Idx(9));
    assert!(!ti.is_initial());
    assert!(TermIdx::initial().is_initial());
    assert_eq!(TermIdx::initial(), TermIdx { term: Term(0), idx: Idx(0) });
}
