use raft_rs::log::{Entry, Idx, Term, TermIdx};
use raft_rs::packet::{
    AppendEntries, AppendEntriesResp, Header, Packet, RequestVote, RequestVoteResp, Rpc,
};
use raft_rs::server::{PeerId, ServerId};

#[test]
fn entry_encode_decode() {
    let entry = Entry::new(Term::from(2), 5);

    let mut out = Vec::new();
    entry.encode(&mut out);

    let (d_entry, _) = Entry::decode(&out).unwrap();

    assert_eq!(entry, d_entry);
}

#[test]
fn term_encode_decode() {
    let term = Term::from(9);

    let mut out = Vec::new();
    term.encode(&mut out);

    let (d_term, _) = Term::decode(&out).unwrap();

    assert_eq!(term, d_term);
}

#[test]
fn term_idx_encode_decode() {
    let term = Term::from(9);
    let idx = Idx::from(9);
    let term_idx = TermIdx { term, idx };

    let mut out = Vec::new();
    term_idx.encode(&mut out);

    let (d_term_idx, _) = TermIdx::decode(&out).unwrap();

    assert_eq!(term_idx, d_term_idx);
}

#[test]
fn id_encode_decode() {
    let id = ServerId::new([5; 16]);

    let mut out = Vec::new();
    id.encode(&mut out);

    let (d_id, _) = ServerId::decode(&out).unwrap();

    assert_eq!(id, d_id);
}

#[test]
fn encode_decode_request_vote() {
    let rpc = Rpc::new_request_vote(
        Term::from(1),
        ServerId::new([10; 16]),
        TermIdx::builder()
            .with_term(Term::from(3))
            .with_idx(Idx::from(4)),
    );

    let mut out = Vec::new();
    rpc.encode(&mut out);

    let (d_rpc, _) = Rpc::decode(&out).unwrap();

    assert_eq!(rpc, d_rpc);
}

#[test]
fn encode_decode_request_vote_resp() {
    let rpc = Rpc::new_request_vote_resp(Term::from(1), true);

    let mut out = Vec::new();
    rpc.encode(&mut out);

    let (d_rpc, _) = Rpc::decode(&out).unwrap();

    assert_eq!(rpc, d_rpc);
}

#[test]
fn encode_decode_append_entry() {
    let rpc = Rpc::new_append_entry(
        Term::from(1),
        ServerId::new([4; 16]),
        TermIdx::builder()
            .with_term(Term::from(3))
            .with_idx(Idx::from(4)),
        Idx::from(4),
        vec![Entry::new(Term::from(2), 3), Entry::new(Term::from(5), 6)],
    );

    let mut out = Vec::new();
    rpc.encode(&mut out);

    let (d_rpc, _) = Rpc::decode(&out).unwrap();

    assert_eq!(rpc, d_rpc);
}

#[test]
fn encode_decode_append_entry_resp() {
    let rpc = Rpc::new_append_entry_resp(Term::from(1), true, TermIdx::initial(), 0);

    let mut out = Vec::new();
    rpc.encode(&mut out);

    let (d_rpc, _) = Rpc::decode(&out).unwrap();

    assert_eq!(rpc, d_rpc);
}

fn as_append_entries(rpc: Rpc) -> AppendEntries {
    match rpc {
        Rpc::AppendEntry(ae) => ae,
        _ => panic!("not an AppendEntries"),
    }
}

// A Raft heartbeat doesn't have entries
#[test]
fn append_entries_encode_decode_heartbeat_rpc() {
    let rpc1 = as_append_entries(Rpc::new_append_entry(
        Term::from(2),
        ServerId::new([1; 16]),
        TermIdx::builder()
            .with_term(Term::from(3))
            .with_idx(Idx::from(4)),
        Idx::from(4),
        vec![],
    ));

    let rpc2 = as_append_entries(Rpc::new_append_entry(
        Term::from(7),
        ServerId::new([9; 16]),
        TermIdx::builder()
            .with_term(Term::from(8))
            .with_idx(Idx::from(2)),
        Idx::from(1),
        vec![],
    ));

    let mut out = Vec::new();
    rpc1.encode(&mut out);
    rpc2.encode(&mut out);

    // Decoding the second RPC only lines up if the first advanced the cursor by exactly its
    // encoded length.
    let (d_rpc1, n1) = AppendEntries::decode(&out).unwrap();
    let (d_rpc2, _) = AppendEntries::decode(&out[n1..]).unwrap();

    assert_eq!(rpc1, d_rpc1);
    assert_eq!(rpc2, d_rpc2);
}

#[test]
fn append_entries_encode_decode_rpc() {
    let rpc1 = as_append_entries(Rpc::new_append_entry(
        Term::from(2),
        ServerId::new([1; 16]),
        TermIdx::builder()
            .with_term(Term::from(3))
            .with_idx(Idx::from(4)),
        Idx::from(4),
        vec![Entry::new(Term::from(2), 3), Entry::new(Term::from(5), 6)],
    ));

    let rpc2 = as_append_entries(Rpc::new_append_entry(
        Term::from(7),
        ServerId::new([9; 16]),
        TermIdx::builder()
            .with_term(Term::from(8))
            .with_idx(Idx::from(2)),
        Idx::from(1),
        vec![Entry::new(Term::from(7), 42)],
    ));

    let mut out = Vec::new();
    rpc1.encode(&mut out);
    rpc2.encode(&mut out);

    // Decode from only the written bytes so the remainder must be exactly empty.
    let (d_rpc1, n1) = AppendEntries::decode(&out).unwrap();
    let (d_rpc2, n2) = AppendEntries::decode(&out[n1..]).unwrap();

    assert_eq!(rpc1, d_rpc1);
    assert_eq!(rpc2, d_rpc2);
    assert_eq!(n1 + n2, out.len());
}

#[test]
fn append_entries_encode_decode_rpc_resp() {
    let rpc1 = AppendEntriesResp {
        term: Term::from(2),
        success: true,
        echo_prev_log_term_idx: TermIdx::builder()
            .with_term(Term::from(2))
            .with_idx(Idx::from(1)),
        entries_cnt: 3,
    };

    let rpc2 = AppendEntriesResp {
        term: Term::from(5),
        success: false,
        echo_prev_log_term_idx: TermIdx::builder()
            .with_term(Term::from(4))
            .with_idx(Idx::from(3)),
        // A rejected RPC stored no entries.
        entries_cnt: 0,
    };

    let mut out = Vec::new();
    rpc1.encode(&mut out);
    rpc2.encode(&mut out);

    let (d_rpc1, n1) = AppendEntriesResp::decode(&out).unwrap();
    let (d_rpc2, n2) = AppendEntriesResp::decode(&out[n1..]).unwrap();

    assert_eq!(rpc1, d_rpc1);
    assert_eq!(rpc2, d_rpc2);
    assert_eq!(n1 + n2, out.len());
}

#[test]
fn request_vote_encode_decode_rpc() {
    let rpc = RequestVote {
        term: Term::from(2),
        candidate_id: ServerId::new([10; 16]),
        last_log_term_idx: TermIdx::builder()
            .with_term(Term::from(3))
            .with_idx(Idx::from(4)),
    };

    let mut out = Vec::new();
    rpc.encode(&mut out);

    let (d_rpc, _) = RequestVote::decode(&out).unwrap();

    assert_eq!(rpc, d_rpc);
}

#[test]
fn request_vote_encode_decode_rpc_resp() {
    let rpc = RequestVoteResp {
        term: Term::from(2),
        vote_granted: true,
    };

    let mut out = Vec::new();
    rpc.encode(&mut out);

    let (d_rpc, _) = RequestVoteResp::decode(&out).unwrap();

    assert_eq!(rpc, d_rpc);
}

/// The wire layout: big-endian integers, one byte per flag and command, a tag before each RPC and
/// a 16 bit count before the entries.
#[test]
fn wire_layout_is_fixed() {
    let mut out = Vec::new();
    Term::from(0x0102030405060708).encode(&mut out);
    assert_eq!(out, vec![1, 2, 3, 4, 5, 6, 7, 8]);

    let mut out = Vec::new();
    Rpc::new_request_vote_resp(Term::from(3), true).encode(&mut out);
    assert_eq!(out, vec![2, 0, 0, 0, 0, 0, 0, 0, 3, 1]);

    let mut out = Vec::new();
    Entry::new(Term::from(1), 9).encode(&mut out);
    assert_eq!(out, vec![0, 0, 0, 0, 0, 0, 0, 1, 9]);

    let mut out = Vec::new();
    Rpc::new_append_entry(
        Term::from(1),
        ServerId::new([0; 16]),
        TermIdx::initial(),
        Idx::from(0),
        vec![Entry::new(Term::from(1), 9)],
    )
    .encode(&mut out);
    // tag, term, leader id, prev term, prev idx, commit idx, count, one entry
    assert_eq!(out.len(), 1 + 8 + 16 + 8 + 8 + 8 + 2 + 9);
    assert_eq!(out[0], 3);
    assert_eq!(&out[49..51], &[0, 1]);
}

#[test]
fn truncated_or_unknown_bytes_do_not_decode() {
    let mut out = Vec::new();
    Rpc::new_request_vote_resp(Term::from(3), true).encode(&mut out);
    assert!(Rpc::decode(&out[..out.len() - 1]).is_none());
    assert!(Rpc::decode(&[9, 0, 0, 0, 0, 0, 0, 0, 3, 1]).is_none());
    assert!(Term::decode(&[1, 2, 3]).is_none());
    assert!(Packet::decode(&[0; 31]).is_none());
}

#[test]
fn packet_encode_decode() {
    let rpc = Rpc::new_append_entry_resp(
        Term::from(4),
        false,
        TermIdx::builder().with_term(Term::from(3)).with_idx(Idx::from(2)),
        7,
    );
    let packet = Packet::new_send(ServerId::new([1; 16]), PeerId::new([2; 16]), rpc.clone());
    let bytes = packet.to_bytes();
    let (d_packet, n) = Packet::decode(&bytes).unwrap();
    assert_eq!(n, bytes.len());
    assert_eq!(d_packet, packet);
    assert_eq!(d_packet.from(), ServerId::new([1; 16]));
    assert_eq!(d_packet.to(), ServerId::new([2; 16]));
    assert_eq!(*d_packet.rpc(), rpc);
    assert_eq!(
        d_packet,
        Packet::new(
            Header { from: ServerId::new([1; 16]), to: ServerId::new([2; 16]) },
            rpc
        )
    );
}
