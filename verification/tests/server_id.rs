use raft_rs::server::{Id, PeerId, ServerId};

#[test]
fn cmp_test() {
    let id1 = ServerId::new([10; 16]);
    let mut id2 = ServerId::new([10; 16]);

    assert_eq!(id1, id2);

    id2.0[1] = 11;
    assert_ne!(id1, id2);
}

#[test]
fn ids_convert_without_changing_bytes() {
    let server = ServerId::new([7; 16]);
    assert_eq!(server.as_peer_id(), PeerId::new([7; 16]));
    assert_eq!(server.into_id(), Id::new([7; 16]));
    assert_eq!(PeerId::new([3; 16]).as_server_id(), ServerId::new([3; 16]));
    assert_eq!(*Id::new([4; 16]).as_bytes(), [4; 16]);
    assert_eq!(Id::new([5; 16]).as_peer_id(), PeerId::new([5; 16]));
}
