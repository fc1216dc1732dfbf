//! What a server knows of one of its peers.

use crate::packet::Rpc;
use crate::queue::egress::ServerEgress;
use crate::server::{PeerId, ServerId};
use std::collections::BTreeMap;
use vstd::laws_cmp::obeys_cmp;
use vstd::prelude::*;

verus! {

/// The first `n` of `fills`.
pub open spec fn prefix_of(fills: Seq<u8>, n: usize) -> Seq<u8> {
    fills.subrange(0, n as int)
}

/// Whether every byte of `id` is `fill`.
pub open spec fn filled_with(id: ServerId, fill: u8) -> bool {
    forall|j: int| 0 <= j < 16 ==> id.0@[j] == fill
}

/// Whether `id` is filled with one of `fills`.
pub open spec fn filled_with_one_of(id: ServerId, fills: Seq<u8>) -> bool {
    exists|i: int| 0 <= i < fills.len() && filled_with(id, #[trigger] fills[i])
}

/// A peer, by the name the test helpers use for it.
pub type Peer = PeerInfo;

/// A peer of this server, known by its id; peers compare and order by id.
#[derive(Debug, Clone, Copy, PartialEq, Eq, PartialOrd, Ord)]
pub struct PeerInfo {
    pub id: ServerId,
}

impl PeerInfo {
    pub fn new(id: ServerId) -> (peer: PeerInfo)
        ensures
            peer.id == id,
    {
        PeerInfo { id }
    }

    /// Send `rpc` to this peer through `io_egress`.
    pub fn send_rpc<E: ServerEgress>(&self, rpc: Rpc, io_egress: &mut E)
        ensures
            final(io_egress).sent() == old(io_egress).sent().push((PeerId(self.id.0), rpc@)),
    {
        io_egress.send_packet(self.id.as_peer_id(), rpc);
    }

    /// A peer whose id is 16 bytes of `fill`, and that id.
    pub fn mock(fill: u8) -> (mock: (ServerId, PeerInfo))
        ensures
            filled_with(mock.0, fill),
            mock.1.id == mock.0,
    {
        let id = ServerId::new([fill; 16]);
        (id, PeerInfo::new(id))
    }

    /// A peer for each of `ids_fill`, keyed by its id; the id of each is 16 bytes of its fill.
    ///
    /// `BTreeMap` places keys by `Ord`, so what the map holds is stated for an `Ord` on `ServerId`
    /// that obeys the laws of an order.
    pub fn mock_as_map(ids_fill: &[u8]) -> (map: BTreeMap<ServerId, PeerInfo>)
        ensures
            obeys_cmp::<ServerId>() ==> {
                &&& forall|id: ServerId|
                    #[trigger] map@.contains_key(id) <==> filled_with_one_of(id, ids_fill@)
                &&& forall|id: ServerId| #[trigger] map@.contains_key(id) ==> map@[id] == PeerInfo { id }
            },
    {
        let mut map: BTreeMap<ServerId, PeerInfo> = BTreeMap::new();
        let mut i: usize = 0;
        while i < ids_fill.len()
            invariant
                i <= ids_fill@.len(),
                obeys_cmp::<ServerId>() ==> {
                    &&& forall|id: ServerId|
                        #[trigger] map@.contains_key(id) <==> filled_with_one_of(
                            id,
                            prefix_of(ids_fill@, i),
                        )
                    &&& forall|id: ServerId|
                        #[trigger] map@.contains_key(id) ==> map@[id] == PeerInfo { id }
                },
            decreases ids_fill.len() - i,
        {
            let ghost before = prefix_of(ids_fill@, i);
            let ghost map_before = map@;
            let (id, peer) = PeerInfo::mock(ids_fill[i]);
            let _ = map.insert(id, peer);
            i = i + 1;
            proof {
                let now = prefix_of(ids_fill@, i);
                assert(now =~= before.push(ids_fill@[i - 1]));
                if obeys_cmp::<ServerId>() {
                    assert(map@ == map_before.insert(id, peer));
                    assert forall|k: ServerId|
                        #[trigger] map@.contains_key(k) <==> filled_with_one_of(k, now) by {
                        if filled_with_one_of(k, before) {
                            let w = choose|w: int|
                                0 <= w < before.len() && filled_with(k, #[trigger] before[w]);
                            assert(now[w] == before[w]);
                        }
                        if k == id {
                            assert(filled_with(k, now[now.len() - 1]));
                        }
                        if filled_with_one_of(k, now) {
                            let w = choose|w: int|
                                0 <= w < now.len() && filled_with(k, #[trigger] now[w]);
                            if w < now.len() - 1 {
                                assert(before[w] == now[w]);
                            } else {
                                assert(k.0@ =~= id.0@);
                                assert(k.0 == id.0);
                            }
                        }
                    }
                }
            }
        }
        assert(prefix_of(ids_fill@, i) =~= ids_fill@);
        map
    }
}

} // verus!
