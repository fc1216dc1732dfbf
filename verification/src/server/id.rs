//! 16 byte identifiers for the servers of a cluster.
//!
//! The same bytes are typed three ways: `ServerId` addresses the local process, `PeerId` another
//! member of the cluster, and `Id` either of them where the distinction does not matter.

use crate::packet::Rpc;
use crate::queue::egress::ServerEgress;
use vstd::prelude::*;

verus! {

/// Un-typed Id for common usecases.
#[derive(Debug, Clone, Copy, PartialEq, Eq, Hash, PartialOrd, Ord)]
pub struct Id(pub [u8; 16]);

/// Id used for addressing the current server process.
#[derive(Debug, Clone, Copy, PartialEq, Eq, Hash, PartialOrd, Ord)]
pub struct ServerId(pub [u8; 16]);

/// Id used for addressing a peer process.
#[derive(Debug, Clone, Copy, PartialEq, Eq, Hash, PartialOrd, Ord)]
pub struct PeerId(pub [u8; 16]);

/// Whether two 16 byte identifiers are the same.
pub fn same_bytes(a: &[u8; 16], b: &[u8; 16]) -> (same: bool)
    ensures
        same == (*a == *b),
{
    let mut i: usize = 0;
    while i < 16
        invariant
            i <= 16,
            forall|j: int| 0 <= j < i ==> a[j] == b[j],
        decreases 16 - i,
    {
        if a[i] != b[i] {
            return false;
        }
        i = i + 1;
    }
    assert(*a =~= *b);
    true
}

impl Id {
    pub fn new(id: [u8; 16]) -> (r: Id)
        ensures
            r.0 == id,
    {
        Id(id)
    }

    pub fn as_bytes(&self) -> (bytes: &[u8; 16])
        ensures
            *bytes == self.0,
    {
        &self.0
    }

    /// The same bytes, addressed as a peer.
    pub fn as_peer_id(self) -> (peer: PeerId)
        ensures
            peer.0 == self.0,
    {
        PeerId(self.0)
    }
}

impl ServerId {
    pub fn new(id: [u8; 16]) -> (r: ServerId)
        ensures
            r.0 == id,
    {
        ServerId(id)
    }

    pub fn as_bytes(&self) -> (bytes: &[u8; 16])
        ensures
            *bytes == self.0,
    {
        &self.0
    }

    pub fn into_id(self) -> (id: Id)
        ensures
            id.0 == self.0,
    {
        Id(self.0)
    }

    /// The same bytes, addressed as a peer by the other servers.
    pub fn as_peer_id(self) -> (peer: PeerId)
        ensures
            peer.0 == self.0,
    {
        PeerId(self.0)
    }
}

impl PeerId {
    pub fn new(id: [u8; 16]) -> (r: PeerId)
        ensures
            r.0 == id,
    {
        PeerId(id)
    }

    pub fn as_bytes(&self) -> (bytes: &[u8; 16])
        ensures
            *bytes == self.0,
    {
        &self.0
    }

    pub fn into_id(self) -> (id: Id)
        ensures
            id.0 == self.0,
    {
        Id(self.0)
    }

    /// The same bytes, as the ServerId that the peer calls itself.
    pub fn as_server_id(self) -> (server: ServerId)
        ensures
            server.0 == self.0,
    {
        ServerId(self.0)
    }

    /// Send `rpc` to this peer.
    pub fn send_rpc<E: ServerEgress>(&self, rpc: Rpc, io_egress: &mut E)
        ensures
            final(io_egress).sent() == old(io_egress).sent().push((*self, rpc@)),
    {
        io_egress.send_packet(*self, rpc);
    }
}

} // verus!
