//! Where a server's outgoing RPCs go.

use crate::packet::{Rpc, RpcView};
use crate::server::PeerId;
use vstd::prelude::*;

verus! {

/// A sink for the RPCs a server sends to its peers.
pub trait ServerEgress {
    /// Every (destination, RPC) pair sent through this egress and not yet taken out, oldest
    /// first.
    spec fn sent(&self) -> Seq<(PeerId, RpcView)>;

    /// Send `rpc` to the peer `to`.
    fn send_packet(&mut self, to: PeerId, rpc: Rpc)
        ensures
            final(self).sent() == old(self).sent().push((to, rpc@)),
    ;
}

/// The egress of a running server: it holds each (destination, RPC) pair until the server
/// addresses it, encodes it and moves it onto the network queue.
#[derive(Debug)]
pub struct ServerEgressImpl {
    pub pending: Vec<(PeerId, Rpc)>,
}

impl ServerEgressImpl {
    pub fn new() -> (egress: ServerEgressImpl)
        ensures
            egress.sent() == Seq::<(PeerId, RpcView)>::empty(),
    {
        ServerEgressImpl { pending: Vec::new() }
    }

    /// Take every pending pair out of the egress, oldest first.
    pub fn take_pending(&mut self) -> (pending: Vec<(PeerId, Rpc)>)
        ensures
            pending@.map_values(|e: (PeerId, Rpc)| (e.0, e.1@)) == old(self).sent(),
            final(self).sent() == Seq::<(PeerId, RpcView)>::empty(),
    {
        let mut out: Vec<(PeerId, Rpc)> = Vec::new();
        std::mem::swap(&mut out, &mut self.pending);
        proof {
            assert(self.pending@.map_values(|e: (PeerId, Rpc)| (e.0, e.1@)) =~= Seq::<
                (PeerId, RpcView),
            >::empty());
        }
        out
    }
}

impl ServerEgress for ServerEgressImpl {
    open spec fn sent(&self) -> Seq<(PeerId, RpcView)> {
        self.pending@.map_values(|e: (PeerId, Rpc)| (e.0, e.1@))
    }

    fn send_packet(&mut self, to: PeerId, rpc: Rpc) {
        let ghost rv = rpc@;
        self.pending.push((to, rpc));
        proof {
            assert(self.sent() =~= old(self).sent().push((to, rv)));
        }
    }
}

} // verus!
