//! A Raft consensus core: the replicated log, the wire format of the RPCs, the byte queues that
//! sit between a server and the network, and the Follower / Candidate / Leader state machine.
//!
//! Everything here is sans-I/O. A caller feeds received bytes and timeouts in, and drains encoded
//! packets out.

pub mod cluster;
pub mod log;
pub mod mode;
pub mod packet;
pub mod queue;
pub mod server;
pub mod sim;
pub mod state;
pub mod timeout;
