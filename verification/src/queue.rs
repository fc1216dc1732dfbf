//! Byte queues between a server and the network, and the egress through which modes send RPCs.

pub mod bounded;
pub mod egress;
pub mod network;
pub mod testing;

pub use bounded::BoundedQueue;
pub use network::{NetEgress, NetIngress, NetworkQueueImpl, IO_BUF_LEN};
