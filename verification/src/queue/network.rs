//! The byte queues between a server and the network task.

use crate::queue::bounded::{after_extend, read_count, BoundedQueue};
use vstd::prelude::*;

verus! {

/// The most bytes one read moves off a queue.
pub const IO_BUF_LEN: usize = 1024;

/// The ceiling of each queue between a server and the network.
pub const QUEUE_CAPACITY: usize = 65536;

/// The queues held by the network task for sending and receiving bytes.
#[derive(Debug)]
pub struct NetworkQueueImpl {
    /// Bytes received from the network, waiting for the server.
    pub ingress_queue: BoundedQueue,
    /// Bytes the server sent, waiting for the network.
    pub egress_queue: BoundedQueue,
}

/// Functionality to queue bytes that were received over a socket onto the `ingress_queue`.
pub trait NetIngress {
    /// Push data to the `ingress_queue`.
    fn push_recv_bytes(&mut self, data: Vec<u8>);
}

/// Functionality to de-queue bytes from the `egress_queue` so that they can be sent over the
/// network.
pub trait NetEgress {
    /// Returns data from the `egress_queue` that should to be sent over the network.
    fn get_send(&mut self) -> (bytes: Option<Vec<u8>>);

    /// Whether there are bytes in the egress queue that can be sent on the network.
    fn egress_ready(&self) -> (ready: bool);
}

impl NetworkQueueImpl {
    pub fn new(capacity: usize) -> (queue: NetworkQueueImpl)
        ensures
            queue.ingress_queue@ == Seq::<u8>::empty(),
            queue.egress_queue@ == Seq::<u8>::empty(),
            queue.ingress_queue.capacity() == capacity,
            queue.egress_queue.capacity() == capacity,
    {
        NetworkQueueImpl {
            ingress_queue: BoundedQueue::new(capacity),
            egress_queue: BoundedQueue::new(capacity),
        }
    }
}

/// Move up to `IO_BUF_LEN` bytes off `queue`; None when it holds nothing.
pub fn read_up_to_buf_len(queue: &mut BoundedQueue) -> (bytes: Option<Vec<u8>>)
    ensures
        final(queue).capacity() == old(queue).capacity(),
        bytes is Some <==> old(queue)@.len() > 0,
        bytes is Some ==> bytes->0@ == old(queue)@.subrange(
            0,
            read_count(old(queue)@, IO_BUF_LEN as nat) as int,
        ),
        final(queue)@ == old(queue)@.subrange(
            read_count(old(queue)@, IO_BUF_LEN as nat) as int,
            old(queue)@.len() as int,
        ),
{
    let mut buf: Vec<u8> = vec![0u8; IO_BUF_LEN];
    let n = queue.read_into(buf.as_mut_slice());
    if n > 0 {
        buf.truncate(n);
        Some(buf)
    } else {
        None
    }
}

impl NetIngress for NetworkQueueImpl {
    /// If there is not enough space in the queue then the bytes are dropped and Raft retries
    /// later.
    fn push_recv_bytes(&mut self, data: Vec<u8>)
        ensures
            final(self).ingress_queue@ == after_extend(
                old(self).ingress_queue@,
                old(self).ingress_queue.capacity(),
                data@,
            ),
            final(self).ingress_queue.capacity() == old(self).ingress_queue.capacity(),
            final(self).egress_queue == old(self).egress_queue,
    {
        let _ = self.ingress_queue.try_extend(data.as_slice());
    }
}

impl NetEgress for NetworkQueueImpl {
    fn get_send(&mut self) -> (bytes: Option<Vec<u8>>)
        ensures
            bytes is Some <==> old(self).egress_queue@.len() > 0,
            bytes is Some ==> bytes->0@ == old(self).egress_queue@.subrange(
                0,
                read_count(old(self).egress_queue@, IO_BUF_LEN as nat) as int,
            ),
            final(self).egress_queue@ == old(self).egress_queue@.subrange(
                read_count(old(self).egress_queue@, IO_BUF_LEN as nat) as int,
                old(self).egress_queue@.len() as int,
            ),
            final(self).egress_queue.capacity() == old(self).egress_queue.capacity(),
            final(self).ingress_queue == old(self).ingress_queue,
    {
        read_up_to_buf_len(&mut self.egress_queue)
    }

    fn egress_ready(&self) -> (ready: bool)
        ensures
            ready == (self.egress_queue@.len() > 0),
    {
        !self.egress_queue.is_empty()
    }
}

} // verus!
