//! A byte queue that never grows past a ceiling fixed at construction.

use std::collections::VecDeque;
use vstd::prelude::*;

verus! {

/// The front and back regions that `VecDeque::as_slices` returns.
///
/// `std` documents that the two slices hold the contents of the deque in order, the front slice
/// first.
#[verifier::external_body]
fn deque_as_slices(bytes: &VecDeque<u8>) -> (regions: (&[u8], &[u8]))
    ensures
        regions.0@ + regions.1@ == bytes@,
{
    bytes.as_slices()
}

/// Whether `data` fits in a queue holding `queue` under the ceiling `capacity`.
pub open spec fn fits(queue: Seq<u8>, capacity: nat, data: Seq<u8>) -> bool {
    queue.len() + data.len() <= capacity
}

/// The queue after offering it `data`: every byte or none of them.
pub open spec fn after_extend(queue: Seq<u8>, capacity: nat, data: Seq<u8>) -> Seq<u8> {
    if fits(queue, capacity, data) {
        queue + data
    } else {
        queue
    }
}

/// How many bytes a read into a destination of `dst_len` bytes moves.
pub open spec fn read_count(queue: Seq<u8>, dst_len: nat) -> nat {
    if dst_len < queue.len() {
        dst_len
    } else {
        queue.len()
    }
}

/// A byte queue with a fixed ceiling.
///
/// `VecDeque` is already a ring buffer but it reallocates when it fills, so its `capacity` tracks
/// the allocation rather than any policy. Holding the ceiling here instead makes it a real limit.
///
/// Without a ceiling a server that outruns the network task queues packets until the process dies.
/// Refusing a write sheds that load in the one way Raft already handles, which is a lost packet.
#[derive(Debug)]
pub struct BoundedQueue {
    bytes: VecDeque<u8>,
    // Fixed at construction. `bytes.capacity()` is not a substitute since it grows on demand.
    capacity: usize,
}

impl View for BoundedQueue {
    type V = Seq<u8>;

    closed spec fn view(&self) -> Seq<u8> {
        self.bytes@
    }
}

impl BoundedQueue {
    /// The queue holds no more than its ceiling.
    #[verifier::type_invariant]
    spec fn within_capacity(&self) -> bool {
        self.bytes@.len() <= self.capacity
    }


    /// The ceiling fixed at construction.
    pub closed spec fn capacity(&self) -> nat {
        self.capacity as nat
    }

    pub fn new(capacity: usize) -> (queue: Self)
        ensures
            queue@ == Seq::<u8>::empty(),
            queue.capacity() == capacity,
    {
        BoundedQueue { bytes: VecDeque::with_capacity(capacity), capacity }
    }

    /// Bytes that can still be written.
    pub fn remaining(&self) -> (remaining: usize)
        ensures
            remaining == self.capacity() - self@.len(),
    {
        proof {
            use_type_invariant(self);
        }
        self.capacity - self.bytes.len()
    }

    pub fn len(&self) -> (len: usize)
        ensures
            len == self@.len(),
    {
        self.bytes.len()
    }

    pub fn is_empty(&self) -> (empty: bool)
        ensures
            empty == (self@.len() == 0),
    {
        self.bytes.len() == 0
    }

    /// Append every byte or none of them. False means the data did not fit.
    ///
    /// All or nothing because the queue is a byte stream with no record boundaries.
    pub fn try_extend(&mut self, data: &[u8]) -> (extended: bool)
        ensures
            extended == fits(old(self)@, old(self).capacity(), data@),
            final(self)@ == after_extend(old(self)@, old(self).capacity(), data@),
            final(self).capacity() == old(self).capacity(),
    {
        if data.len() > self.remaining() {
            return false;
        }
        let queue = self.take();
        let BoundedQueue { mut bytes, capacity } = queue;
        let mut i: usize = 0;
        while i < data.len()
            invariant
                i <= data@.len(),
                queue@.len() + data@.len() <= capacity,
                bytes@ == queue@ + data@.subrange(0, i as int),
            decreases data@.len() - i,
        {
            bytes.push_back(data[i]);
            i = i + 1;
            assert(data@.subrange(0, i as int) == data@.subrange(0, i - 1 as int).push(data@[i - 1]));
        }
        assert(data@.subrange(0, data@.len() as int) == data@);
        *self = BoundedQueue { bytes, capacity };
        true
    }

    /// Move the whole value out, leaving an empty queue with the same ceiling behind.
    fn take(&mut self) -> (queue: BoundedQueue)
        ensures
            queue == *old(self),
            final(self)@ == Seq::<u8>::empty(),
            final(self).capacity() == old(self).capacity(),
    {
        let mut queue = BoundedQueue { bytes: VecDeque::new(), capacity: self.capacity };
        std::mem::swap(&mut queue, self);
        queue
    }

    /// Move up to `dst.len()` bytes out of the queue and return how many moved.
    ///
    /// Takes whatever is there rather than waiting for a whole packet, since the queue has no way
    /// to know where a packet ends. The caller is what reassembles them.
    pub fn read_into(&mut self, dst: &mut [u8]) -> (len: usize)
        ensures
            len == read_count(old(self)@, old(dst)@.len()),
            final(dst)@ == old(self)@.subrange(0, len as int) + old(dst)@.subrange(
                len as int,
                old(dst)@.len() as int,
            ),
            final(self)@ == old(self)@.subrange(len as int, old(self)@.len() as int),
            final(self).capacity() == old(self).capacity(),
    {
        let len = if dst.len() < self.bytes.len() {
            dst.len()
        } else {
            self.bytes.len()
        };
        {
            // A wrapped ring holds its contents as two regions, front first in write order.
            let (front, back) = deque_as_slices(&self.bytes);
            let split = if len < front.len() {
                len
            } else {
                front.len()
            };
            let mut i: usize = 0;
            while i < split
                invariant
                    i <= split <= front@.len(),
                    split <= len <= dst@.len(),
                    front@ + back@ == old(self)@,
                    dst@.len() == old(dst)@.len(),
                    forall|j: int| 0 <= j < i ==> dst@[j] == old(self)@[j],
                    forall|j: int| len <= j < dst@.len() ==> dst@[j] == old(dst)@[j],
                decreases split - i,
            {
                dst[i] = front[i];
                i = i + 1;
            }
            let mut i: usize = split;
            while i < len
                invariant
                    split <= i <= len <= dst@.len(),
                    len <= old(self)@.len(),
                    split == front@.len() || split == len,
                    split <= front@.len(),
                    front@ + back@ == old(self)@,
                    dst@.len() == old(dst)@.len(),
                    forall|j: int| 0 <= j < i ==> dst@[j] == old(self)@[j],
                    forall|j: int| len <= j < dst@.len() ==> dst@[j] == old(dst)@[j],
                decreases len - i,
            {
                assert(old(self)@[i as int] == back@[i - split]);
                dst[i] = back[i - split];
                i = i + 1;
            }
        }
        let queue = self.take();
        proof {
            use_type_invariant(&queue);
        }
        let BoundedQueue { mut bytes, capacity } = queue;
        let mut k: usize = 0;
        while k < len
            invariant
                k <= len <= old(self)@.len(),
                old(self)@.len() <= capacity,
                bytes@ == old(self)@.subrange(k as int, old(self)@.len() as int),
            decreases len - k,
        {
            let _ = bytes.pop_front();
            k = k + 1;
        }
        *self = BoundedQueue { bytes, capacity };
        assert(dst@ =~= old(self)@.subrange(0, len as int) + old(dst)@.subrange(
            len as int,
            old(dst)@.len() as int,
        ));
        len
    }

    /// The contents as the ring holds them: the front region, then the back region.
    pub fn as_slices(&self) -> (regions: (&[u8], &[u8]))
        ensures
            regions.0@ + regions.1@ == self@,
    {
        deque_as_slices(&self.bytes)
    }
}

/// A queue never holds more than its ceiling, whatever is offered to it.
pub proof fn law_extend_keeps_capacity(queue: Seq<u8>, capacity: nat, data: Seq<u8>)
    requires
        queue.len() <= capacity,
    ensures
        after_extend(queue, capacity, data).len() <= capacity,
{
}

/// A refused write leaves no trace.
pub proof fn law_refused_write_changes_nothing(queue: Seq<u8>, capacity: nat, data: Seq<u8>)
    requires
        !fits(queue, capacity, data),
    ensures
        after_extend(queue, capacity, data) == queue,
{
}

/// What a read gives back is what was written, in write order: after an accepted write, a read
/// with room for everything returns the bytes that were already queued followed by the new ones,
/// and leaves the queue empty.
pub proof fn law_read_returns_writes_in_order(
    queue: Seq<u8>,
    capacity: nat,
    data: Seq<u8>,
    dst_len: nat,
)
    requires
        fits(queue, capacity, data),
        dst_len >= queue.len() + data.len(),
    ensures
        ({
            let q = after_extend(queue, capacity, data);
            let n = read_count(q, dst_len);
            &&& q.subrange(0, n as int) == queue + data
            &&& q.subrange(n as int, q.len() as int) == Seq::<u8>::empty()
        }),
{
    let q = after_extend(queue, capacity, data);
    assert(q.subrange(0, q.len() as int) =~= queue + data);
    assert(q.subrange(q.len() as int, q.len() as int) =~= Seq::<u8>::empty());
}

} // verus!
