//! An egress that encodes each packet as it is sent, for inspecting what a mode sent.

use crate::packet::codec::{enc_packet, law_packet_parse_unique, law_packet_roundtrip, rpc_fits_wire};
use crate::packet::{Header, Packet, PacketView, Rpc, RpcView};
use crate::queue::egress::ServerEgress;
use crate::server::{PeerId, ServerId};
use std::collections::VecDeque;
use vstd::prelude::*;

verus! {

/// The packet that `from` sends for the (destination, RPC) pair `e`.
pub open spec fn addressed(from: ServerId, e: (PeerId, RpcView)) -> PacketView {
    PacketView { header: Header { from, to: ServerId(e.0.0) }, rpc: e.1 }
}

/// An egress that keeps the bytes of every packet sent through it, one buffer per packet.
pub struct MockIo {
    server_id: ServerId,
    send_queue: VecDeque<Vec<u8>>,
    recv_queue: VecDeque<Vec<u8>>,
    sent: Ghost<Seq<(PeerId, RpcView)>>,
}

impl MockIo {
    /// Each buffer in the send queue holds the packet of the pair sent at that position.
    #[verifier::type_invariant]
    spec fn buffers_hold_sent(&self) -> bool {
        &&& self.send_queue@.len() == self.sent@.len()
        &&& forall|i: int|
            0 <= i < self.send_queue@.len() ==> (#[trigger] self.send_queue@[i])@ == enc_packet(
                addressed(self.server_id, self.sent@[i]),
            )
    }

    /// The byte buffers waiting to be received, oldest first.
    pub closed spec fn pending_recv(&self) -> Seq<Seq<u8>> {
        self.recv_queue@.map_values(|b: Vec<u8>| b@)
    }

    /// The server whose packets this egress carries.
    pub closed spec fn owner(&self) -> ServerId {
        self.server_id
    }

    pub fn new(server_id: ServerId) -> (io: MockIo)
        ensures
            io.owner() == server_id,
            io.sent() == Seq::<(PeerId, RpcView)>::empty(),
            io.pending_recv() == Seq::<Seq<u8>>::empty(),
    {
        MockIo {
            server_id,
            send_queue: VecDeque::new(),
            recv_queue: VecDeque::new(),
            sent: Ghost(Seq::empty()),
        }
    }

    /// The number of packets waiting to be inspected.
    pub fn send_queue_len(&self) -> (len: usize)
        ensures
            len == self.sent().len(),
    {
        proof {
            use_type_invariant(self);
        }
        self.send_queue.len()
    }

    /// Move the whole value out, leaving an empty egress of the same server behind.
    fn take(&mut self) -> (io: MockIo)
        ensures
            io == *old(self),
            final(self).owner() == old(self).owner(),
            final(self).sent() == Seq::<(PeerId, RpcView)>::empty(),
    {
        let mut io = MockIo::new(self.server_id);
        std::mem::swap(&mut io, self);
        io
    }

    /// Queue bytes as though a peer had sent them.
    pub fn push_recv(&mut self, data: Vec<u8>)
        ensures
            final(self).pending_recv() == old(self).pending_recv().push(data@),
            final(self).sent() == old(self).sent(),
            final(self).owner() == old(self).owner(),
    {
        let io = self.take();
        proof {
            use_type_invariant(&io);
        }
        let MockIo { server_id, send_queue, mut recv_queue, sent } = io;
        recv_queue.push_back(data);
        *self = MockIo { server_id, send_queue, recv_queue, sent };
        assert(self.pending_recv() =~= old(self).pending_recv().push(data@));
    }

    /// The next bytes a peer sent, if any, oldest first.
    pub fn recv_raw(&mut self) -> (data: Option<Vec<u8>>)
        ensures
            old(self).pending_recv().len() == 0 ==> data is None && final(self).pending_recv()
                == old(self).pending_recv(),
            old(self).pending_recv().len() > 0 ==> data is Some && data->0@ == old(
                self,
            ).pending_recv()[0] && final(self).pending_recv() == old(self).pending_recv().drop_first(),
            final(self).sent() == old(self).sent(),
            final(self).owner() == old(self).owner(),
    {
        let io = self.take();
        proof {
            use_type_invariant(&io);
        }
        let MockIo { server_id, send_queue, mut recv_queue, sent } = io;
        let data = recv_queue.pop_front();
        *self = MockIo { server_id, send_queue, recv_queue, sent };
        assert(old(self).pending_recv().len() > 0 ==> self.pending_recv() =~= old(
            self,
        ).pending_recv().drop_first());
        data
    }
}

impl ServerEgress for MockIo {
    closed spec fn sent(&self) -> Seq<(PeerId, RpcView)> {
        self.sent@
    }

    fn send_packet(&mut self, to: PeerId, rpc: Rpc) {
        let ghost e = (to, rpc@);
        let io = self.take();
        proof {
            use_type_invariant(&io);
        }
        let MockIo { server_id, mut send_queue, recv_queue, sent } = io;
        let packet = Packet::new_send(server_id, to, rpc);
        let data = packet.to_bytes();
        assert(packet@ == addressed(server_id, e));
        send_queue.push_back(data);
        let ghost now = sent@.push(e);
        assert forall|i: int| 0 <= i < send_queue@.len() implies (#[trigger] send_queue@[i])@
            == enc_packet(addressed(server_id, now[i])) by {
            if i < send_queue@.len() - 1 {
                assert(send_queue@[i] == io.send_queue@[i]);
            }
        }
        *self = MockIo { server_id, send_queue, recv_queue, sent: Ghost(now) };
    }
}

/// Take the only packet sent through `peer_io` and decode it.
pub fn helper_inspect_one_sent_packet(peer_io: &mut MockIo) -> (packet: Packet)
    requires
        old(peer_io).sent().len() == 1,
        rpc_fits_wire(old(peer_io).sent()[0].1),
    ensures
        packet@ == addressed(old(peer_io).owner(), old(peer_io).sent()[0]),
        final(peer_io).sent() == Seq::<(PeerId, RpcView)>::empty(),
        final(peer_io).owner() == old(peer_io).owner(),
{
    let packet = helper_inspect_next_sent_packet(peer_io);
    assert(peer_io.sent() =~= Seq::<(PeerId, RpcView)>::empty());
    packet
}

/// Take the oldest packet sent through `peer_io` and decode it.
pub fn helper_inspect_next_sent_packet(peer_io: &mut MockIo) -> (packet: Packet)
    requires
        old(peer_io).sent().len() > 0,
        rpc_fits_wire(old(peer_io).sent()[0].1),
    ensures
        packet@ == addressed(old(peer_io).owner(), old(peer_io).sent()[0]),
        final(peer_io).sent() == old(peer_io).sent().drop_first(),
        final(peer_io).owner() == old(peer_io).owner(),
{
    let io = peer_io.take();
    proof {
        use_type_invariant(&io);
    }
    let MockIo { server_id, mut send_queue, recv_queue, sent } = io;
    let ghost p = addressed(server_id, sent@[0]);
    let bytes = send_queue.pop_front().unwrap();
    let ghost rest = sent@.drop_first();
    assert forall|i: int| 0 <= i < send_queue@.len() implies (#[trigger] send_queue@[i])@
        == enc_packet(addressed(server_id, rest[i])) by {
        assert(send_queue@[i] == io.send_queue@[i + 1]);
    }
    *peer_io = MockIo { server_id, send_queue, recv_queue, sent: Ghost(rest) };
    proof {
        law_packet_roundtrip(p, Seq::empty());
        assert(bytes@ == enc_packet(p) + Seq::<u8>::empty());
    }
    let (packet, _) = Packet::decode(bytes.as_slice()).unwrap();
    proof {
        law_packet_parse_unique(bytes@, 0, packet@, p);
    }
    packet
}

} // verus!
