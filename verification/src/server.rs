//! A Raft server process: its identity, its mode and state, and the queues it talks through.

use crate::log::{lemma_store_leader_entries_bound, Entry, Idx, Term};
use crate::mode::safety::{law_received_is_safe, state_step_is_safe};
use crate::mode::{mode_can_take, mode_received, mode_timed_out, Mode};
use crate::packet::codec::{
    enc_packet, law_packet_parse_unique, law_packet_roundtrip, lemma_packet_at, packet_at,
    packet_frame, packet_len, rpc_fits_wire,
};
use crate::packet::{Header, Packet, PacketView, Rpc, RpcView};
use crate::queue::bounded::{after_extend, read_count};
use crate::queue::egress::{ServerEgress, ServerEgressImpl};
use crate::queue::network::{read_up_to_buf_len, NetworkQueueImpl, IO_BUF_LEN, QUEUE_CAPACITY};
use crate::state::raft_state::RaftState;
use vstd::prelude::*;

pub mod id;
pub mod peer;

pub use id::{Id, PeerId, ServerId};
pub use peer::{Peer, PeerInfo};

verus! {

/// What a server answers a client command with.
#[derive(Debug, Clone, Copy, PartialEq, Eq)]
pub enum ClientResponse {
    /// The Leader appended the command to its log at this index.
    Appended(Idx),
    /// Only the Leader takes commands. The client should ask this server instead, if one is
    /// known.
    Redirect(Option<PeerId>),
}

/// Why received bytes could not be processed.
#[derive(Debug, Clone, Copy, PartialEq, Eq, Structural)]
pub enum RecvError {
    /// The bytes read from the ingress queue are not a sequence of whole packets.
    MalformedPacket,
    /// A packet that the server cannot take in its current mode; see `mode_can_take`.
    CannotTake,
}

/// The packets that the (destination, RPC) pairs `sent` by `server_id` become.
pub open spec fn outgoing(server_id: ServerId, sent: Seq<(PeerId, RpcView)>) -> Seq<PacketView> {
    sent.map_values(
        |e: (PeerId, RpcView)| PacketView { header: Header { from: server_id, to: ServerId(e.0.0) }, rpc: e.1 },
    )
}

/// The egress queue after offering it each of `packets` in order; a packet that does not fit is
/// dropped whole, and Raft retries it later.
pub open spec fn flush(queue: Seq<u8>, capacity: nat, packets: Seq<PacketView>) -> Seq<u8>
    decreases packets.len(),
{
    if packets.len() == 0 {
        queue
    } else {
        after_extend(flush(queue, capacity, packets.drop_last()), capacity, enc_packet(packets.last()))
    }
}

/// Whether `packets` parse, in order, exactly the bytes of `b` from `start` to `end`.
pub open spec fn parses_range(b: Seq<u8>, start: int, end: int, packets: Seq<PacketView>) -> bool
    decreases packets.len(),
{
    if packets.len() == 0 {
        start == end
    } else {
        let last_start = end - packet_len(packets.last());
        &&& start <= last_start
        &&& packet_at(b, last_start, packets.last())
        &&& parses_range(b, start, last_start, packets.drop_last())
    }
}

/// The bytes of `packets` written one after another.
pub open spec fn enc_packets(packets: Seq<PacketView>) -> Seq<u8>
    decreases packets.len(),
{
    if packets.len() == 0 {
        Seq::empty()
    } else {
        enc_packets(packets.drop_last()) + enc_packet(packets.last())
    }
}

/// Whether every packet in `packets` fits the wire format.
pub open spec fn all_fit_wire(packets: Seq<PacketView>) -> bool {
    forall|i: int| 0 <= i < packets.len() ==> rpc_fits_wire(#[trigger] packets[i].rpc)
}

pub struct Server {
    /// Unique ServerId for this server process.
    pub server_id: ServerId,
    /// The mode of this server process.
    pub mode: Mode,
    /// Common Raft state for this server process.
    pub state: RaftState,
    /// The list of peers participating in the Raft quorum.
    pub peer_list: Vec<PeerId>,
    /// The RPCs sent since the server last moved them to the network queue.
    pub io_egress: ServerEgressImpl,
    /// The byte queues shared with the network task.
    pub queue: NetworkQueueImpl,
}

impl Server {
    pub open spec fn wf(&self) -> bool {
        &&& self.state.wf()
        &&& self.mode.wf(self.peer_list@, self.state.log@.len())
        &&& self.state.log@.len() < u64::MAX
        &&& self.peer_list@.len() < usize::MAX
        &&& self.io_egress.sent() == Seq::<(PeerId, RpcView)>::empty()
    }

    /// What handling `p` does to the server, as far as the protocol and the egress queue go.
    #[verifier::opaque]
    pub open spec fn took_packet(old: &Server, new: &Server, p: PacketView) -> bool {
        &&& new.server_id == old.server_id
        &&& new.peer_list@ == old.peer_list@
        &&& new.queue.egress_queue.capacity() == old.queue.egress_queue.capacity()
        &&& mode_can_take(&old.mode, &old.state, PeerId(p.header.from.0), p.rpc)
        &&& exists|sent: Seq<(PeerId, RpcView)>|
            {
                &&& mode_received(
                    &old.mode,
                    &new.mode,
                    &old.state,
                    &new.state,
                    old.server_id,
                    PeerId(p.header.from.0),
                    p.rpc,
                    old.peer_list@,
                    Seq::empty(),
                    sent,
                )
                &&& new.queue.egress_queue@ == flush(
                    old.queue.egress_queue@,
                    old.queue.egress_queue.capacity(),
                    outgoing(old.server_id, sent),
                )
            }
    }

    /// `a` and `b` agree on everything that handling packets reads or changes.
    pub open spec fn same_protocol_state(a: Server, b: Server) -> bool {
        &&& a.server_id == b.server_id
        &&& a.peer_list@ == b.peer_list@
        &&& a.mode == b.mode
        &&& a.state == b.state
        &&& a.queue.egress_queue@ == b.queue.egress_queue@
        &&& a.queue.egress_queue.capacity() == b.queue.egress_queue.capacity()
    }

    /// `trace` lists the server after each of `packets`, starting from a state that agrees with
    /// `old` and ending at `new`.
    pub open spec fn is_trace(trace: Seq<Server>, old: Server, new: Server, packets: Seq<PacketView>) -> bool {
        &&& trace.len() == packets.len() + 1
        &&& Server::same_protocol_state(trace[0], old)
        &&& trace.last() == new
        &&& forall|i: int|
            #![trigger packets[i]]
            0 <= i < packets.len() ==> Server::took_packet(&trace[i], &trace[i + 1], packets[i])
    }

    /// The server went from `old` to `new` by handling `packets`, in order.
    pub open spec fn took_packets(old: Server, new: Server, packets: Seq<PacketView>) -> bool {
        exists|trace: Seq<Server>| #[trigger] Server::is_trace(trace, old, new, packets)
    }

    pub fn new(server_id: ServerId, peer_list: Vec<PeerId>) -> (server: Server)
        requires
            peer_list@.len() < usize::MAX,
        ensures
            server.wf(),
            server.server_id == server_id,
            server.peer_list@ == peer_list@,
            server.mode == Mode::Follower(crate::mode::follower::Follower { current_leader: None }),
            server.state.current_term == Term::initial_spec(),
            server.state.voted_for == None::<Id>,
            server.state.log@ == Seq::<Entry>::empty(),
            server.state.commit_idx == Idx::initial_spec(),
            server.queue.ingress_queue@ == Seq::<u8>::empty(),
            server.queue.egress_queue@ == Seq::<u8>::empty(),
            server.queue.ingress_queue.capacity() == QUEUE_CAPACITY,
            server.queue.egress_queue.capacity() == QUEUE_CAPACITY,
    {
        Server {
            server_id,
            mode: Mode::new(),
            state: RaftState::new(),
            peer_list,
            io_egress: ServerEgressImpl::new(),
            queue: NetworkQueueImpl::new(QUEUE_CAPACITY),
        }
    }

    /// Address, encode and queue every RPC the modes sent, oldest first.
    fn flush_egress(&mut self)
        ensures
            final(self).queue.egress_queue@ == flush(
                old(self).queue.egress_queue@,
                old(self).queue.egress_queue.capacity(),
                outgoing(old(self).server_id, old(self).io_egress.sent()),
            ),
            final(self).queue.egress_queue.capacity() == old(self).queue.egress_queue.capacity(),
            final(self).queue.ingress_queue == old(self).queue.ingress_queue,
            final(self).io_egress.sent() == Seq::<(PeerId, RpcView)>::empty(),
            final(self).server_id == old(self).server_id,
            final(self).mode == old(self).mode,
            final(self).state == old(self).state,
            final(self).peer_list == old(self).peer_list,
    {
        let mut pending = self.io_egress.take_pending();
        let ghost all = outgoing(self.server_id, pending@.map_values(|e: (PeerId, Rpc)| (e.0, e.1@)));
        let ghost q0 = self.queue.egress_queue@;
        let ghost cap = self.queue.egress_queue.capacity();
        let total: usize = pending.len();
        let ghost n = total as nat;
        let mut i: usize = 0;
        while pending.len() > 0
            invariant
                i <= n,
                n <= usize::MAX,
                pending@.len() == n - i,
                self.io_egress.sent() == Seq::<(PeerId, RpcView)>::empty(),
                self.server_id == old(self).server_id,
                self.mode == old(self).mode,
                self.state == old(self).state,
                self.peer_list == old(self).peer_list,
                all.len() == n,
                forall|j: int|
                    0 <= j < pending@.len() ==> all[i + j] == (PacketView {
                        header: Header { from: self.server_id, to: ServerId(pending@[j].0.0) },
                        rpc: pending@[j].1@,
                    }),
                self.queue.egress_queue.capacity() == cap,
                self.queue.egress_queue@ == flush(q0, cap, all.subrange(0, i as int)),
                self.queue.ingress_queue == old(self).queue.ingress_queue,
            decreases pending@.len(),
        {
            let ghost before = pending@;
            let (to, rpc) = pending.remove(0);
            proof {
                assert(all[i as int] == (PacketView {
                    header: Header { from: self.server_id, to: ServerId(to.0) },
                    rpc: rpc@,
                }));
            }
            let packet = Packet::new_send(self.server_id, to, rpc);
            let bytes = packet.to_bytes();
            let _ = self.queue.egress_queue.try_extend(bytes.as_slice());
            i = i + 1;
            proof {
                assert(all.subrange(0, i as int).drop_last() =~= all.subrange(0, i - 1 as int));
                assert(all.subrange(0, i as int).last() == all[i - 1]);
                assert forall|j: int| 0 <= j < pending@.len() implies all[i + j] == (PacketView {
                    header: Header { from: self.server_id, to: ServerId(pending@[j].0.0) },
                    rpc: pending@[j].1@,
                }) by {
                    assert(pending@[j] == before[j + 1]);
                }
            }
        }
        proof {
            assert(all.subrange(0, n as int) =~= all);
        }
    }
}


impl Server {
    /// What a timeout does to the server: the mode reacts (see `mode_timed_out`) and what it sent
    /// is queued on the egress queue.
    pub open spec fn timed_out(old: Server, new: Server) -> bool {
        &&& new.server_id == old.server_id
        &&& new.peer_list@ == old.peer_list@
        &&& new.queue.ingress_queue == old.queue.ingress_queue
        &&& new.queue.egress_queue.capacity() == old.queue.egress_queue.capacity()
        &&& exists|sent: Seq<(PeerId, RpcView)>|
            {
                &&& mode_timed_out(
                    &old.mode,
                    &new.mode,
                    &old.state,
                    &new.state,
                    old.server_id,
                    old.peer_list@,
                    Seq::empty(),
                    sent,
                )
                &&& new.queue.egress_queue@ == flush(
                    old.queue.egress_queue@,
                    old.queue.egress_queue.capacity(),
                    outgoing(old.server_id, sent),
                )
            }
    }

    /// How a read of the ingress queue that stopped at `pos` of `bytes` ended, as `res` says.
    pub open spec fn read_ended(bytes: Seq<u8>, pos: int, new: Server, res: Result<(), RecvError>) -> bool {
        match res {
            Ok(()) => pos == bytes.len(),
            Err(RecvError::MalformedPacket) => pos < bytes.len() && !packet_frame(bytes, pos),
            Err(RecvError::CannotTake) => exists|p: PacketView|
                #[trigger] packet_at(bytes, pos, p) && !mode_can_take(
                    &new.mode,
                    &new.state,
                    PeerId(p.header.from.0),
                    p.rpc,
                ),
        }
    }

    /// The bytes one read moves off the front of `queue`.
    pub open spec fn read_bytes(queue: Seq<u8>) -> Seq<u8> {
        queue.subrange(0, read_count(queue, IO_BUF_LEN as nat) as int)
    }

    /// A `recv` from `old` to `new` took `packets`, which fill the bytes it read up to `pos`,
    /// and stopped there as `res` says.
    pub open spec fn read_through(
        old: Server,
        new: Server,
        res: Result<(), RecvError>,
        packets: Seq<PacketView>,
        pos: int,
    ) -> bool {
        let bytes = Server::read_bytes(old.queue.ingress_queue@);
        &&& parses_range(bytes, 0, pos, packets)
        &&& Server::took_packets(old, new, packets)
        &&& Server::read_ended(bytes, pos, new, res)
    }

    /// What one `recv` does: it moves up to `IO_BUF_LEN` bytes off the ingress queue, and the
    /// server takes the whole packets at their front, in order, until they run out or one cannot
    /// be parsed or taken.
    pub open spec fn received(old: Server, new: Server, res: Result<(), RecvError>) -> bool {
        let n = read_count(old.queue.ingress_queue@, IO_BUF_LEN as nat);
        &&& new.queue.ingress_queue@ == old.queue.ingress_queue@.subrange(
            n as int,
            old.queue.ingress_queue@.len() as int,
        )
        &&& exists|packets: Seq<PacketView>, pos: int|
            #[trigger] Server::read_through(old, new, res, packets, pos)
    }
}

impl Server {
    /// React to a timeout, and queue whatever the mode sent.
    pub fn on_timeout(&mut self)
        requires
            old(self).wf(),
            old(self).state.current_term.0 < u64::MAX,
        ensures
            final(self).wf(),
            Server::timed_out(*old(self), *final(self)),
    {
        self.mode.on_timeout(
            &self.server_id,
            self.peer_list.as_slice(),
            &mut self.state,
            &mut self.io_egress,
        );
        let ghost sent = self.io_egress.sent();
        self.flush_egress();
    }

    /// Handle one received packet, and queue whatever the mode sent in response.
    ///
    /// A packet the server cannot take (see `mode_can_take`) changes nothing.
    #[verifier::spinoff_prover]
    pub fn recv_packet(&mut self, packet: &Packet) -> (res: Result<(), RecvError>)
        requires
            old(self).wf(),
        ensures
            final(self).wf(),
            res is Ok <==> mode_can_take(
                &old(self).mode,
                &old(self).state,
                PeerId(packet.header.from.0),
                packet.rpc@,
            ),
            res is Ok ==> Server::took_packet(old(self), final(self), packet@),
            res is Err ==> res == Err::<(), RecvError>(RecvError::CannotTake) && *final(self)
                == *old(self),
            final(self).queue.ingress_queue == old(self).queue.ingress_queue,
    {
        let ghost old_self = *self;
        // Receiving an RPC means that `from` is a peer.
        let peer_id = packet.from().as_peer_id();
        if !self.mode.can_take(&self.state, &peer_id, packet.rpc()) {
            return Err(RecvError::CannotTake);
        }
        let ghost old_log = self.state.log@;
        self.mode.on_recv(
            &self.server_id,
            peer_id,
            packet.rpc(),
            self.peer_list.as_slice(),
            &mut self.state,
            &mut self.io_egress,
        );
        proof {
            match packet.rpc@ {
                RpcView::AppendEntry(ae) => {
                    lemma_store_leader_entries_bound(
                        old_log,
                        ae.prev_log_term_idx.idx.0 as nat,
                        ae.entries,
                        ae.entries.len(),
                    );
                },
                _ => {},
            }
        }
        let ghost sent = self.io_egress.sent();
        self.flush_egress();
        proof {
            assert(mode_received(
                &old_self.mode,
                &self.mode,
                &old_self.state,
                &self.state,
                old_self.server_id,
                PeerId(packet.header.from.0),
                packet.rpc@,
                old_self.peer_list@,
                Seq::empty(),
                sent,
            ));
            assert(self.queue.egress_queue@ == flush(
                old_self.queue.egress_queue@,
                old_self.queue.egress_queue.capacity(),
                outgoing(old_self.server_id, sent),
            ));
            assert(self.server_id == old_self.server_id);
            assert(self.peer_list@ == old_self.peer_list@);
            assert(self.queue.egress_queue.capacity() == old_self.queue.egress_queue.capacity());
            assert(PeerId(packet@.header.from.0) == PeerId(packet.header.from.0));
            assert(packet@.rpc == packet.rpc@);
            reveal(Server::took_packet);
            assert(Server::took_packet(&old_self, self, packet@));
        }
        Ok(())
    }

    /// Read what the network queued for this server and handle every packet in it, in order.
    ///
    /// One read moves at most `IO_BUF_LEN` bytes. They must hold whole packets: the first byte
    /// that does not begin a whole packet stops the read with `MalformedPacket`, and a packet the
    /// server cannot take stops it with `CannotTake`.
    #[verifier::spinoff_prover]
    pub fn recv(&mut self) -> (res: Result<(), RecvError>)
        requires
            old(self).wf(),
        ensures
            final(self).wf(),
            Server::received(*old(self), *final(self), res),
    {
        let ghost start = *self;
        let bytes = match read_up_to_buf_len(&mut self.queue.ingress_queue) {
            Some(b) => b,
            None => {
                proof {
                    let empty = start.queue.ingress_queue@.subrange(0, 0);
                    assert(Server::is_trace(seq![*self], start, *self, Seq::empty()));
                    assert(parses_range(empty, 0, 0, Seq::empty()));
                    assert(Server::read_through(start, *self, Ok(()), Seq::empty(), 0));
                }
                return Ok(());
            },
        };
        let ghost ingress_after = self.queue.ingress_queue;
        let ghost mut packets: Seq<PacketView> = Seq::empty();
        let mut pos: usize = 0;
        proof {
            assert(Server::is_trace(seq![*self], start, *self, packets));
        }
        while pos < bytes.len()
            invariant
                start == *old(self),
                self.wf(),
                pos <= bytes@.len(),
                self.queue.ingress_queue == ingress_after,
                bytes@ == Server::read_bytes(start.queue.ingress_queue@),
                ingress_after@ == start.queue.ingress_queue@.subrange(
                    read_count(start.queue.ingress_queue@, IO_BUF_LEN as nat) as int,
                    start.queue.ingress_queue@.len() as int,
                ),
                parses_range(bytes@, 0, pos as int, packets),
                Server::took_packets(start, *self, packets),
            decreases bytes@.len() - pos,
        {
            let (packet, n) = match Packet::decode_at(bytes.as_slice(), pos) {
                Some(x) => x,
                None => {
                    proof {
                        assert(Server::read_through(
                            start,
                            *self,
                            Err(RecvError::MalformedPacket),
                            packets,
                            pos as int,
                        ));
                    }
                    return Err(RecvError::MalformedPacket);
                },
            };
            let ghost prev = *self;
            match self.recv_packet(&packet) {
                Ok(()) => {},
                Err(e) => {
                    proof {
                        assert(packet_at(bytes@, pos as int, packet@));
                        assert(Server::read_through(start, *self, Err(e), packets, pos as int));
                    }
                    return Err(e);
                },
            }
            proof {
                lemma_took_packets_push(start, prev, *self, packets, packet@);
                lemma_parses_range_push(bytes@, pos as int, packets, packet@);
                packets = packets.push(packet@);
            }
            pos = pos + n;
        }
        proof {
            assert(Server::read_through(start, *self, Ok(()), packets, pos as int));
        }
        Ok(())
    }

    /// Make progress on what the driver found ready: first the timeout, then the received bytes.
    pub fn progress(&mut self, timeout_ready: bool, recv_ready: bool) -> (res: Result<(), RecvError>)
        requires
            old(self).wf(),
            timeout_ready ==> old(self).state.current_term.0 < u64::MAX,
        ensures
            final(self).wf(),
            match (timeout_ready, recv_ready) {
                (true, true) => exists|mid: Server|
                    #[trigger] Server::timed_out(*old(self), mid) && Server::received(
                        mid,
                        *final(self),
                        res,
                    ),
                (true, false) => Server::timed_out(*old(self), *final(self)) && res is Ok,
                (false, true) => Server::received(*old(self), *final(self), res),
                (false, false) => *final(self) == *old(self) && res is Ok,
            },
    {
        let ghost start = *self;
        if timeout_ready {
            self.on_timeout();
        }
        let ghost mid = *self;
        if recv_ready {
            let res = self.recv();
            proof {
                if timeout_ready {
                    assert(Server::timed_out(start, mid) && Server::received(mid, *self, res));
                }
            }
            res
        } else {
            Ok(())
        }
    }

    /// Take a client command: a Leader appends it to its log, anyone else redirects the client.
    pub fn on_client_request(&mut self, command: u8) -> (response: ClientResponse)
        requires
            old(self).wf(),
            old(self).state.log@.len() + 1 < u64::MAX,
        ensures
            final(self).wf(),
            if old(self).mode is Leader {
                &&& final(self).state.log@ == old(self).state.log@.push(
                    Entry { term: old(self).state.current_term, command },
                )
                &&& response == ClientResponse::Appended(Idx((old(self).state.log@.len() + 1) as u64))
                &&& final(self).state.current_term == old(self).state.current_term
                &&& final(self).state.voted_for == old(self).state.voted_for
                &&& final(self).state.commit_idx == old(self).state.commit_idx
                &&& final(self).state.applied() == old(self).state.applied()
                &&& final(self).state.timeout == old(self).state.timeout
                &&& final(self).mode == old(self).mode
                &&& final(self).queue == old(self).queue
                &&& final(self).server_id == old(self).server_id
                &&& final(self).peer_list == old(self).peer_list
            } else {
                &&& *final(self) == *old(self)
                &&& response == ClientResponse::Redirect(
                    match old(self).mode {
                        Mode::Follower(f) => f.current_leader,
                        _ => None::<PeerId>,
                    },
                )
            },
    {
        if self.mode.is_leader() {
            let entry = Entry::new(self.state.current_term, command);
            let mut entries: Vec<Entry> = Vec::new();
            entries.push(entry);
            self.state.log.push(entries);
            proof {
                let l = self.mode->Leader_0;
                assert(l.wf(self.state.log@.len()));
            }
            ClientResponse::Appended(self.state.log.last_idx())
        } else {
            ClientResponse::Redirect(self.mode.current_leader(&self.server_id))
        }
    }

    /// Whether the protocol asked for the election timeout to start over since the driver last
    /// looked; the request is cleared.
    pub fn take_timeout_reset(&mut self) -> (reset: bool)
        requires
            old(self).wf(),
        ensures
            final(self).wf(),
            reset == old(self).state.timeout.reset_pending(),
            !final(self).state.timeout.reset_pending(),
            final(self).server_id == old(self).server_id,
            final(self).peer_list == old(self).peer_list,
            final(self).mode == old(self).mode,
            final(self).queue == old(self).queue,
            final(self).io_egress == old(self).io_egress,
            final(self).state.current_term == old(self).state.current_term,
            final(self).state.voted_for == old(self).state.voted_for,
            final(self).state.log == old(self).state.log,
            final(self).state.commit_idx == old(self).state.commit_idx,
            final(self).state.last_applied == old(self).state.last_applied,
            final(self).state.state_machine == old(self).state.state_machine,
    {
        self.state.timeout.take_reset()
    }

    /// The Idx of every Entry applied to the StateMachine, in apply order.
    pub fn query_state_machine(&self) -> (idxs: Vec<Idx>)
        ensures
            idxs@ == self.state.applied().map_values(
                |c: crate::state::state_machine::CommitEntry| c.log_last_applied_idx,
            ),
    {
        self.state.applied_entries()
    }
}


proof fn lemma_took_packets_push(
    start: Server,
    prev: Server,
    new: Server,
    packets: Seq<PacketView>,
    p: PacketView,
)
    requires
        Server::took_packets(start, prev, packets),
        Server::took_packet(&prev, &new, p),
    ensures
        Server::took_packets(start, new, packets.push(p)),
{
    let trace = choose|t: Seq<Server>| Server::is_trace(t, start, prev, packets);
    let next = trace.push(new);
    let ps = packets.push(p);
    assert forall|i: int| #![trigger ps[i]] 0 <= i < ps.len() implies Server::took_packet(
        &next[i],
        &next[i + 1],
        ps[i],
    ) by {
        if i < packets.len() {
            assert(packets[i] == ps[i]);
        }
    }
    assert(Server::is_trace(next, start, new, ps));
}

proof fn lemma_parses_range_push(b: Seq<u8>, pos: int, packets: Seq<PacketView>, p: PacketView)
    requires
        parses_range(b, 0, pos, packets),
        packet_at(b, pos, p),
    ensures
        parses_range(b, 0, pos + packet_len(p), packets.push(p)),
{
    let next = packets.push(p);
    assert(next.drop_last() == packets);
    assert(next.last() == p);
}

/// Across any run of packets that a server took, its state stays safe: the term and commit index
/// never go back, a vote is never changed within a term, and what was applied stays applied.
pub proof fn law_took_packets_is_safe(old: Server, new: Server, packets: Seq<PacketView>)
    requires
        Server::took_packets(old, new, packets),
    ensures
        state_step_is_safe(&old.state, &new.state),
{
    let trace = choose|t: Seq<Server>| Server::is_trace(t, old, new, packets);
    lemma_trace_is_safe(trace, old, new, packets, packets.len());
}

#[verifier::spinoff_prover]
proof fn lemma_trace_is_safe(
    trace: Seq<Server>,
    old: Server,
    new: Server,
    packets: Seq<PacketView>,
    k: nat,
)
    requires
        Server::is_trace(trace, old, new, packets),
        k <= packets.len(),
    ensures
        state_step_is_safe(&old.state, &trace[k as int].state),
    decreases k,
{
    if k == 0 {
        let a = old.state;
        assert(a.applied().subrange(0, a.applied().len() as int) =~= a.applied());
    } else {
        lemma_trace_is_safe(trace, old, new, packets, (k - 1) as nat);
        let i = k - 1;
        let p = packets[i];
        let prev = trace[i];
        let next = trace[i + 1];
        assert(Server::took_packet(&prev, &next, p));
        reveal(Server::took_packet);
        let sent = choose|sent: Seq<(PeerId, RpcView)>|
            {
                &&& mode_received(
                    &prev.mode,
                    &next.mode,
                    &prev.state,
                    &next.state,
                    prev.server_id,
                    PeerId(p.header.from.0),
                    p.rpc,
                    prev.peer_list@,
                    Seq::empty(),
                    sent,
                )
                &&& next.queue.egress_queue@ == flush(
                    prev.queue.egress_queue@,
                    prev.queue.egress_queue.capacity(),
                    outgoing(prev.server_id, sent),
                )
            };
        law_received_is_safe(
            &prev.mode,
            &next.mode,
            &prev.state,
            &next.state,
            prev.server_id,
            PeerId(p.header.from.0),
            p.rpc,
            prev.peer_list@,
            Seq::empty(),
            sent,
        );
        lemma_safe_steps_compose(&old.state, &prev.state, &next.state);
    }
}

proof fn lemma_safe_steps_compose(a: &RaftState, b: &RaftState, c: &RaftState)
    requires
        state_step_is_safe(a, b),
        state_step_is_safe(b, c),
    ensures
        state_step_is_safe(a, c),
{
    assert(c.applied().subrange(0, a.applied().len() as int) =~= c.applied().subrange(
        0,
        b.applied().len() as int,
    ).subrange(0, a.applied().len() as int));
}

/// Where the encoding of the `k`th of `packets` lies in the bytes of all of them.
#[verifier::spinoff_prover]
proof fn lemma_enc_packets_at(ps: Seq<PacketView>, k: int)
    requires
        all_fit_wire(ps),
        0 <= k < ps.len(),
    ensures
        enc_packets(ps.take(k)).len() + packet_len(ps[k]) == enc_packets(ps.take(k + 1)).len(),
        enc_packets(ps.take(k + 1)).len() <= enc_packets(ps).len(),
        enc_packets(ps).subrange(
            enc_packets(ps.take(k)).len() as int,
            (enc_packets(ps.take(k)).len() + packet_len(ps[k])) as int,
        ) == enc_packet(ps[k]),
    decreases ps.len(),
{
    let n = ps.len() as int;
    let d = ps.drop_last();
    let last = ps.last();
    law_packet_roundtrip(last, Seq::empty());
    law_packet_roundtrip(ps[k], Seq::empty());
    assert(enc_packets(ps) == enc_packets(d) + enc_packet(last));
    assert(ps.take(k + 1).drop_last() =~= ps.take(k));
    assert(ps.take(k + 1).last() == ps[k]);
    if k == n - 1 {
        assert(ps.take(k) =~= d);
        assert(ps.take(k + 1) =~= ps);
        assert(enc_packets(ps).subrange(
            enc_packets(d).len() as int,
            (enc_packets(d).len() + packet_len(last)) as int,
        ) =~= enc_packet(last));
    } else {
        assert(all_fit_wire(d));
        lemma_enc_packets_at(d, k);
        assert(d.take(k) =~= ps.take(k));
        assert(d.take(k + 1) =~= ps.take(k + 1));
        assert(d[k] == ps[k]);
        let lo = enc_packets(ps.take(k)).len() as int;
        let hi = lo + packet_len(ps[k]);
        assert(enc_packets(ps).subrange(lo, hi) =~= enc_packets(d).subrange(lo, hi));
    }
}

/// The packet that parses at the end of the first `k` of `ps` written out is the next one of `ps`.
#[verifier::spinoff_prover]
proof fn lemma_next_written(ps: Seq<PacketView>, k: int, p: PacketView)
    requires
        all_fit_wire(ps),
        0 <= k <= ps.len(),
        packet_at(enc_packets(ps), enc_packets(ps.take(k)).len() as int, p),
    ensures
        k < ps.len(),
        p == ps[k],
        enc_packets(ps.take(k)).len() + packet_len(p) == enc_packets(ps.take(k + 1)).len(),
{
    let b = enc_packets(ps);
    let at = enc_packets(ps.take(k)).len() as int;
    if k == ps.len() {
        assert(ps.take(k) =~= ps);
        assert(at + 16 > b.len());
    }
    lemma_enc_packets_at(ps, k);
    lemma_packet_at(b, at, ps[k]);
    law_packet_parse_unique(b, at, p, ps[k]);
}

/// Bytes written as `ps` parse, from the front, only as a prefix of `ps`.
#[verifier::spinoff_prover]
proof fn lemma_parses_written(ps: Seq<PacketView>, pos: int, packets: Seq<PacketView>)
    requires
        all_fit_wire(ps),
        parses_range(enc_packets(ps), 0, pos, packets),
    ensures
        packets.len() <= ps.len(),
        packets == ps.take(packets.len() as int),
        pos == enc_packets(ps.take(packets.len() as int)).len(),
    decreases packets.len(),
{
    if packets.len() == 0 {
        assert(ps.take(0) =~= Seq::<PacketView>::empty());
    } else {
        let m = packets.len() as int;
        let last = packets.last();
        let last_start = pos - packet_len(last);
        lemma_parses_written(ps, last_start, packets.drop_last());
        lemma_next_written(ps, m - 1, last);
        assert(packets =~= ps.take(m));
    }
}

/// A server reads back exactly what was written to it: when its ingress queue holds the bytes of
/// `ps` (no more than one read), a `recv` takes a prefix of `ps` in order, finds no malformed
/// bytes, empties the queue, and succeeds exactly when it took all of `ps`.
#[verifier::spinoff_prover]
pub proof fn law_recv_takes_what_was_written(
    old: Server,
    new: Server,
    res: Result<(), RecvError>,
    ps: Seq<PacketView>,
)
    requires
        Server::received(old, new, res),
        old.queue.ingress_queue@ == enc_packets(ps),
        enc_packets(ps).len() <= IO_BUF_LEN,
        all_fit_wire(ps),
    ensures
        new.queue.ingress_queue@.len() == 0,
        res != Err::<(), RecvError>(RecvError::MalformedPacket),
        exists|k: int|
            0 <= k <= ps.len() && #[trigger] Server::took_packets(old, new, ps.take(k)) && (res is Ok
                <==> k == ps.len()),
{
    let q = old.queue.ingress_queue@;
    let (packets, pos) = choose|packets: Seq<PacketView>, pos: int|
        Server::read_through(old, new, res, packets, pos);
    let b = Server::read_bytes(q);
    assert(b =~= q);
    lemma_parses_written(ps, pos, packets);
    let k = packets.len() as int;
    assert(ps.take(ps.len() as int) =~= ps);
    if k < ps.len() {
        lemma_enc_packets_at(ps, k);
        lemma_packet_at(b, pos, ps[k]);
        law_packet_roundtrip(ps[k], Seq::empty());
    }
    assert(Server::took_packets(old, new, ps.take(k)));
}
} // verus!
