use raft_rs::cluster::new_cluster;
use raft_rs::log::{Entry, Idx};
use raft_rs::packet::Packet;
use raft_rs::queue::{NetEgress, NetIngress};
use raft_rs::server::{ClientResponse, PeerId, Server, ServerId};
use raft_rs::sim::{
    committed_entries_agree, committed_len, logs_match, sole_leader, unique_bytes, ServerIdx,
};

/// A cluster whose network delivers every packet at once, one packet per read.
struct Cluster {
    servers: Vec<Server>,
    paused: Vec<bool>,
}

impl Cluster {
    fn new(n: usize) -> Cluster {
        Cluster { servers: new_cluster(n), paused: vec![false; n] }
    }

    fn position(&self, id: ServerId) -> Option<usize> {
        self.servers.iter().position(|s| s.server_id == id)
    }

    /// Deliver packets until the network is quiet. A paused server sends and receives nothing.
    fn drain(&mut self) {
        loop {
            let mut in_flight: Vec<Packet> = Vec::new();
            for i in 0..self.servers.len() {
                let mut bytes = Vec::new();
                while let Some(chunk) = self.servers[i].queue.get_send() {
                    bytes.extend(chunk);
                }
                if self.paused[i] {
                    continue;
                }
                let mut at = 0;
                while at < bytes.len() {
                    let (packet, n) = Packet::decode(&bytes[at..]).unwrap();
                    in_flight.push(packet);
                    at += n;
                }
            }
            if in_flight.is_empty() {
                return;
            }
            for packet in in_flight {
                if let Some(to) = self.position(packet.to()) {
                    if !self.paused[to] {
                        self.servers[to].queue.push_recv_bytes(packet.to_bytes());
                        self.servers[to].recv().unwrap();
                    }
                }
            }
        }
    }

    fn timeout(&mut self, idx: usize) {
        self.servers[idx].on_timeout();
        self.drain();
    }

    fn leader(&self) -> Option<ServerIdx> {
        let leading: Vec<bool> = (0..self.servers.len())
            .map(|i| !self.paused[i] && self.servers[i].mode.is_leader())
            .collect();
        sole_leader(&leading)
    }

    fn logs(&self) -> Vec<Vec<Entry>> {
        self.servers.iter().map(|s| s.state.log.get_entries(&Idx::from(1))).collect()
    }

    fn assert_safe(&self) {
        let logs = self.logs();
        assert!(logs_match(&logs));
        let committed: Vec<u64> = self
            .servers
            .iter()
            .map(|s| committed_len(*s.state.commit_idx()))
            .collect();
        let applied: Vec<Vec<u8>> = self.servers.iter().map(|s| s.state.applied_commands()).collect();
        assert!(committed_entries_agree(&logs, &committed, &applied));
    }
}

#[test]
fn new_cluster_addresses_each_server_uniquely() {
    let servers = new_cluster(4);
    assert_eq!(servers.len(), 4);
    for (i, s) in servers.iter().enumerate() {
        assert_eq!(s.server_id, ServerId::new(unique_bytes(i)));
        assert_eq!(s.peer_list.len(), 3);
        assert!(!s.peer_list.contains(&PeerId::new(unique_bytes(i))));
        assert!(s.mode.is_follower());
    }
}

#[test]
fn leader_emerges() {
    let mut cluster = Cluster::new(3);
    cluster.timeout(0);
    assert_eq!(cluster.leader(), Some(ServerIdx(0)));
    for idx in 1..3 {
        assert!(cluster.servers[idx].mode.is_follower(), "server {idx} should be a Follower");
        assert_eq!(cluster.servers[idx].state.current_term, cluster.servers[0].state.current_term);
        assert!(cluster.servers[idx].state.log.test_is_empty());
    }
    cluster.assert_safe();
}

#[test]
fn client_request_redirects_to_leader() {
    let mut cluster = Cluster::new(3);
    cluster.timeout(1);
    let leader_id = cluster.servers[1].server_id;
    assert_eq!(
        cluster.servers[2].on_client_request(5),
        ClientResponse::Redirect(Some(PeerId::new(*leader_id.as_bytes())))
    );
}

#[test]
fn commit_multiple_entries_in_order() {
    let mut cluster = Cluster::new(3);
    cluster.timeout(0);
    for (i, command) in [10, 20, 30, 40].into_iter().enumerate() {
        assert_eq!(
            cluster.servers[0].on_client_request(command),
            ClientResponse::Appended(Idx::from(i as u64 + 1))
        );
    }
    // One heartbeat replicates, the next carries the commit index.
    cluster.timeout(0);
    cluster.timeout(0);
    for idx in 0..3 {
        assert_eq!(cluster.servers[idx].state.applied_commands(), vec![10, 20, 30, 40]);
        assert_eq!(
            cluster.servers[idx].query_state_machine(),
            vec![Idx::from(1), Idx::from(2), Idx::from(3), Idx::from(4)]
        );
    }
    cluster.assert_safe();
}

#[test]
fn reelection_after_leader_pause() {
    let mut cluster = Cluster::new(3);
    cluster.timeout(0);
    let first_term = cluster.servers[0].state.current_term;
    cluster.paused[0] = true;
    cluster.timeout(2);
    assert_eq!(cluster.leader(), Some(ServerIdx(2)));
    assert!(
        cluster.servers[2].state.current_term > first_term,
        "a new Leader must serve a higher term"
    );
    cluster.assert_safe();
}

#[test]
fn committed_entries_survive_leader_crash() {
    let mut cluster = Cluster::new(5);
    cluster.timeout(0);
    for command in [10, 20, 30, 40] {
        let _ = cluster.servers[0].on_client_request(command);
    }
    cluster.timeout(0);
    cluster.timeout(0);
    cluster.paused[0] = true;

    // A server that holds the committed entries wins the next election.
    cluster.timeout(3);
    assert_eq!(cluster.leader(), Some(ServerIdx(3)));
    let _ = cluster.servers[3].on_client_request(50);
    cluster.timeout(3);
    cluster.timeout(3);
    for idx in 1..5 {
        assert_eq!(
            cluster.servers[idx].state.applied_commands(),
            vec![10, 20, 30, 40, 50],
            "server {idx} lost committed commands across the term change"
        );
    }
    cluster.assert_safe();
}

/// A network that holds every packet until the test delivers, delays or drops it.
struct HeldNetwork {
    servers: Vec<Server>,
    pool: Vec<Packet>,
}

impl HeldNetwork {
    fn new(n: usize) -> HeldNetwork {
        HeldNetwork { servers: new_cluster(n), pool: Vec::new() }
    }

    /// Move everything the servers sent into the pool.
    fn collect(&mut self) {
        for i in 0..self.servers.len() {
            let mut bytes = Vec::new();
            while let Some(chunk) = self.servers[i].queue.get_send() {
                bytes.extend(chunk);
            }
            let mut at = 0;
            while at < bytes.len() {
                let (packet, n) = Packet::decode(&bytes[at..]).unwrap();
                self.pool.push(packet);
                at += n;
            }
        }
    }

    /// Take the oldest packet from server `from` to server `to` off the network.
    fn take(&mut self, from: usize, to: usize) -> Packet {
        self.collect();
        let (f, t) = (self.servers[from].server_id, self.servers[to].server_id);
        let at = self
            .pool
            .iter()
            .position(|p| p.from() == f && p.to() == t)
            .unwrap_or_else(|| panic!("no packet from {from} to {to}"));
        self.pool.remove(at)
    }

    fn inject(&mut self, packet: &Packet, to: usize) {
        self.servers[to].queue.push_recv_bytes(packet.to_bytes());
        self.servers[to].recv().unwrap();
        self.collect();
    }

    /// Deliver the oldest packet from server `from` to server `to`.
    fn deliver(&mut self, from: usize, to: usize) {
        let packet = self.take(from, to);
        self.inject(&packet, to);
    }

    fn drop_all(&mut self) {
        self.collect();
        self.pool.clear();
    }

    fn timeout(&mut self, idx: usize) {
        self.servers[idx].on_timeout();
        self.collect();
    }

    /// Run an election for `candidate` in which exactly `voters` hear of it and answer.
    fn elect(&mut self, candidate: usize, voters: &[usize]) {
        self.timeout(candidate);
        for &v in voters {
            self.deliver(candidate, v);
        }
        for &v in voters {
            self.deliver(v, candidate);
        }
        assert!(self.servers[candidate].mode.is_leader(), "server {candidate} should lead");
        self.drop_all();
    }

    /// The Leader `leader` replicates its whole log to `peer`, whose log differs from the first
    /// entry on: the first AppendEntries is refused and the retry from the empty prefix is taken.
    fn replicate_after_refusal(&mut self, leader: usize, peer: usize) {
        self.deliver(leader, peer);
        self.deliver(peer, leader);
        self.deliver(leader, peer);
        self.deliver(peer, leader);
    }
}

#[test]
fn stale_response_from_an_older_term_is_ignored() {
    // Five servers, so three make a majority.
    let (a, b, c, d, e) = (0, 1, 2, 3, 4);
    let mut net = HeldNetwork::new(5);

    // Term 1: A leads and sends [1, 2] to B. B's success answer is delayed in the network.
    net.elect(a, &[b, c]);
    assert_eq!(net.servers[a].on_client_request(1), ClientResponse::Appended(Idx::from(1)));
    assert_eq!(net.servers[a].on_client_request(2), ClientResponse::Appended(Idx::from(2)));
    net.timeout(a);
    net.deliver(a, b);
    let stale = net.take(b, a);
    net.drop_all();

    // Term 2: C leads with [31] and overwrites A's log.
    net.elect(c, &[d, e]);
    let _ = net.servers[c].on_client_request(31);
    net.timeout(c);
    net.deliver(c, a);
    net.drop_all();
    assert!(net.servers[a].mode.is_follower());

    // Term 3: A leads again with [31, 42]. B refuses it and D takes it. The delayed answer from
    // term 1 answers A's old RPC, not this one, so B does not count as holding index 2.
    net.timeout(a);
    for v in [c, d, e] {
        net.deliver(a, v);
    }
    for v in [c, d, e] {
        net.deliver(v, a);
    }
    assert!(net.servers[a].mode.is_leader());
    net.drop_all();
    let _ = net.servers[a].on_client_request(42);
    net.timeout(a);
    net.deliver(a, b);
    net.deliver(b, a);
    net.inject(&stale, a);
    net.deliver(a, d);
    net.deliver(d, a);
    net.deliver(a, d);
    net.deliver(d, a);
    net.drop_all();
    assert_eq!(*net.servers[a].state.commit_idx(), Idx::from(0));
    assert!(net.servers[a].state.applied_commands().is_empty());

    // Term 4: C leads with [31, 32], which B and E take; C commits index 2.
    net.timeout(c);
    for v in [b, e] {
        net.deliver(c, v);
    }
    for v in [b, e] {
        net.deliver(v, c);
    }
    assert!(net.servers[c].mode.is_leader());
    net.drop_all();
    let _ = net.servers[c].on_client_request(32);
    net.timeout(c);
    net.replicate_after_refusal(c, b);
    net.replicate_after_refusal(c, e);
    assert_eq!(net.servers[c].state.applied_commands(), vec![31, 32]);

    // Every server agrees on what it committed and applied.
    let logs: Vec<Vec<Entry>> =
        net.servers.iter().map(|s| s.state.log.get_entries(&Idx::from(1))).collect();
    assert!(logs_match(&logs));
    let committed: Vec<u64> =
        net.servers.iter().map(|s| committed_len(*s.state.commit_idx())).collect();
    let applied: Vec<Vec<u8>> = net.servers.iter().map(|s| s.state.applied_commands()).collect();
    assert!(committed_entries_agree(&logs, &committed, &applied));
}

#[test]
fn split_vote_elects_one_leader_per_term() {
    let (a, b, c) = (0, 1, 2);
    let mut net = HeldNetwork::new(3);
    // A and B stand for term 1 at once; C hears from A first.
    net.timeout(a);
    net.timeout(b);
    net.deliver(a, c);
    net.deliver(b, c);
    net.deliver(c, a);
    net.deliver(c, b);
    // A and B each voted for themselves, so they refuse each other.
    net.deliver(a, b);
    net.deliver(b, a);
    assert!(net.servers[a].mode.is_leader());
    assert!(net.servers[b].mode.is_candidate());
    assert_eq!(net.servers[a].state.current_term, net.servers[b].state.current_term);
    // The Leader's heartbeat turns B into its Follower.
    net.deliver(a, b);
    assert!(net.servers[b].mode.is_follower());
    let leading: Vec<bool> = net.servers.iter().map(|s| s.mode.is_leader()).collect();
    assert_eq!(sole_leader(&leading), Some(ServerIdx(a)));
    let logs: Vec<Vec<Entry>> =
        net.servers.iter().map(|s| s.state.log.get_entries(&Idx::from(1))).collect();
    assert!(logs_match(&logs));
}
