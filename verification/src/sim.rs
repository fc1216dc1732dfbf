//! Plain data and checks for simulating a cluster of servers: which server an operation picks,
//! how servers are numbered and addressed, and the Raft safety properties that must hold across
//! the cluster after any sequence of operations.

use crate::log::{matched_to_leader, store_leader_entries, Entry, Idx};
use crate::packet::codec::{be_u64, lemma_u64_be_roundtrip, push_u64, u64_be};
use crate::server::{PeerId, ServerId};
use vstd::prelude::*;

verus! {

/// The size of the cluster the fuzzer builds.
pub const CLUSTER_SIZE: usize = 5;

/// How far one `RunUntil` can advance the simulated clock, in milliseconds.
pub const MAX_RUN_MILLIS: u64 = 1000;

/// The largest cluster the simulation builds. Raft clusters are odd sized, so this covers 3, 5
/// and 7.
pub const MAX_CLUSTER_SIZE: u8 = 7;

/// Which server in the cluster, by position.
#[derive(Debug, Clone, Copy, PartialEq, Eq, PartialOrd, Ord, Hash)]
pub struct ServerIdx(pub usize);

/// An operation's choice of which server to act on.
#[derive(Debug, Clone, Copy, PartialEq, Eq)]
pub struct ServerPick(pub u8);

impl ServerPick {
    /// The server this names in a cluster of `size`.
    ///
    /// Folds rather than rejects: a pick past the end of a smaller cluster still names a server.
    pub fn resolve(self, size: usize) -> (idx: ServerIdx)
        requires
            size > 0,
        ensures
            idx.0 == self.0 as nat % size as nat,
            idx.0 < size,
    {
        ServerIdx(self.0 as usize % size)
    }
}

/// How far one operation advances the simulated clock, in milliseconds.
#[derive(Debug, Clone, Copy, PartialEq, Eq)]
pub struct RunMillis(pub u64);

/// One step of a simulation.
#[derive(Debug, Clone, Copy, PartialEq, Eq)]
pub enum Operation {
    /// A client sends a command to a server.
    ClientRequest(ServerPick, u8),
    /// Run the cluster forward for a span of simulated time.
    RunUntil(RunMillis),
    /// Stop a server; it keeps everything it held.
    Pause(ServerPick),
    /// Resume a paused server.
    Resume(ServerPick),
}

/// The 16 bytes of the server at position `idx`: `idx + 1` big-endian, then zeros.
pub open spec fn unique_bytes_spec(idx: nat) -> Seq<u8> {
    u64_be((idx + 1) as u64) + Seq::new(8, |i: int| 0u8)
}

/// 16 distinct bytes per server position. Servers are addressed by a 16 byte Id.
///
/// Offset by 1 so that no server holds the all-zero pattern, the natural "unset" value.
pub fn unique_bytes(idx: usize) -> (bytes: [u8; 16])
    requires
        idx < u64::MAX,
    ensures
        bytes@ == unique_bytes_spec(idx as nat),
{
    let mut be: Vec<u8> = Vec::new();
    push_u64(&mut be, idx as u64 + 1);
    let mut bytes: [u8; 16] = [0u8; 16];
    let mut i: usize = 0;
    while i < 8
        invariant
            i <= 8,
            be@ == u64_be((idx + 1) as u64),
            forall|j: int| 0 <= j < i ==> bytes@[j] == be@[j],
            forall|j: int| 8 <= j < 16 ==> bytes@[j] == 0u8,
        decreases 8 - i,
    {
        bytes[i] = be[i];
        i = i + 1;
    }
    assert(bytes@ =~= unique_bytes_spec(idx as nat));
    bytes
}

/// Different positions get different bytes, and none gets all zeros.
pub proof fn law_unique_bytes_are_unique(a: nat, b: nat)
    requires
        a < u64::MAX,
        b < u64::MAX,
    ensures
        a != b ==> unique_bytes_spec(a) != unique_bytes_spec(b),
        unique_bytes_spec(a) != Seq::new(16, |i: int| 0u8),
{
    lemma_u64_be_roundtrip((a + 1) as u64);
    lemma_u64_be_roundtrip((b + 1) as u64);
    if a != b {
        assert(unique_bytes_spec(a).subrange(0, 8) =~= u64_be((a + 1) as u64));
        assert(unique_bytes_spec(b).subrange(0, 8) =~= u64_be((b + 1) as u64));
    }
    let zeros = Seq::new(16, |i: int| 0u8);
    assert(unique_bytes_spec(a).subrange(0, 8) =~= u64_be((a + 1) as u64));
    if unique_bytes_spec(a) == zeros {
        let z = u64_be((a + 1) as u64);
        assert(z =~= Seq::new(8, |i: int| 0u8));
        let (b0, b1, b2, b3, b4, b5, b6, b7) = (z[0], z[1], z[2], z[3], z[4], z[5], z[6], z[7]);
        assert(((b0 as u64) << 56u64) | ((b1 as u64) << 48u64) | ((b2 as u64) << 40u64) | ((
        b3 as u64) << 32u64) | ((b4 as u64) << 24u64) | ((b5 as u64) << 16u64) | ((b6 as u64)
            << 8u64) | (b7 as u64) == 0) by (bit_vector)
            requires
                b0 == 0 && b1 == 0 && b2 == 0 && b3 == 0 && b4 == 0 && b5 == 0 && b6 == 0 && b7
                    == 0,
        ;
        assert(be_u64(z) == 0);
    }
}

/// The peers of the server at position `me` among `server_ids`: every other server, in order.
pub open spec fn peers_of(server_ids: Seq<ServerId>, me: int) -> Seq<PeerId> {
    server_ids.remove(me).map_values(|id: ServerId| PeerId(id.0))
}

/// The peer list of the server at position `me`: every server but itself, in order.
pub fn peer_list_for(server_ids: &Vec<ServerId>, me: usize) -> (peers: Vec<PeerId>)
    requires
        me < server_ids@.len(),
    ensures
        peers@ == peers_of(server_ids@, me as int),
{
    let mut peers: Vec<PeerId> = Vec::new();
    let mut i: usize = 0;
    while i < server_ids.len()
        invariant
            i <= server_ids@.len(),
            me < server_ids@.len(),
            peers@ == (if i <= me {
                server_ids@.subrange(0, i as int)
            } else {
                server_ids@.subrange(0, i as int).remove(me as int)
            }).map_values(|id: ServerId| PeerId(id.0)),
        decreases server_ids.len() - i,
    {
        let ghost before = peers@;
        if i != me {
            peers.push(server_ids[i].as_peer_id());
        }
        i = i + 1;
        proof {
            let s = server_ids@;
            if i <= me {
                assert(s.subrange(0, i as int) =~= s.subrange(0, i - 1).push(s[i - 1]));
            } else if i - 1 == me {
                assert(s.subrange(0, i as int).remove(me as int) =~= s.subrange(0, me as int));
            } else {
                assert(s.subrange(0, i as int).remove(me as int) =~= s.subrange(0, i - 1).remove(
                    me as int,
                ).push(s[i - 1]));
            }
        }
    }
    assert(server_ids@.subrange(0, server_ids@.len() as int) =~= server_ids@);
    peers
}

/// How many entries a server whose commit index is `commit_idx` considers committed.
pub fn committed_len(commit_idx: Idx) -> (len: u64)
    ensures
        len == commit_idx.0,
{
    if commit_idx.is_initial() {
        0
    } else {
        // Idx counts from 1, so the position of the last committed entry is also the count.
        commit_idx.0
    }
}

/// The one running server that believes it leads, if there is exactly one.
///
/// None while an election is in flight, and also when two servers each believe they lead.
pub open spec fn sole_leader_spec(leading: Seq<bool>) -> Option<ServerIdx> {
    if (exists|i: int, j: int| 0 <= i < j < leading.len() && leading[i] && leading[j]) {
        None
    } else if (exists|i: int| 0 <= i < leading.len() && leading[i]) {
        Some(ServerIdx((choose|i: int| 0 <= i < leading.len() && leading[i]) as usize))
    } else {
        None
    }
}

/// Given, for each server, whether it is running and believes it leads, the sole Leader.
pub fn sole_leader(leading: &Vec<bool>) -> (leader: Option<ServerIdx>)
    ensures
        leader == sole_leader_spec(leading@),
{
    let mut found: Option<usize> = None;
    let mut i: usize = 0;
    while i < leading.len()
        invariant
            i <= leading@.len(),
            found is None ==> forall|k: int| 0 <= k < i ==> !leading@[k],
            found is Some ==> {
                &&& found->0 < i
                &&& leading@[found->0 as int]
                &&& forall|k: int| 0 <= k < i && k != found->0 ==> !leading@[k]
            },
        decreases leading.len() - i,
    {
        if leading[i] {
            if found.is_some() {
                // More than one server claims to lead. Report no Leader rather than picking one.
                proof {
                    let f = found->0 as int;
                    assert(0 <= f < i && leading@[f] && leading@[i as int]);
                }
                return None;
            }
            found = Some(i);
        }
        i = i + 1;
    }
    match found {
        Some(f) => {
            proof {
                assert(leading@[f as int]);
                let c = choose|k: int| 0 <= k < leading@.len() && leading@[k];
                assert(c == f);
            }
            Some(ServerIdx(f))
        },
        None => None,
    }
}


//% Log Matching: if two logs contain an entry with the same index and term, then the logs are
//% identical in all entries up through the given index (§5.3)
/// Whether two logs satisfy Log Matching: wherever both hold an entry of the same term at one
/// index, they agree on every entry up to it.
pub open spec fn log_pair_matches(x: Seq<Entry>, y: Seq<Entry>) -> bool {
    forall|p: int|
        #![trigger x[p], y[p]]
        0 <= p < x.len() && p < y.len() && x[p].term == y[p].term ==> x.subrange(0, p + 1)
            == y.subrange(0, p + 1)
}

/// Whether every pair of `logs` satisfies Log Matching.
pub open spec fn logs_match_spec(logs: Seq<Seq<Entry>>) -> bool {
    forall|a: int, b: int|
        #![trigger logs[a], logs[b]]
        0 <= a < b < logs.len() ==> log_pair_matches(logs[a], logs[b])
}

/// The contents of each of `vs`.
pub open spec fn views_of<T>(vs: Seq<Vec<T>>) -> Seq<Seq<T>> {
    vs.map_values(|v: Vec<T>| v@)
}

fn log_pair_matches_check(x: &Vec<Entry>, y: &Vec<Entry>) -> (ok: bool)
    ensures
        ok == log_pair_matches(x@, y@),
{
    let shared = if x.len() < y.len() {
        x.len()
    } else {
        y.len()
    };
    let mut same_so_far = true;
    let mut p: usize = 0;
    assert(x@.subrange(0, 0) =~= y@.subrange(0, 0));
    while p < shared
        invariant
            p <= shared,
            shared <= x@.len(),
            shared <= y@.len(),
            shared == x@.len() || shared == y@.len(),
            same_so_far == (x@.subrange(0, p as int) == y@.subrange(0, p as int)),
            forall|q: int|
                #![trigger x@[q], y@[q]]
                0 <= q < p && x@[q].term == y@[q].term ==> x@.subrange(0, q + 1) == y@.subrange(
                    0,
                    q + 1,
                ),
        decreases shared - p,
    {
        let same_here = x[p] == y[p];
        proof {
            assert(x@.subrange(0, p + 1) =~= x@.subrange(0, p as int).push(x@[p as int]));
            assert(y@.subrange(0, p + 1) =~= y@.subrange(0, p as int).push(y@[p as int]));
            if x@.subrange(0, p + 1) == y@.subrange(0, p + 1) {
                assert(x@.subrange(0, p + 1)[p as int] == y@.subrange(0, p + 1)[p as int]);
                assert(x@.subrange(0, p as int) =~= x@.subrange(0, p + 1).drop_last());
                assert(y@.subrange(0, p as int) =~= y@.subrange(0, p + 1).drop_last());
            }
        }
        if x[p].term.0 == y[p].term.0 && !(same_so_far && same_here) {
            // Different terms at one index mean the entries came from different Leaders; the
            // same term means they must agree up to here.
            return false;
        }
        same_so_far = same_so_far && same_here;
        p = p + 1;
    }
    true
}

/// Whether every pair of `logs` satisfies Log Matching.
///
/// Two logs may hold different entries at one index when the terms differ: that is ordinary Raft
/// until one side is overwritten.
pub fn logs_match(logs: &Vec<Vec<Entry>>) -> (ok: bool)
    ensures
        ok == logs_match_spec(views_of(logs@)),
{
    let ghost ls = views_of(logs@);
    let mut a: usize = 0;
    while a < logs.len()
        invariant
            a <= logs@.len(),
            ls == views_of(logs@),
            forall|i: int, j: int|
                #![trigger ls[i], ls[j]]
                0 <= i < a && i < j < logs@.len() ==> log_pair_matches(ls[i], ls[j]),
        decreases logs.len() - a,
    {
        let mut b: usize = a + 1;
        while b < logs.len()
            invariant
                a < logs@.len(),
                a + 1 <= b <= logs@.len(),
                ls == views_of(logs@),
                forall|i: int, j: int|
                    #![trigger ls[i], ls[j]]
                    0 <= i < a && i < j < logs@.len() ==> log_pair_matches(ls[i], ls[j]),
                forall|j: int| #![trigger ls[j]] a < j < b ==> log_pair_matches(ls[a as int], ls[j]),
            decreases logs.len() - b,
        {
            if !log_pair_matches_check(&logs[a], &logs[b]) {
                assert(ls[a as int] == logs@[a as int]@ && ls[b as int] == logs@[b as int]@);
                return false;
            }
            assert(ls[a as int] == logs@[a as int]@ && ls[b as int] == logs@[b as int]@);
            b = b + 1;
        }
        a = a + 1;
    }
    true
}

//% State Machine Safety: if a server has applied a log entry at a given index to its state
//% machine, no other server will ever apply a different log entry for the same index (§5.4.3)
/// Whether servers `a` and `b` agree on the entries both consider committed, and on the commands
/// both applied.
pub open spec fn committed_pair_agrees(
    logs: Seq<Seq<Entry>>,
    committed: Seq<u64>,
    applied: Seq<Seq<u8>>,
    a: int,
    b: int,
) -> bool {
    let shared = if committed[a] < committed[b] {
        committed[a]
    } else {
        committed[b]
    };
    let applied_shared = if applied[a].len() < applied[b].len() {
        applied[a].len()
    } else {
        applied[b].len()
    };
    &&& logs[a].subrange(0, shared as int) == logs[b].subrange(0, shared as int)
    &&& applied[a].subrange(0, applied_shared as int) == applied[b].subrange(
        0,
        applied_shared as int,
    )
}

/// Whether every pair of servers agrees on what both committed and applied.
pub open spec fn committed_entries_agree_spec(
    logs: Seq<Seq<Entry>>,
    committed: Seq<u64>,
    applied: Seq<Seq<u8>>,
) -> bool {
    forall|a: int, b: int|
        #![trigger committed_pair_agrees(logs, committed, applied, a, b)]
        0 <= a < b < logs.len() ==> committed_pair_agrees(logs, committed, applied, a, b)
}

fn entries_prefix_equal(x: &Vec<Entry>, y: &Vec<Entry>, n: usize) -> (eq: bool)
    requires
        n <= x@.len(),
        n <= y@.len(),
    ensures
        eq == (x@.subrange(0, n as int) == y@.subrange(0, n as int)),
{
    let mut i: usize = 0;
    while i < n
        invariant
            i <= n,
            n <= x@.len(),
            n <= y@.len(),
            forall|k: int| 0 <= k < i ==> x@[k] == y@[k],
        decreases n - i,
    {
        if x[i] != y[i] {
            assert(x@.subrange(0, n as int)[i as int] != y@.subrange(0, n as int)[i as int]);
            return false;
        }
        i = i + 1;
    }
    assert(x@.subrange(0, n as int) =~= y@.subrange(0, n as int));
    true
}

fn bytes_prefix_equal(x: &Vec<u8>, y: &Vec<u8>, n: usize) -> (eq: bool)
    requires
        n <= x@.len(),
        n <= y@.len(),
    ensures
        eq == (x@.subrange(0, n as int) == y@.subrange(0, n as int)),
{
    let mut i: usize = 0;
    while i < n
        invariant
            i <= n,
            n <= x@.len(),
            n <= y@.len(),
            forall|k: int| 0 <= k < i ==> x@[k] == y@[k],
        decreases n - i,
    {
        if x[i] != y[i] {
            assert(x@.subrange(0, n as int)[i as int] != y@.subrange(0, n as int)[i as int]);
            return false;
        }
        i = i + 1;
    }
    assert(x@.subrange(0, n as int) =~= y@.subrange(0, n as int));
    true
}

/// Whether every pair of servers agrees on the entries both consider committed, and on the
/// commands both state machines applied, in the order they applied them. Server `i` holds
/// `logs[i]`, considers `committed[i]` of its entries committed, and applied `applied[i]`.
pub fn committed_entries_agree(
    logs: &Vec<Vec<Entry>>,
    committed: &Vec<u64>,
    applied: &Vec<Vec<u8>>,
) -> (ok: bool)
    requires
        committed@.len() == logs@.len(),
        applied@.len() == logs@.len(),
        forall|i: int| 0 <= i < logs@.len() ==> committed@[i] <= (#[trigger] logs@[i])@.len(),
    ensures
        ok == committed_entries_agree_spec(views_of(logs@), committed@, views_of(applied@)),
{
    let ghost ls = views_of(logs@);
    let ghost aps = views_of(applied@);
    let mut a: usize = 0;
    while a < logs.len()
        invariant
            a <= logs@.len(),
            committed@.len() == logs@.len(),
            applied@.len() == logs@.len(),
            forall|i: int| 0 <= i < logs@.len() ==> committed@[i] <= (#[trigger] logs@[i])@.len(),
            ls == views_of(logs@),
            aps == views_of(applied@),
            forall|i: int, j: int|
                #![trigger committed_pair_agrees(ls, committed@, aps, i, j)]
                0 <= i < a && i < j < logs@.len() ==> committed_pair_agrees(
                    ls,
                    committed@,
                    aps,
                    i,
                    j,
                ),
        decreases logs.len() - a,
    {
        let mut b: usize = a + 1;
        while b < logs.len()
            invariant
                a < logs@.len(),
                a + 1 <= b <= logs@.len(),
                committed@.len() == logs@.len(),
                applied@.len() == logs@.len(),
                forall|i: int| 0 <= i < logs@.len() ==> committed@[i] <= (#[trigger] logs@[i])@.len(),
                ls == views_of(logs@),
                aps == views_of(applied@),
                forall|i: int, j: int|
                    #![trigger committed_pair_agrees(ls, committed@, aps, i, j)]
                    0 <= i < a && i < j < logs@.len() ==> committed_pair_agrees(
                        ls,
                        committed@,
                        aps,
                        i,
                        j,
                    ),
                forall|j: int|
                    #![trigger committed_pair_agrees(ls, committed@, aps, a as int, j)]
                    a < j < b ==> committed_pair_agrees(ls, committed@, aps, a as int, j),
            decreases logs.len() - b,
        {
            let shared = if committed[a] < committed[b] {
                committed[a]
            } else {
                committed[b]
            };
            let _ = logs[a].len();
            assert(committed@[a as int] <= logs@[a as int]@.len());
            assert(committed@[b as int] <= logs@[b as int]@.len());
            let logs_agree = entries_prefix_equal(&logs[a], &logs[b], shared as usize);
            let applied_shared = if applied[a].len() < applied[b].len() {
                applied[a].len()
            } else {
                applied[b].len()
            };
            let applied_agree = bytes_prefix_equal(&applied[a], &applied[b], applied_shared);
            assert(ls[a as int] == logs@[a as int]@ && ls[b as int] == logs@[b as int]@);
            assert(aps[a as int] == applied@[a as int]@ && aps[b as int] == applied@[b as int]@);
            if !(logs_agree && applied_agree) {
                assert(!committed_pair_agrees(ls, committed@, aps, a as int, b as int));
                return false;
            }
            assert(committed_pair_agrees(ls, committed@, aps, a as int, b as int));
            b = b + 1;
        }
        a = a + 1;
    }
    true
}

/// The Follower's log after storing the first `n` of the Leader's entries behind `prev`: the
/// Leader's log up to there, followed only by the Follower's own entries where nothing conflicted.
pub(crate) proof fn lemma_store_follows_leader(
    leader: Seq<Entry>,
    follower: Seq<Entry>,
    prev: nat,
    entries: Seq<Entry>,
    k: nat,
    n: nat,
)
    requires
        log_pair_matches(leader, follower),
        prev <= follower.len(),
        prev + k <= leader.len(),
        prev + k < u64::MAX,
        n <= k,
        entries == leader.subrange(prev as int, (prev + k) as int),
        prev == 0 || follower[prev - 1].term == leader[prev - 1].term,
    ensures
        store_leader_entries(follower, prev, entries, n).len() >= prev + n,
        store_leader_entries(follower, prev, entries, n).subrange(0, (prev + n) as int) == leader.subrange(
            0,
            (prev + n) as int,
        ),
        store_leader_entries(follower, prev, entries, n).len() > prev + n ==> store_leader_entries(
            follower,
            prev,
            entries,
            n,
        ) == follower,
    decreases n,
{
    if n == 0 {
        if prev > 0 {
            let p = prev - 1;
            assert(leader[p].term == follower[p].term);
        }
        assert(follower.subrange(0, prev as int) =~= leader.subrange(0, prev as int));
    } else {
        lemma_store_follows_leader(leader, follower, prev, entries, k, (n - 1) as nat);
        let before = store_leader_entries(follower, prev, entries, (n - 1) as nat);
        let p = prev + n - 1;
        let e = entries[n - 1];
        assert(e == leader[p]);
        let r = store_leader_entries(follower, prev, entries, n);
        assert(r == matched_to_leader(before, e, Idx((prev + n) as u64)));
        if before.len() > p && follower[p].term == e.term {
            assert(before == follower);
            assert(leader[p].term == follower[p].term);
            assert(r == follower);
        } else {
            assert(r =~= before.subrange(0, p).push(e));
            assert(before.subrange(0, p) =~= before.subrange(0, prev + n - 1));
            assert(r.subrange(0, (prev + n) as int) =~= leader.subrange(0, (prev + n) as int));
        }
    }
}

/// An AppendEntries that a Follower accepts keeps Log Matching between its log and the Leader's:
/// when the Follower holds the Leader's term at `prev` (or `prev` is the empty prefix) and the
/// two logs satisfy Log Matching, storing the Leader's `k` entries after `prev` leaves two logs
/// that still do.
pub proof fn law_store_keeps_log_matching(leader: Seq<Entry>, follower: Seq<Entry>, prev: nat, k: nat)
    requires
        log_pair_matches(leader, follower),
        prev <= follower.len(),
        prev + k <= leader.len(),
        prev + k < u64::MAX,
        prev == 0 || follower[prev - 1].term == leader[prev - 1].term,
    ensures
        log_pair_matches(
            leader,
            store_leader_entries(follower, prev, leader.subrange(prev as int, (prev + k) as int), k),
        ),
{
    let entries = leader.subrange(prev as int, (prev + k) as int);
    lemma_store_follows_leader(leader, follower, prev, entries, k, k);
    let r = store_leader_entries(follower, prev, entries, k);
    assert forall|p: int|
        #![trigger leader[p], r[p]]
        0 <= p < leader.len() && p < r.len() && leader[p].term == r[p].term implies leader.subrange(
        0,
        p + 1,
    ) == r.subrange(0, p + 1) by {
        if p < prev + k {
            assert(r.subrange(0, p + 1) =~= r.subrange(0, (prev + k) as int).subrange(0, p + 1));
            assert(leader.subrange(0, p + 1) =~= leader.subrange(0, (prev + k) as int).subrange(0, p + 1));
        } else {
            assert(r == follower);
            assert(leader[p].term == follower[p].term);
        }
    }
}
} // verus!
