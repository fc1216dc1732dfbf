# raft_rs

A Raft consensus core written in Verus. Every function in `src/` carries a contract. Verus proves
the code against it, except for four small functions that call outside code (decoding an integer
with `s2n-codec`, `VecDeque::as_slices`, and a random pick with `rand`), whose contracts are taken
on trust from that code's documentation and source.

The library is sans-I/O: a server is a value that is fed received bytes and timeouts and leaves
encoded packets on a bounded egress queue. Whoever runs it owns the sockets and the clock.

## Layout

- `src/log` — the replicated log, its terms and indexes, and how a Follower's log is brought in
  line with the Leader's.
- `src/packet` — the RPCs, the addressed packets that carry them, and their wire format
  (`codec`), with round-trip and unique-parse laws.
- `src/queue` — the bounded byte queues between a server and the network, the egress through
  which modes send RPCs, and an egress for inspecting what was sent.
- `src/state` — the persistent and volatile state of a server and its state machine.
- `src/mode` — Follower, Candidate and Leader, and `safety`: what every step of a server keeps.
- `src/server` — a whole server: receive, time out, take client commands.
- `src/timeout` — when the election timer restarts, and how long it runs.
- `src/cluster` — a whole cluster as a state machine: the servers and every packet sent, over a
  network that may delay, reorder, duplicate or drop them, and `new_cluster`, which builds its
  start. Proved of every run: one Leader per term (Election Safety), Log Matching between all
  logs, that no server's commit index or applied commands go back, and that a Leader counts only
  match indexes its peers reported in its own term. Agreement on committed entries (State Machine
  Safety) is checked by the simulation tests but not proved: its proof needs Leader Completeness,
  which is not here.
- `src/sim` — plain data and cluster-wide checks (Log Matching, agreement on committed entries)
  for simulating a cluster.
- `app/main.rs` — runs one server over a TCP connection with tokio.
- `tests/` — scenarios run against the compiled library.
