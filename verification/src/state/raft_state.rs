//! Persistent and volatile state shared by every mode.

use crate::log::{entry_at, last_term_idx_of, Entry, Idx, Log, Term, TermIdx};
use crate::server::{Id, PeerId, ServerId};
use crate::state::state_machine::{CommitEntry, CurrentMode, StateMachine};
use crate::timeout::Timeout;
use vstd::prelude::*;

verus! {

/// The StateMachine entries that committing `log` positions `from + 1 ..= to` produces, in
/// order.
pub open spec fn commits_for(
    log: Seq<Entry>,
    from: nat,
    to: nat,
    peer_id: PeerId,
    mode: CurrentMode,
) -> Seq<CommitEntry> {
    Seq::new(
        (to - from) as nat,
        |k: int|
            CommitEntry {
                entry: log[from + k],
                log_last_applied_idx: Idx((from + k + 1) as u64),
                peer_id,
                mode,
            },
    )
}

/// What every call on a `RaftState` keeps: the commit index and the last applied index never go
/// back, and a well-formed state stays well-formed.
pub open spec fn commit_step(old: &RaftState, new: &RaftState) -> bool {
    &&& new.commit_idx.0 >= old.commit_idx.0
    &&& new.last_applied.0 >= old.last_applied.0
    &&& old.wf() ==> new.wf()
}

#[derive(Debug)]
pub struct RaftState {
    //  ==== Persistent state on all servers ====
    //% `currentTerm` latest term server has seen (initialized to 0 on first boot, increases
    //% monotonically)
    pub current_term: Term,
    //% `votedFor` `candidateId` that received vote in current term (or null if none)
    pub voted_for: Option<Id>,
    //% `log[]` log entries; each entry contains command for state machine, and term when entry was
    //% received by leader (first index is 1)
    pub log: Log,
    // ==== Volatile state on all servers ====
    //% `commitIndex` index of highest log entry known to be committed (initialized to 0, increases
    //% monotonically)
    pub commit_idx: Idx,
    //% lastApplied: index of highest log entry applied to state machine (initialized to 0,
    //% increases monotonically)
    pub last_applied: Idx,
    // The permanent storage which stored Entries replicated on majority of Raft servers.
    pub state_machine: StateMachine,
    pub timeout: Timeout,
}

impl RaftState {
    pub open spec fn voted_for_spec(&self) -> Option<Id> {
        self.voted_for
    }

    pub open spec fn commit_idx_spec(&self) -> Idx {
        self.commit_idx
    }

    pub open spec fn last_applied_spec(&self) -> Idx {
        self.last_applied
    }

    /// The entries applied to the StateMachine, in apply order.
    pub open spec fn applied(&self) -> Seq<CommitEntry> {
        self.state_machine@
    }

    /// Every committed entry has been applied, in log order, and nothing else has.
    pub open spec fn wf(&self) -> bool {
        &&& self.last_applied == self.commit_idx
        &&& self.state_machine@.len() == self.commit_idx.0
        &&& forall|i: int|
            0 <= i < self.state_machine@.len() ==> (#[trigger] self.state_machine@[i]).log_last_applied_idx
                == Idx((i + 1) as u64)
    }

    pub fn new() -> (state: RaftState)
        ensures
            state.wf(),
            state.current_term == Term::initial_spec(),
            state.voted_for_spec() == None::<Id>,
            state.log@ == Seq::<Entry>::empty(),
            state.commit_idx_spec() == Idx::initial_spec(),
            state.applied() == Seq::<CommitEntry>::empty(),
            !state.timeout.reset_pending(),
    {
        RaftState {
            current_term: Term::initial(),
            voted_for: None,
            log: Log::new(),
            commit_idx: Idx::initial(),
            last_applied: Idx::initial(),
            state_machine: StateMachine::new(),
            timeout: Timeout::new(),
        }
    }

    pub fn last_applied(&self) -> (idx: &Idx)
        ensures
            *idx == self.last_applied_spec(),
    {
        &self.last_applied
    }

    pub fn commit_idx(&self) -> (idx: &Idx)
        ensures
            *idx == self.commit_idx_spec(),
    {
        &self.commit_idx
    }

    /// The log index of every entry committed to the StateMachine, in apply order.
    pub fn applied_entries(&self) -> (idxs: Vec<Idx>)
        ensures
            idxs@ == self.applied().map_values(|c: CommitEntry| c.log_last_applied_idx),
    {
        self.state_machine.applied_entries()
    }

    /// The command of every entry committed to the StateMachine, in apply order.
    pub fn applied_commands(&self) -> (commands: Vec<u8>)
        ensures
            commands@ == self.applied().map_values(|c: CommitEntry| c.entry.command),
    {
        self.state_machine.applied_commands()
    }

    /// Commit and apply every log entry up to `commit_up_to_idx`.
    ///
    //% If commitIndex > lastApplied: increment lastApplied, apply log[lastApplied] to state
    //% machine (§5.3)
    pub fn update_commit_idx(&mut self, commit_up_to_idx: Idx, peer_id: PeerId, mode: CurrentMode)
        requires
            old(self).wf(),
            // commitIdx is monotonically increasing
            old(self).commit_idx_spec().0 <= commit_up_to_idx.0,
            // every entry to apply is in the log; committing nothing new reads nothing from it
            old(self).commit_idx_spec().0 < commit_up_to_idx.0 ==> commit_up_to_idx.0 <= old(
                self,
            ).log@.len(),
        ensures
            commit_step(old(self), final(self)),
            final(self).wf(),
            final(self).commit_idx_spec() == commit_up_to_idx,
            final(self).applied() == old(self).applied() + commits_for(
                old(self).log@,
                old(self).commit_idx_spec().0 as nat,
                commit_up_to_idx.0 as nat,
                peer_id,
                mode,
            ),
            final(self).current_term == old(self).current_term,
            final(self).voted_for_spec() == old(self).voted_for_spec(),
            final(self).log@ == old(self).log@,
            final(self).timeout == old(self).timeout,
    {
        let ghost from = self.commit_idx.0 as nat;
        let ghost start_applied = self.state_machine@;
        while commit_up_to_idx.0 > self.last_applied.0
            invariant
                self.last_applied == self.commit_idx,
                from <= self.commit_idx.0 <= commit_up_to_idx.0,
                from < commit_up_to_idx.0 ==> commit_up_to_idx.0 <= self.log@.len(),
                self.log@ == old(self).log@,
                self.current_term == old(self).current_term,
                self.voted_for == old(self).voted_for,
                self.timeout == old(self).timeout,
                from == old(self).commit_idx.0,
                start_applied == old(self).state_machine@,
                start_applied.len() == from,
                self.state_machine@ == start_applied + commits_for(
                    self.log@,
                    from,
                    self.commit_idx.0 as nat,
                    peer_id,
                    mode,
                ),
                forall|i: int|
                    0 <= i < start_applied.len() ==> (#[trigger] start_applied[i]).log_last_applied_idx
                        == Idx((i + 1) as u64),
            decreases commit_up_to_idx.0 - self.last_applied.0,
        {
            //% If commitIndex > lastApplied: increment lastApplied
            self.last_applied = self.last_applied.plus(1);
            //% If commitIndex > lastApplied: apply log[lastApplied] to state machine (§5.3)
            let entry = match self.log.find_entry_at(&self.last_applied) {
                Some(e) => *e,
                None => {
                    proof {
                        assert(false);
                    }
                    return ;
                },
            };
            let commit_entry = CommitEntry {
                entry,
                log_last_applied_idx: self.last_applied,
                peer_id,
                mode,
            };
            self.state_machine.commit_entry(commit_entry);
            self.commit_idx = self.last_applied;
            proof {
                assert(commits_for(self.log@, from, self.commit_idx.0 as nat, peer_id, mode)
                    =~= commits_for(self.log@, from, (self.commit_idx.0 - 1) as nat, peer_id, mode).push(
                    commit_entry,
                ));
            }
        }
        proof {
            assert forall|i: int| 0 <= i < self.state_machine@.len() implies (
            #[trigger] self.state_machine@[i]).log_last_applied_idx == Idx((i + 1) as u64) by {
                if i >= start_applied.len() {
                    assert(self.state_machine@[i] == commits_for(
                        self.log@,
                        from,
                        self.commit_idx.0 as nat,
                        peer_id,
                        mode,
                    )[i - from]);
                }
            }
        }
    }

    /// Commit and apply the next log entry, if `idx` moves past the commit index.
    pub fn set_commit_idx(&mut self, idx: Idx, peer_id: PeerId, mode: CurrentMode)
        requires
            old(self).wf(),
            // commitIdx is monotonically increasing
            old(self).commit_idx_spec().0 <= idx.0,
            // commitIdx increases by one at a time so each entry is captured in the log
            idx.0 <= old(self).commit_idx_spec().0 + 1,
            // the entry to apply is in the log; committing nothing new reads nothing from it
            idx.0 == old(self).commit_idx_spec().0 + 1 ==> idx.0 <= old(self).log@.len(),
        ensures
            commit_step(old(self), final(self)),
            final(self).wf(),
            final(self).commit_idx_spec() == idx,
            final(self).applied() == old(self).applied() + commits_for(
                old(self).log@,
                old(self).commit_idx_spec().0 as nat,
                idx.0 as nat,
                peer_id,
                mode,
            ),
            final(self).current_term == old(self).current_term,
            final(self).voted_for_spec() == old(self).voted_for_spec(),
            final(self).log@ == old(self).log@,
            final(self).timeout == old(self).timeout,
    {
        self.update_commit_idx(idx, peer_id, mode);
    }

    /// Retrieve the last log TermIdx and increment the currentTerm.
    pub fn on_start_election(&mut self) -> (last_log_term_idx: TermIdx)
        requires
            old(self).current_term.0 < u64::MAX,
        ensures
            commit_step(old(self), final(self)),
            //% lastLogIndex: index of candidate’s last log entry (§5.4)
            //% lastLogTerm: term of candidate’s last log entry (§5.4)
            last_log_term_idx == last_term_idx_of(old(self).log@),
            //% Increment currentTerm
            final(self).current_term.0 == old(self).current_term.0 + 1,
            final(self).voted_for_spec() == old(self).voted_for_spec(),
            final(self).log@ == old(self).log@,
            final(self).commit_idx_spec() == old(self).commit_idx_spec(),
            final(self).last_applied_spec() == old(self).last_applied_spec(),
            final(self).applied() == old(self).applied(),
            final(self).timeout == old(self).timeout,
    {
        let last_log_term_idx = self.log.last_term_idx();
        self.current_term.increment();
        last_log_term_idx
    }

    /// Move to a newer term, in which no vote has been cast yet.
    ///
    //% If RPC request or response contains term T > currentTerm: set currentTerm = T
    pub fn on_new_term(&mut self, term: Term)
        ensures
            commit_step(old(self), final(self)),
            *final(self) == (RaftState { current_term: term, voted_for: None, ..*old(self) }),
            final(self).current_term == term,
            final(self).voted_for_spec() == None::<Id>,
            final(self).log@ == old(self).log@,
            final(self).commit_idx_spec() == old(self).commit_idx_spec(),
            final(self).last_applied_spec() == old(self).last_applied_spec(),
            final(self).applied() == old(self).applied(),
            final(self).timeout == old(self).timeout,
    {
        self.current_term = term;
        self.voted_for = None;
    }

    pub fn voted_for(&self) -> (voted_for: &Option<Id>)
        ensures
            *voted_for == self.voted_for_spec(),
    {
        &self.voted_for
    }

    pub fn voted_for_self(&mut self, server_id: ServerId)
        ensures
            commit_step(old(self), final(self)),
            final(self).voted_for_spec() == Some(Id(server_id.0)),
            final(self).current_term == old(self).current_term,
            final(self).log@ == old(self).log@,
            final(self).commit_idx_spec() == old(self).commit_idx_spec(),
            final(self).last_applied_spec() == old(self).last_applied_spec(),
            final(self).applied() == old(self).applied(),
            final(self).timeout == old(self).timeout,
    {
        self.voted_for = Some(server_id.into_id())
    }

    pub fn voted_for_peer(&mut self, peer_id: PeerId)
        ensures
            commit_step(old(self), final(self)),
            final(self).voted_for_spec() == Some(Id(peer_id.0)),
            final(self).current_term == old(self).current_term,
            final(self).log@ == old(self).log@,
            final(self).commit_idx_spec() == old(self).commit_idx_spec(),
            final(self).last_applied_spec() == old(self).last_applied_spec(),
            final(self).applied() == old(self).applied(),
            final(self).timeout == old(self).timeout,
    {
        self.voted_for = Some(peer_id.into_id())
    }
}


/// Along any sequence of states in which each follows from the one before by a call on
/// `RaftState`, starting from a well-formed state such as `RaftState::new` gives, the commit index
/// and the last applied index never decrease, and every state has applied exactly what it
/// committed: `last_applied == commit_idx`.
pub proof fn law_commit_index_never_decreases(states: Seq<RaftState>)
    requires
        states.len() > 0,
        states[0].wf(),
        forall|i: int| 0 <= i < states.len() - 1 ==> #[trigger] commit_step(&states[i], &states[i + 1]),
    ensures
        forall|i: int, j: int|
            #![trigger states[i], states[j]]
            0 <= i <= j < states.len() ==> states[i].commit_idx.0 <= states[j].commit_idx.0
                && states[i].last_applied.0 <= states[j].last_applied.0,
        forall|i: int|
            0 <= i < states.len() ==> (#[trigger] states[i]).wf() && states[i].last_applied
                == states[i].commit_idx,
{
    lemma_commit_prefix(states, states.len() as int);
}

proof fn lemma_commit_prefix(states: Seq<RaftState>, k: int)
    requires
        0 < k <= states.len(),
        states[0].wf(),
        forall|i: int| 0 <= i < states.len() - 1 ==> #[trigger] commit_step(&states[i], &states[i + 1]),
    ensures
        forall|i: int, j: int|
            #![trigger states[i], states[j]]
            0 <= i <= j < k ==> states[i].commit_idx.0 <= states[j].commit_idx.0
                && states[i].last_applied.0 <= states[j].last_applied.0,
        forall|i: int| 0 <= i < k ==> (#[trigger] states[i]).wf(),
    decreases k,
{
    if k > 1 {
        lemma_commit_prefix(states, k - 1);
        let a = k - 2;
        assert(commit_step(&states[a], &states[a + 1]));
        assert(a + 1 == k - 1);
        assert forall|i: int, j: int|
            #![trigger states[i], states[j]]
            0 <= i <= j < k implies states[i].commit_idx.0 <= states[j].commit_idx.0
                && states[i].last_applied.0 <= states[j].last_applied.0 by {
            if j == k - 1 && i < j {
                assert(states[i].commit_idx.0 <= states[k - 2].commit_idx.0);
                assert(states[i].last_applied.0 <= states[k - 2].last_applied.0);
            }
        }
    }
}
} // verus!
