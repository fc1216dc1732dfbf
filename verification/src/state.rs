//! The state every Raft server keeps, whatever its mode.

pub mod raft_state;
pub mod state_machine;
