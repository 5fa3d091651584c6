use vstd::prelude::*;

use crate::types::{Entry, LogIndex, MemberShipConfig, NodeId};

verus! {

/// The part of a node's state that must survive a restart.
#[derive(Debug, Clone, Copy, PartialEq, Eq, Structural)]
pub struct HardState {
    pub current_term: u64,
    pub voted_for: Option<NodeId>,
}

/// What a node's storage holds when the node starts.
#[derive(Debug)]
pub struct InitialState<N> {
    pub last_log_index: u64,
    pub last_log_term: u64,
    pub hard_state: Option<HardState>,
    pub membership: Option<MemberShipConfig<N>>,
}

/// The persistent storage of a node: its hard state, its log and its state
/// machine. Users implement it; the library promises nothing of its results.
pub trait Storage<N, D>: Send + Sync + 'static {
    fn get_initial_state(&self) -> Result<InitialState<N>, anyhow::Error>;

    fn save_hard_state(&self, hard_state: HardState) -> Result<(), anyhow::Error>;

    fn last_applied(&self) -> Result<u64, anyhow::Error>;

    fn get_log_entries(&self, start: LogIndex, end: LogIndex) -> Result<Vec<Entry<N, D>>, anyhow::Error>;

    fn delete_logs_from(&self, start: LogIndex, end: Option<LogIndex>) -> Result<(), anyhow::Error>;

    fn append_entries_to_log(&self, entries: &[Entry<N, D>]) -> Result<(), anyhow::Error>;

    fn apply_entries_to_state_machine(&self, entries: &[Entry<N, D>]) -> Result<(), anyhow::Error>;
}

} // verus!
