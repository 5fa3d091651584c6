//! A Raft consensus core whose decisions are verified with Verus.
//!
//! The library holds the node's state machine: every message, response and
//! timer event is a method of [`raft_core::Core`] that updates the node's state and
//! queues the side effects (persisting, sending, timers) as [`raft_core::Action`]s
//! for the surrounding runtime to perform.
pub mod config;
pub mod error;
pub mod laws;
pub mod metrics;
pub mod network;
pub mod raft_core;
pub mod storage;
pub mod types;

pub use config::Config;
pub use error::RaftError;
pub use network::{AppendEntriesRequest, AppendEntriesResponse, VoteRequest, VoteResponse};
pub use storage::{HardState, InitialState, Storage};
pub use types::{Entry, EntryDetail, LogIndex, MemberShipConfig, Metrics, NodeId, Role, TermId};
