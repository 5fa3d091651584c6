use vstd::prelude::*;

use crate::types::{Entry, LogIndex, NodeId, TermId};

verus! {

/// A candidate's request for a vote.
#[derive(Debug, Clone, Copy, PartialEq, Eq, Structural)]
pub struct VoteRequest {
    pub term: TermId,
    pub candidate_id: NodeId,
    pub last_log_index: LogIndex,
    pub last_log_term: LogIndex,
}

/// The answer to a [`VoteRequest`].
#[derive(Debug, Clone, Copy, PartialEq, Eq, Structural)]
pub struct VoteResponse {
    pub term: u64,
    pub vote_granted: bool,
}

/// A leader's request to append entries (empty for a heartbeat).
#[derive(Debug)]
pub struct AppendEntriesRequest<N, D> {
    pub term: TermId,
    pub leader_id: NodeId,
    pub prev_log_index: LogIndex,
    pub prev_log_term: TermId,
    pub leader_commit: LogIndex,
    pub entries: Vec<Entry<N, D>>,
}

/// The answer to an [`AppendEntriesRequest`].
#[derive(Debug, Clone, Copy, PartialEq, Eq, Structural)]
pub struct AppendEntriesResponse {
    pub term: TermId,
    pub success: bool,
}

} // verus!
