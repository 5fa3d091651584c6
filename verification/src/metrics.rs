use vstd::prelude::*;

use crate::types::{LogIndex, NodeId, Role, TermId};

verus! {

/// A flat summary of a node's state.
pub struct Metrics {
    id: NodeId,
    role: Role,
    current_term: TermId,
    last_log_index: LogIndex,
    last_applied: LogIndex,
    has_leader: bool,
    current_leader: NodeId,
}

} // verus!
