use vstd::prelude::*;

use crate::types::NodeId;

verus! {

/// The error type of the `anyhow` crate, which user storage reports its
/// failures with; declared so that [`RaftError::Storage`] can carry one. Nothing
/// is claimed of its contents.
#[verifier::external_type_specification]
#[verifier::external_body]
pub struct ExAnyhowError(anyhow::Error);

/// Why a request to a Raft node failed.
#[derive(Debug)]
pub enum RaftError {
    /// The user storage failed.
    Storage(anyhow::Error),
    /// `initialize` was asked of a node that already has a term or a log.
    AlreadyInitialized,
    /// The node is neither a voter nor a non-voter of the cluster.
    UnknownNode(NodeId),
    /// The node is already a voter or a non-voter of the cluster.
    NodeAlreadyRegistered(NodeId),
    /// Only the leader serves this request; the known leader, if any.
    ForwardToLeader(Option<NodeId>),
    /// The node has stopped.
    Shutdown,
}

} // verus!
