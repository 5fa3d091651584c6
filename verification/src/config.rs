use vstd::prelude::*;

verus! {

/// Timing and batching parameters of a Raft node.
#[derive(Debug, Clone, Copy)]
pub struct Config {
    /// Milliseconds between two heartbeats sent by a leader.
    pub heartbeat_interval: u64,
    /// Lower bound (inclusive) of the randomised election timeout, in milliseconds.
    pub election_timeout_min: u64,
    /// Upper bound (exclusive) of the randomised election timeout, in milliseconds.
    pub election_timeout_max: u64,
    /// Largest number of log entries carried by one append-entries request.
    pub max_payload_entries: usize,
    /// Replication lag under which a non-voter may be promoted.
    pub to_voter_threshold: usize,
}

/// The heartbeat interval used when none is configured.
pub fn default_heartbeat_interval() -> (r: u64)
    ensures
        r == 150,
{
    150
}

/// The lower election timeout bound used when none is configured.
pub fn default_election_timeout_min() -> (r: u64)
    ensures
        r == 300,
{
    300
}

/// The upper election timeout bound used when none is configured.
pub fn default_election_timeout_max() -> (r: u64)
    ensures
        r == 600,
{
    600
}

/// The payload limit used when none is configured.
pub fn default_max_payload_entries() -> (r: usize)
    ensures
        r == 1000,
{
    1000
}

/// The promotion threshold used when none is configured.
pub fn default_to_voter_threshold() -> (r: usize)
    ensures
        r == 100,
{
    100
}

impl Config {
    /// Whether the election timeout range is non-empty, as sampling it requires.
    pub open spec fn valid(&self) -> bool {
        self.election_timeout_min < self.election_timeout_max
    }
}

impl Default for Config {
    fn default() -> (r: Self)
        ensures
            r.heartbeat_interval == 150,
            r.election_timeout_min == 300,
            r.election_timeout_max == 600,
            r.max_payload_entries == 1000,
            r.to_voter_threshold == 100,
    {
        Self {
            heartbeat_interval: default_heartbeat_interval(),
            election_timeout_min: default_election_timeout_min(),
            election_timeout_max: default_election_timeout_max(),
            max_payload_entries: default_max_payload_entries(),
            to_voter_threshold: default_to_voter_threshold(),
        }
    }
}

} // verus!
