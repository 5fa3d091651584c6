use xraft::config::{
    default_election_timeout_max, default_election_timeout_min, default_heartbeat_interval,
    default_max_payload_entries, default_to_voter_threshold,
};
use xraft::Config;

#[test]
fn default_values() {
    assert_eq!(default_heartbeat_interval(), 150);
    assert_eq!(default_election_timeout_min(), 300);
    assert_eq!(default_election_timeout_max(), 600);
    assert_eq!(default_max_payload_entries(), 1000);
    assert_eq!(default_to_voter_threshold(), 100);
}

#[test]
fn default_config() {
    let c = Config::default();
    assert_eq!(c.heartbeat_interval, 150);
    assert_eq!(c.election_timeout_min, 300);
    assert_eq!(c.election_timeout_max, 600);
    assert_eq!(c.max_payload_entries, 1000);
    assert_eq!(c.to_voter_threshold, 100);
}
