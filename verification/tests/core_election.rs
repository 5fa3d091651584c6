use xraft::raft_core::{Action, Core};
use xraft::{Config, HardState, InitialState, Role, VoteRequest, VoteResponse};

type Node = Core<(), String>;

fn start(id: u64, last_log_index: u64, last_log_term: u64, hard_state: Option<HardState>) -> Node {
    Core::new(
        format!("node-{}", id),
        id,
        Config::default(),
        InitialState { last_log_index, last_log_term, hard_state, membership: None },
    )
}

/// A leader of a fresh cluster of the given voters, with its actions taken.
fn leader_of(id: u64, members: &[u64]) -> Node {
    let mut core = start(id, 0, 0, None);
    core.handle_initialize(members.iter().map(|m| (*m, ())).collect()).unwrap();
    core.take_actions();
    core
}

/// A follower of term 1 in a cluster of the given voters.
fn follower_of(id: u64, members: &[u64]) -> Node {
    let mut core = leader_of(id, members);
    let resp = core.handle_vote(VoteRequest { term: 1, candidate_id: 99, last_log_index: 0, last_log_term: 0 });
    assert!(!resp.vote_granted);
    core.take_actions();
    assert_eq!(core.role(), Role::Follower);
    core
}

#[test]
fn a_node_without_log_starts_as_non_voter() {
    let mut core = start(1, 0, 0, None);
    assert_eq!(core.role(), Role::NonVoter);
    assert_eq!(core.current_term(), 0);
    assert_eq!(core.get_name(), "node-1");
    assert!(core.take_actions().is_empty());
}

#[test]
fn a_node_with_a_log_starts_as_follower() {
    let mut core = start(2, 5, 3, Some(HardState { current_term: 4, voted_for: Some(7) }));
    assert_eq!(core.role(), Role::Follower);
    assert_eq!(core.current_term(), 4);
    assert_eq!(core.voted_for(), Some(7));
    assert_eq!(core.last_log_index(), 5);
    assert_eq!(core.last_log_term(), 3);
    let actions = core.take_actions();
    assert_eq!(actions.len(), 1);
    assert!(matches!(actions[0], Action::ResetElectionTimeout));
}

#[test]
fn election_timeouts_are_drawn_from_the_configured_range() {
    let core = start(1, 0, 0, None);
    let mut seen = std::collections::BTreeSet::new();
    for _ in 0..200 {
        let t = core.election_timeout_millis();
        assert!((300..600).contains(&t));
        seen.insert(t);
    }
    assert!(seen.len() > 1);
}

#[test]
fn a_non_voter_refuses_to_vote() {
    let mut core = start(1, 0, 0, None);
    let resp = core.handle_vote(VoteRequest { term: 3, candidate_id: 2, last_log_index: 9, last_log_term: 9 });
    assert_eq!(resp, VoteResponse { term: 0, vote_granted: false });
    assert_eq!(core.current_term(), 0);
    assert!(core.take_actions().is_empty());
}

#[test]
fn a_stale_vote_request_is_refused() {
    let mut core = start(1, 5, 3, Some(HardState { current_term: 4, voted_for: None }));
    core.take_actions();
    let resp = core.handle_vote(VoteRequest { term: 3, candidate_id: 2, last_log_index: 9, last_log_term: 9 });
    assert_eq!(resp, VoteResponse { term: 4, vote_granted: false });
    assert!(core.take_actions().is_empty());
}

#[test]
fn a_vote_from_a_later_term_makes_a_follower_and_is_granted() {
    let mut core = start(1, 5, 3, Some(HardState { current_term: 4, voted_for: None }));
    core.take_actions();
    let resp = core.handle_vote(VoteRequest { term: 6, candidate_id: 2, last_log_index: 5, last_log_term: 3 });
    assert_eq!(resp, VoteResponse { term: 6, vote_granted: true });
    assert_eq!(core.current_term(), 6);
    assert_eq!(core.voted_for(), Some(2));
    let actions = core.take_actions();
    assert_eq!(actions.len(), 4);
    assert!(matches!(actions[0], Action::SaveHardState(HardState { current_term: 6, voted_for: None })));
    assert!(matches!(actions[1], Action::CancelHeartbeatTimeout));
    assert!(matches!(actions[2], Action::ResetElectionTimeout));
    assert!(matches!(actions[3], Action::ResetElectionTimeout));
}

#[test]
fn a_candidate_with_a_shorter_log_is_refused() {
    let mut core = start(1, 5, 3, Some(HardState { current_term: 4, voted_for: None }));
    let resp = core.handle_vote(VoteRequest { term: 4, candidate_id: 2, last_log_index: 4, last_log_term: 3 });
    assert!(!resp.vote_granted);
    let resp = core.handle_vote(VoteRequest { term: 4, candidate_id: 2, last_log_index: 5, last_log_term: 2 });
    assert!(!resp.vote_granted);
    assert_eq!(core.voted_for(), None);
}

#[test]
fn only_one_candidate_gets_the_vote_of_a_term() {
    let mut core = start(1, 5, 3, Some(HardState { current_term: 4, voted_for: None }));
    let first = core.handle_vote(VoteRequest { term: 4, candidate_id: 2, last_log_index: 5, last_log_term: 3 });
    assert!(first.vote_granted);
    let second = core.handle_vote(VoteRequest { term: 4, candidate_id: 3, last_log_index: 9, last_log_term: 9 });
    assert!(!second.vote_granted);
    let again = core.handle_vote(VoteRequest { term: 4, candidate_id: 2, last_log_index: 5, last_log_term: 3 });
    assert!(again.vote_granted);
    assert_eq!(core.voted_for(), Some(2));
}

#[test]
fn an_election_timeout_starts_an_election() {
    let mut core = follower_of(1, &[1, 2, 3]);
    let term = core.current_term();
    core.handle_election_timeout();
    assert_eq!(core.role(), Role::Candidate);
    assert_eq!(core.current_term(), term + 1);
    assert_eq!(core.voted_for(), None);
    assert_eq!(core.leader(), None);
    assert_eq!(core.votes(), 1);
    let actions = core.take_actions();
    assert_eq!(actions.len(), 4);
    assert!(matches!(actions[0], Action::SaveHardState(HardState { voted_for: None, .. })));
    assert!(matches!(actions[1], Action::ResetElectionTimeout));
    let mut targets = Vec::new();
    for a in &actions[2..] {
        match a {
            Action::RequestVote { target, req, .. } => {
                assert_eq!(*req, VoteRequest { term: term + 1, candidate_id: 1, last_log_index: 1, last_log_term: 0 });
                targets.push(*target);
            }
            _ => panic!("expected a vote request"),
        }
    }
    targets.sort();
    assert_eq!(targets, vec![2, 3]);
}

#[test]
fn an_election_timeout_on_a_leader_only_stops_the_timer() {
    let mut core = leader_of(1, &[1, 2, 3]);
    let term = core.current_term();
    core.on_election_timeout();
    assert_eq!(core.role(), Role::Leader);
    assert_eq!(core.current_term(), term);
    let actions = core.take_actions();
    assert_eq!(actions.len(), 1);
    assert!(matches!(actions[0], Action::CancelElectionTimeout));
}

#[test]
fn a_majority_of_answers_makes_a_leader() {
    let mut core = follower_of(1, &[1, 2, 3, 4, 5]);
    core.handle_election_timeout();
    core.take_actions();
    let term = core.current_term();
    core.handle_vote_response(2, term, VoteResponse { term, vote_granted: true });
    assert_eq!(core.role(), Role::Candidate);
    assert_eq!(core.votes(), 2);
    core.handle_vote_response(3, term, VoteResponse { term, vote_granted: true });
    assert_eq!(core.role(), Role::Leader);
    assert_eq!(core.leader(), Some(1));
    assert_eq!(core.next_index_of(4), Some(core.last_log_index() + 1));
    assert_eq!(core.match_index_of(4), Some(0));
    let actions = core.take_actions();
    assert!(matches!(actions[0], Action::CancelElectionTimeout));
    assert!(matches!(actions[1], Action::AbandonReplication));
    assert!(matches!(actions[2], Action::ResetHeartbeatTimeout(150)));
    let mut targets: Vec<u64> = actions[3..]
        .iter()
        .map(|a| match a {
            Action::Replicate { target, plan, .. } => {
                assert_eq!(plan.term, term);
                assert_eq!(plan.leader_id, 1);
                assert_eq!(plan.max_entries, 1000);
                *target
            }
            _ => panic!("expected a replication"),
        })
        .collect();
    targets.sort();
    assert_eq!(targets, vec![2, 3, 4, 5]);
}

#[test]
fn stale_vote_answers_are_ignored_and_newer_ones_step_down() {
    let mut core = follower_of(1, &[1, 2, 3]);
    core.handle_election_timeout();
    core.take_actions();
    let term = core.current_term();
    core.handle_vote_response(2, term - 1, VoteResponse { term: term - 1, vote_granted: true });
    assert_eq!(core.votes(), 1);
    assert!(core.take_actions().is_empty());
    core.handle_vote_response(2, term, VoteResponse { term: term + 3, vote_granted: false });
    assert_eq!(core.role(), Role::Follower);
    assert_eq!(core.current_term(), term + 3);
}

#[test]
fn initialize_makes_a_leader_once() {
    let mut core = start(1, 0, 0, None);
    let index = core.handle_initialize(vec![(1, ())]).unwrap();
    assert_eq!(index, 1);
    assert_eq!(core.role(), Role::Leader);
    assert_eq!(core.leader(), Some(1));
    assert_eq!(core.last_log_index(), 1);
    assert!(core.has_pending(1));
    assert!(core.membership().is_member(1));
    let actions = core.take_actions();
    assert!(matches!(actions.last(), Some(Action::AppendToLog(v)) if v.len() == 1 && v[0].index == 1 && v[0].term == 0));
    match core.handle_initialize(vec![(1, ())]) {
        Err(xraft::RaftError::AlreadyInitialized) => {}
        _ => panic!("a second initialize must be refused"),
    }
}

#[test]
fn a_granted_vote_is_kept_through_the_term() {
    let mut core = start(1, 5, 3, Some(HardState { current_term: 4, voted_for: None }));
    assert!(core.handle_vote(VoteRequest { term: 4, candidate_id: 2, last_log_index: 5, last_log_term: 3 }).vote_granted);
    let heartbeat = xraft::AppendEntriesRequest::<(), String> {
        term: 4,
        leader_id: 2,
        prev_log_index: 5,
        prev_log_term: 3,
        leader_commit: 0,
        entries: Vec::new(),
    };
    assert!(core.handle_append_entries(heartbeat, None).success);
    assert_eq!(core.voted_for(), Some(2));
    assert_eq!(core.current_term(), 4);
    assert!(!core.handle_vote(VoteRequest { term: 4, candidate_id: 3, last_log_index: 9, last_log_term: 9 }).vote_granted);
}

#[test]
fn terms_never_go_back() {
    let mut core = start(1, 5, 3, Some(HardState { current_term: 4, voted_for: None }));
    core.handle_vote(VoteRequest { term: 2, candidate_id: 2, last_log_index: 9, last_log_term: 9 });
    assert_eq!(core.current_term(), 4);
    core.handle_vote(VoteRequest { term: 8, candidate_id: 2, last_log_index: 0, last_log_term: 0 });
    assert_eq!(core.current_term(), 8);
    core.handle_vote_response(3, 3, VoteResponse { term: 1, vote_granted: true });
    core.handle_election_timeout();
    assert_eq!(core.current_term(), 9);
}
