use xraft::raft_core::{Action, Core, ReplicationPlan};
use xraft::{
    AppendEntriesRequest, AppendEntriesResponse, Config, Entry, EntryDetail, InitialState, RaftError,
    Role, VoteRequest,
};

type Node = Core<(), String>;

fn start(id: u64, last_log_index: u64, last_log_term: u64) -> Node {
    Core::new(
        format!("node-{}", id),
        id,
        Config::default(),
        InitialState { last_log_index, last_log_term, hard_state: None, membership: None },
    )
}

fn leader_of(id: u64, members: &[u64]) -> Node {
    let mut core = start(id, 0, 0);
    core.handle_initialize(members.iter().map(|m| (*m, ())).collect()).unwrap();
    core.take_actions();
    core
}

fn entry(term: u64, index: u64, data: &str) -> Entry<(), String> {
    Entry::new(term, index, EntryDetail::Normal(data.to_string()))
}

fn request(term: u64, leader_commit: u64, entries: Vec<Entry<(), String>>) -> AppendEntriesRequest<(), String> {
    AppendEntriesRequest { term, leader_id: 9, prev_log_index: 0, prev_log_term: 0, leader_commit, entries }
}

#[test]
fn a_heartbeat_makes_a_fresh_node_follow() {
    let mut core = start(1, 0, 0);
    assert_eq!(core.log_probe(&request(2, 0, vec![])), None);
    let resp = core.handle_append_entries(request(2, 0, vec![]), None);
    assert_eq!(resp, AppendEntriesResponse { term: 2, success: true });
    assert_eq!(core.role(), Role::Follower);
    assert_eq!(core.leader(), Some(9));
    let actions = core.take_actions();
    assert!(matches!(actions.last(), Some(Action::ResetElectionTimeout)));
}

#[test]
fn a_stale_append_request_is_refused() {
    let mut core = start(1, 3, 2);
    core.handle_vote(VoteRequest { term: 5, candidate_id: 4, last_log_index: 0, last_log_term: 0 });
    core.take_actions();
    let resp = core.handle_append_entries(request(4, 0, vec![entry(4, 4, "x")]), None);
    assert_eq!(resp, AppendEntriesResponse { term: 5, success: false });
    assert!(core.take_actions().is_empty());
    assert_eq!(core.last_log_index(), 3);
}

#[test]
fn entries_are_appended_to_an_empty_log() {
    let mut core = start(1, 0, 0);
    let req = request(1, 1, vec![entry(1, 1, "a"), entry(1, 2, "b")]);
    assert_eq!(core.log_probe(&req), None);
    let resp = core.handle_append_entries(req, None);
    assert!(resp.success);
    assert_eq!(core.last_log_index(), 2);
    assert_eq!(core.last_log_term(), 1);
    assert_eq!(core.commit_index(), 0);
    let actions = core.take_actions();
    assert!(matches!(actions.last(), Some(Action::AppendToLog(v)) if v.len() == 2));
}

#[test]
fn the_commit_index_follows_the_leader_up_to_the_log() {
    let mut core = start(1, 4, 1);
    core.take_actions();
    let resp = core.handle_append_entries(request(1, 9, vec![]), None);
    assert!(resp.success);
    assert_eq!(core.commit_index(), 4);
    let resp = core.handle_append_entries(request(1, 2, vec![]), None);
    assert!(resp.success);
    assert_eq!(core.commit_index(), 4);
}

#[test]
fn entries_need_the_last_stored_entry() {
    let mut core = start(1, 4, 2);
    core.take_actions();
    let req = request(3, 0, vec![entry(3, 5, "e")]);
    assert_eq!(core.log_probe(&req), Some(4));
    let resp = core.handle_append_entries(req, None);
    assert_eq!(resp, AppendEntriesResponse { term: 0, success: false });
    assert_eq!(core.last_log_index(), 4);
}

#[test]
fn a_conflicting_last_entry_is_cut_before_appending() {
    let mut core = start(1, 4, 2);
    core.take_actions();
    let resp = core.handle_append_entries(request(3, 0, vec![entry(3, 5, "e")]), Some((4, 1)));
    assert!(resp.success);
    assert_eq!(core.last_log_index(), 5);
    assert_eq!(core.last_log_term(), 3);
    let actions = core.take_actions();
    let n = actions.len();
    assert!(matches!(actions[n - 2], Action::DeleteLogsFrom(4)));
    assert!(matches!(actions[n - 1], Action::AppendToLog(_)));
}

#[test]
fn a_matching_last_entry_is_kept() {
    let mut core = start(1, 4, 2);
    core.take_actions();
    let resp = core.handle_append_entries(request(3, 0, vec![entry(3, 5, "e")]), Some((4, 2)));
    assert!(resp.success);
    let actions = core.take_actions();
    assert!(!actions.iter().any(|a| matches!(a, Action::DeleteLogsFrom(_))));
}

#[test]
fn a_leader_steps_down_for_a_later_leader() {
    let mut core = leader_of(1, &[1, 2, 3]);
    let resp = core.handle_append_entries(request(1, 0, vec![]), None);
    assert_eq!(resp, AppendEntriesResponse { term: 1, success: true });
    assert_eq!(core.role(), Role::Follower);
    assert_eq!(core.current_term(), 1);
    assert_eq!(core.leader(), Some(9));
}

#[test]
fn replication_answers_move_the_follower_indexes() {
    let mut core = leader_of(1, &[1, 2, 3]);
    let term = core.current_term();
    assert_eq!(core.next_index_of(2), Some(1));
    core.handle_append_entries_response(2, term, 1, AppendEntriesResponse { term, success: true });
    assert_eq!(core.next_index_of(2), Some(2));
    assert_eq!(core.match_index_of(2), Some(1));
    core.handle_append_entries_response(2, term, 1, AppendEntriesResponse { term, success: false });
    assert_eq!(core.next_index_of(2), Some(1));
    core.handle_append_entries_response(2, term, 1, AppendEntriesResponse { term, success: false });
    assert_eq!(core.next_index_of(2), Some(1));
}

#[test]
fn a_later_term_in_a_replication_answer_makes_a_follower() {
    let mut core = leader_of(1, &[1, 2, 3]);
    let term = core.current_term();
    core.handle_append_entries_response(2, term, 1, AppendEntriesResponse { term: term + 2, success: false });
    assert_eq!(core.role(), Role::Follower);
    assert_eq!(core.current_term(), term + 2);
    core.handle_append_entries_response(3, term, 1, AppendEntriesResponse { term: term + 2, success: true });
    assert_eq!(core.match_index_of(3), Some(0));
}

#[test]
fn busy_followers_get_a_new_request_when_theirs_completes() {
    let mut core = leader_of(1, &[1, 2, 3]);
    assert!(core.is_in_flight(2) && core.is_in_flight(3));
    core.handle_heartbeat_timeout();
    let actions = core.take_actions();
    assert_eq!(actions.len(), 1);
    assert!(matches!(actions[0], Action::ResetHeartbeatTimeout(150)));
    core.finish_replication(vec![2]);
    assert!(core.is_in_flight(2));
    assert!(core.is_in_flight(3));
    let actions = core.take_actions();
    assert_eq!(actions.len(), 1);
    assert!(matches!(actions[0], Action::Replicate { target: 2, .. }));
    core.finish_replication(vec![2]);
    assert!(!core.is_in_flight(2));
    assert!(core.take_actions().is_empty());
}

#[test]
fn a_heartbeat_timeout_stops_the_timer_of_a_follower() {
    let mut core = start(1, 2, 1);
    core.take_actions();
    core.handle_heartbeat_timeout();
    let actions = core.take_actions();
    assert_eq!(actions.len(), 1);
    assert!(matches!(actions[0], Action::CancelHeartbeatTimeout));
}

#[test]
fn client_writes_go_to_the_leader() {
    let mut core = leader_of(1, &[1, 2, 3]);
    let index = core.handle_client_write("x=1".to_string()).unwrap();
    assert_eq!(index, 2);
    assert!(core.has_pending(2));
    assert_eq!(core.last_log_index(), 2);
    let read = core.handle_client_read().unwrap();
    assert_eq!(read, 3);

    let mut follower = start(2, 3, 1);
    follower.handle_append_entries(request(1, 0, vec![]), None);
    match follower.handle_client_write("y".to_string()) {
        Err(RaftError::ForwardToLeader(Some(9))) => {}
        _ => panic!("a follower must forward to the leader it knows"),
    }
    match start(3, 0, 0).handle_client_read() {
        Err(RaftError::ForwardToLeader(None)) => {}
        _ => panic!("a node without leader must say so"),
    }
}

#[test]
fn a_single_voter_commits_its_whole_log() {
    let mut core = leader_of(1, &[1]);
    core.handle_client_write("a".to_string()).unwrap();
    core.update_commit_index();
    assert_eq!(core.commit_index(), 2);
    assert_eq!(core.apply_range(0), Some((1, 3)));
    assert_eq!(core.apply_range(2), None);
}

#[test]
fn the_commit_index_moves_to_the_largest_replicated_index() {
    let mut core = leader_of(1, &[1, 2, 3, 4, 5]);
    let term = core.current_term();
    for _ in 0..4 {
        core.handle_client_write("w".to_string()).unwrap();
    }
    core.handle_append_entries_response(2, term, 4, AppendEntriesResponse { term, success: true });
    core.update_commit_index();
    assert_eq!(core.commit_index(), 0);
    core.handle_append_entries_response(3, term, 2, AppendEntriesResponse { term, success: true });
    core.update_commit_index();
    assert_eq!(core.commit_index(), 2);
    core.handle_append_entries_response(4, term, 5, AppendEntriesResponse { term, success: true });
    core.update_commit_index();
    assert_eq!(core.commit_index(), 4);
}

#[test]
fn waiting_clients_are_answered_below_the_bound() {
    let mut core = leader_of(1, &[1, 2, 3]);
    core.handle_client_write("a".to_string()).unwrap();
    core.handle_client_write("b".to_string()).unwrap();
    let mut done = core.reply_client_write(3);
    done.sort();
    assert_eq!(done, vec![1, 2]);
    assert!(!core.has_pending(1) && !core.has_pending(2) && core.has_pending(3));
    assert!(core.applied_up_to(1).is_empty());
    assert_eq!(core.applied_up_to(2), vec![3]);
    assert!(core.reply_client_write(u64::MAX).is_empty());
}

#[test]
fn membership_changes_on_the_leader() {
    let mut core = leader_of(1, &[1, 2]);
    core.handle_add_node(3, ()).unwrap();
    assert!(core.membership().is_non_voter(3));
    assert_eq!(core.next_index_of(3), Some(2));
    match core.handle_add_node(3, ()) {
        Err(RaftError::NodeAlreadyRegistered(3)) => {}
        _ => panic!("a known node must be refused"),
    }
    core.handle_remove_node(3).unwrap();
    assert_eq!(core.next_index_of(3), None);
    match core.handle_remove_node(3) {
        Err(RaftError::UnknownNode(3)) => {}
        _ => panic!("an unknown node must be refused"),
    }
    let mut follower = start(2, 1, 1);
    match follower.handle_add_node(5, ()) {
        Err(RaftError::ForwardToLeader(None)) => {}
        _ => panic!("only the leader changes the membership"),
    }
}

#[test]
fn metrics_report_the_state() {
    let core = leader_of(1, &[1, 2]);
    let m = core.handle_metrics(7);
    assert_eq!(m.id, 1);
    assert_eq!(m.role, Role::Leader);
    assert_eq!(m.leader, Some(1));
    assert_eq!(m.last_log_index, 1);
    assert_eq!(m.last_applied, 7);
    assert!(m.membership.is_member(2));
}

#[test]
fn replication_plans_read_the_entry_before_the_missing_ones() {
    let plan = ReplicationPlan { term: 3, leader_id: 1, leader_commit: 2, next_index: 5, max_entries: 10 };
    assert_eq!(plan.fetch_range(), Some((4, 15)));
    let (req, last) = plan.into_request(vec![entry(2, 4, "p"), entry(3, 5, "a"), entry(3, 6, "b")]).unwrap();
    assert_eq!((req.prev_log_index, req.prev_log_term), (4, 2));
    assert_eq!(req.entries.len(), 2);
    assert_eq!((req.term, req.leader_id, req.leader_commit), (3, 1, 2));
    assert_eq!(last, 6);
    assert!(plan.into_request::<(), String>(Vec::new()).is_none());

    let first = ReplicationPlan { next_index: 1, ..plan };
    assert_eq!(first.fetch_range(), Some((1, 11)));
    let (req, last) = first.into_request(vec![entry(1, 1, "a")]).unwrap();
    assert_eq!((req.prev_log_index, req.prev_log_term, req.entries.len(), last), (0, 0, 1, 1));

    let none = ReplicationPlan { next_index: 0, ..plan };
    assert_eq!(none.fetch_range(), None);
    let huge = ReplicationPlan { max_entries: u64::MAX, ..plan };
    assert_eq!(huge.fetch_range(), None);
}
