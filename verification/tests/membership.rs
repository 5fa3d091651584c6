use std::sync::Arc;

use xraft::types::MemberShipConfig;
use xraft::RaftError;

fn voters(ids: &[u64]) -> MemberShipConfig<String> {
    MemberShipConfig::from_members(ids.iter().map(|id| (*id, format!("node-{}", id))).collect())
}

#[test]
fn from_members_keeps_the_last_info_of_an_id() {
    let c = MemberShipConfig::from_members(vec![(1, "a".to_string()), (2, "b".to_string()), (1, "c".to_string())]);
    assert_eq!(c.members.len(), 2);
    assert_eq!(c.members.get(&1).map(|a| a.as_str()), Some("c"));
    assert_eq!(c.members.get(&2).map(|a| a.as_str()), Some("b"));
    assert!(c.non_voters.is_empty());
}

#[test]
fn membership_queries() {
    let c = voters(&[1, 2, 3]);
    assert!(c.is_member(2));
    assert!(!c.is_non_voter(2));
    assert!(!c.is_member(7));
    assert_eq!(c.member_info(3).map(|a| (*a).clone()), Some("node-3".to_string()));
    assert!(c.member_info(9).is_none());
}

#[test]
fn other_members_lists_other_voters_then_non_voters() {
    let c = voters(&[1, 2, 3]).add_non_voter(4, "node-4".to_string()).unwrap();
    let mut others: Vec<u64> = c.other_members(1).iter().map(|(id, _)| *id).collect();
    others.sort();
    assert_eq!(others, vec![2, 3, 4]);
    let mut voters_only: Vec<u64> = c.other_voter_members(1).iter().map(|(id, _)| *id).collect();
    voters_only.sort();
    assert_eq!(voters_only, vec![2, 3]);
    for (id, info) in c.other_members(1) {
        assert_eq!(*info, format!("node-{}", id));
    }
}

#[test]
fn add_non_voter_refuses_known_nodes() {
    let c = voters(&[1, 2]);
    match c.add_non_voter(2, "again".to_string()) {
        Err(RaftError::NodeAlreadyRegistered(2)) => {}
        _ => panic!("a known voter must be refused"),
    }
    let c = c.add_non_voter(5, "node-5".to_string()).unwrap();
    assert!(c.is_non_voter(5));
    match c.add_non_voter(5, "again".to_string()) {
        Err(RaftError::NodeAlreadyRegistered(5)) => {}
        _ => panic!("a known non-voter must be refused"),
    }
}

#[test]
fn remove_node_refuses_unknown_nodes() {
    let c = voters(&[1, 2]);
    match c.remove_node(9) {
        Err(RaftError::UnknownNode(9)) => {}
        _ => panic!("an unknown node must be refused"),
    }
    let c = c.remove_node(2).unwrap();
    assert!(!c.is_member(2) && !c.is_non_voter(2));
    assert!(c.is_member(1));
}

#[test]
fn adding_then_removing_a_non_voter_restores_the_membership() {
    let c = voters(&[1, 2]);
    let back = c.add_non_voter(3, "node-3".to_string()).unwrap().remove_node(3).unwrap();
    assert_eq!(back.members.keys().collect::<Vec<_>>(), c.members.keys().collect::<Vec<_>>());
    assert!(back.non_voters.is_empty());
}

#[test]
fn promoting_a_non_voter_keeps_its_info() {
    let c = voters(&[1]).add_non_voter(2, "node-2".to_string()).unwrap();
    let p = c.convert_voter_to_follower(2);
    assert!(p.is_member(2));
    assert!(!p.is_non_voter(2));
    assert_eq!(p.members.get(&2).map(|a| a.as_str()), Some("node-2"));
}

#[test]
fn clone_and_default() {
    let c = voters(&[1, 2]);
    let d = c.clone();
    assert_eq!(d.members.len(), 2);
    assert!(Arc::ptr_eq(c.members.get(&1).unwrap(), d.members.get(&1).unwrap()));
    let e: MemberShipConfig<String> = Default::default();
    assert!(e.members.is_empty() && e.non_voters.is_empty());
}
