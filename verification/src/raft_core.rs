use std::collections::{BTreeMap, BTreeSet};
use std::sync::Arc;

use rand::Rng;
use vstd::prelude::*;
use vstd::std_specs::iter::IteratorSpec;

use crate::config::Config;
use crate::error::RaftError;
use crate::network::{AppendEntriesRequest, AppendEntriesResponse, VoteRequest, VoteResponse};
use crate::storage::{HardState, InitialState};
use crate::types::{
    ids_of, share, voters_of, Entry, EntryDetail, LogIndex, MemberShipConfig, MembershipView, Metrics, NodeId, Role,
    TermId,
};

verus! {

/// The random number generator of the current thread, from the `rand` crate.
#[verifier::external_type_specification]
#[verifier::external_body]
pub struct ExThreadRng(rand::rngs::ThreadRng);

/// The generator of the current thread. Calls `rand::thread_rng`; nothing is
/// claimed of the generator.
#[verifier::external_body]
fn thread_rng() -> rand::rngs::ThreadRng {
    rand::thread_rng()
}

/// A value drawn from `[low, high)`. Calls `rand::Rng::gen_range`, which rand
/// documents to sample that range and to panic when it is empty (hence the
/// `requires`). The value depends on chance: the contract claims only that it
/// lies in the range.
#[verifier::external_body]
fn gen_range(rng: &mut rand::rngs::ThreadRng, low: u64, high: u64) -> (r: u64)
    requires
        low < high,
    ensures
        low <= r < high,
{
    rng.gen_range(low, high)
}

/// What the leader needs to build an append-entries request for one follower:
/// the request's header and the position the follower's log is expected to reach.
#[derive(Debug, Clone, Copy, PartialEq, Eq, Structural)]
pub struct ReplicationPlan {
    pub term: TermId,
    pub leader_id: NodeId,
    pub leader_commit: LogIndex,
    /// The index of the first entry the follower is missing.
    pub next_index: LogIndex,
    /// The largest number of entries one request carries.
    pub max_entries: u64,
}

impl ReplicationPlan {
    /// The range `[start, end)` of stored entries the request is built from:
    /// the entry before the first missing one (when there is one) and at most
    /// `max_entries` entries after it. `None` when the plan expects nothing
    /// before the first entry or the range does not fit in a `u64`.
    pub open spec fn spec_fetch_range(self) -> Option<(LogIndex, LogIndex)> {
        if self.next_index >= 2 {
            if self.next_index - 1 + self.max_entries + 1 <= u64::MAX {
                Some(((self.next_index - 1) as LogIndex, (self.next_index + self.max_entries) as LogIndex))
            } else {
                None
            }
        } else if self.next_index == 1 {
            if 1 + self.max_entries <= u64::MAX {
                Some((1, (1 + self.max_entries) as LogIndex))
            } else {
                None
            }
        } else {
            None
        }
    }

    /// The range of stored entries to read for this request (see [`ReplicationPlan::spec_fetch_range`]).
    pub fn fetch_range(&self) -> (r: Option<(LogIndex, LogIndex)>)
        ensures
            r == self.spec_fetch_range(),
    {
        if self.next_index >= 2 {
            let start = self.next_index - 1;
            match start.checked_add(self.max_entries) {
                Some(e) => match e.checked_add(1) {
                    Some(end) => Some((start, end)),
                    None => None,
                },
                None => None,
            }
        } else if self.next_index == 1 {
            match self.next_index.checked_add(self.max_entries) {
                Some(end) => Some((self.next_index, end)),
                None => None,
            }
        } else {
            None
        }
    }

    /// The request built from the entries read in the fetch range, and the
    /// log index the follower reaches if it accepts it. When the follower
    /// misses entries after the first, the first entry read is the one before
    /// them and only gives the request's previous index and term; otherwise
    /// the previous index and term are 0. `None` when that first entry is
    /// missing or the reached index does not fit in a `u64`.
    pub fn into_request<N, D>(&self, entries: Vec<Entry<N, D>>) -> (r: Option<(AppendEntriesRequest<N, D>, LogIndex)>)
        ensures
            self.next_index >= 2 && entries@.len() == 0 ==> r is None,
            self.next_index >= 2 && entries@.len() > 0 ==> match r {
                Some((req, last)) => {
                    &&& req.term == self.term
                    &&& req.leader_id == self.leader_id
                    &&& req.leader_commit == self.leader_commit
                    &&& req.prev_log_index == entries@[0].index
                    &&& req.prev_log_term == entries@[0].term
                    &&& req.entries@ == entries@.skip(1)
                    &&& last == entries@[0].index + entries@.len() - 1
                },
                None => entries@[0].index + entries@.len() - 1 > u64::MAX,
            },
            self.next_index < 2 ==> match r {
                Some((req, last)) => {
                    &&& req.term == self.term
                    &&& req.leader_id == self.leader_id
                    &&& req.leader_commit == self.leader_commit
                    &&& req.prev_log_index == 0
                    &&& req.prev_log_term == 0
                    &&& req.entries@ == entries@
                    &&& last == entries@.len()
                },
                None => entries@.len() > u64::MAX,
            },
    {
        let mut entries = entries;
        let (prev_log_index, prev_log_term) = if self.next_index >= 2 {
            if entries.len() == 0 {
                return None;
            }
            let prev = entries.remove(0);
            (prev.index, prev.term)
        } else {
            (0, 0)
        };
        let count = entries.len() as u64;
        let last = match prev_log_index.checked_add(count) {
            Some(l) => l,
            None => return None,
        };
        let req = AppendEntriesRequest {
            term: self.term,
            leader_id: self.leader_id,
            prev_log_index,
            prev_log_term,
            leader_commit: self.leader_commit,
            entries,
        };
        Some((req, last))
    }
}

/// A side effect that a decision of the core asks the runtime to perform, in order.
pub enum Action<N, D> {
    /// Persist the term and the vote.
    SaveHardState(HardState),
    /// Restart the election timer with a fresh random timeout.
    ResetElectionTimeout,
    /// Stop the election timer.
    CancelElectionTimeout,
    /// Restart the heartbeat timer with this many milliseconds.
    ResetHeartbeatTimeout(u64),
    /// Stop the heartbeat timer.
    CancelHeartbeatTimeout,
    /// Ask `target` for its vote.
    RequestVote { target: NodeId, info: Arc<N>, req: VoteRequest },
    /// Send `target` the entries it misses, as the plan describes.
    Replicate { target: NodeId, info: Arc<N>, plan: ReplicationPlan },
    /// Forget every append-entries request still in flight.
    AbandonReplication,
    /// Append these entries to the stored log.
    AppendToLog(Vec<Entry<N, D>>),
    /// Delete the stored log from this index on.
    DeleteLogsFrom(LogIndex),
}

/// The model of a node's state, with the side effects it has asked for so far.
#[verifier::ext_equal]
pub struct CoreView<N, D> {
    pub id: NodeId,
    pub config: Config,
    pub membership: MembershipView<N>,
    pub role: Role,
    pub voted_for: Option<NodeId>,
    /// The nodes that voted for this candidate in the current election.
    pub voted: Set<NodeId>,
    pub current_term: TermId,
    pub last_log_term: TermId,
    pub last_log_index: LogIndex,
    pub commit_index: LogIndex,
    pub leader: Option<NodeId>,
    /// Indexes of the entries whose client waits for a reply.
    pub pending: Set<LogIndex>,
    pub next_index: Map<NodeId, LogIndex>,
    pub match_index: Map<NodeId, LogIndex>,
    /// The followers with an append-entries request in flight.
    pub in_flight: Set<NodeId>,
    /// Whether a follower gets another request when its current one completes.
    pub resend: Map<NodeId, bool>,
    pub actions: Seq<Action<N, D>>,
}

impl<N, D> CoreView<N, D> {
    /// The part of the invariant that holds whatever the role.
    pub open spec fn wf_base(self) -> bool {
        &&& self.config.valid()
        &&& self.membership.wf()
        &&& self.membership.members.dom().finite()
        &&& self.membership.non_voters.dom().finite()
        &&& forall|t: NodeId| #[trigger] self.next_index.contains_key(t) ==> self.next_index[t] >= 1
    }

    /// The state invariant: besides the base, a leader tracks every node it
    /// replicates to.
    pub open spec fn wf(self) -> bool {
        &&& self.wf_base()
        &&& self.role == Role::Leader ==> forall|t: NodeId|
            #[trigger] self.membership.other_members(self.id).contains(t) ==> self.next_index.contains_key(t)
    }

    /// The state with `more` appended to the requested side effects.
    pub open spec fn emit(self, more: Seq<Action<N, D>>) -> Self {
        CoreView { actions: self.actions + more, ..self }
    }

    /// Stepping down to follower at `term`: the term is persisted when it
    /// changes, the leader is forgotten, the heartbeat stops and the election
    /// timer restarts.
    pub open spec fn switch_to_follower(self, term: TermId) -> Self {
        let saved: Seq<Action<N, D>> = if self.current_term != term {
            seq![Action::SaveHardState(HardState { current_term: term, voted_for: self.voted_for })]
        } else {
            seq![]
        };
        CoreView { role: Role::Follower, current_term: term, leader: None, ..self }.emit(
            saved + seq![Action::CancelHeartbeatTimeout, Action::ResetElectionTimeout],
        )
    }

    /// Whether a vote request may be granted in this state: no other
    /// candidate got the vote, and the candidate's log is at least as far on.
    pub open spec fn may_grant(self, req: VoteRequest) -> bool {
        &&& (self.voted_for is None || self.voted_for == Some(req.candidate_id))
        &&& req.last_log_term >= self.last_log_term
        &&& req.last_log_index >= self.last_log_index
    }

    /// Handling a vote request: the next state and the answer.
    pub open spec fn vote(self, req: VoteRequest) -> (Self, VoteResponse) {
        if self.role == Role::NonVoter || req.term < self.current_term {
            (self, VoteResponse { term: self.current_term, vote_granted: false })
        } else {
            let s = if req.term > self.current_term { self.switch_to_follower(req.term) } else { self };
            if s.may_grant(req) {
                (
                    CoreView { voted_for: Some(req.candidate_id), ..s }.emit(seq![Action::ResetElectionTimeout]),
                    VoteResponse { term: s.current_term, vote_granted: true },
                )
            } else {
                (s, VoteResponse { term: s.current_term, vote_granted: false })
            }
        }
    }
}

/// The node an action is addressed to, for the actions that have one.
pub open spec fn action_target<N, D>(a: Action<N, D>) -> NodeId {
    match a {
        Action::RequestVote { target, .. } => target,
        Action::Replicate { target, .. } => target,
        _ => 0,
    }
}

impl<N, D> CoreView<N, D> {
    /// `next` is this state after the leader handled the nodes of `done`
    /// (`busy` of them with a request in flight): the others got a request,
    /// the busy ones are marked to get another one.
    pub open spec fn sent_to(self, done: Set<NodeId>, next: Self) -> bool {
        let busy = done.intersect(self.in_flight);
        &&& next == (CoreView {
            in_flight: self.in_flight + done,
            resend: self.resend.union_prefer_right(Map::new(|t: NodeId| busy.contains(t), |t: NodeId| true)),
            actions: next.actions,
            ..self
        })
        &&& next.actions.len() >= self.actions.len()
        &&& next.actions.take(self.actions.len() as int) == self.actions
        &&& self.replicates(next.actions.skip(self.actions.len() as int), done - self.in_flight)
    }

    /// The plan of the append-entries request this leader sends to `target`.
    pub open spec fn plan_for(self, target: NodeId) -> ReplicationPlan {
        ReplicationPlan {
            term: self.current_term,
            leader_id: self.id,
            leader_commit: self.commit_index,
            next_index: self.next_index[target],
            max_entries: self.config.max_payload_entries as u64,
        }
    }

    /// Whether `a` sends the append-entries request of this state to a
    /// known node, with that node's information.
    pub open spec fn is_replication(self, a: Action<N, D>) -> bool {
        a matches Action::Replicate { target, info, plan } && self.membership.info(target) == Some(*info)
            && plan == self.plan_for(target)
    }

    /// `q` sends this state's append-entries request once to each node of `targets`.
    pub open spec fn replicates(self, q: Seq<Action<N, D>>, targets: Set<NodeId>) -> bool {
        &&& forall|i: int| 0 <= i < q.len() ==> self.is_replication(#[trigger] q[i])
        &&& q.map_values(|a: Action<N, D>| action_target(a)).no_duplicates()
        &&& q.map_values(|a: Action<N, D>| action_target(a)).to_set() == targets
    }

    /// Sending one append-entries request to `target` (a leader only, and
    /// only to a follower it tracks).
    pub open spec fn send_entries(self, target: NodeId, info: Arc<N>) -> Self {
        if self.role != Role::Leader || !self.next_index.contains_key(target) {
            self
        } else {
            CoreView { in_flight: self.in_flight.insert(target), ..self }.emit(
                seq![Action::Replicate { target, info, plan: self.plan_for(target) }],
            )
        }
    }

    /// Whether `next` results from this state by sending append-entries
    /// requests: a leader sends one to each node it replicates to that has
    /// none in flight, and marks the others to get a new one when theirs
    /// completes. A node that is not a leader does nothing.
    pub open spec fn sends_append_entries(self, next: Self) -> bool {
        if self.role != Role::Leader {
            next == self
        } else {
            self.sent_to(self.membership.other_members(self.id), next)
        }
    }

    /// The state of a node that has just won leadership, before it sends
    /// anything: every node it replicates to is expected to miss only what
    /// follows its log and to match nothing yet; the election timer stops,
    /// requests in flight are forgotten and the heartbeat timer starts.
    pub open spec fn leader_state(self) -> Self {
        let targets = self.membership.other_members(self.id);
        CoreView {
            role: Role::Leader,
            leader: Some(self.id),
            next_index: Map::new(|t: NodeId| targets.contains(t), |t: NodeId| (self.last_log_index + 1) as LogIndex),
            match_index: Map::new(|t: NodeId| targets.contains(t), |t: NodeId| 0 as LogIndex),
            in_flight: Set::empty(),
            resend: Map::empty(),
            ..self
        }.emit(seq![
            Action::CancelElectionTimeout,
            Action::AbandonReplication,
            Action::ResetHeartbeatTimeout(self.config.heartbeat_interval),
        ])
    }

    /// The vote request a candidate of this state sends.
    pub open spec fn vote_request(self) -> VoteRequest {
        VoteRequest {
            term: self.current_term,
            candidate_id: self.id,
            last_log_index: self.last_log_index,
            last_log_term: self.last_log_term,
        }
    }

    /// `q` asks each node of `targets` once for its vote, as the candidate of this state.
    pub open spec fn requests_votes(self, q: Seq<Action<N, D>>, targets: Set<NodeId>) -> bool {
        &&& forall|i: int| 0 <= i < q.len() ==> (#[trigger] q[i] matches Action::RequestVote { target, info, req }
            && self.membership.members.contains_key(target) && self.membership.members[target] == *info
            && req == self.vote_request())
        &&& q.map_values(|a: Action<N, D>| action_target(a)).no_duplicates()
        &&& q.map_values(|a: Action<N, D>| action_target(a)).to_set() == targets
    }

    /// The state of a follower or candidate whose election timer fired:
    /// it becomes a candidate of the next term, votes for itself and
    /// persists that, before asking the other voters for their votes.
    pub open spec fn candidate_state(self) -> Self {
        CoreView {
            role: Role::Candidate,
            current_term: (self.current_term + 1) as TermId,
            voted_for: None,
            leader: None,
            voted: set![self.id],
            ..self
        }.emit(seq![
            Action::SaveHardState(HardState { current_term: (self.current_term + 1) as TermId, voted_for: None }),
            Action::ResetElectionTimeout,
        ])
    }

    /// Whether `next` results from this state when its election timer fires.
    pub open spec fn times_out(self, next: Self) -> bool {
        if self.role == Role::Candidate || self.role == Role::Follower {
            let c = self.candidate_state();
            &&& next == (CoreView { actions: next.actions, ..c })
            &&& next.actions.len() >= c.actions.len()
            &&& next.actions.take(c.actions.len() as int) == c.actions
            &&& c.requests_votes(next.actions.skip(c.actions.len() as int), self.membership.members.dom().remove(self.id))
        } else {
            next == self
        }
    }

    /// Whether a vote response that counts makes this candidate a leader:
    /// more than half of the voters have answered it.
    pub open spec fn wins(self, from: NodeId) -> bool {
        self.voted.insert(from).len() > self.membership.members.len() / 2
    }

    /// Whether `next` results from this state when `from` answers the vote
    /// request of `term` with `resp`. An answer to an older request, or one
    /// reaching a node that is no longer a candidate, changes nothing; one
    /// from a later term makes the node a follower of it; any other answer
    /// counts as a vote, and the candidate leads once more than half of the
    /// voters have answered.
    pub open spec fn takes_vote_response(self, from: NodeId, term: TermId, resp: VoteResponse, next: Self) -> bool {
        if term != self.current_term || self.role != Role::Candidate {
            next == self
        } else if resp.term > self.current_term {
            next == self.switch_to_follower(resp.term)
        } else {
            let counted = CoreView { voted: self.voted.insert(from), ..self };
            if self.wins(from) {
                counted.leader_state().sends_append_entries(next)
            } else {
                next == counted
            }
        }
    }
}

impl<N, D> CoreView<N, D> {
    /// Whether answering `req` needs the stored entry at the last log
    /// index: the request is current, carries entries, and the log is not empty.
    pub open spec fn needs_probe(self, req: &AppendEntriesRequest<N, D>) -> bool {
        &&& req.term >= self.current_term
        &&& req.entries@.len() > 0
        &&& (self.last_log_index > 0 || self.last_log_term > 0)
    }

    /// The state after appending `entries` (non-empty) received from the leader.
    pub open spec fn appended(self, entries: Vec<Entry<N, D>>) -> Self {
        CoreView {
            last_log_index: entries@.last().index,
            last_log_term: entries@.last().term,
            ..self
        }.emit(seq![Action::AppendToLog(entries)])
    }

    /// Handling a leader's append-entries request, given the stored entry at
    /// the last log index (`stored`, its index and term) when the answer needs
    /// it: the next state and the answer.
    ///
    /// A request from an older term is refused. Otherwise a leader or a
    /// candidate, or a non-voter with an empty log, becomes a follower of the
    /// request's term; the node follows the request's leader, restarts its
    /// election timer and moves its commit index up to the leader's (but not
    /// past its own log). A heartbeat is then accepted. Entries are refused
    /// when the log is not empty and holds no entry at its last index; when
    /// that entry's term differs from the recorded last term, the stored log
    /// is cut from it; the entries are then appended.
    pub open spec fn append_entries(self, req: AppendEntriesRequest<N, D>, stored: Option<(LogIndex, TermId)>) -> (Self, AppendEntriesResponse) {
        if req.term < self.current_term {
            (self, AppendEntriesResponse { term: self.current_term, success: false })
        } else {
            let s1 = if (self.role != Role::Follower && self.role != Role::NonVoter)
                || (self.role == Role::NonVoter && self.last_log_index == 0) {
                self.switch_to_follower(req.term)
            } else {
                self
            };
            let s2 = CoreView { leader: Some(req.leader_id), ..s1 }.emit(seq![Action::ResetElectionTimeout]);
            let s3 = if req.leader_commit > s2.commit_index {
                CoreView {
                    commit_index: if s2.last_log_index < req.leader_commit { s2.last_log_index } else { req.leader_commit },
                    ..s2
                }
            } else {
                s2
            };
            let ok = AppendEntriesResponse { term: s3.current_term, success: true };
            if req.entries@.len() == 0 {
                (s3, ok)
            } else if s3.last_log_index > 0 || s3.last_log_term > 0 {
                match stored {
                    None => (s3, AppendEntriesResponse { term: s3.current_term, success: false }),
                    Some((index, term)) => {
                        let s4 = if term != s3.last_log_term { s3.emit(seq![Action::DeleteLogsFrom(index)]) } else { s3 };
                        (s4.appended(req.entries), ok)
                    },
                }
            } else {
                (s3.appended(req.entries), ok)
            }
        }
    }

    /// Handling `from`'s answer to the append-entries request sent in `term`,
    /// which carried the log up to `last_log_index`. An answer to a request of
    /// an older term is ignored; one from a later term makes the node a
    /// follower of it. A leader then records a success (the follower holds the
    /// log up to `last_log_index`) or, on a refusal, expects the follower to
    /// miss one more entry, down to the first.
    pub open spec fn append_entries_response(self, from: NodeId, term: TermId, last_log_index: LogIndex, resp: AppendEntriesResponse) -> Self {
        if term != self.current_term {
            self
        } else {
            let s1 = if resp.term > self.current_term { self.switch_to_follower(resp.term) } else { self };
            if s1.role != Role::Leader || !s1.next_index.contains_key(from) {
                s1
            } else if resp.success {
                CoreView {
                    next_index: s1.next_index.insert(from, (last_log_index + 1) as LogIndex),
                    match_index: s1.match_index.insert(from, last_log_index),
                    ..s1
                }
            } else if s1.next_index[from] > 1 {
                CoreView { next_index: s1.next_index.insert(from, (s1.next_index[from] - 1) as LogIndex), ..s1 }
            } else {
                s1
            }
        }
    }

    /// Whether `next` results from this state once the append-entries
    /// requests to the nodes of `done` have completed: they are no longer in
    /// flight, and each of them that was marked to get another request (and
    /// is still a member) gets one and is unmarked.
    pub open spec fn completes(self, done: Seq<NodeId>, next: Self) -> bool {
        let marked = done.to_set().filter(|t: NodeId| self.resend.get(t) == Some(true) && self.membership.info(t) is Some);
        let sent = if self.role == Role::Leader { marked.filter(|t: NodeId| self.next_index.contains_key(t)) } else { Set::empty() };
        &&& next == (CoreView {
            in_flight: (self.in_flight - done.to_set()) + sent,
            resend: self.resend.union_prefer_right(Map::new(|t: NodeId| marked.contains(t), |t: NodeId| false)),
            actions: next.actions,
            ..self
        })
        &&& next.actions.len() >= self.actions.len()
        &&& next.actions.take(self.actions.len() as int) == self.actions
        &&& self.replicates(next.actions.skip(self.actions.len() as int), sent)
    }

    /// Whether `next` results from this state when the heartbeat timer fires:
    /// a leader restarts it and sends append-entries requests; any other node
    /// stops it.
    pub open spec fn heartbeat(self, next: Self) -> bool {
        if self.role == Role::Leader {
            self.emit(seq![Action::ResetHeartbeatTimeout(self.config.heartbeat_interval)]).sends_append_entries(next)
        } else {
            next == self.emit(seq![Action::CancelHeartbeatTimeout])
        }
    }
}

impl<N, D> CoreView<N, D> {
    /// Whether `next` results from this leader accepting `entry` from a
    /// client: the entry's client waits for a reply, the entry is appended to
    /// the stored log, the log grows by one and append-entries requests go out.
    pub open spec fn accepts_entry(self, entry: Entry<N, D>, next: Self) -> bool {
        let k = self.actions.len() as int;
        let mid = CoreView {
            pending: self.pending.insert(entry.index),
            last_log_index: (self.last_log_index + 1) as LogIndex,
            actions: next.actions.take(k + 1),
            ..self
        };
        &&& next.actions.len() > k
        &&& next.actions.take(k) == self.actions
        &&& (next.actions[k] matches Action::AppendToLog(v) && v@ == seq![entry])
        &&& mid.sends_append_entries(next)
    }

    /// Whether `next` and the result `r` come from asking this node to append
    /// `entry`: a node that does not lead refuses and names the leader it
    /// knows; a leader accepts the entry and answers its index.
    pub open spec fn appends_entry(self, entry: Entry<N, D>, next: Self, r: Result<LogIndex, RaftError>) -> bool {
        if self.role != Role::Leader {
            next == self && r == Err::<LogIndex, RaftError>(RaftError::ForwardToLeader(self.leader))
        } else {
            r == Ok::<LogIndex, RaftError>(entry.index) && self.accepts_entry(entry, next)
        }
    }

    /// The entry a client's request becomes: the next one of the log, in the
    /// current term.
    pub open spec fn next_entry(self, detail: EntryDetail<N, D>) -> Entry<N, D> {
        Entry { term: self.current_term, index: (self.last_log_index + 1) as LogIndex, detail }
    }

    /// Whether `next` results from initializing this fresh node with the
    /// voters `members`: the node takes them as its membership, takes the
    /// leadership and appends an entry that records that membership.
    pub open spec fn initializes(self, members: Seq<(NodeId, N)>, next: Self) -> bool {
        let s1 = CoreView {
            membership: MembershipView { members: voters_of(members), non_voters: Map::empty() },
            ..self
        };
        exists|mid: Self, e: Entry<N, D>|
            #![trigger mid.accepts_entry(e, next)]
            s1.leader_state().sends_append_entries(mid) && e.term == s1.current_term && e.index == 1
                && (e.detail matches EntryDetail::ChangeMemberShip(c) && c@ == s1.membership)
                && mid.accepts_entry(e, next)
    }
}

impl<N, D> CoreView<N, D> {
    /// The number of tracked followers known to hold the log up to `index`.
    pub open spec fn replicated_on(self, index: LogIndex) -> nat {
        self.match_index.dom().filter(|k: NodeId| self.match_index[k] >= index).len()
    }

    /// Whether a leader may move its commit index to `index`: it is past the
    /// commit index, some follower's log reaches exactly that far, and at
    /// least half as many followers as there are voters hold it.
    pub open spec fn commit_candidate(self, index: LogIndex) -> bool {
        &&& index > self.commit_index
        &&& exists|k: NodeId| #[trigger] self.match_index.contains_key(k) && self.match_index[k] == index
        &&& self.replicated_on(index) >= self.membership.members.len() / 2
    }

    /// Whether `next` results from this leader updating its commit index. A
    /// single voter commits its whole log; otherwise the commit index moves to
    /// the largest candidate, if there is one.
    pub open spec fn advances_commit(self, next: Self) -> bool {
        &&& next == (CoreView { commit_index: next.commit_index, ..self })
        &&& if self.membership.members.len() == 1 && self.last_log_index > self.commit_index {
            next.commit_index == self.last_log_index
        } else if exists|v: LogIndex| self.commit_candidate(v) {
            &&& self.commit_candidate(next.commit_index)
            &&& forall|v: LogIndex| self.commit_candidate(v) ==> v <= next.commit_index
        } else {
            next.commit_index == self.commit_index
        }
    }
}

/// The entries of a map of log indexes, each once.
fn index_entries(map: &BTreeMap<NodeId, LogIndex>) -> (r: Vec<(NodeId, LogIndex)>)
    ensures
        r@.map_values(|p: (NodeId, LogIndex)| p.0).no_duplicates(),
        r@.map_values(|p: (NodeId, LogIndex)| p.0).to_set() == map@.dom(),
        forall|i: int| 0 <= i < r@.len() ==> map@.contains_key(#[trigger] r@[i].0) && map@[r@[i].0] == r@[i].1,
{
    let mut out: Vec<(NodeId, LogIndex)> = Vec::new();
    let ghost m = map@;
    let ghost mut pos: Seq<int> = Seq::empty();
    let ghost seq = vstd::std_specs::btree::spec_btree_map_iter(map).remaining();
    for (id, v) in it: map.iter()
        invariant
            m == map@,
            seq == it.seq(),
            it.seq().len() == m.len(),
            forall|i: int| 0 <= i < it.seq().len() ==> m.contains_key(*(#[trigger] it.seq()[i]).0) && m[*it.seq()[i].0] == *it.seq()[i].1,
            forall|k: NodeId| m.contains_key(k) ==> it.seq().contains((&k, &m[k])),
            it.seq().no_duplicates(),
            out@.len() == pos.len(),
            pos.len() == it.index(),
            forall|j: int| 0 <= j < pos.len() ==> #[trigger] pos[j] == j,
            forall|j: int| 0 <= j < out@.len() ==> (#[trigger] out@[j]).0 == *it.seq()[j].0 && out@[j].1 == *it.seq()[j].1,
        ensures
            seq.len() == m.len(),
            forall|i: int| 0 <= i < seq.len() ==> m.contains_key(*(#[trigger] seq[i]).0) && m[*seq[i].0] == *seq[i].1,
            forall|k: NodeId| m.contains_key(k) ==> seq.contains((&k, &m[k])),
            seq.no_duplicates(),
            out@.len() == seq.len(),
            forall|j: int| 0 <= j < out@.len() ==> (#[trigger] out@[j]).0 == *seq[j].0 && out@[j].1 == *seq[j].1,
    {
        out.push((*id, *v));
        proof {
            pos = pos.push(pos.len() as int);
        }
    }
    proof {
        let ids = out@.map_values(|p: (NodeId, LogIndex)| p.0);
        assert forall|j1: int, j2: int| 0 <= j1 < ids.len() && 0 <= j2 < ids.len() && j1 != j2
            implies ids[j1] != ids[j2] by {
            if ids[j1] == ids[j2] {
                assert(seq[j1] == seq[j2]);
            }
        }
        assert forall|k: NodeId| ids.to_set().contains(k) <==> m.dom().contains(k) by {
            if m.dom().contains(k) {
                assert(seq.contains((&k, &m[k])));
                let i = choose|i: int| 0 <= i < seq.len() && seq[i] == (&k, &m[k]);
                assert(ids[i] == k);
            }
            if ids.to_set().contains(k) {
                let j = choose|j: int| 0 <= j < ids.len() && ids[j] == k;
                assert(out@[j].0 == k);
            }
        }
        assert(ids.to_set() =~= m.dom());
    }
    out
}

/// How many of the listed entries reach `index`.
fn count_reaching(entries: &Vec<(NodeId, LogIndex)>, index: LogIndex, Ghost(m): Ghost<Map<NodeId, LogIndex>>) -> (r: usize)
    requires
        entries@.map_values(|p: (NodeId, LogIndex)| p.0).no_duplicates(),
        entries@.map_values(|p: (NodeId, LogIndex)| p.0).to_set() == m.dom(),
        forall|i: int| 0 <= i < entries@.len() ==> m.contains_key(#[trigger] entries@[i].0) && m[entries@[i].0] == entries@[i].1,
    ensures
        r == m.dom().filter(|k: NodeId| m[k] >= index).len(),
{
    let ghost ids = entries@.map_values(|p: (NodeId, LogIndex)| p.0);
    let ghost mut seen: Set<NodeId> = Set::empty();
    let mut count: usize = 0;
    let n = entries.len();
    for j in 0..n
        invariant
            n == entries@.len(),
            ids == entries@.map_values(|p: (NodeId, LogIndex)| p.0),
            ids.no_duplicates(),
            forall|i: int| 0 <= i < entries@.len() ==> m.contains_key(#[trigger] entries@[i].0) && m[entries@[i].0] == entries@[i].1,
            seen == ids.take(j as int).to_set().filter(|k: NodeId| m[k] >= index),
            seen.finite(),
            count == seen.len(),
            count <= j,
    {
        let ghost before = seen;
        let k = entries[j].0;
        proof {
            assert(ids[j as int] == k);
            assert(ids.take(j + 1) =~= ids.take(j as int).push(k));
            ids.take(j as int).lemma_push_to_set_commute(k);
            assert(!ids.take(j as int).to_set().contains(k)) by {
                if ids.take(j as int).to_set().contains(k) {
                    let i = choose|i: int| 0 <= i < ids.take(j as int).len() && ids.take(j as int)[i] == k;
                    assert(ids[i] == ids[j as int]);
                }
            }
        }
        if entries[j].1 >= index {
            count = count + 1;
            proof {
                seen = seen.insert(k);
                assert(seen =~= ids.take(j + 1).to_set().filter(|k: NodeId| m[k] >= index));
            }
        } else {
            proof {
                assert(seen =~= ids.take(j + 1).to_set().filter(|k: NodeId| m[k] >= index));
            }
        }
    }
    proof {
        assert(ids.take(n as int) =~= ids);
        assert(seen =~= m.dom().filter(|k: NodeId| m[k] >= index));
    }
    count
}

/// A map from each node of `targets` to `value`.
fn index_map<N>(targets: &Vec<(NodeId, Arc<N>)>, value: u64) -> (r: BTreeMap<NodeId, u64>)
    ensures
        r@ == Map::new(|t: NodeId| ids_of(targets@).to_set().contains(t), |t: NodeId| value),
{
    let mut m: BTreeMap<NodeId, u64> = BTreeMap::new();
    let n = targets.len();
    for i in 0..n
        invariant
            n == targets@.len(),
            m@ == Map::new(|t: NodeId| ids_of(targets@.take(i as int)).to_set().contains(t), |t: NodeId| value),
    {
        let ghost before = m@;
        m.insert(targets[i].0, value);
        proof {
            assert(ids_of(targets@.take(i + 1)) =~= ids_of(targets@.take(i as int)).push(targets@[i as int].0));
            ids_of(targets@.take(i as int)).lemma_push_to_set_commute(targets@[i as int].0);
            assert(m@ =~= Map::new(|t: NodeId| ids_of(targets@.take(i + 1)).to_set().contains(t), |t: NodeId| value));
        }
    }
    proof {
        assert(targets@.take(n as int) =~= targets@);
    }
    m
}

/// The decision-making part of a Raft node. It owns the node's volatile
/// state and records the side effects of each decision as [`Action`]s, which
/// the runtime takes with [`Core::take_actions`] and performs in order.
pub struct Core<N, D> {
    name: String,
    id: NodeId,
    config: Config,
    membership: MemberShipConfig<N>,
    role: Role,
    voted_for: Option<NodeId>,
    voted: BTreeSet<NodeId>,
    current_term: TermId,
    last_log_term: TermId,
    last_log_index: LogIndex,
    commit_index: LogIndex,
    leader: Option<NodeId>,
    pending_write: BTreeSet<LogIndex>,
    next_index: BTreeMap<NodeId, LogIndex>,
    match_index: BTreeMap<NodeId, LogIndex>,
    in_flight: BTreeSet<NodeId>,
    resend: BTreeMap<NodeId, bool>,
    actions: Vec<Action<N, D>>,
}

impl<N, D> View for Core<N, D> {
    type V = CoreView<N, D>;

    closed spec fn view(&self) -> CoreView<N, D> {
        CoreView {
            id: self.id,
            config: self.config,
            membership: self.membership@,
            role: self.role,
            voted_for: self.voted_for,
            voted: self.voted@,
            current_term: self.current_term,
            last_log_term: self.last_log_term,
            last_log_index: self.last_log_index,
            commit_index: self.commit_index,
            leader: self.leader,
            pending: self.pending_write@,
            next_index: self.next_index@,
            match_index: self.match_index@,
            in_flight: self.in_flight@,
            resend: self.resend@,
            actions: self.actions@,
        }
    }
}

impl<N, D> Core<N, D> {
    /// The state invariant.
    pub open spec fn wf(&self) -> bool {
        self@.wf()
    }

    /// A node restarting from what its storage holds: a node with a log
    /// starts as a follower (and starts its election timer), one without as
    /// a non-voter waiting to be initialized or to hear from a leader.
    pub fn new(name: String, id: NodeId, config: Config, initial: InitialState<N>) -> (r: Self)
        requires
            config.valid(),
        ensures
            r.wf(),
            r.name() == name@,
            r@.id == id,
            r@.config == config,
            r@.membership.members == Map::<NodeId, N>::empty(),
            r@.membership.non_voters == Map::<NodeId, N>::empty(),
            r@.last_log_index == initial.last_log_index,
            r@.last_log_term == initial.last_log_term,
            r@.current_term == (match initial.hard_state { Some(h) => h.current_term, None => 0 }),
            r@.voted_for == (match initial.hard_state { Some(h) => h.voted_for, None => None }),
            r@.role == (if initial.last_log_index > 0 { Role::Follower } else { Role::NonVoter }),
            r@.voted == Set::<NodeId>::empty(),
            r@.commit_index == 0,
            r@.leader is None,
            r@.pending == Set::<LogIndex>::empty(),
            r@.next_index == Map::<NodeId, LogIndex>::empty(),
            r@.match_index == Map::<NodeId, LogIndex>::empty(),
            r@.in_flight == Set::<NodeId>::empty(),
            r@.resend == Map::<NodeId, bool>::empty(),
            r@.actions == (if initial.last_log_index > 0 {
                seq![Action::<N, D>::ResetElectionTimeout]
            } else {
                Seq::<Action<N, D>>::empty()
            }),
    {
        let (current_term, voted_for) = match initial.hard_state {
            Some(h) => (h.current_term, h.voted_for),
            None => (0, None),
        };
        let mut core = Core {
            name,
            id,
            config,
            membership: MemberShipConfig::default(),
            role: Role::NonVoter,
            voted_for,
            voted: BTreeSet::new(),
            current_term,
            last_log_term: initial.last_log_term,
            last_log_index: initial.last_log_index,
            commit_index: 0,
            leader: None,
            pending_write: BTreeSet::new(),
            next_index: BTreeMap::new(),
            match_index: BTreeMap::new(),
            in_flight: BTreeSet::new(),
            resend: BTreeMap::new(),
            actions: Vec::new(),
        };
        if core.last_log_index > 0 {
            core.role = Role::Follower;
            core.actions.push(Action::ResetElectionTimeout);
        }
        proof {
            assert(core@.membership.members =~= Map::<NodeId, N>::empty());
            assert(core@.membership.non_voters =~= Map::<NodeId, N>::empty());
        }
        core
    }

    /// The node's name, used in logs.
    pub closed spec fn name(&self) -> Seq<char> {
        self.name@
    }

    /// The node's name, used in logs.
    pub fn get_name(&self) -> (r: &str)
        ensures
            r@ == self.name(),
    {
        self.name.as_str()
    }

    /// A fresh election timeout, drawn at random from the configured range.
    pub fn election_timeout_millis(&self) -> (r: u64)
        requires
            self.wf(),
        ensures
            self@.config.election_timeout_min <= r < self@.config.election_timeout_max,
    {
        let mut rng = thread_rng();
        gen_range(&mut rng, self.config.election_timeout_min, self.config.election_timeout_max)
    }

    /// Hands the side effects decided so far over to the runtime.
    pub fn take_actions(&mut self) -> (r: Vec<Action<N, D>>)
        ensures
            r@ == old(self)@.actions,
            final(self)@ == (CoreView { actions: Seq::<Action<N, D>>::empty(), ..old(self)@ }),
    {
        let mut taken = Vec::new();
        std::mem::swap(&mut taken, &mut self.actions);
        taken
    }

    fn switch_to_follower(&mut self, term: TermId)
        requires
            old(self).wf(),
        ensures
            final(self).wf(),
            final(self)@ == old(self)@.switch_to_follower(term),
            final(self).name() == old(self).name(),
    {
        let ghost before = self@;
        self.role = Role::Follower;
        if self.current_term != term {
            self.current_term = term;
            self.actions.push(
                Action::SaveHardState(HardState { current_term: term, voted_for: self.voted_for }),
            );
        }
        self.leader = None;
        self.actions.push(Action::CancelHeartbeatTimeout);
        self.actions.push(Action::ResetElectionTimeout);
        proof {
            assert(self@.actions =~= before.switch_to_follower(term).actions);
        }
    }

    /// Sends `target` the append-entries request it is due, if this node
    /// leads and tracks that node.
    fn do_send_entries(&mut self, target: NodeId, info: Arc<N>)
        requires
            old(self).wf(),
            !old(self)@.in_flight.contains(target),
        ensures
            final(self).wf(),
            final(self)@ == old(self)@.send_entries(target, info),
            final(self).name() == old(self).name(),
    {
        if self.role != Role::Leader {
            return;
        }
        let next_index = match self.next_index.get(&target) {
            Some(n) => *n,
            None => return,
        };
        let plan = ReplicationPlan {
            term: self.current_term,
            leader_id: self.id,
            leader_commit: self.commit_index,
            next_index,
            max_entries: self.config.max_payload_entries as u64,
        };
        let ghost before = self@;
        self.in_flight.insert(target);
        self.actions.push(Action::Replicate { target, info, plan });
        proof {
            assert(self@.in_flight =~= before.in_flight.insert(target));
            assert(self@.actions =~= before.actions + seq![Action::Replicate { target, info, plan }]);
        }
    }

    /// A leader sends each node it replicates to the entries it is due,
    /// unless a request to that node is still in flight, in which case the
    /// node gets a new request once that one completes.
    fn send_append_entries(&mut self)
        requires
            old(self).wf(),
        ensures
            final(self).wf(),
            old(self)@.sends_append_entries(final(self)@),
            final(self).name() == old(self).name(),
    {
        if self.role != Role::Leader {
            return;
        }
        let targets = self.membership.other_members(self.id);
        let ghost s0 = self@;
        proof {
            assert(s0.membership.wf());
            assert(self@.actions.skip(s0.actions.len() as int) =~= Seq::<Action<N, D>>::empty());
            assert(self@.actions.take(s0.actions.len() as int) =~= s0.actions);
            assert(ids_of(targets@.take(0)).to_set() =~= Set::<NodeId>::empty());
            assert(s0.in_flight + Set::<NodeId>::empty() =~= s0.in_flight);
            assert(s0.resend.union_prefer_right(Map::new(|t: NodeId| Set::<NodeId>::empty().intersect(s0.in_flight).contains(t), |t: NodeId| true)) =~= s0.resend);
            assert(self@.actions.skip(s0.actions.len() as int).map_values(|a: Action<N, D>| action_target(a)) =~= Seq::<NodeId>::empty());
            assert(Set::<NodeId>::empty() - s0.in_flight =~= Set::<NodeId>::empty());
            let e = Set::<NodeId>::empty();
            assert(self@ =~= (CoreView {
                in_flight: s0.in_flight + e,
                resend: s0.resend.union_prefer_right(Map::new(|t: NodeId| e.intersect(s0.in_flight).contains(t), |t: NodeId| true)),
                actions: self@.actions,
                ..s0
            }));
            let q = self@.actions.skip(s0.actions.len() as int);
            assert(q.map_values(|a: Action<N, D>| action_target(a)).to_set() =~= e - s0.in_flight);
            assert(s0.replicates(q, e - s0.in_flight));
            assert(s0.sent_to(e, self@));
        }
        let n = targets.len();
        for i in 0..n
            invariant
                n == targets@.len(),
                self.wf(),
                self.name() == old(self).name(),
                s0 == old(self)@,
                s0.role == Role::Leader,
                ids_of(targets@).no_duplicates(),
                ids_of(targets@).to_set() == s0.membership.other_members(s0.id),
                forall|j: int| 0 <= j < targets@.len() ==> s0.membership.info(#[trigger] targets@[j].0) == Some(*targets@[j].1),
                s0.sent_to(ids_of(targets@.take(i as int)).to_set(), self@),
        {
            let ghost done = ids_of(targets@.take(i as int)).to_set();
            let ghost before = self@;
            let target = targets[i].0;
            let info = share(&targets[i].1);
            proof {
                assert(ids_of(targets@)[i as int] == target);
                assert(!done.contains(target)) by {
                    if done.contains(target) {
                        let j = choose|j: int| 0 <= j < ids_of(targets@.take(i as int)).len() && ids_of(targets@.take(i as int))[j] == target;
                        assert(ids_of(targets@)[j] == target);
                    }
                }
                assert(ids_of(targets@.take(i + 1)) =~= ids_of(targets@.take(i as int)).push(target));
                ids_of(targets@.take(i as int)).lemma_push_to_set_commute(target);
                assert(s0.membership.other_members(s0.id).contains(target));
            }
            if self.in_flight.contains(&target) {
                self.resend.insert(target, true);
                proof {
                    let d2 = done.insert(target);
                    assert(s0.in_flight.contains(target));
                    assert(s0.in_flight + d2 =~= s0.in_flight + done);
                    assert(d2 - s0.in_flight =~= done - s0.in_flight);
                    assert(self@.resend =~= s0.resend.union_prefer_right(Map::new(|t: NodeId| d2.intersect(s0.in_flight).contains(t), |t: NodeId| true)));
                }
            } else {
                self.do_send_entries(target, info);
                proof {
                    let d2 = done.insert(target);
                    let a = Action::Replicate { target, info, plan: before.plan_for(target) };
                    let k = s0.actions.len() as int;
                    assert(!s0.in_flight.contains(target));
                    assert(before.next_index.contains_key(target));
                    assert(self@.actions == before.actions.push(a));
                    assert(self@.in_flight =~= s0.in_flight + d2);
                    assert(self@.resend =~= s0.resend.union_prefer_right(Map::new(|t: NodeId| d2.intersect(s0.in_flight).contains(t), |t: NodeId| true)));
                    assert(self@.actions.take(k) =~= s0.actions);
                    let q0 = before.actions.skip(k);
                    let q1 = self@.actions.skip(k);
                    assert(q1 =~= q0.push(a));
                    assert(q1.map_values(|a: Action<N, D>| action_target(a)) =~= q0.map_values(|a: Action<N, D>| action_target(a)).push(target));
                    q0.map_values(|a: Action<N, D>| action_target(a)).lemma_push_to_set_commute(target);
                    assert(d2 - s0.in_flight =~= (done - s0.in_flight).insert(target));
                    assert(!q0.map_values(|a: Action<N, D>| action_target(a)).contains(target)) by {
                        if q0.map_values(|a: Action<N, D>| action_target(a)).contains(target) {
                            assert(q0.map_values(|a: Action<N, D>| action_target(a)).to_set().contains(target));
                        }
                    }
                    assert(s0.is_replication(a));
                    assert forall|j: int| 0 <= j < q1.len() implies s0.is_replication(#[trigger] q1[j]) by {
                        if j < q0.len() {
                            assert(q1[j] == q0[j]);
                        }
                    }
                }
            }
        }
        proof {
            assert(targets@.take(n as int) =~= targets@);
        }
    }

    /// Takes the leadership: tracks every node it replicates to, stops the
    /// election timer, starts the heartbeat and sends append-entries requests.
    fn become_to_leader(&mut self)
        requires
            old(self)@.wf_base(),
            old(self)@.last_log_index < u64::MAX,
        ensures
            final(self).wf(),
            old(self)@.leader_state().sends_append_entries(final(self)@),
            final(self).name() == old(self).name(),
    {
        let ghost s0 = self@;
        let targets = self.membership.other_members(self.id);
        self.role = Role::Leader;
        self.leader = Some(self.id);
        self.next_index = index_map(&targets, self.last_log_index + 1);
        self.actions.push(Action::CancelElectionTimeout);
        self.match_index = index_map(&targets, 0);
        self.in_flight = BTreeSet::new();
        self.resend = BTreeMap::new();
        self.actions.push(Action::AbandonReplication);
        self.actions.push(Action::ResetHeartbeatTimeout(self.config.heartbeat_interval));
        proof {
            let l = s0.leader_state();
            assert(self@.next_index =~= l.next_index);
            assert(self@.match_index =~= l.match_index);
            assert(self@.in_flight =~= l.in_flight);
            assert(self@.resend =~= l.resend);
            assert(self@.actions =~= l.actions);
            assert(self@ =~= l);
        }
        self.send_append_entries();
    }

    /// When the election timer fires on a follower or a candidate, it becomes
    /// a candidate of the next term, votes for itself, persists that, restarts
    /// its election timer and asks every other voter for its vote.
    pub fn handle_election_timeout(&mut self)
        requires
            old(self).wf(),
            old(self)@.role == Role::Candidate || old(self)@.role == Role::Follower
                ==> old(self)@.current_term < u64::MAX,
        ensures
            final(self).wf(),
            old(self)@.times_out(final(self)@),
            final(self).name() == old(self).name(),
    {
        if self.role != Role::Candidate && self.role != Role::Follower {
            return;
        }
        let ghost s0 = self@;
        self.role = Role::Candidate;
        self.current_term = self.current_term + 1;
        self.voted_for = None;
        self.leader = None;
        let mut voted = BTreeSet::new();
        voted.insert(self.id);
        self.voted = voted;
        self.actions.push(Action::SaveHardState(HardState { current_term: self.current_term, voted_for: self.voted_for }));
        self.actions.push(Action::ResetElectionTimeout);
        let ghost c = s0.candidate_state();
        proof {
            assert(self@.voted =~= c.voted);
            assert(self@.actions =~= c.actions);
            assert(self@ =~= c);
        }
        let req = VoteRequest {
            term: self.current_term,
            candidate_id: self.id,
            last_log_index: self.last_log_index,
            last_log_term: self.last_log_term,
        };
        let targets = self.membership.other_voter_members(self.id);
        let n = targets.len();
        let k = self.actions.len();
        proof {
            let q = self@.actions.skip(k as int);
            assert(q =~= Seq::<Action<N, D>>::empty());
            assert(q.map_values(|a: Action<N, D>| action_target(a)) =~= Seq::<NodeId>::empty());
            assert(ids_of(targets@.take(0)) =~= Seq::<NodeId>::empty());
            assert(Seq::<NodeId>::empty().to_set() =~= Set::<NodeId>::empty());
            assert(self@.actions.take(k as int) =~= c.actions);
        }
        for i in 0..n
            invariant
                n == targets@.len(),
                k == c.actions.len(),
                req == c.vote_request(),
                self@ == (CoreView { actions: self@.actions, ..c }),
                self.name() == old(self).name(),
                ids_of(targets@).no_duplicates(),
                ids_of(targets@).to_set() == c.membership.members.dom().remove(c.id),
                forall|j: int| 0 <= j < targets@.len() ==> c.membership.members.contains_key(#[trigger] targets@[j].0)
                    && c.membership.members[targets@[j].0] == *targets@[j].1,
                self@.actions.len() == k + i,
                self@.actions.take(k as int) == c.actions,
                c.requests_votes(self@.actions.skip(k as int), ids_of(targets@.take(i as int)).to_set()),
                self@.actions.skip(k as int).map_values(|a: Action<N, D>| action_target(a)) == ids_of(targets@.take(i as int)),
        {
            let ghost before = self@.actions;
            let target = targets[i].0;
            let info = share(&targets[i].1);
            self.actions.push(Action::RequestVote { target, info, req });
            proof {
                let a = Action::RequestVote { target, info, req };
                assert(self@.actions.take(k as int) =~= c.actions);
                let q0 = before.skip(k as int);
                let q1 = self@.actions.skip(k as int);
                assert(q1 =~= q0.push(a));
                assert(ids_of(targets@.take(i + 1)) =~= ids_of(targets@.take(i as int)).push(target));
                assert(q1.map_values(|a: Action<N, D>| action_target(a)) =~= q0.map_values(|a: Action<N, D>| action_target(a)).push(target));
                ids_of(targets@.take(i as int)).lemma_push_to_set_commute(target);
                assert(ids_of(targets@)[i as int] == target);
                assert(ids_of(targets@.take(i + 1)) =~= ids_of(targets@).take(i + 1));
                assert forall|j: int| 0 <= j < q1.len() implies (#[trigger] q1[j] matches Action::RequestVote { target, info, req }
                    && c.membership.members.contains_key(target) && c.membership.members[target] == *info
                    && req == c.vote_request()) by {
                    if j < q0.len() {
                        assert(q1[j] == q0[j]);
                    }
                }
            }
        }
        proof {
            assert(targets@.take(n as int) =~= targets@);
            assert(self@.actions.take(k as int) == c.actions);
            assert(self@ =~= (CoreView { actions: self@.actions, ..c }));
        }
    }

    /// Takes `from`'s answer to the vote request of `term`. An answer to an
    /// older request, or one reaching a node that is no longer a candidate,
    /// is ignored; one from a later term makes the node a follower of it; any
    /// other answer counts as a vote, and the candidate takes the leadership
    /// once more than half of the voters have answered.
    pub fn handle_vote_response(&mut self, from: NodeId, term: TermId, resp: VoteResponse)
        requires
            old(self).wf(),
            term == old(self)@.current_term && old(self)@.role == Role::Candidate
                && resp.term <= old(self)@.current_term && old(self)@.wins(from)
                ==> old(self)@.last_log_index < u64::MAX,
        ensures
            final(self).wf(),
            old(self)@.takes_vote_response(from, term, resp, final(self)@),
            final(self).name() == old(self).name(),
    {
        if term != self.current_term || self.role != Role::Candidate {
            return;
        }
        if resp.term > self.current_term {
            self.switch_to_follower(resp.term);
            return;
        }
        let ghost s0 = self@;
        self.voted.insert(from);
        proof {
            assert(self@.membership.members.dom() =~= self.membership.members@.dom());
            assert(self@ =~= (CoreView { voted: s0.voted.insert(from), ..s0 }));
        }
        if self.voted.len() > self.membership.members.len() / 2 {
            self.become_to_leader();
        }
    }

    /// Where the stored log must be read before [`Core::handle_append_entries`]
    /// can answer `req`: the last log index, when the answer depends on the
    /// entry stored there.
    pub fn log_probe(&self, req: &AppendEntriesRequest<N, D>) -> (r: Option<LogIndex>)
        ensures
            r == (if self@.needs_probe(req) { Some(self@.last_log_index) } else { None::<LogIndex> }),
    {
        if req.term >= self.current_term && req.entries.len() > 0 && (self.last_log_index > 0 || self.last_log_term > 0) {
            Some(self.last_log_index)
        } else {
            None
        }
    }

    /// Answers a leader's append-entries request. `stored` is the index and
    /// term of the stored entry at the last log index when
    /// [`Core::log_probe`] asks for it (`None` if the storage holds none, or
    /// if it was not asked for).
    pub fn handle_append_entries(&mut self, req: AppendEntriesRequest<N, D>, stored: Option<(LogIndex, TermId)>) -> (r: AppendEntriesResponse)
        requires
            old(self).wf(),
        ensures
            final(self).wf(),
            (final(self)@, r) == old(self)@.append_entries(req, stored),
            final(self).name() == old(self).name(),
    {
        let ghost s0 = self@;
        if req.term < self.current_term {
            return AppendEntriesResponse { term: self.current_term, success: false };
        }
        if (self.role != Role::Follower && self.role != Role::NonVoter)
            || (self.role == Role::NonVoter && self.last_log_index == 0) {
            self.switch_to_follower(req.term);
        }
        if self.leader != Some(req.leader_id) {
            self.leader = Some(req.leader_id);
        }
        self.actions.push(Action::ResetElectionTimeout);
        if req.leader_commit > self.commit_index {
            self.commit_index = if self.last_log_index < req.leader_commit { self.last_log_index } else { req.leader_commit };
        }
        let ghost s3 = self@;
        proof {
            assert(self@.actions =~= (if (s0.role != Role::Follower && s0.role != Role::NonVoter)
                || (s0.role == Role::NonVoter && s0.last_log_index == 0) { s0.switch_to_follower(req.term) } else { s0 }).actions.push(Action::ResetElectionTimeout));
        }
        if req.entries.len() == 0 {
            return AppendEntriesResponse { term: self.current_term, success: true };
        }
        if self.last_log_index > 0 || self.last_log_term > 0 {
            match stored {
                None => {
                    return AppendEntriesResponse { term: self.current_term, success: false };
                },
                Some((index, term)) => {
                    if term != self.last_log_term {
                        self.actions.push(Action::DeleteLogsFrom(index));
                    }
                },
            }
        }
        let last = req.entries.len() - 1;
        self.last_log_index = req.entries[last].index;
        self.last_log_term = req.entries[last].term;
        let ghost s4 = self@;
        self.actions.push(Action::AppendToLog(req.entries));
        proof {
            assert(self@.actions =~= s4.actions.push(Action::AppendToLog(req.entries)));
            if s3.last_log_index > 0 || s3.last_log_term > 0 {
                let (index, term) = stored.unwrap();
                if term != s3.last_log_term {
                    assert(s4.actions =~= s3.actions.push(Action::DeleteLogsFrom(index)));
                }
            }
        }
        AppendEntriesResponse { term: self.current_term, success: true }
    }

    /// Takes `from`'s answer to the append-entries request sent in `term`,
    /// which carried the log up to `last_log_index`.
    pub fn handle_append_entries_response(&mut self, from: NodeId, term: TermId, last_log_index: LogIndex, resp: AppendEntriesResponse)
        requires
            old(self).wf(),
            term == old(self)@.current_term && resp.term <= old(self)@.current_term
                && old(self)@.role == Role::Leader && resp.success ==> last_log_index < u64::MAX,
        ensures
            final(self).wf(),
            final(self)@ == old(self)@.append_entries_response(from, term, last_log_index, resp),
            final(self).name() == old(self).name(),
    {
        if term != self.current_term {
            return;
        }
        if resp.term > self.current_term {
            self.switch_to_follower(resp.term);
        }
        if self.role != Role::Leader {
            return;
        }
        let next = match self.next_index.get(&from) {
            Some(n) => *n,
            None => return,
        };
        if resp.success {
            self.next_index.insert(from, last_log_index + 1);
            self.match_index.insert(from, last_log_index);
        } else if next > 1 {
            self.next_index.insert(from, next - 1);
        }
    }

    /// Once the append-entries requests to the nodes of `done` have completed
    /// (and their answers were taken), they are no longer in flight; each of
    /// them that is marked for another request and still a member gets one.
    pub fn finish_replication(&mut self, done: Vec<NodeId>)
        requires
            old(self).wf(),
            done@.no_duplicates(),
        ensures
            final(self).wf(),
            old(self)@.completes(done@, final(self)@),
            final(self).name() == old(self).name(),
    {
        let ghost s0 = self@;
        let n = done.len();
        for i in 0..n
            invariant
                n == done@.len(),
                self.wf(),
                self.name() == old(self).name(),
                s0 == old(self)@,
                s0.wf(),
                self@ == (CoreView { in_flight: s0.in_flight - done@.take(i as int).to_set(), ..s0 }),
        {
            let ghost before = self@;
            self.in_flight.remove(&done[i]);
            proof {
                done@.take(i as int).lemma_push_to_set_commute(done@[i as int]);
                assert(done@.take(i + 1) =~= done@.take(i as int).push(done@[i as int]));
                assert(self@.in_flight =~= s0.in_flight - done@.take(i + 1).to_set());
                assert(self@ =~= (CoreView { in_flight: s0.in_flight - done@.take(i + 1).to_set(), ..s0 }));
            }
        }
        proof {
            assert(done@.take(n as int) =~= done@);
        }
        let ghost s1 = self@;
        let ghost all = done@.to_set();
        let ghost marked = all.filter(|t: NodeId| s0.resend.get(t) == Some(true) && s0.membership.info(t) is Some);
        let ghost sent = if s0.role == Role::Leader { marked.filter(|t: NodeId| s0.next_index.contains_key(t)) } else { Set::<NodeId>::empty() };
        let k = self.actions.len();
        proof {
            let q = self@.actions.skip(k as int);
            assert(q =~= Seq::<Action<N, D>>::empty());
            assert(q.map_values(|a: Action<N, D>| action_target(a)) =~= Seq::<NodeId>::empty());
            assert(Seq::<NodeId>::empty().to_set() =~= Set::<NodeId>::empty());
            assert(done@.take(0).to_set() =~= Set::<NodeId>::empty());
            assert(self@.actions.take(k as int) =~= s0.actions);
            assert(s1.resend.union_prefer_right(Map::new(|t: NodeId| Set::<NodeId>::empty().contains(t), |t: NodeId| false)) =~= s1.resend);
            assert(s1.in_flight + Set::<NodeId>::empty() =~= s1.in_flight);
            assert(sent.intersect(Set::<NodeId>::empty()) =~= Set::<NodeId>::empty());
            assert(marked.intersect(Set::<NodeId>::empty()) =~= Set::<NodeId>::empty());
            assert(s0.resend.union_prefer_right(Map::new(|t: NodeId| marked.intersect(Set::<NodeId>::empty()).contains(t), |t: NodeId| false)) =~= s0.resend);
            assert(self@ =~= (CoreView {
                in_flight: s1.in_flight + sent.intersect(Set::<NodeId>::empty()),
                resend: s0.resend.union_prefer_right(Map::new(|t: NodeId| marked.intersect(Set::<NodeId>::empty()).contains(t), |t: NodeId| false)),
                actions: self@.actions,
                ..s0
            }));
            assert(s0.replicates(q, sent.intersect(Set::<NodeId>::empty())));
        }
        for i in 0..n
            invariant
                n == done@.len(),
                done@.no_duplicates(),
                k == s0.actions.len(),
                self.wf(),
                self.name() == old(self).name(),
                s0 == old(self)@,
                s0.wf(),
                s1 == (CoreView { in_flight: s0.in_flight - done@.to_set(), ..s0 }),
                marked == done@.to_set().filter(|t: NodeId| s0.resend.get(t) == Some(true) && s0.membership.info(t) is Some),
                sent == (if s0.role == Role::Leader { marked.filter(|t: NodeId| s0.next_index.contains_key(t)) } else { Set::<NodeId>::empty() }),
                ({
                    let d = done@.take(i as int).to_set();
                    &&& self@ == (CoreView {
                        in_flight: s1.in_flight + sent.intersect(d),
                        resend: s0.resend.union_prefer_right(Map::new(|t: NodeId| marked.intersect(d).contains(t), |t: NodeId| false)),
                        actions: self@.actions,
                        ..s0
                    })
                    &&& self@.actions.len() >= k
                    &&& self@.actions.take(k as int) == s0.actions
                    &&& s0.replicates(self@.actions.skip(k as int), sent.intersect(d))
                }),
        {
            let id = done[i];
            let ghost d = done@.take(i as int).to_set();
            let ghost before = self@;
            proof {
                assert(done@.take(i + 1) =~= done@.take(i as int).push(id));
                done@.take(i as int).lemma_push_to_set_commute(id);
                assert(!d.contains(id)) by {
                    if d.contains(id) {
                        let j = choose|j: int| 0 <= j < done@.take(i as int).len() && done@.take(i as int)[j] == id;
                        assert(done@[j] == id);
                    }
                }
                assert(done@.to_set().contains(id)) by {
                    assert(done@[i as int] == id);
                }
            }
            let flagged = match self.resend.get(&id) {
                Some(b) => *b,
                None => false,
            };
            if flagged {
                match self.membership.member_info(id) {
                    Some(info) => {
                        proof {
                            assert(marked.contains(id));
                            assert(!self@.in_flight.contains(id));
                        }
                        self.do_send_entries(id, info);
                        self.resend.insert(id, false);
                        proof {
                            let d2 = d.insert(id);
                            assert(self@.resend =~= s0.resend.union_prefer_right(Map::new(|t: NodeId| marked.intersect(d2).contains(t), |t: NodeId| false)));
                            if sent.contains(id) {
                                let a = self@.actions.last();
                                let q0 = before.actions.skip(k as int);
                                let q1 = self@.actions.skip(k as int);
                                assert(q1 =~= q0.push(a));
                                assert(self@.in_flight =~= s1.in_flight + sent.intersect(d2));
                                assert(q1.map_values(|a: Action<N, D>| action_target(a)) =~= q0.map_values(|a: Action<N, D>| action_target(a)).push(id));
                                q0.map_values(|a: Action<N, D>| action_target(a)).lemma_push_to_set_commute(id);
                                assert(sent.intersect(d2) =~= sent.intersect(d).insert(id));
                                assert(!q0.map_values(|a: Action<N, D>| action_target(a)).contains(id)) by {
                                    if q0.map_values(|a: Action<N, D>| action_target(a)).contains(id) {
                                        assert(q0.map_values(|a: Action<N, D>| action_target(a)).to_set().contains(id));
                                    }
                                }
                                assert(self@.actions.take(k as int) =~= s0.actions);
                                assert forall|j: int| 0 <= j < q1.len() implies s0.is_replication(#[trigger] q1[j]) by {
                                    if j < q0.len() {
                                        assert(q1[j] == q0[j]);
                                    }
                                }
                            } else {
                                assert(sent.intersect(d2) =~= sent.intersect(d));
                                assert(self@.in_flight =~= s1.in_flight + sent.intersect(d2));
                            }
                        }
                    },
                    None => {
                        proof {
                            let d2 = d.insert(id);
                            assert(!marked.contains(id));
                            assert(marked.intersect(d2) =~= marked.intersect(d));
                            assert(sent.intersect(d2) =~= sent.intersect(d));
                        }
                    },
                }
            } else {
                proof {
                    let d2 = d.insert(id);
                    assert(!marked.contains(id));
                    assert(marked.intersect(d2) =~= marked.intersect(d));
                    assert(sent.intersect(d2) =~= sent.intersect(d));
                }
            }
        }
        proof {
            assert(done@.take(n as int) =~= done@);
            assert(sent.intersect(done@.to_set()) =~= sent);
            assert(marked.intersect(done@.to_set()) =~= marked);
        }
    }

    /// When the heartbeat timer fires: a leader restarts it and sends
    /// append-entries requests; any other node stops it.
    pub fn handle_heartbeat_timeout(&mut self)
        requires
            old(self).wf(),
        ensures
            final(self).wf(),
            old(self)@.heartbeat(final(self)@),
            final(self).name() == old(self).name(),
    {
        if self.role == Role::Leader {
            let ghost before = self@;
            self.actions.push(Action::ResetHeartbeatTimeout(self.config.heartbeat_interval));
            proof {
                assert(self@.actions =~= before.actions.push(Action::ResetHeartbeatTimeout(before.config.heartbeat_interval)));
                assert(self@ =~= before.emit(seq![Action::ResetHeartbeatTimeout(before.config.heartbeat_interval)]));
                assert(self@.membership == before.membership);
                assert(self@.wf());
            }
            self.send_append_entries();
        } else {
            let ghost before = self@;
            self.actions.push(Action::CancelHeartbeatTimeout);
            proof {
                assert(self@ =~= before.emit(seq![Action::CancelHeartbeatTimeout]));
            }
        }
    }

    /// When the election timer fires: a follower or a candidate starts an
    /// election; any other node stops the timer.
    pub fn on_election_timeout(&mut self)
        requires
            old(self).wf(),
            old(self)@.role == Role::Candidate || old(self)@.role == Role::Follower
                ==> old(self)@.current_term < u64::MAX,
        ensures
            final(self).wf(),
            (old(self)@.role == Role::Candidate || old(self)@.role == Role::Follower)
                ==> old(self)@.times_out(final(self)@),
            !(old(self)@.role == Role::Candidate || old(self)@.role == Role::Follower)
                ==> final(self)@ == old(self)@.emit(seq![Action::CancelElectionTimeout]),
            final(self).name() == old(self).name(),
    {
        if self.role == Role::Candidate || self.role == Role::Follower {
            self.handle_election_timeout();
        } else {
            self.actions.push(Action::CancelElectionTimeout);
        }
    }

    /// A leader accepts a client's entry: it records that the entry's client
    /// waits, appends the entry to its log and replicates it; any other node
    /// refuses and names the leader it knows.
    fn append_entry(&mut self, entry: Entry<N, D>) -> (r: Result<LogIndex, RaftError>)
        requires
            old(self).wf(),
            old(self)@.role == Role::Leader ==> !old(self)@.pending.contains(entry.index)
                && old(self)@.last_log_index < u64::MAX,
        ensures
            final(self).wf(),
            old(self)@.appends_entry(entry, final(self)@, r),
            final(self).name() == old(self).name(),
    {
        if self.role != Role::Leader {
            return Err(RaftError::ForwardToLeader(self.leader));
        }
        let ghost s0 = self@;
        let ghost e = entry;
        let index = entry.index;
        self.pending_write.insert(index);
        let batch = vec![entry];
        proof {
            assert(batch@ =~= seq![e]);
        }
        self.actions.push(Action::AppendToLog(batch));
        self.last_log_index = self.last_log_index + 1;
        let ghost mid = self@;
        proof {
            let k = s0.actions.len() as int;
            assert(mid.actions.take(k) =~= s0.actions);
            assert(mid.actions.take(k + 1) =~= mid.actions);
            assert(mid.pending =~= s0.pending.insert(index));
        }
        self.send_append_entries();
        proof {
            let k = s0.actions.len() as int;
            assert(self@.actions.take(k + 1) =~= mid.actions);
            assert(self@.actions.take(k) =~= s0.actions);
            assert(self@.actions[k] == mid.actions[k]);
            assert(self@.actions[k] matches Action::AppendToLog(v) && v@ == seq![e]);
            assert(mid == (CoreView {
                pending: s0.pending.insert(e.index),
                last_log_index: (s0.last_log_index + 1) as LogIndex,
                actions: self@.actions.take(k + 1),
                ..s0
            }));
        }
        Ok(index)
    }

    /// A client's read: a leader appends a blank entry, answered once
    /// applied; any other node refuses and names the leader it knows.
    pub fn handle_client_read(&mut self) -> (r: Result<LogIndex, RaftError>)
        requires
            old(self).wf(),
            old(self)@.last_log_index < u64::MAX,
            old(self)@.role == Role::Leader ==> !old(self)@.pending.contains((old(self)@.last_log_index + 1) as LogIndex),
        ensures
            final(self).wf(),
            old(self)@.appends_entry(old(self)@.next_entry(EntryDetail::Blank), final(self)@, r),
            final(self).name() == old(self).name(),
    {
        let entry = Entry { term: self.current_term, index: self.last_log_index + 1, detail: EntryDetail::Blank };
        self.append_entry(entry)
    }

    /// A client's write: a leader appends the command to the log, answered
    /// once applied; any other node refuses and names the leader it knows.
    pub fn handle_client_write(&mut self, action: D) -> (r: Result<LogIndex, RaftError>)
        requires
            old(self).wf(),
            old(self)@.last_log_index < u64::MAX,
            old(self)@.role == Role::Leader ==> !old(self)@.pending.contains((old(self)@.last_log_index + 1) as LogIndex),
        ensures
            final(self).wf(),
            old(self)@.appends_entry(old(self)@.next_entry(EntryDetail::Normal(action)), final(self)@, r),
            final(self).name() == old(self).name(),
    {
        let entry = Entry { term: self.current_term, index: self.last_log_index + 1, detail: EntryDetail::Normal(action) };
        self.append_entry(entry)
    }

    /// Starts a fresh cluster with `members` as its voters: a node with no
    /// term and no log takes them as its membership, takes the leadership and
    /// appends an entry recording the membership, answering that entry's
    /// index; any other node refuses, as already initialized.
    pub fn handle_initialize(&mut self, members: Vec<(NodeId, N)>) -> (r: Result<LogIndex, RaftError>)
        requires
            old(self).wf(),
            old(self)@.current_term == 0 && old(self)@.last_log_index == 0 ==> !old(self)@.pending.contains(1),
        ensures
            final(self).wf(),
            old(self)@.current_term > 0 || old(self)@.last_log_index > 0 ==> final(self)@ == old(self)@
                && r == Err::<LogIndex, RaftError>(RaftError::AlreadyInitialized),
            old(self)@.current_term == 0 && old(self)@.last_log_index == 0 ==> r == Ok::<LogIndex, RaftError>(1)
                && old(self)@.initializes(members@, final(self)@),
            final(self).name() == old(self).name(),
    {
        if self.current_term > 0 || self.last_log_index > 0 {
            return Err(RaftError::AlreadyInitialized);
        }
        let ghost s0 = self@;
        let config = MemberShipConfig::from_members(members);
        self.membership = config.clone();
        let ghost s1 = self@;
        proof {
            assert(s1.membership.members.dom() =~= config.members@.dom());
            assert(s1.membership.non_voters.dom() =~= Set::<NodeId>::empty());
            assert(s1 == (CoreView {
                membership: MembershipView { members: voters_of(members@), non_voters: Map::empty() },
                ..s0
            }));
            assert(s1.membership.members.dom().disjoint(s1.membership.non_voters.dom()));
        }
        self.become_to_leader();
        let ghost mid = self@;
        let entry = Entry {
            term: self.current_term,
            index: self.last_log_index + 1,
            detail: EntryDetail::ChangeMemberShip(config),
        };
        let ghost e = entry;
        let r = self.append_entry(entry);
        proof {
            assert(mid.accepts_entry(e, self@));
            assert(s0.initializes(members@, self@));
        }
        r
    }

    /// A snapshot of the node's state, with the last applied index read from storage.
    pub fn handle_metrics(&self, last_applied: LogIndex) -> (r: Metrics<N>)
        ensures
            r.id == self@.id,
            r.role == self@.role,
            r.current_term == self@.current_term,
            r.last_log_index == self@.last_log_index,
            r.last_applied == last_applied,
            r.leader == self@.leader,
            r.membership@ == self@.membership,
    {
        Metrics {
            id: self.id,
            role: self.role,
            current_term: self.current_term,
            last_log_index: self.last_log_index,
            last_applied,
            leader: self.leader,
            membership: self.membership.clone(),
        }
    }

    /// A leader adds `id` as a non-voter and starts tracking its replication;
    /// the request is refused when the node is already known, and by any node
    /// that does not lead (naming the leader it knows).
    pub fn handle_add_node(&mut self, id: NodeId, info: N) -> (r: Result<(), RaftError>)
        requires
            old(self).wf(),
            old(self)@.role == Role::Leader ==> old(self)@.last_log_index < u64::MAX,
        ensures
            final(self).wf(),
            old(self)@.role != Role::Leader ==> final(self)@ == old(self)@
                && r == Err::<(), RaftError>(RaftError::ForwardToLeader(old(self)@.leader)),
            old(self)@.role == Role::Leader && old(self)@.membership.knows(id) ==> final(self)@ == old(self)@
                && r == Err::<(), RaftError>(RaftError::NodeAlreadyRegistered(id)),
            old(self)@.role == Role::Leader && !old(self)@.membership.knows(id) ==> r is Ok
                && final(self)@ == (CoreView {
                    membership: old(self)@.membership.add_non_voter(id, info),
                    next_index: old(self)@.next_index.insert(id, (old(self)@.last_log_index + 1) as LogIndex),
                    match_index: old(self)@.match_index.insert(id, 0),
                    ..old(self)@
                }),
            final(self).name() == old(self).name(),
    {
        if self.role != Role::Leader {
            return Err(RaftError::ForwardToLeader(self.leader));
        }
        match self.membership.add_non_voter(id, info) {
            Err(e) => Err(e),
            Ok(c) => {
                let ghost s0 = self@;
                self.membership = c;
                self.next_index.insert(id, self.last_log_index + 1);
                self.match_index.insert(id, 0);
                proof {
                    let m = s0.membership.add_non_voter(id, info);
                    assert(self@.membership == m);
                    assert(m.non_voters.dom() =~= s0.membership.non_voters.dom().insert(id));
                    assert(m.members.dom().disjoint(m.non_voters.dom()));
                    assert forall|t: NodeId| #[trigger] m.other_members(self@.id).contains(t) implies self@.next_index.contains_key(t) by {
                        if t != id {
                            assert(s0.membership.other_members(s0.id).contains(t));
                        }
                    }
                }
                Ok(())
            },
        }
    }

    /// A leader removes `id` from the cluster and stops tracking it; the
    /// request is refused when the node is unknown, and by any node that does
    /// not lead (naming the leader it knows).
    pub fn handle_remove_node(&mut self, id: NodeId) -> (r: Result<(), RaftError>)
        requires
            old(self).wf(),
        ensures
            final(self).wf(),
            old(self)@.role != Role::Leader ==> final(self)@ == old(self)@
                && r == Err::<(), RaftError>(RaftError::ForwardToLeader(old(self)@.leader)),
            old(self)@.role == Role::Leader && !old(self)@.membership.knows(id) ==> final(self)@ == old(self)@
                && r == Err::<(), RaftError>(RaftError::UnknownNode(id)),
            old(self)@.role == Role::Leader && old(self)@.membership.knows(id) ==> r is Ok
                && final(self)@ == (CoreView {
                    membership: old(self)@.membership.remove_node(id),
                    next_index: old(self)@.next_index.remove(id),
                    match_index: old(self)@.match_index.remove(id),
                    resend: old(self)@.resend.remove(id),
                    ..old(self)@
                }),
            final(self).name() == old(self).name(),
    {
        if self.role != Role::Leader {
            return Err(RaftError::ForwardToLeader(self.leader));
        }
        match self.membership.remove_node(id) {
            Err(e) => Err(e),
            Ok(c) => {
                let ghost s0 = self@;
                self.membership = c;
                self.next_index.remove(&id);
                self.match_index.remove(&id);
                self.resend.remove(&id);
                proof {
                    let m = s0.membership.remove_node(id);
                    assert(self@.membership == m);
                    assert(m.non_voters.dom() =~= s0.membership.non_voters.dom().remove(id));
                    assert(m.members.dom() =~= s0.membership.members.dom().remove(id));
                    assert forall|t: NodeId| #[trigger] m.other_members(self@.id).contains(t) implies self@.next_index.contains_key(t) by {
                        assert(s0.membership.other_members(s0.id).contains(t));
                    }
                }
                Ok(())
            },
        }
    }

    /// A leader moves its commit index: a single voter commits its whole log;
    /// otherwise the commit index moves to the largest index that some
    /// follower reaches and at least half as many followers as there are
    /// voters hold, if that is past the current commit index.
    pub fn update_commit_index(&mut self)
        requires
            old(self).wf(),
        ensures
            final(self).wf(),
            old(self)@.advances_commit(final(self)@),
            final(self).name() == old(self).name(),
    {
        let ghost s0 = self@;
        proof {
            assert(s0.membership.members.dom() =~= self.membership.members@.dom());
        }
        let voters = self.membership.members.len();
        if voters == 1 && self.last_log_index > self.commit_index {
            self.commit_index = self.last_log_index;
            proof {
                assert(self@ =~= (CoreView { commit_index: self@.commit_index, ..s0 }));
            }
            return;
        }
        let entries = index_entries(&self.match_index);
        let ghost m = self.match_index@;
        let n = entries.len();
        let mut best: Option<LogIndex> = None;
        for i in 0..n
            invariant
                n == entries@.len(),
                self@ == s0,
                m == s0.match_index,
                voters == s0.membership.members.len(),
                entries@.map_values(|p: (NodeId, LogIndex)| p.0).no_duplicates(),
                entries@.map_values(|p: (NodeId, LogIndex)| p.0).to_set() == m.dom(),
                forall|j: int| 0 <= j < entries@.len() ==> m.contains_key(#[trigger] entries@[j].0) && m[entries@[j].0] == entries@[j].1,
                match best {
                    Some(b) => s0.commit_candidate(b),
                    None => true,
                },
                forall|j: int| 0 <= j < i && s0.commit_candidate(#[trigger] entries@[j].1)
                    ==> best is Some && entries@[j].1 <= best.unwrap(),
        {
            let v = entries[i].1;
            if v > self.commit_index {
                let count = count_reaching(&entries, v, Ghost(m));
                if count >= voters / 2 {
                    let better = match best {
                        None => true,
                        Some(b) => v > b,
                    };
                    if better {
                        best = Some(v);
                    }
                    proof {
                        assert(m.contains_key(entries@[i as int].0));
                        assert(s0.commit_candidate(v));
                    }
                }
            }
        }
        proof {
            assert forall|v: LogIndex| s0.commit_candidate(v) implies best is Some && v <= best.unwrap() by {
                let k = choose|k: NodeId| #[trigger] m.contains_key(k) && m[k] == v;
                let ids = entries@.map_values(|p: (NodeId, LogIndex)| p.0);
                assert(ids.to_set().contains(k));
                let j = choose|j: int| 0 <= j < ids.len() && ids[j] == k;
                assert(entries@[j].0 == k);
            }
        }
        match best {
            Some(b) => {
                self.commit_index = b;
                proof {
                    assert(self@ =~= (CoreView { commit_index: b, ..s0 }));
                }
            },
            None => {},
        }
    }

    /// Replies to the clients waiting on entries below `before`: they are no
    /// longer pending, and their indexes are answered (each once).
    pub fn reply_client_write(&mut self, before: LogIndex) -> (r: Vec<LogIndex>)
        requires
            old(self).wf(),
        ensures
            final(self).wf(),
            r@.no_duplicates(),
            r@.to_set() == old(self)@.pending.filter(|i: LogIndex| i < before),
            final(self)@ == (CoreView { pending: old(self)@.pending.filter(|i: LogIndex| i >= before), ..old(self)@ }),
            final(self).name() == old(self).name(),
    {
        let ghost s0 = self@;
        let ghost p = self.pending_write@;
        let mut due: Vec<LogIndex> = Vec::new();
        let ghost seq = vstd::std_specs::btree::spec_btree_keys_iter(&self.pending_write).remaining();
        let ghost mut pos: Seq<int> = Seq::empty();
        for idx in it: self.pending_write.iter()
            invariant
                p == self.pending_write@,
                seq == it.seq(),
                it.seq().unref().to_set() == p,
                it.seq().no_duplicates(),
                due@.len() == pos.len(),
                forall|j: int| 0 <= j < pos.len() ==> 0 <= #[trigger] pos[j] < it.index(),
                forall|j1: int, j2: int| 0 <= j1 < j2 < pos.len() ==> pos[j1] < pos[j2],
                forall|j: int| 0 <= j < pos.len() ==> #[trigger] due@[j] == *it.seq()[pos[j]] && due@[j] < before,
                forall|i: int| 0 <= i < it.index() && *it.seq()[i] < before ==> exists|j: int| 0 <= j < pos.len() && #[trigger] pos[j] == i,
            ensures
                seq.unref().to_set() == p,
                seq.no_duplicates(),
                due@.len() == pos.len(),
                forall|j: int| 0 <= j < pos.len() ==> 0 <= #[trigger] pos[j] < seq.len(),
                forall|j1: int, j2: int| 0 <= j1 < j2 < pos.len() ==> pos[j1] < pos[j2],
                forall|j: int| 0 <= j < pos.len() ==> #[trigger] due@[j] == *seq[pos[j]] && due@[j] < before,
                forall|i: int| 0 <= i < seq.len() && *seq[i] < before ==> exists|j: int| 0 <= j < pos.len() && #[trigger] pos[j] == i,
        {
            let ghost i = it.index();
            let ghost old_pos = pos;
            if *idx < before {
                due.push(*idx);
                proof {
                    pos = pos.push(i);
                }
            }
            proof {
                assert forall|x: int| 0 <= x < i + 1 && *it.seq()[x] < before implies exists|j: int| 0 <= j < pos.len() && #[trigger] pos[j] == x by {
                    if x == i {
                        assert(pos[pos.len() - 1] == x);
                    } else {
                        let j = choose|j: int| 0 <= j < old_pos.len() && #[trigger] old_pos[j] == x;
                        assert(pos[j] == x);
                    }
                }
            }
        }
        proof {
            assert forall|j1: int, j2: int| 0 <= j1 < due@.len() && 0 <= j2 < due@.len() && j1 != j2
                implies due@[j1] != due@[j2] by {
                if due@[j1] == due@[j2] {
                    assert(seq[pos[j1]] == seq[pos[j2]]);
                }
            }
            assert forall|x: LogIndex| due@.to_set().contains(x) <==> p.filter(|i: LogIndex| i < before).contains(x) by {
                if p.filter(|i: LogIndex| i < before).contains(x) {
                    assert(seq.unref().to_set().contains(x));
                    let i = choose|i: int| 0 <= i < seq.unref().len() && seq.unref()[i] == x;
                    assert(*seq[i] == x);
                    let j = choose|j: int| 0 <= j < pos.len() && #[trigger] pos[j] == i;
                    assert(due@[j] == x);
                }
                if due@.to_set().contains(x) {
                    let j = choose|j: int| 0 <= j < due@.len() && due@[j] == x;
                    assert(seq.unref()[pos[j]] == x);
                    assert(seq.unref().to_set().contains(x));
                }
            }
            assert(due@.to_set() =~= p.filter(|i: LogIndex| i < before));
        }
        let n = due.len();
        for j in 0..n
            invariant
                n == due@.len(),
                self.name() == old(self).name(),
                self@ == (CoreView { pending: p - due@.take(j as int).to_set(), ..s0 }),
        {
            self.pending_write.remove(&due[j]);
            proof {
                due@.take(j as int).lemma_push_to_set_commute(due@[j as int]);
                assert(due@.take(j + 1) =~= due@.take(j as int).push(due@[j as int]));
                assert(self@.pending =~= p - due@.take(j + 1).to_set());
                assert(self@ =~= (CoreView { pending: p - due@.take(j + 1).to_set(), ..s0 }));
            }
        }
        proof {
            assert(due@.take(n as int) =~= due@);
            assert(self@.pending =~= p.filter(|i: LogIndex| i >= before));
            assert(self@ =~= (CoreView { pending: s0.pending.filter(|i: LogIndex| i >= before), ..s0 }));
        }
        due
    }

    /// The range `[start, end)` of committed entries to apply, given the last
    /// index the state machine applied; `None` when nothing is to apply.
    pub fn apply_range(&self, last_applied: LogIndex) -> (r: Option<(LogIndex, LogIndex)>)
        requires
            self@.commit_index > last_applied ==> self@.commit_index < u64::MAX,
        ensures
            r == (if self@.commit_index > last_applied {
                Some(((last_applied + 1) as LogIndex, (self@.commit_index + 1) as LogIndex))
            } else {
                None::<(LogIndex, LogIndex)>
            }),
    {
        if self.commit_index > last_applied {
            Some((last_applied + 1, self.commit_index + 1))
        } else {
            None
        }
    }

    /// Once a leader has applied entries up to `last_index`, the clients
    /// waiting on the entries up to the one after it are answered (see
    /// [`Core::reply_client_write`]).
    pub fn applied_up_to(&mut self, last_index: LogIndex) -> (r: Vec<LogIndex>)
        requires
            old(self).wf(),
            last_index < u64::MAX - 1,
        ensures
            final(self).wf(),
            r@.no_duplicates(),
            r@.to_set() == old(self)@.pending.filter(|i: LogIndex| i < last_index + 2),
            final(self)@ == (CoreView { pending: old(self)@.pending.filter(|i: LogIndex| i >= last_index + 2), ..old(self)@ }),
            final(self).name() == old(self).name(),
    {
        self.reply_client_write(last_index + 2)
    }

    /// The node's id.
    pub fn id(&self) -> (r: NodeId)
        ensures
            r == self@.id,
    {
        self.id
    }

    /// The node's configuration.
    pub fn config(&self) -> (r: Config)
        ensures
            r == self@.config,
    {
        self.config
    }

    /// The node's current role.
    pub fn role(&self) -> (r: Role)
        ensures
            r == self@.role,
    {
        self.role
    }

    /// The node's current term.
    pub fn current_term(&self) -> (r: TermId)
        ensures
            r == self@.current_term,
    {
        self.current_term
    }

    /// The candidate this node voted for in the current term, if any.
    pub fn voted_for(&self) -> (r: Option<NodeId>)
        ensures
            r == self@.voted_for,
    {
        self.voted_for
    }

    /// The index of the last entry of the node's log.
    pub fn last_log_index(&self) -> (r: LogIndex)
        ensures
            r == self@.last_log_index,
    {
        self.last_log_index
    }

    /// The term of the last entry of the node's log.
    pub fn last_log_term(&self) -> (r: TermId)
        ensures
            r == self@.last_log_term,
    {
        self.last_log_term
    }

    /// The index up to which the log is committed.
    pub fn commit_index(&self) -> (r: LogIndex)
        ensures
            r == self@.commit_index,
    {
        self.commit_index
    }

    /// The leader this node knows, if any.
    pub fn leader(&self) -> (r: Option<NodeId>)
        ensures
            r == self@.leader,
    {
        self.leader
    }

    /// The node's membership.
    pub fn membership(&self) -> (r: &MemberShipConfig<N>)
        ensures
            r@ == self@.membership,
    {
        &self.membership
    }

    /// Whether a client waits on the entry at `index`.
    pub fn has_pending(&self, index: LogIndex) -> (r: bool)
        ensures
            r == self@.pending.contains(index),
    {
        self.pending_write.contains(&index)
    }

    /// The index of the first entry the leader expects `id` to miss, if it tracks `id`.
    pub fn next_index_of(&self, id: NodeId) -> (r: Option<LogIndex>)
        ensures
            r == (if self@.next_index.contains_key(id) { Some(self@.next_index[id]) } else { None::<LogIndex> }),
    {
        match self.next_index.get(&id) {
            Some(n) => Some(*n),
            None => None,
        }
    }

    /// The index up to which the leader knows `id`'s log matches, if it tracks `id`.
    pub fn match_index_of(&self, id: NodeId) -> (r: Option<LogIndex>)
        ensures
            r == (if self@.match_index.contains_key(id) { Some(self@.match_index[id]) } else { None::<LogIndex> }),
    {
        match self.match_index.get(&id) {
            Some(n) => Some(*n),
            None => None,
        }
    }

    /// Whether an append-entries request to `id` is in flight.
    pub fn is_in_flight(&self, id: NodeId) -> (r: bool)
        ensures
            r == self@.in_flight.contains(id),
    {
        self.in_flight.contains(&id)
    }

    /// Whether counting `from`'s answer would give this candidate more than
    /// half of the voters.
    pub fn wins(&self, from: NodeId) -> (r: bool)
        ensures
            r == self@.wins(from),
    {
        proof {
            assert(self@.membership.members.dom() =~= self.membership.members@.dom());
        }
        let mut counted = self.voted.clone();
        counted.insert(from);
        counted.len() > self.membership.members.len() / 2
    }

    /// The number of nodes that voted for this candidate in the current election.
    pub fn votes(&self) -> (r: usize)
        ensures
            r == self@.voted.len(),
    {
        self.voted.len()
    }

    /// Answers a candidate's vote request. A non-voter, or a node at a later
    /// term, refuses; a request from a later term first makes the node a
    /// follower of that term; the vote is granted if the node has not voted
    /// for another candidate and the candidate's log is at least as far on.
    pub fn handle_vote(&mut self, req: VoteRequest) -> (r: VoteResponse)
        requires
            old(self).wf(),
        ensures
            final(self).wf(),
            (final(self)@, r) == old(self)@.vote(req),
            final(self).name() == old(self).name(),
    {
        if self.role == Role::NonVoter {
            return VoteResponse { term: self.current_term, vote_granted: false };
        }
        if req.term < self.current_term {
            return VoteResponse { term: self.current_term, vote_granted: false };
        }
        if req.term > self.current_term {
            self.switch_to_follower(req.term);
        }
        let free = match self.voted_for {
            None => true,
            Some(c) => c == req.candidate_id,
        };
        if free && req.last_log_term >= self.last_log_term && req.last_log_index >= self.last_log_index {
            let ghost mid = self@;
            self.voted_for = Some(req.candidate_id);
            self.actions.push(Action::ResetElectionTimeout);
            proof {
                assert(self@.actions =~= mid.actions.push(Action::ResetElectionTimeout));
            }
            return VoteResponse { term: self.current_term, vote_granted: true };
        }
        VoteResponse { term: self.current_term, vote_granted: false }
    }
}

} // verus!
