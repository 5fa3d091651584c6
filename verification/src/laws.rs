//! Properties of the node's decisions that hold across handlers and calls.
use std::sync::Arc;

use vstd::prelude::*;

use crate::network::{AppendEntriesRequest, AppendEntriesResponse, VoteRequest, VoteResponse};
use crate::raft_core::{Action, CoreView};
use crate::types::{Entry, EntryDetail, LogIndex, MembershipView, NodeId, Role, TermId};

verus! {

/// A node never goes back to an earlier term, whatever it handles: a vote
/// request, an append-entries request, an answer to either, or a timer.
pub proof fn law_terms_never_decrease<N, D>(
    s: CoreView<N, D>,
    vote: VoteRequest,
    append: AppendEntriesRequest<N, D>,
    stored: Option<(LogIndex, TermId)>,
    from: NodeId,
    term: TermId,
    last_log_index: LogIndex,
    vote_resp: VoteResponse,
    append_resp: AppendEntriesResponse,
    next: CoreView<N, D>,
)
    requires
        s.wf(),
    ensures
        s.vote(vote).0.current_term >= s.current_term,
        s.append_entries(append, stored).0.current_term >= s.current_term,
        s.append_entries_response(from, term, last_log_index, append_resp).current_term >= s.current_term,
        s.takes_vote_response(from, term, vote_resp, next) ==> next.current_term >= s.current_term,
        s.times_out(next) && s.current_term < u64::MAX ==> next.current_term >= s.current_term,
        s.heartbeat(next) ==> next.current_term == s.current_term,
{
}

/// A node grants at most one candidate its vote in a term: once it has
/// granted a vote, a second request of the same term is granted only to the
/// same candidate.
pub proof fn law_one_vote_per_term<N, D>(s: CoreView<N, D>, first: VoteRequest, second: VoteRequest)
    requires
        s.wf(),
        first.term == second.term,
        s.vote(first).1.vote_granted,
        s.vote(first).0.vote(second).1.vote_granted,
    ensures
        first.candidate_id == second.candidate_id,
{
}

/// The vote a node granted stays recorded for the rest of the term: no
/// handler that keeps the term forgets or changes it.
pub proof fn law_vote_kept_within_term<N, D>(
    s: CoreView<N, D>,
    vote: VoteRequest,
    append: AppendEntriesRequest<N, D>,
    stored: Option<(LogIndex, TermId)>,
    from: NodeId,
    term: TermId,
    last_log_index: LogIndex,
    vote_resp: VoteResponse,
    append_resp: AppendEntriesResponse,
    candidate: NodeId,
    next: CoreView<N, D>,
)
    requires
        s.wf(),
        s.voted_for == Some(candidate),
    ensures
        s.vote(vote).0.current_term == s.current_term ==> s.vote(vote).0.voted_for == Some(candidate),
        s.append_entries(append, stored).0.voted_for == Some(candidate),
        s.append_entries_response(from, term, last_log_index, append_resp).voted_for == Some(candidate),
        s.takes_vote_response(from, term, vote_resp, next) ==> next.voted_for == Some(candidate),
        s.times_out(next) && s.current_term < u64::MAX && next.current_term == s.current_term
            ==> next.voted_for == Some(candidate),
{
}

/// A non-voter never grants a vote, and a request from an older term is
/// refused and leaves the node unchanged.
pub proof fn law_refusals<N, D>(s: CoreView<N, D>, vote: VoteRequest, append: AppendEntriesRequest<N, D>, stored: Option<(LogIndex, TermId)>)
    requires
        s.wf(),
    ensures
        s.role == Role::NonVoter ==> !s.vote(vote).1.vote_granted && s.vote(vote).0 == s,
        vote.term < s.current_term ==> !s.vote(vote).1.vote_granted && s.vote(vote).0 == s,
        append.term < s.current_term ==> !s.append_entries(append, stored).1.success
            && s.append_entries(append, stored).0 == s,
{
}

/// Answers to requests of an older term change nothing, and an answer from
/// a later term makes the node a follower of that term.
pub proof fn law_stale_and_newer_answers<N, D>(
    s: CoreView<N, D>,
    from: NodeId,
    term: TermId,
    last_log_index: LogIndex,
    vote_resp: VoteResponse,
    append_resp: AppendEntriesResponse,
    next: CoreView<N, D>,
)
    requires
        s.wf(),
    ensures
        term != s.current_term ==> s.append_entries_response(from, term, last_log_index, append_resp) == s,
        term != s.current_term ==> (s.takes_vote_response(from, term, vote_resp, next) ==> next == s),
        term == s.current_term && append_resp.term > s.current_term ==> {
            let t = s.append_entries_response(from, term, last_log_index, append_resp);
            t.role == Role::Follower && t.current_term == append_resp.term && t.leader is None
        },
        term == s.current_term && s.role == Role::Candidate && vote_resp.term > s.current_term
            ==> (s.takes_vote_response(from, term, vote_resp, next) ==> next.role == Role::Follower
                && next.current_term == vote_resp.term),
{
}

/// A candidate becomes a leader only once more than half of the voters have
/// answered it, and then it leads the term it was elected in.
pub proof fn law_leader_needs_majority<N, D>(
    s: CoreView<N, D>,
    from: NodeId,
    term: TermId,
    resp: VoteResponse,
    next: CoreView<N, D>,
)
    requires
        s.wf(),
        s.takes_vote_response(from, term, resp, next),
        s.role != Role::Leader,
        next.role == Role::Leader,
    ensures
        next.voted.len() > next.membership.members.len() / 2,
        next.current_term == s.current_term,
        next.leader == Some(s.id),
{
}

/// An election timeout on a follower or a candidate starts an election of
/// the next term in which the node votes for itself only; on any other node
/// it changes nothing but the timer.
pub proof fn law_election_starts_next_term<N, D>(s: CoreView<N, D>, next: CoreView<N, D>)
    requires
        s.wf(),
        s.current_term < u64::MAX,
        s.times_out(next),
    ensures
        s.role == Role::Follower || s.role == Role::Candidate ==> {
            &&& next.role == Role::Candidate
            &&& next.current_term == s.current_term + 1
            &&& next.voted == set![s.id]
            &&& next.voted_for is None
            &&& next.leader is None
        },
        !(s.role == Role::Follower || s.role == Role::Candidate) ==> next == s,
{
}

/// A leader's commit index never moves back, and moves only to an index
/// that its whole log covers when it is the single voter, or that enough
/// followers hold otherwise. A follower whose commit index is within its log
/// never moves it back either when it hears from a leader.
pub proof fn law_commit_index_monotone<N, D>(
    s: CoreView<N, D>,
    next: CoreView<N, D>,
    append: AppendEntriesRequest<N, D>,
    stored: Option<(LogIndex, TermId)>,
)
    requires
        s.wf(),
    ensures
        s.advances_commit(next) ==> next.commit_index >= s.commit_index,
        s.advances_commit(next) && next.commit_index > s.commit_index ==> next.commit_index == s.last_log_index
            || s.replicated_on(next.commit_index) >= s.membership.members.len() / 2,
        s.commit_index <= s.last_log_index ==> s.append_entries(append, stored).0.commit_index >= s.commit_index,
{
}

/// A leader keeps leading its term through heartbeats and client entries;
/// an accepted entry grows the log by one and its client waits for a reply.
pub proof fn law_leader_keeps_leading<N, D>(s: CoreView<N, D>, entry: Entry<N, D>, next: CoreView<N, D>)
    requires
        s.wf(),
        s.role == Role::Leader,
        s.last_log_index < u64::MAX,
    ensures
        s.heartbeat(next) ==> next.role == Role::Leader && next.current_term == s.current_term
            && next.leader == s.leader,
        s.accepts_entry(entry, next) ==> {
            &&& next.role == Role::Leader
            &&& next.current_term == s.current_term
            &&& next.last_log_index == s.last_log_index + 1
            &&& next.pending.contains(entry.index)
        },
{
}

/// A node can be initialized only once: an initialized node leads and has a
/// log, so a second request is refused.
pub proof fn law_initialize_once<N, D>(s: CoreView<N, D>, members: Seq<(NodeId, N)>, next: CoreView<N, D>)
    requires
        s.wf(),
        s.current_term == 0,
        s.last_log_index == 0,
        s.initializes(members, next),
    ensures
        next.last_log_index == 1,
        next.role == Role::Leader,
{
}

/// Adding a node as a non-voter and then removing it gives back the
/// membership; a removed node is unknown; adding and removing keep voters
/// and non-voters apart, and so does promoting a non-voter, which keeps its
/// information.
pub proof fn law_membership_changes<N>(m: MembershipView<N>, id: NodeId, info: N)
    requires
        m.wf(),
    ensures
        !m.knows(id) ==> m.add_non_voter(id, info).remove_node(id) == m,
        !m.knows(id) ==> m.add_non_voter(id, info).wf() && m.add_non_voter(id, info).non_voters.contains_key(id),
        !m.remove_node(id).knows(id),
        m.remove_node(id).wf(),
        m.non_voters.contains_key(id) ==> m.promote(id).wf() && m.promote(id).members.contains_key(id)
            && !m.promote(id).non_voters.contains_key(id) && m.promote(id).members[id] == m.non_voters[id],
{
    if !m.knows(id) {
        assert(m.add_non_voter(id, info).remove_node(id).members =~= m.members);
        assert(m.add_non_voter(id, info).remove_node(id).non_voters =~= m.non_voters);
    }
}

/// Whether every append-entries request that `next` asks for beyond the
/// actions of `s` carries the header of `s`: its term, its id as leader and
/// its commit index (never an index the leader has not committed).
pub open spec fn requests_carry_header<N, D>(s: CoreView<N, D>, next: CoreView<N, D>) -> bool {
    forall|i: int| s.actions.len() <= i < next.actions.len() ==> match #[trigger] next.actions[i] {
        Action::Replicate { plan, .. } => plan.leader_commit == s.commit_index && plan.term == s.current_term
            && plan.leader_id == s.id,
        _ => true,
    }
}

/// A leader's append-entries requests carry its current term, its id and its
/// commit index, and ask each follower for the entries from the index the
/// leader tracks for it; so do the requests sent once earlier ones complete,
/// and those a candidate sends when it wins the election.
pub proof fn law_replication_carries_leader_state<N, D>(
    s: CoreView<N, D>,
    done: Seq<NodeId>,
    from: NodeId,
    term: TermId,
    resp: VoteResponse,
    next: CoreView<N, D>,
)
    requires
        s.wf(),
    ensures
        s.sends_append_entries(next) ==> requests_carry_header(s, next),
        s.sends_append_entries(next) ==> forall|i: int| s.actions.len() <= i < next.actions.len()
            ==> (#[trigger] next.actions[i] matches Action::Replicate { target, plan, .. }
                && s.next_index.contains_key(target) && plan.next_index == s.next_index[target]),
        s.completes(done, next) ==> requests_carry_header(s, next),
        s.completes(done, next) ==> forall|i: int| s.actions.len() <= i < next.actions.len()
            ==> (#[trigger] next.actions[i] matches Action::Replicate { target, plan, .. }
                && s.next_index.contains_key(target) && plan.next_index == s.next_index[target]),
        s.takes_vote_response(from, term, resp, next) ==> requests_carry_header(s, next),
{
    if s.sends_append_entries(next) && s.role == Role::Leader {
        let k = s.actions.len() as int;
        let q = next.actions.skip(k);
        let targets = s.membership.other_members(s.id) - s.in_flight;
        assert forall|i: int| k <= i < next.actions.len() implies (#[trigger] next.actions[i] matches Action::Replicate { target, plan, .. }
            && s.next_index.contains_key(target) && plan.next_index == s.next_index[target]
            && plan.leader_commit == s.commit_index && plan.term == s.current_term && plan.leader_id == s.id) by {
            assert(q[i - k] == next.actions[i]);
            assert(s.is_replication(q[i - k]));
            let t = action_target_of(next.actions[i]);
            assert(q.map_values(|a: Action<N, D>| crate::raft_core::action_target(a))[i - k] == t);
            assert(q.map_values(|a: Action<N, D>| crate::raft_core::action_target(a)).to_set().contains(t));
            assert(targets.contains(t));
            assert(s.membership.other_members(s.id).contains(t));
        }
    }
    if s.completes(done, next) {
        let k = s.actions.len() as int;
        let q = next.actions.skip(k);
        assert forall|i: int| k <= i < next.actions.len() implies (#[trigger] next.actions[i] matches Action::Replicate { target, plan, .. }
            && s.next_index.contains_key(target) && plan.next_index == s.next_index[target]
            && plan.leader_commit == s.commit_index && plan.term == s.current_term && plan.leader_id == s.id) by {
            assert(q[i - k] == next.actions[i]);
            assert(s.is_replication(q[i - k]));
            let t = action_target_of(next.actions[i]);
            assert(q.map_values(|a: Action<N, D>| crate::raft_core::action_target(a))[i - k] == t);
            assert(q.map_values(|a: Action<N, D>| crate::raft_core::action_target(a)).to_set().contains(t));
        }
    }
    if s.takes_vote_response(from, term, resp, next) && term == s.current_term && s.role == Role::Candidate
        && resp.term <= s.current_term && s.wins(from) {
        let counted = CoreView { voted: s.voted.insert(from), ..s };
        let l = counted.leader_state();
        let k = l.actions.len() as int;
        let q = next.actions.skip(k);
        assert forall|i: int| s.actions.len() <= i < next.actions.len() implies match #[trigger] next.actions[i] {
            Action::Replicate { plan, .. } => plan.leader_commit == s.commit_index && plan.term == s.current_term
                && plan.leader_id == s.id,
            _ => true,
        } by {
            if i < k {
                assert(next.actions.take(k)[i] == next.actions[i]);
                assert(l.actions[i] == next.actions[i]);
            } else {
                assert(q[i - k] == next.actions[i]);
                assert(l.is_replication(q[i - k]));
            }
        }
    }
}

/// The target of a vote or replication request.
spec fn action_target_of<N, D>(a: Action<N, D>) -> NodeId {
    crate::raft_core::action_target(a)
}

/// A leader's commit index reaches the largest index that a tracked follower
/// holds exactly, that is past the old commit index, and that at least half as
/// many tracked followers as there are voters hold (unless a single voter
/// commits its whole log instead).
pub proof fn law_commit_reaches_largest_replicated<N, D>(s: CoreView<N, D>, next: CoreView<N, D>)
    requires
        s.wf(),
        s.advances_commit(next),
        !(s.membership.members.len() == 1 && s.last_log_index > s.commit_index),
    ensures
        forall|k: NodeId| #[trigger] s.match_index.contains_key(k) && s.match_index[k] > s.commit_index
            && s.match_index.dom().filter(|j: NodeId| s.match_index[j] >= s.match_index[k]).len()
                >= s.membership.members.len() / 2
            ==> s.match_index[k] <= next.commit_index,
        next.commit_index >= s.commit_index,
{
    assert forall|k: NodeId| #[trigger] s.match_index.contains_key(k) && s.match_index[k] > s.commit_index
        && s.match_index.dom().filter(|j: NodeId| s.match_index[j] >= s.match_index[k]).len()
            >= s.membership.members.len() / 2
        implies s.match_index[k] <= next.commit_index by {
        let v = s.match_index[k];
        assert(s.match_index.dom().filter(|j: NodeId| s.match_index[j] >= v)
            =~= s.match_index.dom().filter(|j: NodeId| s.match_index[j] >= s.match_index[k]));
        assert(s.replicated_on(v) >= s.membership.members.len() / 2);
        assert(s.commit_candidate(v));
    }
}

/// A follower that accepts a non-empty batch of entries ends its log with
/// the batch's last entry: its last log index and term are that entry's,
/// and the batch is appended to the stored log.
pub proof fn law_accepted_batch_ends_the_log<N, D>(s: CoreView<N, D>, req: AppendEntriesRequest<N, D>, stored: Option<(LogIndex, TermId)>)
    requires
        s.wf(),
        req.entries@.len() > 0,
        s.append_entries(req, stored).1.success,
    ensures
        s.append_entries(req, stored).0.last_log_index == req.entries@[req.entries@.len() - 1].index,
        s.append_entries(req, stored).0.last_log_term == req.entries@[req.entries@.len() - 1].term,
        s.append_entries(req, stored).0.actions.last() == Action::<N, D>::AppendToLog(req.entries),
        s.append_entries(req, stored).1.term >= s.current_term,
{
}

/// A voter that has not voted for another candidate grants the vote to any
/// candidate of its term (or a later one) whose log is at least as far on as
/// its own, by last term and by last index.
pub proof fn law_vote_granted_to_up_to_date_candidates<N, D>(s: CoreView<N, D>, req: VoteRequest)
    requires
        s.wf(),
        s.role != Role::NonVoter,
        req.term >= s.current_term,
        s.voted_for is None || s.voted_for == Some(req.candidate_id),
        req.last_log_term >= s.last_log_term,
        req.last_log_index >= s.last_log_index,
    ensures
        s.vote(req).1.vote_granted,
        s.vote(req).1.term == req.term,
        s.vote(req).0.voted_for == Some(req.candidate_id),
{
}

/// A granted vote stays granted for a candidate whose log is further on: a
/// longer log (by last term or last index) is never refused where a shorter
/// one is granted.
pub proof fn law_vote_monotone_in_the_log<N, D>(s: CoreView<N, D>, req: VoteRequest, longer: VoteRequest)
    requires
        s.wf(),
        s.vote(req).1.vote_granted,
        longer.term == req.term,
        longer.candidate_id == req.candidate_id,
        longer.last_log_term >= req.last_log_term,
        longer.last_log_index >= req.last_log_index,
    ensures
        s.vote(longer).1.vote_granted,
{
}

/// An entry a leader accepts from a client is the next one of its log, in
/// its current term: the client learns that index, and the stored log gets
/// exactly that entry with the client's command (or a blank one for a read).
pub proof fn law_client_entry_in_current_term<N, D>(s: CoreView<N, D>, detail: EntryDetail<N, D>, next: CoreView<N, D>, r: Result<LogIndex, crate::error::RaftError>)
    requires
        s.wf(),
        s.role == Role::Leader,
        s.last_log_index < u64::MAX,
        s.appends_entry(s.next_entry(detail), next, r),
    ensures
        r matches Ok(i) && i == s.last_log_index + 1,
        next.actions[s.actions.len() as int] matches Action::AppendToLog(v) && v@.len() == 1
            && v@[0].term == s.current_term && v@[0].index == s.last_log_index + 1 && v@[0].detail == detail,
        next.last_log_index == s.last_log_index + 1,
        next.pending.contains((s.last_log_index + 1) as LogIndex),
{
}

/// When a leader's request moves a follower's commit index, it moves to the
/// leader's commit index or to the follower's last log index, whichever is
/// smaller: never past either.
pub proof fn law_follower_commit_bounded<N, D>(s: CoreView<N, D>, req: AppendEntriesRequest<N, D>, stored: Option<(LogIndex, TermId)>)
    requires
        s.wf(),
        req.term >= s.current_term,
    ensures
        req.leader_commit > s.commit_index ==> {
            let c = s.append_entries(req, stored).0.commit_index;
            &&& c <= req.leader_commit
            &&& c <= s.last_log_index
            &&& (c == req.leader_commit || c == s.last_log_index)
        },
        req.leader_commit <= s.commit_index ==> s.append_entries(req, stored).0.commit_index == s.commit_index,
        s.append_entries(req, stored).0.leader == Some(req.leader_id),
        s.append_entries(req, stored).0.role != Role::Leader,
        s.append_entries(req, stored).0.role != Role::Candidate,
        req.entries@.len() == 0 ==> s.append_entries(req, stored).1.success
            && s.append_entries(req, stored).0.last_log_index == s.last_log_index,
{
}

/// A leader's answer from a follower of its term: a success records that the
/// follower holds the log up to the request's last index and expects the
/// next entry; a refusal expects one entry less, never below the first.
pub proof fn law_replication_answer_moves_indexes<N, D>(
    s: CoreView<N, D>,
    from: NodeId,
    last_log_index: LogIndex,
    resp: AppendEntriesResponse,
)
    requires
        s.wf(),
        s.role == Role::Leader,
        s.next_index.contains_key(from),
        resp.term <= s.current_term,
        last_log_index < u64::MAX,
    ensures
        resp.success ==> {
            let t = s.append_entries_response(from, s.current_term, last_log_index, resp);
            &&& t.match_index.contains_key(from) && t.match_index[from] == last_log_index
            &&& t.next_index[from] == last_log_index + 1
            &&& t.role == Role::Leader
        },
        !resp.success ==> {
            let t = s.append_entries_response(from, s.current_term, last_log_index, resp);
            &&& t.next_index[from] == if s.next_index[from] > 1 { s.next_index[from] - 1 } else { 1 }
            &&& t.match_index == s.match_index
        },
{
}

/// An election asks every other voter, and only them, for its vote with a
/// request of the new term that names the candidate and its log's end.
pub proof fn law_election_requests<N, D>(s: CoreView<N, D>, next: CoreView<N, D>)
    requires
        s.wf(),
        s.current_term < u64::MAX,
        s.role == Role::Follower || s.role == Role::Candidate,
        s.times_out(next),
    ensures
        forall|i: int| s.actions.len() + 2 <= i < next.actions.len() ==> (#[trigger] next.actions[i] matches Action::RequestVote { target, req, .. }
            && target != s.id && s.membership.members.contains_key(target)
            && req.term == s.current_term + 1 && req.candidate_id == s.id
            && req.last_log_index == s.last_log_index && req.last_log_term == s.last_log_term),
        next.actions[s.actions.len() as int] == Action::<N, D>::SaveHardState(
            crate::storage::HardState { current_term: (s.current_term + 1) as TermId, voted_for: None },
        ),
{
    let c = s.candidate_state();
    let k = c.actions.len() as int;
    let q = next.actions.skip(k);
    assert forall|i: int| s.actions.len() + 2 <= i < next.actions.len() implies (#[trigger] next.actions[i] matches Action::RequestVote { target, req, .. }
        && target != s.id && s.membership.members.contains_key(target)
        && req.term == s.current_term + 1 && req.candidate_id == s.id
        && req.last_log_index == s.last_log_index && req.last_log_term == s.last_log_term) by {
        assert(q[i - k] == next.actions[i]);
        let t = action_target_of(next.actions[i]);
        assert(q.map_values(|a: Action<N, D>| crate::raft_core::action_target(a))[i - k] == t);
        assert(q.map_values(|a: Action<N, D>| crate::raft_core::action_target(a)).to_set().contains(t));
    }
    assert(next.actions.take(k)[s.actions.len() as int] == next.actions[s.actions.len() as int]);
}

/// A node that learns of a later term persists it with the vote it holds,
/// becomes a follower with no known leader, stops its heartbeat and restarts
/// its election timer.
pub proof fn law_step_down_persists_term<N, D>(s: CoreView<N, D>, req: VoteRequest)
    requires
        s.wf(),
        s.role != Role::NonVoter,
        req.term > s.current_term,
    ensures
        s.vote(req).0.actions[s.actions.len() as int] == Action::<N, D>::SaveHardState(
            crate::storage::HardState { current_term: req.term, voted_for: s.voted_for },
        ),
        s.vote(req).0.actions[s.actions.len() + 1 as int] == Action::<N, D>::CancelHeartbeatTimeout,
        s.vote(req).0.actions[s.actions.len() + 2 as int] == Action::<N, D>::ResetElectionTimeout,
        s.vote(req).0.role == Role::Follower,
        s.vote(req).0.current_term == req.term,
        s.vote(req).0.leader is None,
{
}

/// A new leader expects every node it replicates to to miss everything after
/// its log, knows of no match yet, and starts its heartbeat.
pub proof fn law_new_leader_tracks_followers<N, D>(
    s: CoreView<N, D>,
    from: NodeId,
    term: TermId,
    resp: VoteResponse,
    next: CoreView<N, D>,
)
    requires
        s.wf(),
        s.last_log_index < u64::MAX,
        s.role == Role::Candidate,
        s.takes_vote_response(from, term, resp, next),
        next.role == Role::Leader,
    ensures
        forall|t: NodeId| #[trigger] s.membership.other_members(s.id).contains(t)
            ==> next.next_index.contains_key(t) && next.next_index[t] == s.last_log_index + 1
                && next.match_index.contains_key(t) && next.match_index[t] == 0,
        next.next_index.dom() == s.membership.other_members(s.id),
        next.commit_index == s.commit_index,
        next.actions[s.actions.len() + 2 as int] == Action::<N, D>::ResetHeartbeatTimeout(s.config.heartbeat_interval),
{
    let counted = CoreView { voted: s.voted.insert(from), ..s };
    let l = counted.leader_state();
    assert(next.actions.take(l.actions.len() as int)[s.actions.len() + 2 as int] == next.actions[s.actions.len() + 2 as int]);
    assert(next.next_index.dom() =~= s.membership.other_members(s.id));
}

/// A leader's heartbeat restarts its timer with the configured interval.
pub proof fn law_heartbeat_interval<N, D>(s: CoreView<N, D>, next: CoreView<N, D>)
    requires
        s.wf(),
        s.role == Role::Leader,
        s.heartbeat(next),
    ensures
        next.actions[s.actions.len() as int] == Action::<N, D>::ResetHeartbeatTimeout(s.config.heartbeat_interval),
        next.commit_index == s.commit_index,
{
    let h = s.emit(seq![Action::ResetHeartbeatTimeout(s.config.heartbeat_interval)]);
    assert(next.actions.take(h.actions.len() as int)[s.actions.len() as int] == next.actions[s.actions.len() as int]);
}

/// A leader's commit update moves the commit index only to an index some
/// tracked follower reaches and enough of them hold, or, for a single voter,
/// to its whole log.
pub proof fn law_commit_only_to_replicated<N, D>(s: CoreView<N, D>, next: CoreView<N, D>)
    requires
        s.wf(),
        s.advances_commit(next),
    ensures
        next.commit_index != s.commit_index ==> next.commit_index > s.commit_index && (
            (s.membership.members.len() == 1 && next.commit_index == s.last_log_index) || (
                (exists|k: NodeId| #[trigger] s.match_index.contains_key(k) && s.match_index[k] == next.commit_index)
                && s.match_index.dom().filter(|j: NodeId| s.match_index[j] >= next.commit_index).len()
                    >= s.membership.members.len() / 2)),
        s.membership.members.len() == 1 && s.last_log_index > s.commit_index ==> next.commit_index == s.last_log_index,
{
}

} // verus!
