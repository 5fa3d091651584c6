use std::sync::Arc;
use std::collections::BTreeMap;

use vstd::prelude::*;
use vstd::std_specs::iter::IteratorSpec;

use crate::error::RaftError;

verus! {

/// Identifier of a node of the cluster.
pub type NodeId = u64;

/// A Raft term.
pub type TermId = u64;

/// Position of an entry in the replicated log (the first entry has index 1).
pub type LogIndex = u64;

/// The part a node currently plays in the cluster.
#[derive(Debug, Copy, Clone, PartialEq, Eq, Structural)]
#[non_exhaustive]
pub enum Role {
    Follower,
    Candidate,
    Leader,
    NonVoter,
}

/// Another handle on the same shared node information. Calls `Arc::clone`,
/// which std documents as making another pointer to the same allocation; the
/// contract claims only that the result equals `info`.
#[verifier::external_body]
pub(crate) fn share<N>(info: &Arc<N>) -> (r: Arc<N>)
    ensures
        r == *info,
{
    Arc::clone(info)
}

/// The model of a membership: voters and non-voters, each with its node information.
#[verifier::ext_equal]
pub struct MembershipView<N> {
    pub members: Map<NodeId, N>,
    pub non_voters: Map<NodeId, N>,
}

impl<N> MembershipView<N> {
    /// No node is both a voter and a non-voter.
    pub open spec fn wf(self) -> bool {
        self.members.dom().disjoint(self.non_voters.dom())
    }

    /// Whether `id` belongs to the cluster in either part.
    pub open spec fn knows(self, id: NodeId) -> bool {
        self.members.contains_key(id) || self.non_voters.contains_key(id)
    }

    /// The information on `id`, looked up among voters first.
    pub open spec fn info(self, id: NodeId) -> Option<N> {
        if self.members.contains_key(id) {
            Some(self.members[id])
        } else if self.non_voters.contains_key(id) {
            Some(self.non_voters[id])
        } else {
            None
        }
    }

    /// The nodes other than `current` that receive replicated entries:
    /// every voter but `current`, and every non-voter.
    pub open spec fn other_members(self, current: NodeId) -> Set<NodeId> {
        self.members.dom().remove(current) + self.non_voters.dom()
    }

    /// The membership with `id` added as a non-voter.
    pub open spec fn add_non_voter(self, id: NodeId, info: N) -> Self {
        MembershipView { members: self.members, non_voters: self.non_voters.insert(id, info) }
    }

    /// The membership with `id` removed from both parts.
    pub open spec fn remove_node(self, id: NodeId) -> Self {
        MembershipView { members: self.members.remove(id), non_voters: self.non_voters.remove(id) }
    }

    /// The membership with the non-voter `id` made a voter, keeping its information.
    pub open spec fn promote(self, id: NodeId) -> Self {
        MembershipView {
            members: self.members.insert(id, self.non_voters[id]),
            non_voters: self.non_voters.remove(id),
        }
    }
}

/// The voters named by a list of (id, information) pairs, a later pair
/// for an id replacing an earlier one.
pub open spec fn voters_of<N>(pairs: Seq<(NodeId, N)>) -> Map<NodeId, N>
    decreases pairs.len(),
{
    if pairs.len() == 0 {
        Map::empty()
    } else {
        voters_of(pairs.drop_last()).insert(pairs.last().0, pairs.last().1)
    }
}

/// The node information held behind the shared pointers of a map.
pub open spec fn unshared<N>(m: Map<NodeId, Arc<N>>) -> Map<NodeId, N> {
    m.map_values(|a: Arc<N>| *a)
}

/// The voters and non-voters of the cluster, each with its node information.
#[derive(Debug)]
pub struct MemberShipConfig<N> {
    pub members: BTreeMap<NodeId, Arc<N>>,
    pub non_voters: BTreeMap<NodeId, Arc<N>>,
}

impl<N> View for MemberShipConfig<N> {
    type V = MembershipView<N>;

    open spec fn view(&self) -> MembershipView<N> {
        MembershipView { members: unshared(self.members@), non_voters: unshared(self.non_voters@) }
    }
}

impl<N> Clone for MemberShipConfig<N> {
    fn clone(&self) -> (r: Self)
        ensures
            r.members@ == self.members@,
            r.non_voters@ == self.non_voters@,
    {
        MemberShipConfig { members: self.members.clone(), non_voters: self.non_voters.clone() }
    }
}

impl<N> Default for MemberShipConfig<N> {
    fn default() -> (r: Self)
        ensures
            r.members@ == Map::<NodeId, Arc<N>>::empty(),
            r.non_voters@ == Map::<NodeId, Arc<N>>::empty(),
    {
        MemberShipConfig { members: BTreeMap::new(), non_voters: BTreeMap::new() }
    }
}

impl<N> MemberShipConfig<N> {
    /// A cluster whose voters are the given nodes (a later pair for an id
    /// replaces an earlier one) and which has no non-voters.
    pub fn from_members(members: Vec<(NodeId, N)>) -> (r: Self)
        ensures
            r@ == (MembershipView { members: voters_of(members@), non_voters: Map::<NodeId, N>::empty() }),
            r.members@.dom().finite(),
    {
        let mut map: BTreeMap<NodeId, Arc<N>> = BTreeMap::new();
        let ghost src = members@;
        for pair in it: members
            invariant
                it.seq() == src,
                unshared(map@) == voters_of(src.take(it.index())),
        {
            let ghost idx = it.index();
            proof {
                assert(pair == src[idx]);
                assert(src.take(idx + 1).drop_last() =~= src.take(idx));
            }
            let (id, info) = pair;
            map.insert(id, Arc::new(info));
            proof {
                assert(unshared(map@) =~= voters_of(src.take(idx + 1)));
            }
        }
        proof {
            assert(src.take(src.len() as int) =~= src);
        }
        let r = MemberShipConfig { members: map, non_voters: BTreeMap::new() };
        proof {
            assert(r@.non_voters =~= Map::<NodeId, N>::empty());
        }
        r
    }

    /// Whether `id` is a voter.
    pub fn is_member(&self, id: NodeId) -> (r: bool)
        ensures
            r == self@.members.contains_key(id),
    {
        self.members.contains_key(&id)
    }

    /// Whether `id` is a non-voter.
    pub fn is_non_voter(&self, id: NodeId) -> (r: bool)
        ensures
            r == self@.non_voters.contains_key(id),
    {
        self.non_voters.contains_key(&id)
    }

    /// The information on `id`, looked up among voters first, then non-voters.
    pub fn member_info(&self, id: NodeId) -> (r: Option<Arc<N>>)
        ensures
            match r {
                Some(a) => self@.info(id) == Some(*a),
                None => self@.info(id) is None,
            },
    {
        match self.members.get(&id) {
            Some(info) => Some(share(info)),
            None => match self.non_voters.get(&id) {
                Some(info) => Some(share(info)),
                None => None,
            },
        }
    }

    /// The voters other than `current`, each with its node information.
    pub fn other_voter_members(&self, current: NodeId) -> (r: Vec<(NodeId, Arc<N>)>)
        ensures
            ids_of(r@).no_duplicates(),
            ids_of(r@).to_set() == self@.members.dom().remove(current),
            forall|i: int| 0 <= i < r@.len() ==> self@.members.contains_key(#[trigger] r@[i].0)
                && r@[i].0 != current && self@.members[r@[i].0] == *r@[i].1,
    {
        entries_except(&self.members, Some(current))
    }

    /// The nodes that receive replicated entries from `current`: the other
    /// voters followed by every non-voter, each with its node information.
    pub fn other_members(&self, current: NodeId) -> (r: Vec<(NodeId, Arc<N>)>)
        ensures
            ids_of(r@).to_set() == self@.other_members(current),
            self@.wf() ==> ids_of(r@).no_duplicates(),
            forall|i: int| 0 <= i < r@.len() ==> {
                ||| (self@.members.contains_key(#[trigger] r@[i].0) && r@[i].0 != current
                    && self@.members[r@[i].0] == *r@[i].1)
                ||| (self@.non_voters.contains_key(r@[i].0) && self@.non_voters[r@[i].0] == *r@[i].1)
            },
    {
        let mut voters = entries_except(&self.members, Some(current));
        let mut rest = entries_except(&self.non_voters, None);
        let ghost v = voters@;
        let ghost w = rest@;
        voters.append(&mut rest);
        proof {
            let r = voters@;
            assert(self@.members.dom() =~= self.members@.dom());
            assert(self@.non_voters.dom() =~= self.non_voters@.dom());
            assert(r =~= v + w);
            assert(ids_of(r) =~= ids_of(v) + ids_of(w));
            assert(ids_of(r).to_set() =~= ids_of(v).to_set() + ids_of(w).to_set()) by {
                vstd::seq_lib::seq_to_set_distributes_over_add(ids_of(v), ids_of(w));
            }
            assert(ids_of(r).to_set() =~= self@.other_members(current));
            if self@.wf() {
                assert forall|a: int, b: int| 0 <= a < ids_of(r).len() && 0 <= b < ids_of(r).len() && a != b
                    implies ids_of(r)[a] != ids_of(r)[b] by {
                    if a < v.len() && b >= v.len() {
                        assert(self.members@.contains_key(ids_of(r)[a]));
                        assert(self.non_voters@.contains_key(w[b - v.len()].0));
                    } else if b < v.len() && a >= v.len() {
                        assert(self.members@.contains_key(ids_of(r)[b]));
                        assert(self.non_voters@.contains_key(w[a - v.len()].0));
                    } else if a < v.len() {
                        assert(ids_of(v)[a] != ids_of(v)[b]);
                    } else {
                        assert(ids_of(w)[a - v.len()] != ids_of(w)[b - v.len()]);
                    }
                }
            }
            assert forall|i: int| 0 <= i < r.len() implies {
                ||| (self@.members.contains_key(#[trigger] r[i].0) && r[i].0 != current
                    && self@.members[r[i].0] == *r[i].1)
                ||| (self@.non_voters.contains_key(r[i].0) && self@.non_voters[r[i].0] == *r[i].1)
            } by {
                if i < v.len() {
                    assert(self.members@.contains_key(v[i].0));
                } else {
                    let k = w[i - v.len()].0;
                    assert(self.non_voters@.contains_key(k));
                }
            }
        }
        voters
    }

    /// Makes the non-voter `id` a voter.
    pub fn convert_voter_to_follower(&self, id: NodeId) -> (r: Self)
        requires
            !self@.members.contains_key(id),
            self@.non_voters.contains_key(id),
        ensures
            r@ == self@.promote(id),
    {
        let mut new_members = self.members.clone();
        let mut new_non_voters = self.non_voters.clone();
        let removed = new_non_voters.remove(&id);
        match removed {
            Some(info) => {
                new_members.insert(id, info);
            },
            None => {},
        }
        let r = MemberShipConfig { members: new_members, non_voters: new_non_voters };
        proof {
            assert(r@.members =~= self@.promote(id).members);
            assert(r@.non_voters =~= self@.promote(id).non_voters);
        }
        r
    }

    /// Adds `id` as a non-voter; refused if the node is already known.
    pub fn add_non_voter(&self, id: NodeId, info: N) -> (r: Result<Self, RaftError>)
        ensures
            self@.knows(id) ==> r == Err::<Self, RaftError>(RaftError::NodeAlreadyRegistered(id)),
            !self@.knows(id) ==> (r matches Ok(c) && c@ == self@.add_non_voter(id, info)),
    {
        if self.is_member(id) || self.is_non_voter(id) {
            return Err(RaftError::NodeAlreadyRegistered(id));
        }
        let mut non_voters = self.non_voters.clone();
        non_voters.insert(id, Arc::new(info));
        let r = MemberShipConfig { members: self.members.clone(), non_voters };
        proof {
            assert(r@.non_voters =~= self@.non_voters.insert(id, info));
        }
        Ok(r)
    }

    /// Removes `id` from the cluster; refused if the node is unknown.
    pub fn remove_node(&self, id: NodeId) -> (r: Result<Self, RaftError>)
        ensures
            !self@.knows(id) ==> r == Err::<Self, RaftError>(RaftError::UnknownNode(id)),
            self@.knows(id) ==> (r matches Ok(c) && c@ == self@.remove_node(id)),
    {
        if !self.is_member(id) && !self.is_non_voter(id) {
            return Err(RaftError::UnknownNode(id));
        }
        let mut new_members = self.members.clone();
        let mut new_non_voters = self.non_voters.clone();
        new_members.remove(&id);
        new_non_voters.remove(&id);
        let r = MemberShipConfig { members: new_members, non_voters: new_non_voters };
        proof {
            assert(r@.members =~= self@.remove_node(id).members);
            assert(r@.non_voters =~= self@.remove_node(id).non_voters);
        }
        Ok(r)
    }
}

/// What a log entry carries.
#[derive(Debug, Clone)]
#[non_exhaustive]
pub enum EntryDetail<N, D> {
    /// A client command for the state machine.
    Normal(D),
    /// An entry without a command (used to confirm leadership for reads).
    Blank,
    /// A new cluster membership.
    ChangeMemberShip(MemberShipConfig<N>),
}

/// An entry of the replicated log.
#[derive(Debug, Clone)]
#[non_exhaustive]
pub struct Entry<N, D> {
    pub term: TermId,
    pub index: LogIndex,
    pub detail: EntryDetail<N, D>,
}

impl<N, D> Entry<N, D> {
    /// The entry at `index`, written in `term`, carrying `detail`.
    pub fn new(term: TermId, index: LogIndex, detail: EntryDetail<N, D>) -> (r: Self)
        ensures
            r.term == term,
            r.index == index,
            r.detail == detail,
    {
        Entry { term, index, detail }
    }
}

/// A snapshot of a node's state, for monitoring.
#[non_exhaustive]
pub struct Metrics<N> {
    pub id: NodeId,
    pub role: Role,
    pub current_term: TermId,
    pub last_log_index: LogIndex,
    pub last_applied: LogIndex,
    pub leader: Option<NodeId>,
    pub membership: MemberShipConfig<N>,
}

/// The node ids of a list of (id, information) pairs.
pub open spec fn ids_of<N>(v: Seq<(NodeId, Arc<N>)>) -> Seq<NodeId> {
    v.map_values(|p: (NodeId, Arc<N>)| p.0)
}

/// `v` lists each entry of `m` once and nothing else.
pub open spec fn lists_exactly<N>(v: Seq<(NodeId, Arc<N>)>, m: Map<NodeId, Arc<N>>) -> bool {
    &&& ids_of(v).no_duplicates()
    &&& ids_of(v).to_set() == m.dom()
    &&& forall|i: int| 0 <= i < v.len() ==> m.contains_key(#[trigger] v[i].0) && m[v[i].0] == v[i].1
}

/// `ids` without `skip`, if given.
pub open spec fn without(ids: Set<NodeId>, skip: Option<NodeId>) -> Set<NodeId> {
    match skip {
        Some(k) => ids.remove(k),
        None => ids,
    }
}

/// The entries of `map` whose id is not `skip`.
fn entries_except<N>(map: &BTreeMap<NodeId, Arc<N>>, skip: Option<NodeId>) -> (r: Vec<(NodeId, Arc<N>)>)
    ensures
        ids_of(r@).no_duplicates(),
        ids_of(r@).to_set() == without(map@.dom(), skip),
        forall|i: int| 0 <= i < r@.len() ==> Some(r@[i].0) != skip && map@.contains_key(#[trigger] r@[i].0) && map@[r@[i].0] == r@[i].1,
{
    let mut out: Vec<(NodeId, Arc<N>)> = Vec::new();
    let ghost m = map@;
    let ghost mut pos: Seq<int> = Seq::empty();
    let ghost seq = vstd::std_specs::btree::spec_btree_map_iter(map).remaining();
    for (id, info) in it: map.iter()
        invariant
            m == map@,
            seq == it.seq(),
            it.seq().len() == m.len(),
            forall|i: int| 0 <= i < it.seq().len() ==> m.contains_key(*(#[trigger] it.seq()[i]).0) && m[*it.seq()[i].0] == *it.seq()[i].1,
            forall|k: NodeId| m.contains_key(k) ==> it.seq().contains((&k, &m[k])),
            it.seq().no_duplicates(),
            out@.len() == pos.len(),
            forall|j: int| 0 <= j < pos.len() ==> 0 <= #[trigger] pos[j] < it.index(),
            forall|j1: int, j2: int| 0 <= j1 < j2 < pos.len() ==> pos[j1] < pos[j2],
            forall|j: int| 0 <= j < pos.len() ==> (#[trigger] out@[j]).0 == *it.seq()[pos[j]].0 && out@[j].1 == *it.seq()[pos[j]].1 && Some(out@[j].0) != skip,
            forall|i: int| 0 <= i < it.index() && Some(*it.seq()[i].0) != skip ==> exists|j: int| 0 <= j < pos.len() && #[trigger] pos[j] == i,
        ensures
            seq.len() == m.len(),
            forall|i: int| 0 <= i < seq.len() ==> m.contains_key(*(#[trigger] seq[i]).0) && m[*seq[i].0] == *seq[i].1,
            forall|k: NodeId| m.contains_key(k) ==> seq.contains((&k, &m[k])),
            seq.no_duplicates(),
            out@.len() == pos.len(),
            forall|j: int| 0 <= j < pos.len() ==> 0 <= #[trigger] pos[j] < seq.len(),
            forall|j: int| 0 <= j < pos.len() ==> (#[trigger] out@[j]).0 == *seq[pos[j]].0 && out@[j].1 == *seq[pos[j]].1 && Some(out@[j].0) != skip,
            forall|i: int| 0 <= i < seq.len() && Some(*seq[i].0) != skip ==> exists|j: int| 0 <= j < pos.len() && #[trigger] pos[j] == i,
    {
        let ghost idx = it.index();
        let ghost old_pos = pos;
        if Some(*id) != skip {
            out.push((*id, share(info)));
            proof {
                pos = pos.push(idx);
            }
        }
        proof {
            assert forall|i: int| 0 <= i < idx + 1 && Some(*it.seq()[i].0) != skip implies exists|j: int| 0 <= j < pos.len() && #[trigger] pos[j] == i by {
                if i == idx {
                    assert(pos[pos.len() - 1] == i);
                } else {
                    let j = choose|j: int| 0 <= j < old_pos.len() && #[trigger] old_pos[j] == i;
                    assert(pos[j] == i);
                }
            }
        }
    }
    proof {
        assert forall|j1: int, j2: int| 0 <= j1 < ids_of(out@).len() && 0 <= j2 < ids_of(out@).len() && j1 != j2
            implies ids_of(out@)[j1] != ids_of(out@)[j2] by {
            let p1 = pos[j1];
            let p2 = pos[j2];
            if ids_of(out@)[j1] == ids_of(out@)[j2] {
                assert(seq[p1] == seq[p2]);
            }
        }
        assert forall|k: NodeId| ids_of(out@).to_set().contains(k) <==> without(m.dom(), skip).contains(k) by {
            if without(m.dom(), skip).contains(k) {
                assert(seq.contains((&k, &m[k])));
                let i = choose|i: int| 0 <= i < seq.len() && seq[i] == (&k, &m[k]);
                let j = choose|j: int| 0 <= j < pos.len() && #[trigger] pos[j] == i;
                assert(ids_of(out@)[j] == k);
            }
            if ids_of(out@).to_set().contains(k) {
                let j = choose|j: int| 0 <= j < ids_of(out@).len() && ids_of(out@)[j] == k;
                assert(out@[j].0 == k);
            }
        }
        assert(ids_of(out@).to_set() =~= without(m.dom(), skip));
    }
    out
}

} // verus!
