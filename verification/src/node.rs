//! The executable node. Each handler is proved to make exactly the
//! transition that [`crate::model`] gives for its event.

use crate::log::{
    append_entries, holds_prefix, lemma_agreeing_entries, matching_prefix, payloads,
    payloads_between, suffix,
};
use crate::model::{
    accepts_entries, ack_count, broadcast, election_timeout, is_majority, log_request,
    lemma_prefix_contains, log_response_received, replication_timeout, step, uniform,
    vote_request, vote_response, within_limits, NodeState, Transition,
};
use crate::types::{envelopes, Effects, Event, EventView, LogEntry, NotLeaderError, Outbound, Role};
use std::collections::{HashMap, HashSet};
use vstd::prelude::*;

verus! {

broadcast use vstd::std_specs::hash::group_hash_axioms;

/// One member of a Raft cluster.
#[derive(Debug)]
pub struct Raft {
    id: u64,
    peers: Vec<u64>,
    current_term: u64,
    voted_for: Option<u64>,
    current_role: Role,
    current_leader: Option<u64>,
    votes_received: HashSet<u64>,
    log: Vec<LogEntry>,
    commit_length: usize,
    sent_length: HashMap<u64, usize>,
    acked_length: HashMap<u64, usize>,
}

impl View for Raft {
    type V = NodeState;

    closed spec fn view(&self) -> NodeState {
        NodeState {
            id: self.id,
            peers: self.peers@,
            current_term: self.current_term,
            voted_for: self.voted_for,
            current_role: self.current_role,
            current_leader: self.current_leader,
            votes_received: self.votes_received@,
            log: self.log@,
            commit_length: self.commit_length,
            sent_length: self.sent_length@,
            acked_length: self.acked_length@,
        }
    }
}

/// Whether `out` carries exactly the effects of the transition `t`.
pub open spec fn carries(out: Effects, t: Transition) -> bool {
    &&& envelopes(out.messages@) == t.messages
    &&& out.delivered@ == t.delivered
    &&& out.reset_election_timer == t.reset_election_timer
}

/// Whether `peers` names every other member once and leaves `id` out.
fn valid_peers(id: u64, peers: &Vec<u64>) -> (ok: bool)
    ensures
        ok == (peers@.no_duplicates() && !peers@.contains(id)),
{
    let mut seen: HashSet<u64> = HashSet::new();
    let mut i: usize = 0;
    while i < peers.len()
        invariant
            i <= peers.len(),
            forall|p: u64| seen@.contains(p) <==> peers@.subrange(0, i as int).contains(p),
            peers@.subrange(0, i as int).no_duplicates(),
            !peers@.subrange(0, i as int).contains(id),
        decreases peers.len() - i,
    {
        let p = peers[i];
        proof {
            lemma_prefix_contains(peers@, i as int, id);
            assert forall|q: u64|
                peers@.subrange(0, i + 1).contains(q) <==> (peers@.subrange(0, i as int).contains(
                    q,
                ) || q == p) by {
                lemma_prefix_contains(peers@, i as int, q);
            }
        }
        if p == id {
            proof {
                assert(peers@[i as int] == id);
            }
            return false;
        }
        if seen.contains(&p) {
            proof {
                let before = peers@.subrange(0, i as int);
                let j = choose|j: int| 0 <= j < before.len() && before[j] == p;
                assert(peers@[j] == peers@[i as int] && j != i);
            }
            return false;
        }
        seen.insert(p);
        proof {
            let before = peers@.subrange(0, i as int);
            let after = peers@.subrange(0, i + 1);
            assert forall|a: int, b: int| 0 <= a < after.len() && 0 <= b < after.len() && a
                != b implies after[a] != after[b] by {
                if a < i && b < i {
                    assert(before[a] != before[b]);
                } else if a < i {
                    assert(before[a] == after[a]);
                } else {
                    assert(before[b] == after[b]);
                }
            }
        }
        i += 1;
    }
    proof {
        assert(peers@.subrange(0, peers.len() as int) == peers@);
    }
    true
}

/// A map that gives every one of `peers` the same `value`.
fn uniform_map(peers: &Vec<u64>, value: usize) -> (m: HashMap<u64, usize>)
    ensures
        m@ == uniform(peers@, value),
{
    let mut m: HashMap<u64, usize> = HashMap::new();
    let mut i: usize = 0;
    proof {
        assert(m@ =~= uniform(peers@.subrange(0, 0), value));
    }
    while i < peers.len()
        invariant
            i <= peers.len(),
            m@ == uniform(peers@.subrange(0, i as int), value),
        decreases peers.len() - i,
    {
        m.insert(peers[i], value);
        proof {
            assert forall|q: u64|
                peers@.subrange(0, i + 1).contains(q) <==> (peers@.subrange(0, i as int).contains(
                    q,
                ) || q == peers@[i as int]) by {
                lemma_prefix_contains(peers@, i as int, q);
            }
            assert(m@ =~= uniform(peers@.subrange(0, i + 1), value));
        }
        i += 1;
    }
    proof {
        assert(peers@.subrange(0, peers.len() as int) == peers@);
    }
    m
}

/// Whether `others` nodes and the node itself are a strict majority of a
/// cluster of `peers` other nodes and the node itself.
fn majority_with_self(others: usize, peers: usize) -> (yes: bool)
    ensures
        yes == is_majority((others + 1) as nat, (peers + 1) as nat),
{
    others >= peers / 2 + peers % 2
}

/// Where no peer has acknowledged more than `most` entries, none is counted
/// for a greater length.
proof fn lemma_none_acked(peers: Seq<u64>, acked: Map<u64, usize>, length: int, most: int)
    requires
        forall|j: int| 0 <= j < peers.len() ==> acked[#[trigger] peers[j]] <= most,
        most < length,
    ensures
        ack_count(peers, acked, length) == 0,
    decreases peers.len(),
{
    if peers.len() > 0 {
        let init = peers.drop_last();
        assert forall|j: int| 0 <= j < init.len() implies acked[#[trigger] init[j]] <= most by {
            assert(init[j] == peers[j]);
        }
        lemma_none_acked(init, acked, length, most);
        assert(peers.last() == peers[peers.len() - 1]);
    }
}

/// Lengths that are not committable can be skipped in the search for the
/// greatest committable length.
proof fn lemma_skip(s: NodeState, from: nat, upto: nat)
    requires
        s.commit_length <= from <= upto,
        forall|l: int| from < l <= upto ==> !s.committable(l),
    ensures
        s.highest_committable(upto) == s.highest_committable(from),
    decreases upto - from,
{
    if from < upto {
        assert(!s.committable(upto as int));
        lemma_skip(s, from, (upto - 1) as nat);
    }
}

/// No effects at all.
fn nothing() -> (out: Effects)
    ensures
        out.messages@.len() == 0,
        out.delivered@.len() == 0,
        !out.reset_election_timer,
{
    Effects { messages: Vec::new(), delivered: Vec::new(), reset_election_timer: false }
}

impl Raft {
    /// The invariant of a node: that of its state.
    pub open spec fn wf(&self) -> bool {
        self@.wf()
    }

    /// A node as it starts: a follower in term 0 with an empty log, in a
    /// cluster made of itself and `peers`. There is no node where `peers`
    /// names a node twice or names `id`.
    pub fn new(id: u64, peers: Vec<u64>) -> (node: Option<Raft>)
        ensures
            node is Some <==> peers@.no_duplicates() && !peers@.contains(id),
            node matches Some(n) ==> n.wf() && n@ == NodeState::initial(id, peers@),
    {
        if !valid_peers(id, &peers) {
            return None;
        }
        let sent_length = uniform_map(&peers, 0);
        let acked_length = uniform_map(&peers, 0);
        let node = Raft {
            id,
            peers,
            current_term: 0,
            voted_for: None,
            current_role: Role::Follower,
            current_leader: None,
            votes_received: HashSet::new(),
            log: Vec::new(),
            commit_length: 0,
            sent_length,
            acked_length,
        };
        Some(node)
    }

    pub fn id(&self) -> (id: u64)
        ensures
            id == self@.id,
    {
        self.id
    }

    /// The other members of the cluster.
    pub fn peers(&self) -> (peers: &Vec<u64>)
        ensures
            peers@ == self@.peers,
    {
        &self.peers
    }

    pub fn current_term(&self) -> (term: u64)
        ensures
            term == self@.current_term,
    {
        self.current_term
    }

    pub fn voted_for(&self) -> (vote: Option<u64>)
        ensures
            vote == self@.voted_for,
    {
        self.voted_for
    }

    pub fn current_role(&self) -> (role: Role)
        ensures
            role == self@.current_role,
    {
        self.current_role
    }

    pub fn current_leader(&self) -> (leader: Option<u64>)
        ensures
            leader == self@.current_leader,
    {
        self.current_leader
    }

    /// Whether `peer` granted this node its vote in the current election.
    pub fn has_vote_of(&self, peer: u64) -> (yes: bool)
        ensures
            yes == self@.votes_received.contains(peer),
    {
        self.votes_received.contains(&peer)
    }

    /// The number of votes received in the current election.
    pub fn vote_count(&self) -> (count: usize)
        ensures
            count == self@.votes_received.len(),
    {
        self.votes_received.len()
    }

    pub fn log_length(&self) -> (length: usize)
        ensures
            length == self@.log.len(),
    {
        self.log.len()
    }

    /// The log entry at `index`, if the log reaches that far.
    pub fn entry(&self, index: usize) -> (entry: Option<LogEntry>)
        ensures
            entry == if index < self@.log.len() {
                Some(self@.log[index as int])
            } else {
                None
            },
    {
        if index < self.log.len() {
            Some(self.log[index])
        } else {
            None
        }
    }

    pub fn commit_length(&self) -> (length: usize)
        ensures
            length == self@.commit_length,
    {
        self.commit_length
    }

    /// How much of the log this node believes it has sent to `peer`; `None`
    /// for a node that is no peer.
    pub fn sent_length(&self, peer: u64) -> (length: Option<usize>)
        ensures
            length == if self@.sent_length.contains_key(peer) {
                Some(self@.sent_length[peer])
            } else {
                None
            },
    {
        match self.sent_length.get(&peer) {
            Some(length) => Some(*length),
            None => None,
        }
    }

    /// How much of the log `peer` has acknowledged; `None` for a node that
    /// is no peer.
    pub fn acked_length(&self, peer: u64) -> (length: Option<usize>)
        ensures
            length == if self@.acked_length.contains_key(peer) {
                Some(self@.acked_length[peer])
            } else {
                None
            },
    {
        match self.acked_length.get(&peer) {
            Some(length) => Some(*length),
            None => None,
        }
    }

    /// Whether the machine's integers can hold what `event` asks of this
    /// node: `handle` takes exactly the events for which this holds.
    pub fn can_handle(&self, event: &Event) -> (yes: bool)
        ensures
            yes == within_limits(self@, event@),
    {
        match event {
            Event::ElectionTimeout => self.current_role == Role::Leader || self.current_term
                < u64::MAX,
            Event::Broadcast { .. } => self.current_role != Role::Leader || self.log.len() < (
            isize::MAX as usize),
            _ => true,
        }
    }

    /// Every payload delivered so far, in delivery order: the payloads of the
    /// committed entries.
    pub fn deliveries(&self) -> (out: Vec<u64>)
        requires
            self.wf(),
        ensures
            out@ == self@.deliveries(),
    {
        payloads_between(&self.log, 0, self.commit_length)
    }

    fn adopt(&mut self, term: u64)
        requires
            old(self).wf(),
        ensures
            final(self).wf(),
            final(self)@ == old(self)@.adopt_term(term),
    {
        if term > self.current_term {
            self.current_term = term;
            self.voted_for = None;
            self.current_role = Role::Follower;
            self.current_leader = None;
            self.votes_received = HashSet::new();
        }
    }

    fn request_for(&self, peer: u64) -> (event: Event)
        requires
            self.wf(),
            self@.current_role is Leader,
            self@.peers.contains(peer),
        ensures
            event@ == self@.request_for(peer),
    {
        let sent: usize = match self.sent_length.get(&peer) {
            Some(length) => *length,
            None => 0,
        };
        let prev_log_term: u64 = if sent == 0 {
            0
        } else {
            self.log[sent - 1].term
        };
        Event::LogRequest {
            term: self.current_term,
            leader_id: self.id,
            prev_log_index: sent as isize - 1,
            prev_log_term,
            entries: suffix(&self.log, sent),
            leader_commit: self.commit_length,
        }
    }

    fn replication_round(&self) -> (out: Vec<Outbound>)
        requires
            self.wf(),
            self@.current_role is Leader,
        ensures
            envelopes(out@) == self@.replication_round(),
    {
        let mut out: Vec<Outbound> = Vec::new();
        let mut i: usize = 0;
        while i < self.peers.len()
            invariant
                self.wf(),
                self@.current_role is Leader,
                i <= self.peers.len(),
                out@.len() == i,
                forall|j: int|
                    0 <= j < i ==> (#[trigger] out@[j])@ == self@.replication_round()[j],
            decreases self.peers.len() - i,
        {
            let peer = self.peers[i];
            proof {
                assert(self@.peers[i as int] == peer);
            }
            let event = self.request_for(peer);
            out.push(Outbound { to: peer, event });
            i += 1;
        }
        proof {
            assert(envelopes(out@) =~= self@.replication_round());
        }
        out
    }

    fn vote_requests(&self) -> (out: Vec<Outbound>)
        requires
            self.wf(),
        ensures
            envelopes(out@) == self@.vote_requests(),
    {
        let last_log_term = crate::log::last_log_term(&self.log);
        let mut out: Vec<Outbound> = Vec::new();
        let mut i: usize = 0;
        while i < self.peers.len()
            invariant
                self.wf(),
                last_log_term == crate::log::last_term(self@.log),
                i <= self.peers.len(),
                out@.len() == i,
                forall|j: int| 0 <= j < i ==> (#[trigger] out@[j])@ == self@.vote_requests()[j],
            decreases self.peers.len() - i,
        {
            let event = Event::VoteRequest {
                term: self.current_term,
                candidate_id: self.id,
                last_log_term,
                last_log_length: self.log.len(),
            };
            out.push(Outbound { to: self.peers[i], event });
            i += 1;
        }
        proof {
            assert(envelopes(out@) =~= self@.vote_requests());
        }
        out
    }

    fn count_acks(&self, length: usize) -> (count: usize)
        requires
            self.wf(),
        ensures
            count == ack_count(self@.peers, self@.acked_length, length as int),
    {
        let mut count: usize = 0;
        let mut i: usize = 0;
        while i < self.peers.len()
            invariant
                self.wf(),
                i <= self.peers.len(),
                count <= i,
                count == ack_count(
                    self@.peers.subrange(0, i as int),
                    self@.acked_length,
                    length as int,
                ),
            decreases self.peers.len() - i,
        {
            let peer = self.peers[i];
            proof {
                let upto = self@.peers.subrange(0, i + 1);
                assert(upto.drop_last() == self@.peers.subrange(0, i as int));
                assert(upto.last() == peer);
                assert(self@.peers.contains(peer));
            }
            let acked: usize = match self.acked_length.get(&peer) {
                Some(length) => *length,
                None => 0,
            };
            if acked >= length {
                count += 1;
            }
            i += 1;
        }
        proof {
            assert(self@.peers.subrange(0, self.peers.len() as int) == self@.peers);
        }
        count
    }

    fn is_committable(&self, length: usize) -> (yes: bool)
        requires
            self.wf(),
            0 < length <= self@.log.len(),
        ensures
            yes == self@.committable(length as int),
    {
        self.log[length - 1].term == self.current_term && majority_with_self(
            self.count_acks(length),
            self.peers.len(),
        )
    }

    /// A length above which no prefix of the log is committable: with peers,
    /// a prefix needs the acknowledgement of at least one of them, so none is
    /// longer than the most that any peer has acknowledged.
    fn highest_worth_trying(&self) -> (length: usize)
        requires
            self.wf(),
        ensures
            self@.commit_length <= length <= self@.log.len(),
            self@.highest_committable(length as nat) == self@.advanced_commit(),
    {
        let mut length: usize = self.log.len();
        if self.peers.len() > 0 {
            let mut most: usize = self.commit_length;
            let mut i: usize = 0;
            while i < self.peers.len()
                invariant
                    self.wf(),
                    i <= self.peers.len(),
                    self@.commit_length <= most,
                    forall|j: int|
                        0 <= j < i ==> self@.acked_length[#[trigger] self@.peers[j]] <= most,
                decreases self.peers.len() - i,
            {
                let peer = self.peers[i];
                proof {
                    assert(self@.peers.contains(peer));
                }
                let acked: usize = match self.acked_length.get(&peer) {
                    Some(length) => *length,
                    None => 0,
                };
                if acked > most {
                    most = acked;
                }
                i += 1;
            }
            if most < length {
                proof {
                    assert forall|l: int| most < l <= length implies !self@.committable(l) by {
                        lemma_none_acked(self@.peers, self@.acked_length, l, most as int);
                    }
                    lemma_skip(self@, most as nat, length as nat);
                }
                length = most;
            }
        }
        length
    }

    fn advance_commit(&mut self) -> (delivered: Vec<u64>)
        requires
            old(self).wf(),
        ensures
            final(self).wf(),
            old(self)@.commit_length <= old(self)@.advanced_commit() <= old(self)@.log.len(),
            final(self)@ == (NodeState {
                commit_length: old(self)@.advanced_commit() as usize,
                ..old(self)@
            }),
            delivered@ == payloads(
                old(self)@.log.subrange(
                    old(self)@.commit_length as int,
                    old(self)@.advanced_commit() as int,
                ),
            ),
    {
        let from = self.commit_length;
        let mut length: usize = self.highest_worth_trying();
        while length > from && !self.is_committable(length)
            invariant
                self.wf(),
                self == old(self),
                from == self@.commit_length,
                from <= length <= self@.log.len(),
                self@.highest_committable(length as nat) == self@.advanced_commit(),
            decreases length,
        {
            length -= 1;
        }
        self.commit_length = length;
        payloads_between(&self.log, from, length)
    }

    /// The election timer fired.
    pub fn on_election_timeout(&mut self) -> (out: Effects)
        requires
            old(self).wf(),
            within_limits(old(self)@, EventView::ElectionTimeout),
        ensures
            final(self).wf(),
            final(self)@ == election_timeout(old(self)@).state,
            carries(out, election_timeout(old(self)@)),
    {
        if self.current_role == Role::Leader {
            let out = nothing();
            proof {
                assert(envelopes(out.messages@) =~= Seq::empty());
                assert(out.delivered@ =~= Seq::empty());
            }
            return out;
        }
        self.current_term = self.current_term + 1;
        self.current_role = Role::Candidate;
        self.voted_for = Some(self.id);
        let mut votes: HashSet<u64> = HashSet::new();
        votes.insert(self.id);
        self.votes_received = votes;
        self.current_leader = None;
        proof {
            assert(self@.votes_received =~= set![self.id]);
        }
        let messages = self.vote_requests();
        let out = Effects { messages, delivered: Vec::new(), reset_election_timer: true };
        proof {
            assert(out.delivered@ =~= Seq::empty());
        }
        out
    }

    /// A candidate asked for this node's vote.
    pub fn on_vote_request(
        &mut self,
        term: u64,
        candidate_id: u64,
        last_log_term: u64,
        last_log_length: usize,
    ) -> (out: Effects)
        requires
            old(self).wf(),
        ensures
            final(self).wf(),
            final(self)@ == vote_request(
                old(self)@,
                term,
                candidate_id,
                last_log_term,
                last_log_length,
            ).state,
            carries(
                out,
                vote_request(old(self)@, term, candidate_id, last_log_term, last_log_length),
            ),
    {
        self.adopt(term);
        let free = match self.voted_for {
            None => true,
            Some(vote) => vote == candidate_id,
        };
        let own_term = crate::log::last_log_term(&self.log);
        let recent = last_log_term > own_term || (last_log_term == own_term && last_log_length
            >= self.log.len());
        let granted = term == self.current_term && free && recent;
        if granted {
            self.voted_for = Some(candidate_id);
        }
        let mut messages: Vec<Outbound> = Vec::new();
        messages.push(
            Outbound {
                to: candidate_id,
                event: Event::VoteResponse { from: self.id, term: self.current_term, granted },
            },
        );
        let out = Effects { messages, delivered: Vec::new(), reset_election_timer: granted };
        proof {
            let t = vote_request(old(self)@, term, candidate_id, last_log_term, last_log_length);
            assert(envelopes(out.messages@) =~= t.messages);
            assert(out.delivered@ =~= t.delivered);
        }
        out
    }

    /// A peer answered a vote request.
    pub fn on_vote_response(&mut self, from: u64, term: u64, granted: bool) -> (out: Effects)
        requires
            old(self).wf(),
        ensures
            final(self).wf(),
            final(self)@ == vote_response(old(self)@, from, term, granted).state,
            carries(out, vote_response(old(self)@, from, term, granted)),
    {
        let mut out = nothing();
        proof {
            assert(envelopes(out.messages@) =~= Seq::empty());
            assert(out.delivered@ =~= Seq::empty());
        }
        if self.current_role == Role::Follower {
            return out;
        }
        if term > self.current_term {
            self.adopt(term);
            return out;
        }
        if granted && term == self.current_term && self.sent_length.contains_key(&from) {
            self.votes_received.insert(from);
            let votes = self.votes_received.len();
            proof {
                vstd::set::axiom_set_contains_len(self@.votes_received, from);
            }
            if self.current_role == Role::Candidate && majority_with_self(
                votes - 1,
                self.peers.len(),
            ) {
                self.current_role = Role::Leader;
                self.current_leader = Some(self.id);
                self.sent_length = uniform_map(&self.peers, self.log.len());
                self.acked_length = uniform_map(&self.peers, 0);
                out.messages = self.replication_round();
            }
        }
        out
    }

    fn accepts(&self, prev_log_index: isize, prev_log_term: u64, entries: &Vec<LogEntry>) -> (yes:
        bool)
        requires
            self.wf(),
        ensures
            yes == accepts_entries(self@, prev_log_index, prev_log_term, entries@),
    {
        if !holds_prefix(&self.log, prev_log_index, prev_log_term) {
            return false;
        }
        let start: usize = (prev_log_index + 1) as usize;
        if entries.len() > (isize::MAX as usize) - start {
            return false;
        }
        let k = matching_prefix(&self.log, start, entries);
        !(k < entries.len() && start + k < self.commit_length)
    }

    /// A leader sent a replication message.
    pub fn on_log_request(
        &mut self,
        term: u64,
        leader_id: u64,
        prev_log_index: isize,
        prev_log_term: u64,
        entries: &Vec<LogEntry>,
        leader_commit: usize,
    ) -> (out: Effects)
        requires
            old(self).wf(),
        ensures
            final(self).wf(),
            final(self)@ == log_request(
                old(self)@,
                term,
                leader_id,
                prev_log_index,
                prev_log_term,
                entries@,
                leader_commit,
            ).state,
            carries(
                out,
                log_request(
                    old(self)@,
                    term,
                    leader_id,
                    prev_log_index,
                    prev_log_term,
                    entries@,
                    leader_commit,
                ),
            ),
    {
        let ghost t = log_request(
            old(self)@,
            term,
            leader_id,
            prev_log_index,
            prev_log_term,
            entries@,
            leader_commit,
        );
        let mut out = nothing();
        proof {
            assert(out.delivered@ =~= Seq::empty());
        }
        if term < self.current_term {
            out.messages.push(
                Outbound {
                    to: leader_id,
                    event: Event::LogResponse {
                        from: self.id,
                        term: self.current_term,
                        success: false,
                        ack_length: 0,
                    },
                },
            );
            proof {
                assert(envelopes(out.messages@) =~= t.messages);
            }
            return out;
        }
        let accepted = self.accepts(prev_log_index, prev_log_term, entries);
        self.adopt(term);
        self.current_role = Role::Follower;
        self.current_leader = Some(leader_id);
        self.votes_received = HashSet::new();
        out.reset_election_timer = true;
        if !accepted {
            out.messages.push(
                Outbound {
                    to: leader_id,
                    event: Event::LogResponse {
                        from: self.id,
                        term,
                        success: false,
                        ack_length: 0,
                    },
                },
            );
            proof {
                assert(envelopes(out.messages@) =~= t.messages);
            }
            return out;
        }
        let start: usize = (prev_log_index + 1) as usize;
        let from = self.commit_length;
        proof {
            let k = crate::log::agreeing_entries(self@.log, start as int, entries@, 0);
            lemma_agreeing_entries(self@.log, start as int, entries@, 0);
            if 0 < k {
                assert(crate::log::agrees_at(self@.log, start as int, entries@, k - 1));
            }
            assert(start + k <= self@.log.len());
        }
        append_entries(&mut self.log, start, entries);
        let reachable: usize = if leader_commit <= self.log.len() {
            leader_commit
        } else {
            self.log.len()
        };
        if reachable > from {
            self.commit_length = reachable;
        }
        out.delivered = payloads_between(&self.log, from, self.commit_length);
        out.messages.push(
            Outbound {
                to: leader_id,
                event: Event::LogResponse {
                    from: self.id,
                    term,
                    success: true,
                    ack_length: start + entries.len(),
                },
            },
        );
        proof {
            assert(envelopes(out.messages@) =~= t.messages);
        }
        out
    }

    /// A peer answered a replication message.
    pub fn on_log_response(
        &mut self,
        from: u64,
        term: u64,
        success: bool,
        ack_length: usize,
    ) -> (out: Effects)
        requires
            old(self).wf(),
        ensures
            final(self).wf(),
            final(self)@ == log_response_received(
                old(self)@,
                from,
                term,
                success,
                ack_length,
            ).state,
            carries(out, log_response_received(old(self)@, from, term, success, ack_length)),
    {
        let mut out = nothing();
        proof {
            assert(envelopes(out.messages@) =~= Seq::empty());
            assert(out.delivered@ =~= Seq::empty());
        }
        if self.current_role != Role::Leader {
            return out;
        }
        if term > self.current_term {
            self.adopt(term);
            return out;
        }
        if term < self.current_term || !self.sent_length.contains_key(&from) {
            return out;
        }
        if success {
            if ack_length <= self.log.len() {
                self.sent_length.insert(from, ack_length);
                self.acked_length.insert(from, ack_length);
                proof {
                    assert(self@ =~= (NodeState {
                        sent_length: old(self)@.sent_length.insert(from, ack_length),
                        acked_length: old(self)@.acked_length.insert(from, ack_length),
                        ..old(self)@
                    }));
                }
                out.delivered = self.advance_commit();
            }
        } else {
            let sent: usize = match self.sent_length.get(&from) {
                Some(length) => *length,
                None => 0,
            };
            self.sent_length.insert(
                from,
                if sent > 0 {
                    sent - 1
                } else {
                    0
                },
            );
        }
        out
    }

    /// The replication timer fired.
    pub fn on_replication_timeout(&self) -> (out: Effects)
        requires
            self.wf(),
        ensures
            carries(out, replication_timeout(self@)),
    {
        let mut out = nothing();
        proof {
            assert(envelopes(out.messages@) =~= Seq::empty());
            assert(out.delivered@ =~= Seq::empty());
        }
        if self.current_role == Role::Leader {
            out.messages = self.replication_round();
        }
        out
    }

    /// A client proposes `payload`. Only the leader takes it: it appends the
    /// payload to its log and answers with the replication messages to
    /// send. Any other node changes nothing and names the leader it knows.
    pub fn propose(&mut self, payload: u64) -> (result: Result<Effects, NotLeaderError>)
        requires
            old(self).wf(),
            within_limits(old(self)@, EventView::Broadcast { payload }),
        ensures
            final(self).wf(),
            result is Ok <==> old(self)@.current_role is Leader,
            result matches Ok(out) ==> final(self)@ == broadcast(old(self)@, payload).state
                && carries(out, broadcast(old(self)@, payload)),
            result matches Err(e) ==> final(self)@ == old(self)@ && e.leader
                == old(self)@.current_leader,
    {
        if self.current_role != Role::Leader {
            return Err(NotLeaderError { leader: self.current_leader });
        }
        self.log.push(LogEntry { term: self.current_term, payload });
        let mut out = nothing();
        proof {
            assert(out.delivered@ =~= Seq::empty());
        }
        out.messages = self.replication_round();
        Ok(out)
    }

    /// Handles one event: the node makes the transition that `step` gives
    /// and answers with its effects. A proposal made to a node that is not
    /// the leader is dropped.
    pub fn handle(&mut self, event: Event) -> (out: Effects)
        requires
            old(self).wf(),
            within_limits(old(self)@, event@),
        ensures
            final(self).wf(),
            final(self)@ == step(old(self)@, event@).state,
            carries(out, step(old(self)@, event@)),
    {
        match event {
            Event::ElectionTimeout => self.on_election_timeout(),
            Event::ReplicationTimeout => self.on_replication_timeout(),
            Event::VoteRequest { term, candidate_id, last_log_term, last_log_length } =>
                self.on_vote_request(term, candidate_id, last_log_term, last_log_length),
            Event::VoteResponse { from, term, granted } => self.on_vote_response(
                from,
                term,
                granted,
            ),
            Event::LogRequest {
                term,
                leader_id,
                prev_log_index,
                prev_log_term,
                entries,
                leader_commit,
            } => self.on_log_request(
                term,
                leader_id,
                prev_log_index,
                prev_log_term,
                &entries,
                leader_commit,
            ),
            Event::LogResponse { from, term, success, ack_length } => self.on_log_response(
                from,
                term,
                success,
                ack_length,
            ),
            Event::Broadcast { payload } => match self.propose(payload) {
                Ok(out) => out,
                Err(_) => {
                    let out = nothing();
                    proof {
                        assert(envelopes(out.messages@) =~= Seq::empty());
                        assert(out.delivered@ =~= Seq::empty());
                    }
                    out
                },
            },
        }
    }
}

} // verus!
