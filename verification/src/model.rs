//! The mathematical model of a node: its state as plain values and the
//! transition it makes on each event.
//!
//! Every handler of the executable node is proved to compute exactly the
//! transition given here, and the safety theorems of the cluster are proved
//! over these functions.

use crate::log::{agreeing_entries, has_prefix, last_term, merged, payloads};
use crate::types::{Envelope, EventView, LogEntry, Role};
use vstd::prelude::*;

verus! {

/// The state of one node.
#[verifier::ext_equal]
pub struct NodeState {
    /// The node's own identifier.
    pub id: u64,
    /// The identifiers of the other members of the cluster, in the order in
    /// which messages to them are produced.
    pub peers: Seq<u64>,
    pub current_term: u64,
    pub voted_for: Option<u64>,
    pub current_role: Role,
    pub current_leader: Option<u64>,
    /// Who granted this node its vote in the current election.
    pub votes_received: Set<u64>,
    pub log: Seq<LogEntry>,
    /// The number of leading log entries known to be committed.
    pub commit_length: usize,
    /// For each peer, how much of the log a leader believes it has sent.
    pub sent_length: Map<u64, usize>,
    /// For each peer, how much of the log it has acknowledged to a leader.
    pub acked_length: Map<u64, usize>,
}

/// What handling one event does: the state afterwards and the effects.
#[verifier::ext_equal]
pub struct Transition {
    pub state: NodeState,
    pub messages: Seq<Envelope>,
    pub delivered: Seq<u64>,
    pub reset_election_timer: bool,
}

/// Whether `count` nodes are a strict majority of a cluster of `cluster_size`.
pub open spec fn is_majority(count: nat, cluster_size: nat) -> bool {
    2 * count > cluster_size
}

/// Whether a candidate whose log ends in term `last_log_term` and has
/// `last_log_length` entries is at least as up to date as `log`: by the term
/// of the last entry first, by length second.
pub open spec fn up_to_date(
    last_log_term: u64,
    last_log_length: usize,
    log: Seq<LogEntry>,
) -> bool {
    last_log_term > last_term(log) || (last_log_term == last_term(log) && last_log_length
        >= log.len())
}

/// How many of `peers` have acknowledged at least `length` entries.
pub open spec fn ack_count(peers: Seq<u64>, acked: Map<u64, usize>, length: int) -> nat
    decreases peers.len(),
{
    if peers.len() == 0 {
        0
    } else {
        ack_count(peers.drop_last(), acked, length) + if acked[peers.last()] >= length {
            1nat
        } else {
            0nat
        }
    }
}

/// The map that gives every one of `peers` the same `value`.
pub open spec fn uniform(peers: Seq<u64>, value: usize) -> Map<u64, usize> {
    Map::new(|p: u64| peers.contains(p), |p: u64| value)
}

/// A value is among the first `i + 1` items of a sequence exactly if it is
/// among the first `i` or is the item at `i`.
pub proof fn lemma_prefix_contains(s: Seq<u64>, i: int, p: u64)
    requires
        0 <= i < s.len(),
    ensures
        s.subrange(0, i + 1).contains(p) <==> (s.subrange(0, i).contains(p) || p == s[i]),
{
    let before = s.subrange(0, i);
    let after = s.subrange(0, i + 1);
    if after.contains(p) {
        let j = choose|j: int| 0 <= j < after.len() && after[j] == p;
        if j < i {
            assert(before[j] == p);
        }
    }
    if before.contains(p) {
        let j = choose|j: int| 0 <= j < before.len() && before[j] == p;
        assert(after[j] == p);
    }
    if p == s[i] {
        assert(after[i] == p);
    }
}

impl NodeState {
    /// A node as it starts: a follower in term 0 with an empty log.
    pub open spec fn initial(id: u64, peers: Seq<u64>) -> NodeState {
        NodeState {
            id,
            peers,
            current_term: 0,
            voted_for: None,
            current_role: Role::Follower,
            current_leader: None,
            votes_received: Set::empty(),
            log: Seq::empty(),
            commit_length: 0,
            sent_length: uniform(peers, 0),
            acked_length: uniform(peers, 0),
        }
    }

    /// The invariant of a node's state.
    pub open spec fn wf(self) -> bool {
        &&& self.peers.no_duplicates()
        &&& !self.peers.contains(self.id)
        &&& forall|p: u64| #[trigger] self.sent_length.contains_key(p) <==> self.peers.contains(p)
        &&& forall|p: u64| #[trigger]
            self.acked_length.contains_key(p) <==> self.peers.contains(p)
        &&& self.votes_received.finite()
        &&& forall|p: u64| #[trigger]
            self.votes_received.contains(p) ==> p == self.id || self.peers.contains(p)
        &&& self.log.len() <= isize::MAX
        &&& self.commit_length <= self.log.len()
        &&& self.current_role is Leader ==> forall|p: u64| #[trigger]
            self.sent_length.contains_key(p) ==> self.sent_length[p] <= self.log.len()
    }

    /// The number of members of the cluster, this node counted.
    pub open spec fn cluster_size(self) -> nat {
        self.peers.len() + 1
    }

    /// The payloads this node has delivered: those of its committed entries.
    pub open spec fn deliveries(self) -> Seq<u64> {
        payloads(self.log.subrange(0, self.commit_length as int))
    }

    /// The state after a message of a later term has been seen: the term is
    /// taken over, and with it vote, leader and election bookkeeping are
    /// forgotten. An equal or earlier term changes nothing.
    pub open spec fn adopt_term(self, term: u64) -> NodeState {
        if term > self.current_term {
            NodeState {
                current_term: term,
                voted_for: None,
                current_role: Role::Follower,
                current_leader: None,
                votes_received: Set::empty(),
                ..self
            }
        } else {
            self
        }
    }

    /// The replication message a leader sends to `peer`: everything from what
    /// it believes sent to the end of its log.
    pub open spec fn request_for(self, peer: u64) -> EventView {
        let sent = self.sent_length[peer] as int;
        EventView::LogRequest {
            term: self.current_term,
            leader_id: self.id,
            prev_log_index: (sent - 1) as isize,
            prev_log_term: if sent == 0 {
                0
            } else {
                self.log[sent - 1].term
            },
            entries: self.log.subrange(sent, self.log.len() as int),
            leader_commit: self.commit_length,
        }
    }

    /// One replication message to every peer.
    pub open spec fn replication_round(self) -> Seq<Envelope> {
        Seq::new(
            self.peers.len(),
            |i: int| Envelope { to: self.peers[i], event: self.request_for(self.peers[i]) },
        )
    }

    /// One vote request to every peer.
    pub open spec fn vote_requests(self) -> Seq<Envelope> {
        Seq::new(
            self.peers.len(),
            |i: int|
                Envelope {
                    to: self.peers[i],
                    event: EventView::VoteRequest {
                        term: self.current_term,
                        candidate_id: self.id,
                        last_log_term: last_term(self.log),
                        last_log_length: self.log.len() as usize,
                    },
                },
        )
    }

    /// Whether a leader may commit the first `length` entries of its log: the
    /// last of them is of its own term, and a strict majority of the cluster,
    /// the leader counted, holds them all.
    pub open spec fn committable(self, length: int) -> bool {
        &&& 0 < length <= self.log.len()
        &&& self.log[length - 1].term == self.current_term
        &&& is_majority(
            ack_count(self.peers, self.acked_length, length) + 1,
            self.cluster_size(),
        )
    }

    /// The greatest committable length above `commit_length` and up to
    /// `upto`, or `commit_length` where there is none.
    pub open spec fn highest_committable(self, upto: nat) -> nat
        decreases upto,
    {
        if upto <= self.commit_length {
            self.commit_length as nat
        } else if self.committable(upto as int) {
            upto
        } else {
            self.highest_committable((upto - 1) as nat)
        }
    }

    /// The commit length a leader moves to after an acknowledgement.
    pub open spec fn advanced_commit(self) -> nat {
        self.highest_committable(self.log.len())
    }
}

/// The transition that changes nothing but the state and has no effects.
pub open spec fn silent(state: NodeState) -> Transition {
    Transition {
        state,
        messages: Seq::empty(),
        delivered: Seq::empty(),
        reset_election_timer: false,
    }
}

/// The election timer fired. A leader ignores it. Any other node starts an
/// election: it moves to the next term as a candidate, votes for itself and
/// asks every peer for its vote.
pub open spec fn election_timeout(s: NodeState) -> Transition {
    if s.current_role is Leader {
        silent(s)
    } else {
        let state = NodeState {
            current_term: (s.current_term + 1) as u64,
            current_role: Role::Candidate,
            voted_for: Some(s.id),
            votes_received: set![s.id],
            current_leader: None,
            ..s
        };
        Transition {
            state,
            messages: state.vote_requests(),
            delivered: Seq::empty(),
            reset_election_timer: true,
        }
    }
}

/// Whether a node in state `s` grants its vote to `candidate_id`. `s` is the
/// state after the request's term has been adopted.
pub open spec fn grants_vote(
    s: NodeState,
    term: u64,
    candidate_id: u64,
    last_log_term: u64,
    last_log_length: usize,
) -> bool {
    &&& term == s.current_term
    &&& (s.voted_for is None || s.voted_for == Some(candidate_id))
    &&& up_to_date(last_log_term, last_log_length, s.log)
}

/// A candidate asked for this node's vote. A later term is adopted first.
/// The vote is granted if the request is of the current term, the node has
/// not voted for anyone else in it, and the candidate's log is at least as
/// up to date as its own. The answer goes to the candidate.
pub open spec fn vote_request(
    s: NodeState,
    term: u64,
    candidate_id: u64,
    last_log_term: u64,
    last_log_length: usize,
) -> Transition {
    let adopted = s.adopt_term(term);
    let granted = grants_vote(adopted, term, candidate_id, last_log_term, last_log_length);
    Transition {
        state: if granted {
            NodeState { voted_for: Some(candidate_id), ..adopted }
        } else {
            adopted
        },
        messages: seq![
            Envelope {
                to: candidate_id,
                event: EventView::VoteResponse { from: s.id, term: adopted.current_term, granted },
            },
        ],
        delivered: Seq::empty(),
        reset_election_timer: granted,
    }
}

/// The state of a candidate that has just won its election: it leads, takes
/// every peer to have been sent the whole log and to have acknowledged
/// nothing.
pub open spec fn elected(s: NodeState) -> NodeState {
    NodeState {
        current_role: Role::Leader,
        current_leader: Some(s.id),
        sent_length: uniform(s.peers, s.log.len() as usize),
        acked_length: uniform(s.peers, 0),
        ..s
    }
}

/// A peer answered a vote request. A follower does not listen. A later term
/// makes a candidate or leader step down. A vote granted for the current
/// term by a peer is counted; when a candidate has a strict majority of the
/// cluster, its own vote counted, it becomes leader and at once sends a
/// replication message to every peer. A leader goes on counting the votes
/// that still arrive.
pub open spec fn vote_response(s: NodeState, from: u64, term: u64, granted: bool) -> Transition {
    if s.current_role is Follower {
        silent(s)
    } else if term > s.current_term {
        silent(s.adopt_term(term))
    } else if granted && term == s.current_term && s.peers.contains(from) {
        let counted = NodeState { votes_received: s.votes_received.insert(from), ..s };
        if s.current_role is Candidate && is_majority(
            counted.votes_received.len(),
            s.cluster_size(),
        ) {
            let state = elected(counted);
            Transition {
                state,
                messages: state.replication_round(),
                delivered: Seq::empty(),
                reset_election_timer: false,
            }
        } else {
            silent(counted)
        }
    } else {
        silent(s)
    }
}

/// The answer of a node with identifier `from` to a replication message.
pub open spec fn log_response(
    to: u64,
    from: u64,
    term: u64,
    success: bool,
    ack_length: usize,
) -> Seq<Envelope> {
    seq![Envelope { to, event: EventView::LogResponse { from, term, success, ack_length } }]
}

/// Whether a follower in state `s` takes the entries of a replication
/// message of its own or a later term: its log holds the entry before them,
/// the log that results fits the machine, and no committed entry would be
/// rewritten.
pub open spec fn accepts_entries(
    s: NodeState,
    prev_log_index: isize,
    prev_log_term: u64,
    entries: Seq<LogEntry>,
) -> bool {
    let start = prev_log_index + 1;
    let k = agreeing_entries(s.log, start, entries, 0);
    &&& has_prefix(s.log, prev_log_index as int, prev_log_term)
    &&& start + entries.len() <= isize::MAX
    &&& !(k < entries.len() && start + k < s.commit_length)
}

/// A leader sent a replication message. One of an earlier term is refused
/// with the current term. Otherwise the node adopts the term, follows the
/// sender, and takes the entries if `accepts_entries` holds: the conflicting
/// suffix of its log is cut, the entries are appended, and the commit length
/// moves up to the leader's where the log reaches that far. The payloads
/// that became committed are delivered in log order.
pub open spec fn log_request(
    s: NodeState,
    term: u64,
    leader_id: u64,
    prev_log_index: isize,
    prev_log_term: u64,
    entries: Seq<LogEntry>,
    leader_commit: usize,
) -> Transition {
    if term < s.current_term {
        Transition {
            state: s,
            messages: log_response(leader_id, s.id, s.current_term, false, 0),
            delivered: Seq::empty(),
            reset_election_timer: false,
        }
    } else {
        let follower = NodeState {
            current_role: Role::Follower,
            current_leader: Some(leader_id),
            votes_received: Set::empty(),
            ..s.adopt_term(term)
        };
        if !accepts_entries(s, prev_log_index, prev_log_term, entries) {
            Transition {
                state: follower,
                messages: log_response(leader_id, s.id, term, false, 0),
                delivered: Seq::empty(),
                reset_election_timer: true,
            }
        } else {
            let log = merged(s.log, prev_log_index + 1, entries);
            let reachable = if leader_commit <= log.len() {
                leader_commit
            } else {
                log.len() as usize
            };
            let commit_length = if reachable > s.commit_length {
                reachable
            } else {
                s.commit_length
            };
            Transition {
                state: NodeState { log, commit_length, ..follower },
                messages: log_response(
                    leader_id,
                    s.id,
                    term,
                    true,
                    (prev_log_index + 1 + entries.len()) as usize,
                ),
                delivered: payloads(log.subrange(s.commit_length as int, commit_length as int)),
                reset_election_timer: true,
            }
        }
    }
}

/// A peer answered a replication message. Only a leader listens. A later
/// term makes it step down; an earlier term, an unknown sender or an
/// acknowledgement of more than the log holds is dropped. On success the
/// peer's sent and acknowledged lengths become `ack_length` and the commit
/// length advances as far as `committable` allows; on failure the peer's
/// sent length goes back by one, not below 0.
pub open spec fn log_response_received(
    s: NodeState,
    from: u64,
    term: u64,
    success: bool,
    ack_length: usize,
) -> Transition {
    if !(s.current_role is Leader) {
        silent(s)
    } else if term > s.current_term {
        silent(s.adopt_term(term))
    } else if term < s.current_term || !s.peers.contains(from) {
        silent(s)
    } else if success {
        if ack_length > s.log.len() {
            silent(s)
        } else {
            let acked = NodeState {
                sent_length: s.sent_length.insert(from, ack_length),
                acked_length: s.acked_length.insert(from, ack_length),
                ..s
            };
            let commit_length = acked.advanced_commit() as usize;
            Transition {
                state: NodeState { commit_length, ..acked },
                messages: Seq::empty(),
                delivered: payloads(s.log.subrange(s.commit_length as int, commit_length as int)),
                reset_election_timer: false,
            }
        }
    } else {
        let sent = s.sent_length[from];
        silent(
            NodeState {
                sent_length: s.sent_length.insert(
                    from,
                    if sent > 0 {
                        (sent - 1) as usize
                    } else {
                        0
                    },
                ),
                ..s
            },
        )
    }
}

/// The replication timer fired: a leader sends a replication message to
/// every peer; any other node does nothing.
pub open spec fn replication_timeout(s: NodeState) -> Transition {
    if s.current_role is Leader {
        Transition {
            state: s,
            messages: s.replication_round(),
            delivered: Seq::empty(),
            reset_election_timer: false,
        }
    } else {
        silent(s)
    }
}

/// A client proposed `payload`: a leader appends it to its log under the
/// current term and at once sends a replication message to every peer; any
/// other node drops it.
pub open spec fn broadcast(s: NodeState, payload: u64) -> Transition {
    if s.current_role is Leader {
        let state = NodeState {
            log: s.log.push(LogEntry { term: s.current_term, payload }),
            ..s
        };
        Transition {
            state,
            messages: state.replication_round(),
            delivered: Seq::empty(),
            reset_election_timer: false,
        }
    } else {
        silent(s)
    }
}

/// The transition a node in state `s` makes on `event`.
pub open spec fn step(s: NodeState, event: EventView) -> Transition {
    match event {
        EventView::ElectionTimeout => election_timeout(s),
        EventView::ReplicationTimeout => replication_timeout(s),
        EventView::VoteRequest { term, candidate_id, last_log_term, last_log_length } =>
            vote_request(s, term, candidate_id, last_log_term, last_log_length),
        EventView::VoteResponse { from, term, granted } => vote_response(s, from, term, granted),
        EventView::LogRequest {
            term,
            leader_id,
            prev_log_index,
            prev_log_term,
            entries,
            leader_commit,
        } => log_request(
            s,
            term,
            leader_id,
            prev_log_index,
            prev_log_term,
            entries,
            leader_commit,
        ),
        EventView::LogResponse { from, term, success, ack_length } => log_response_received(
            s,
            from,
            term,
            success,
            ack_length,
        ),
        EventView::Broadcast { payload } => broadcast(s, payload),
    }
}

/// Whether the machine's integers can hold what `event` asks of a node in
/// state `s`: an election needs a next term, a proposal needs room in the
/// log. Every other event is handled in any state.
pub open spec fn within_limits(s: NodeState, event: EventView) -> bool {
    match event {
        EventView::ElectionTimeout => s.current_role is Leader || s.current_term < u64::MAX,
        EventView::Broadcast { .. } => !(s.current_role is Leader) || s.log.len() < isize::MAX,
        _ => true,
    }
}

} // verus!
