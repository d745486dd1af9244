//! What has happened in an execution, as far as the safety proofs need to
//! remember it: who voted for whom, who led which term and with which log,
//! who stood with which log, who held how much of a leader's log, and what
//! has been committed. None of it is state of any node; it is computed from
//! the steps taken.

use crate::cluster::{next_by, Cluster};
use crate::facts::{covered, takes_entries};
use crate::model::{step, NodeState};
use crate::types::{EventView, LogEntry};
use vstd::prelude::*;

verus! {

pub struct History {
    /// The candidate each node voted for, by voter and term.
    pub votes: Map<(u64, u64), u64>,
    /// The leader of each term that has one.
    pub leaders: Map<u64, u64>,
    /// The voters that made the leader of each term.
    pub electors: Map<u64, Set<u64>>,
    /// The log of the leader of each term, as far as it grew while it led.
    pub leader_log: Map<u64, Seq<LogEntry>>,
    /// The log each candidate stood with, by candidate and term.
    pub candidate_log: Map<(u64, u64), Seq<LogEntry>>,
    /// By node and term: how much of the log of the leader of that term the
    /// node has held while it was in that term.
    pub accepted: Map<(u64, u64), nat>,
    /// The longest prefix that any leader has committed.
    pub committed: Seq<LogEntry>,
    /// The term of the leader that committed it.
    pub commit_term: u64,
    /// The nodes that held it when it was committed.
    pub commit_quorum: Set<u64>,
}

/// The leader in state `s` and the peers it takes to hold at least `length`
/// entries of its log.
pub open spec fn ackers(s: NodeState, length: int) -> Set<u64> {
    Set::new(|p: u64| p == s.id || (s.peers.contains(p) && s.acked_length[p] >= length))
}

/// Whether `a` and `b` hold the same first `n` entries.
pub open spec fn prefix_eq(a: Seq<LogEntry>, b: Seq<LogEntry>, n: int) -> bool {
    &&& 0 <= n <= a.len()
    &&& n <= b.len()
    &&& forall|j: int|
        #![trigger a[j]]
        #![trigger b[j]]
        0 <= j < n ==> a[j] == b[j]
}

impl History {
    /// Nothing has happened.
    pub open spec fn empty() -> History {
        History {
            votes: Map::empty(),
            leaders: Map::empty(),
            electors: Map::empty(),
            leader_log: Map::empty(),
            candidate_log: Map::empty(),
            accepted: Map::empty(),
            committed: Seq::empty(),
            commit_term: 0,
            commit_quorum: Set::empty(),
        }
    }

    /// Whether `node` has held the first `length` entries of the log of the
    /// leader of `term` while it was in that term.
    pub open spec fn holds(self, node: u64, term: u64, length: int) -> bool {
        self.accepted.contains_key((node, term)) && self.accepted[(node, term)] >= length
    }

    /// Whether `voter` voted for `candidate` in `term`.
    pub open spec fn voted(self, voter: u64, term: u64, candidate: u64) -> bool {
        self.votes.contains_key((voter, term)) && self.votes[(voter, term)] == candidate
    }

    /// Whether everything remembered in `self` is remembered in `later`.
    pub open spec fn kept_in(self, later: History) -> bool {
        &&& forall|k: (u64, u64)| #[trigger]
            self.votes.contains_key(k) ==> later.votes.contains_key(k) && later.votes[k]
                == self.votes[k]
        &&& forall|t: u64| #[trigger]
            self.leaders.contains_key(t) ==> later.leaders.contains_key(t) && later.leaders[t]
                == self.leaders[t]
    }

    /// Whether the log of the leader of `t` in `self` has only grown, by
    /// entries of term `t`, in `later`.
    pub open spec fn log_grown_in(self, later: History, t: u64) -> bool {
        &&& later.leader_log.contains_key(t)
        &&& prefix_eq(self.leader_log[t], later.leader_log[t], self.leader_log[t].len() as int)
        &&& forall|j: int|
            self.leader_log[t].len() <= j < later.leader_log[t].len() ==> (
            #[trigger] later.leader_log[t][j]).term == t
    }

    /// Whether every leader's log in `self` has only grown in `later`.
    pub open spec fn logs_grown_in(self, later: History) -> bool {
        forall|t: u64| self.leader_log.contains_key(t) ==> #[trigger] self.log_grown_in(later, t)
    }

    /// Whether the candidacies and what nodes have held in `self` are still
    /// so in `later`.
    pub open spec fn progress_kept_in(self, later: History) -> bool {
        &&& forall|k: (u64, u64)| #[trigger]
            self.candidate_log.contains_key(k) ==> later.candidate_log.contains_key(k)
                && later.candidate_log[k] == self.candidate_log[k]
        &&& forall|k: (u64, u64)| #[trigger]
            self.accepted.contains_key(k) ==> later.accepted.contains_key(k)
                && later.accepted[k] >= self.accepted[k]
    }
}

/// The history after member `id` has handled `event`.
pub open spec fn record(c: Cluster, h: History, id: u64, event: EventView) -> History {
    let s = c.nodes[id];
    let s2 = step(s, event).state;
    let leads = s2.current_role is Leader;
    History {
        votes: match s2.voted_for {
            Some(candidate) => h.votes.insert((id, s2.current_term), candidate),
            None => h.votes,
        },
        leaders: if leads {
            h.leaders.insert(s2.current_term, id)
        } else {
            h.leaders
        },
        electors: if leads && !(s.current_role is Leader) {
            h.electors.insert(s2.current_term, s2.votes_received)
        } else {
            h.electors
        },
        leader_log: if leads {
            h.leader_log.insert(s2.current_term, s2.log)
        } else {
            h.leader_log
        },
        candidate_log: if s2.current_role is Candidate && s2.current_term > s.current_term {
            h.candidate_log.insert((id, s2.current_term), s2.log)
        } else {
            h.candidate_log
        },
        accepted: if leads {
            h.accepted.insert((id, s2.current_term), s2.log.len())
        } else if takes_entries(s, event) {
            let before = if h.accepted.contains_key((id, s2.current_term)) {
                h.accepted[(id, s2.current_term)]
            } else {
                0
            };
            h.accepted.insert(
                (id, s2.current_term),
                if covered(event) > before {
                    covered(event) as nat
                } else {
                    before
                },
            )
        } else {
            h.accepted
        },
        committed: if leads && s2.commit_length > h.committed.len() {
            s2.log.subrange(0, s2.commit_length as int)
        } else {
            h.committed
        },
        commit_term: if leads && s2.commit_length > h.committed.len() {
            s2.current_term
        } else {
            h.commit_term
        },
        commit_quorum: if leads && s2.commit_length > h.committed.len() {
            ackers(s2, s2.commit_length as int)
        } else {
            h.commit_quorum
        },
    }
}

/// The member and the event of a step from `c` to `d`.
pub open spec fn step_taken(c: Cluster, d: Cluster) -> (u64, EventView) {
    choose|id: u64, event: EventView| next_by(c, d, id, event)
}

/// The history of `trace` up to its state `k`.
pub open spec fn history_at(trace: Seq<Cluster>, k: int) -> History
    decreases k,
{
    if k <= 0 {
        History::empty()
    } else {
        let (id, event) = step_taken(trace[k - 1], trace[k]);
        record(trace[k - 1], history_at(trace, k - 1), id, event)
    }
}

} // verus!
