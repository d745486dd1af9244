//! Election safety and vote uniqueness.
//!
//! A node becomes leader of a term only with the votes of a strict majority
//! of the cluster, a node votes at most once in a term, and two majorities
//! share a member: so a term has at most one leader.

use crate::cluster::{execution, next_by, steps_at, Cluster};
use crate::facts::{
    lemma_sent, lemma_step_role, lemma_step_votes, lemma_step_wf, lemma_vote_is_kept,
};
use crate::history::{history_at, record, step_taken, History};
use crate::model::step;
use crate::types::{Envelope, EventView};
use vstd::prelude::*;

verus! {

/// Whether `q` is a strict majority of the members of `c`.
pub open spec fn quorum(c: Cluster, q: Set<u64>) -> bool {
    &&& q.finite()
    &&& q.subset_of(c.nodes.dom())
    &&& 2 * q.len() > c.nodes.dom().len()
}

/// What holds of member `id` and the votes: the history knows no vote of a
/// later term than its own, knows its vote of the current term exactly, and
/// a candidate or leader has voted for itself and counts only votes that
/// were cast for it in its term; a leader is the leader the history knows.
pub open spec fn node_votes_ok(c: Cluster, h: History, id: u64) -> bool {
    let n = c.nodes[id];
    &&& n.wf()
    &&& c.configured(id)
    &&& forall|t: u64| #[trigger] h.votes.contains_key((id, t)) ==> t <= n.current_term
    &&& match n.voted_for {
        Some(candidate) => h.voted(id, n.current_term, candidate),
        None => !h.votes.contains_key((id, n.current_term)),
    }
    &&& !(n.current_role is Follower) ==> n.voted_for == Some(id)
    &&& !(n.current_role is Follower) ==> forall|v: u64| #[trigger]
        n.votes_received.contains(v) ==> h.voted(v, n.current_term, id)
    &&& n.current_role is Leader ==> h.leaders.contains_key(n.current_term)
        && h.leaders[n.current_term] == id
}

/// What holds of a term `t` that has a leader: the leader is a member that
/// still leads the term or has moved on to a later one, and a strict
/// majority voted for it in `t`.
pub open spec fn term_ok(c: Cluster, h: History, t: u64) -> bool {
    let l = h.leaders[t];
    &&& c.nodes.contains_key(l)
    &&& c.nodes[l].current_term > t || (c.nodes[l].current_term == t
        && c.nodes[l].current_role is Leader)
    &&& h.electors.contains_key(t)
    &&& quorum(c, h.electors[t])
    &&& forall|v: u64| #[trigger] h.electors[t].contains(v) ==> h.voted(v, t, l)
}

/// What holds of a message: a granted vote was cast, and a replication
/// message comes from the leader of its term and goes to another node.
pub open spec fn message_ok(h: History, env: Envelope) -> bool {
    match env.event {
        EventView::VoteResponse { from, term, granted } => granted ==> h.voted(from, term, env.to),
        EventView::LogRequest { term, leader_id, .. } => {
            &&& h.leaders.contains_key(term)
            &&& h.leaders[term] == leader_id
            &&& env.to != leader_id
        },
        _ => true,
    }
}

/// The invariant behind election safety.
pub open spec fn election_inv(c: Cluster, h: History) -> bool {
    &&& c.nodes.dom().finite()
    &&& forall|id: u64| c.nodes.contains_key(id) ==> #[trigger] node_votes_ok(c, h, id)
    &&& forall|t: u64| h.leaders.contains_key(t) ==> #[trigger] term_ok(c, h, t)
    &&& forall|env: Envelope| c.network.contains(env) ==> #[trigger] message_ok(h, env)
}

/// Two strict majorities of the same finite set share a member.
pub proof fn lemma_quorums_meet(c: Cluster, a: Set<u64>, b: Set<u64>) -> (v: u64)
    requires
        c.nodes.dom().finite(),
        quorum(c, a),
        quorum(c, b),
    ensures
        a.contains(v),
        b.contains(v),
{
    let members = c.nodes.dom();
    vstd::set_lib::lemma_set_intersect_union_lens(a, b);
    assert((a + b).subset_of(members));
    vstd::set_lib::lemma_len_subset(a + b, members);
    let both = a.intersect(b);
    assert(both.len() > 0);
    assert(both.finite());
    vstd::set::axiom_set_choose_len(both);
    both.choose()
}

/// A member that takes exactly the other members for its peers counts the
/// cluster right.
pub proof fn lemma_cluster_size(c: Cluster, id: u64)
    requires
        c.nodes.dom().finite(),
        c.nodes.contains_key(id),
        c.configured(id),
    ensures
        c.nodes[id].peers.len() + 1 == c.nodes.dom().len(),
{
    let peers = c.nodes[id].peers;
    peers.unique_seq_to_set();
    assert(peers.to_set() =~= c.nodes.dom().remove(id));
    vstd::set::axiom_set_remove_len(c.nodes.dom(), id);
}

/// The invariant holds of an initial state, with nothing remembered.
pub proof fn lemma_election_init(c: Cluster)
    requires
        c.init(),
    ensures
        election_inv(c, History::empty()),
{
    let h = History::empty();
    assert forall|id: u64| c.nodes.contains_key(id) implies #[trigger] node_votes_ok(c, h, id) by {
        assert(c.starts(id));
        let n = c.nodes[id];
        assert(n.votes_received.finite());
    }
}

/// The votes that made member `id` leader in this step are a strict
/// majority, each cast for `id` in its term, and the term had no leader
/// before.
pub proof fn lemma_elected(c: Cluster, h: History, d: Cluster, id: u64, event: EventView)
    requires
        election_inv(c, h),
        next_by(c, d, id, event),
        step(c.nodes[id], event).state.current_role is Leader,
        !(c.nodes[id].current_role is Leader),
    ensures
        quorum(c, step(c.nodes[id], event).state.votes_received),
        forall|v: u64| #[trigger]
            step(c.nodes[id], event).state.votes_received.contains(v) ==> h.voted(
                v,
                c.nodes[id].current_term,
                id,
            ),
        !h.leaders.contains_key(c.nodes[id].current_term),
{
    let s = c.nodes[id];
    let s2 = step(s, event).state;
    let term = s.current_term;
    assert(node_votes_ok(c, h, id));
    lemma_step_wf(s, event);
    lemma_step_role(s, event);
    lemma_cluster_size(c, id);
    let env = Envelope { to: id, event };
    assert(c.network.contains(env));
    assert(message_ok(h, env));
    assert forall|v: u64| #[trigger] s2.votes_received.contains(v) implies h.voted(
        v,
        term,
        id,
    ) by {
        lemma_step_votes(s, event, v);
    }
    assert forall|v: u64| s2.votes_received.contains(v) implies c.nodes.dom().contains(v) by {
        assert(s2.wf());
        if v != id {
            assert(s2.peers.contains(v));
        }
    }
    assert(quorum(c, s2.votes_received));
    if h.leaders.contains_key(term) {
        assert(term_ok(c, h, term));
        let v = lemma_quorums_meet(c, h.electors[term], s2.votes_received);
        assert(h.voted(v, term, h.leaders[term]));
        assert(h.voted(v, term, id));
    }
}

/// A step keeps the invariant, and the history only grows.
pub proof fn lemma_election_step(c: Cluster, h: History, d: Cluster, id: u64, event: EventView)
    requires
        election_inv(c, h),
        next_by(c, d, id, event),
    ensures
        election_inv(d, record(c, h, id, event)),
        h.kept_in(record(c, h, id, event)),
{
    let s = c.nodes[id];
    let t = step(s, event);
    let s2 = t.state;
    let h2 = record(c, h, id, event);
    assert(node_votes_ok(c, h, id));
    lemma_step_wf(s, event);
    lemma_vote_is_kept(s, event);
    lemma_step_role(s, event);
    assert(d.nodes.dom() =~= c.nodes.dom());
    if s2.current_role is Leader && !(s.current_role is Leader) {
        lemma_elected(c, h, d, id, event);
    }
    assert(h.kept_in(h2));
    assert forall|x: u64| d.nodes.contains_key(x) implies #[trigger] node_votes_ok(d, h2, x) by {
        assert(node_votes_ok(c, h, x));
        if x == id {
            if !(s2.current_role is Follower) {
                assert forall|v: u64| #[trigger] s2.votes_received.contains(v) implies h2.voted(
                    v,
                    s2.current_term,
                    id,
                ) by {
                    lemma_step_votes(s, event, v);
                    if event matches EventView::VoteResponse { from, term, granted } && granted
                        && term == s2.current_term && from == v {
                        let env = Envelope { to: id, event };
                        assert(c.network.contains(env));
                        assert(message_ok(h, env));
                    }
                }
            }
            assert(node_votes_ok(d, h2, x));
        } else {
            assert(d.nodes[x] == c.nodes[x]);
            assert(node_votes_ok(d, h2, x));
        }
    }
    assert forall|term: u64| h2.leaders.contains_key(term) implies #[trigger] term_ok(
        d,
        h2,
        term,
    ) by {
        if s2.current_role is Leader && term == s2.current_term {
            if s.current_role is Leader {
                assert(term_ok(c, h, term));
            } else {
                lemma_elected(c, h, d, id, event);
                assert(quorum(d, h2.electors[term]));
            }
        } else {
            assert(term_ok(c, h, term));
            if h.leaders[term] == id {
                if s.current_term == term && s2.current_term == term {
                    // A leader stops leading its term only on a replication
                    // message of that term, and none is addressed to it.
                    if !(s2.current_role is Leader) {
                        let env = Envelope { to: id, event };
                        assert(c.network.contains(env));
                        assert(message_ok(h, env));
                    }
                }
            }
        }
    }
    assert forall|env: Envelope| d.network.contains(env) implies #[trigger] message_ok(
        h2,
        env,
    ) by {
        if c.network.contains(env) {
            assert(message_ok(h, env));
        } else {
            assert(t.messages.contains(env));
            lemma_sent(s, event, env);
        }
    }
}

/// The invariant holds in every state of an execution.
pub proof fn lemma_election_inv(trace: Seq<Cluster>, k: int)
    requires
        execution(trace),
        0 <= k < trace.len(),
    ensures
        election_inv(trace[k], history_at(trace, k)),
    decreases k,
{
    if k == 0 {
        lemma_election_init(trace[0]);
    } else {
        lemma_election_inv(trace, k - 1);
        assert(steps_at(trace, k - 1));
        let (id, event) = step_taken(trace[k - 1], trace[k]);
        lemma_election_step(trace[k - 1], history_at(trace, k - 1), trace[k], id, event);
    }
}

/// What the history knows at one state of an execution it knows at every
/// later one.
pub proof fn lemma_history_kept(trace: Seq<Cluster>, i: int, j: int)
    requires
        execution(trace),
        0 <= i <= j < trace.len(),
    ensures
        history_at(trace, i).kept_in(history_at(trace, j)),
    decreases j - i,
{
    if i < j {
        lemma_history_kept(trace, i, j - 1);
        lemma_election_inv(trace, j - 1);
        assert(steps_at(trace, j - 1));
        let (id, event) = step_taken(trace[j - 1], trace[j]);
        lemma_election_step(trace[j - 1], history_at(trace, j - 1), trace[j], id, event);
    }
}

/// Election safety: in an execution, a term has at most one leader. If `a`
/// leads a term at some point and `b` leads the same term at some point,
/// the same or another, then `a` and `b` are the same node.
pub proof fn election_safety(trace: Seq<Cluster>, i: int, j: int, a: u64, b: u64)
    requires
        execution(trace),
        0 <= i < trace.len(),
        0 <= j < trace.len(),
        trace[i].nodes.contains_key(a),
        trace[j].nodes.contains_key(b),
        trace[i].nodes[a].current_role is Leader,
        trace[j].nodes[b].current_role is Leader,
        trace[i].nodes[a].current_term == trace[j].nodes[b].current_term,
    ensures
        a == b,
{
    lemma_election_inv(trace, i);
    lemma_election_inv(trace, j);
    assert(node_votes_ok(trace[i], history_at(trace, i), a));
    assert(node_votes_ok(trace[j], history_at(trace, j), b));
    if i <= j {
        lemma_history_kept(trace, i, j);
    } else {
        lemma_history_kept(trace, j, i);
    }
}

/// The members of a cluster stay the same, and no member's term goes back.
pub proof fn lemma_terms_grow(trace: Seq<Cluster>, i: int, j: int, id: u64)
    requires
        execution(trace),
        0 <= i <= j < trace.len(),
        trace[i].nodes.contains_key(id),
    ensures
        trace[j].nodes.contains_key(id),
        trace[i].nodes[id].current_term <= trace[j].nodes[id].current_term,
    decreases j - i,
{
    if i < j {
        lemma_terms_grow(trace, i, j - 1, id);
        assert(steps_at(trace, j - 1));
        let (x, event) = step_taken(trace[j - 1], trace[j]);
        lemma_vote_is_kept(trace[j - 1].nodes[x], event);
    }
}

/// Vote uniqueness: within one term a node's vote is set at most once and
/// never changes. If a node has voted at some point of an execution and is
/// in the same term at a later point, its vote is the same.
pub proof fn vote_uniqueness(trace: Seq<Cluster>, i: int, j: int, id: u64)
    requires
        execution(trace),
        0 <= i <= j < trace.len(),
        trace[i].nodes.contains_key(id),
        trace[i].nodes[id].voted_for is Some,
        trace[j].nodes[id].current_term == trace[i].nodes[id].current_term,
    ensures
        trace[j].nodes.contains_key(id),
        trace[j].nodes[id].voted_for == trace[i].nodes[id].voted_for,
{
    lemma_terms_grow(trace, i, j, id);
    lemma_election_inv(trace, i);
    lemma_election_inv(trace, j);
    lemma_history_kept(trace, i, j);
    assert(node_votes_ok(trace[i], history_at(trace, i), id));
    assert(node_votes_ok(trace[j], history_at(trace, j), id));
    let term = trace[i].nodes[id].current_term;
    assert(history_at(trace, i).votes.contains_key((id, term)));
}

} // verus!
