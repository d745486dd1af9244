//! A cluster can make progress.
//!
//! Safety alone would also hold of a cluster that never does anything. This
//! module shows that the nodes can get somewhere. Take any point of any
//! execution at which no node leads. There is a way on from there, by
//! finitely many election rounds of one node, to a state in which that node
//! leads and every node is in its term. And under a leader that no node has
//! outrun, there is a way on to a state in which a payload proposed to it is
//! committed and delivered on every node: the leader appends it, each peer
//! in turn is offered the log from further and further back until it takes
//! it, and the next replication message tells it what is committed.
//!
//! The steps are chosen, as a quiet network and well-spaced timers would
//! order them. Nothing is claimed of other orders.

use crate::cluster::{deliverable, execution, next, next_by, steps_at, Cluster};
use crate::commit::{
    acceptance_ok, ack_known, commit_safety, committed_ok, delivered_is_committed, inv, kept_by,
    lemma_inv, lemma_leader_complete, node_commit_ok, node_progress_ok,
};
use crate::election::{node_votes_ok, term_ok};
use crate::facts::{lemma_highest_committable, lemma_step_wf, takes_entries};
use crate::history::history_at;
use crate::log::{agreeing_entries, agrees_at, last_term, lemma_agreeing_entries, payloads};
use crate::matching::{leader_log_ok, node_log_ok};
use crate::model::{
    ack_count, lemma_prefix_contains, step, uniform, up_to_date, within_limits, NodeState,
};
use crate::types::{Envelope, EventView, LogEntry, Role};
use vstd::prelude::*;

verus! {

/// The cluster after member `id` has handled `event` in `c`.
pub open spec fn after(c: Cluster, id: u64, event: EventView) -> Cluster {
    let t = step(c.nodes[id], event);
    Cluster {
        nodes: c.nodes.insert(id, t.state),
        network: c.network.union(t.messages.to_set()),
        delivered: c.delivered.insert(id, c.delivered[id] + t.delivered),
    }
}

/// Whether `event` has been sent to `to`.
pub open spec fn sent(c: Cluster, to: u64, event: EventView) -> bool {
    c.network.contains(Envelope { to, event })
}

/// A step that is possible extends an execution.
proof fn lemma_extend(trace: Seq<Cluster>, id: u64, event: EventView) -> (longer: Seq<Cluster>)
    requires
        execution(trace),
        trace.last().nodes.contains_key(id),
        deliverable(trace.last(), id, event),
        within_limits(trace.last().nodes[id], event),
    ensures
        execution(longer),
        longer == trace.push(after(trace.last(), id, event)),
        longer[0] == trace[0],
        longer.last() == after(trace.last(), id, event),
{
    let c = trace.last();
    let d = after(c, id, event);
    let longer = trace.push(d);
    assert(next_by(c, d, id, event));
    assert(next(c, d));
    assert forall|k: int| 0 <= k < longer.len() - 1 implies #[trigger] steps_at(longer, k) by {
        if k < trace.len() - 1 {
            assert(steps_at(trace, k));
            assert(longer[k] == trace[k]);
            assert(longer[k + 1] == trace[k + 1]);
        } else {
            assert(longer[k] == c);
            assert(longer[k + 1] == d);
        }
    }
    longer
}

/// Where every peer has acknowledged at least `length` entries, all of them
/// are counted.
proof fn lemma_all_acked(peers: Seq<u64>, acked: Map<u64, usize>, length: int)
    requires
        forall|i: int| 0 <= i < peers.len() ==> acked[#[trigger] peers[i]] >= length,
    ensures
        ack_count(peers, acked, length) == peers.len(),
    decreases peers.len(),
{
    if peers.len() > 0 {
        let init = peers.drop_last();
        assert forall|i: int| 0 <= i < init.len() implies acked[#[trigger] init[i]] >= length by {
            assert(init[i] == peers[i]);
        }
        lemma_all_acked(init, acked, length);
        assert(peers.last() == peers[peers.len() - 1]);
    }
}

/// Whether `longer` starts with `trace`.
pub open spec fn extends(longer: Seq<Cluster>, trace: Seq<Cluster>) -> bool {
    &&& trace.len() <= longer.len()
    &&& forall|j: int| 0 <= j < trace.len() ==> #[trigger] longer[j] == trace[j]
}

/// Whether the log of `x` is at least as up to date as that of `y`.
pub open spec fn ahead(x: NodeState, y: NodeState) -> bool {
    up_to_date(last_term(x.log), x.log.len() as usize, y.log)
}

/// The first of `ids` whose log is at least as up to date as that of every
/// other of them.
pub open spec fn best(c: Cluster, ids: Seq<u64>) -> u64
    decreases ids.len(),
{
    if ids.len() <= 1 {
        ids[0]
    } else {
        let b = best(c, ids.drop_last());
        if ahead(c.nodes[b], c.nodes[ids.last()]) {
            b
        } else {
            ids.last()
        }
    }
}

/// The greatest term of the nodes `ids`.
pub open spec fn top_term(c: Cluster, ids: Seq<u64>) -> u64
    decreases ids.len(),
{
    if ids.len() == 0 {
        0
    } else {
        let t = top_term(c, ids.drop_last());
        if c.nodes[ids.last()].current_term > t {
            c.nodes[ids.last()].current_term
        } else {
            t
        }
    }
}

/// `best` is one of `ids`, and no log of them is more up to date than its.
proof fn lemma_best(c: Cluster, ids: Seq<u64>)
    requires
        ids.len() >= 1,
        forall|i: int| 0 <= i < ids.len() ==> (#[trigger] c.nodes[ids[i]]).log.len() <= usize::MAX,
    ensures
        ids.contains(best(c, ids)),
        forall|i: int|
            0 <= i < ids.len() ==> ahead(c.nodes[best(c, ids)], #[trigger] c.nodes[ids[i]]),
    decreases ids.len(),
{
    if ids.len() <= 1 {
        assert(ids[0] == best(c, ids));
    } else {
        let init = ids.drop_last();
        assert forall|i: int| 0 <= i < init.len() implies (#[trigger] c.nodes[init[i]]).log.len()
            <= usize::MAX by {
            assert(init[i] == ids[i]);
        }
        lemma_best(c, init);
        let b = best(c, init);
        let j = choose|j: int| 0 <= j < init.len() && init[j] == b;
        assert(ids[j] == b);
        assert(ids[ids.len() - 1] == ids.last());
        let w = best(c, ids);
        assert forall|i: int| 0 <= i < ids.len() implies ahead(
            c.nodes[w],
            #[trigger] c.nodes[ids[i]],
        ) by {
            if i < init.len() {
                assert(init[i] == ids[i]);
                assert(ahead(c.nodes[b], c.nodes[init[i]]));
            }
        }
    }
}

/// No node of `ids` is in a later term than `top_term`, and where no node
/// is in the last term of all, `top_term` is not the last either.
proof fn lemma_top_term(c: Cluster, ids: Seq<u64>)
    requires
        forall|i: int| 0 <= i < ids.len() ==> (#[trigger] c.nodes[ids[i]]).current_term < u64::MAX,
    ensures
        top_term(c, ids) < u64::MAX,
        forall|i: int|
            0 <= i < ids.len() ==> (#[trigger] c.nodes[ids[i]]).current_term <= top_term(
                c,
                ids,
            ),
    decreases ids.len(),
{
    if ids.len() > 0 {
        let init = ids.drop_last();
        assert forall|i: int| 0 <= i < init.len() implies (
        #[trigger] c.nodes[init[i]]).current_term < u64::MAX by {
            assert(init[i] == ids[i]);
        }
        lemma_top_term(c, init);
        assert(ids[ids.len() - 1] == ids.last());
        assert forall|i: int| 0 <= i < ids.len() implies (
        #[trigger] c.nodes[ids[i]]).current_term <= top_term(c, ids) by {
            if i < init.len() {
                assert(init[i] == ids[i]);
            }
        }
    }
}

/// The state of a node that has started an election for `term`.
pub open spec fn standing(s: NodeState, term: u64) -> NodeState {
    NodeState {
        current_term: term,
        current_role: Role::Candidate,
        voted_for: Some(s.id),
        votes_received: set![s.id],
        current_leader: None,
        ..s
    }
}

/// The vote request of a candidate in state `s`.
pub open spec fn request_of(s: NodeState) -> EventView {
    EventView::VoteRequest {
        term: s.current_term,
        candidate_id: s.id,
        last_log_term: last_term(s.log),
        last_log_length: s.log.len() as usize,
    }
}

/// Whether `d` differs from `c` at most in the state of `a` and in what has
/// been sent and delivered.
pub open spec fn others_unchanged(c: Cluster, d: Cluster, a: u64) -> bool {
    &&& d.nodes.dom() == c.nodes.dom()
    &&& forall|x: u64| x != a ==> #[trigger] d.nodes[x] == c.nodes[x]
}

/// Whether the candidate `a` has asked every peer for its vote.
pub open spec fn all_asked(d: Cluster, a: u64) -> bool {
    forall|i: int|
        0 <= i < d.nodes[a].peers.len() ==> sent(
            d,
            #[trigger] d.nodes[a].peers[i],
            request_of(d.nodes[a]),
        )
}

/// The election timer of `a` fires `rounds` times in a row.
proof fn lemma_timeouts(trace: Seq<Cluster>, a: u64, rounds: int) -> (longer: Seq<Cluster>)
    requires
        execution(trace),
        trace.last().nodes.contains_key(a),
        trace.last().nodes[a].id == a,
        trace.last().nodes[a].wf(),
        !(trace.last().nodes[a].current_role is Leader),
        rounds >= 1,
        trace.last().nodes[a].current_term + rounds <= u64::MAX,
    ensures
        execution(longer),
        extends(longer, trace),
        others_unchanged(trace.last(), longer.last(), a),
        longer.last().nodes[a] == standing(
            trace.last().nodes[a],
            (trace.last().nodes[a].current_term + rounds) as u64,
        ),
        all_asked(longer.last(), a),
    decreases rounds,
{
    let c = trace.last();
    let before = if rounds == 1 {
        trace
    } else {
        lemma_timeouts(trace, a, rounds - 1)
    };
    let b = before.last();
    let s = b.nodes[a];
    assert(s.wf()) by {
        if rounds > 1 {
            assert(set![a].finite());
        }
    }
    let longer = lemma_extend(before, a, EventView::ElectionTimeout);
    let d = longer.last();
    let t = step(s, EventView::ElectionTimeout);
    assert(d.nodes.dom() =~= c.nodes.dom());
    assert(d.nodes[a] =~= standing(c.nodes[a], (c.nodes[a].current_term + rounds) as u64));
    assert forall|i: int| 0 <= i < d.nodes[a].peers.len() implies sent(
        d,
        #[trigger] d.nodes[a].peers[i],
        request_of(d.nodes[a]),
    ) by {
        let env = Envelope { to: d.nodes[a].peers[i], event: request_of(d.nodes[a]) };
        assert(t.messages[i] == env);
        assert(t.messages.contains(env));
    }
    longer
}

/// Whether member `x` is well formed and knows the cluster.
pub open spec fn member_ok(c: Cluster, x: u64) -> bool {
    c.nodes[x].wf() && c.configured(x)
}

/// Whether `x` is in an earlier term than `a` and its log is no more up to
/// date than that of `a`: it will grant `a` its vote.
pub open spec fn behind(c: Cluster, a: u64, x: u64) -> bool {
    c.nodes[x].current_term < c.nodes[a].current_term && ahead(c.nodes[a], c.nodes[x])
}

/// Whether `a` stands for election in `c` and is bound to win: it has asked
/// every peer, and every peer will grant.
pub open spec fn poised(c: Cluster, a: u64) -> bool {
    let s = c.nodes[a];
    &&& c.nodes.contains_key(a)
    &&& c.nodes.dom().finite()
    &&& forall|x: u64| c.nodes.contains_key(x) ==> #[trigger] member_ok(c, x)
    &&& s.current_role is Candidate
    &&& s.voted_for == Some(a)
    &&& s.votes_received == set![a]
    &&& s.peers.len() >= 1
    &&& forall|x: u64| c.nodes.contains_key(x) && x != a ==> #[trigger] behind(c, a, x)
    &&& all_asked(c, a)
}

/// The vote of `p` for the candidate `a` of `c`.
pub open spec fn vote_for(c: Cluster, a: u64, p: u64) -> EventView {
    EventView::VoteResponse { from: p, term: c.nodes[a].current_term, granted: true }
}

/// Whether peer `i` of `a` has voted if it is among the first `k`, and is
/// as it was otherwise.
pub open spec fn ballot_at(c0: Cluster, d: Cluster, a: u64, i: int, k: int) -> bool {
    let p = c0.nodes[a].peers[i];
    d.nodes[p] == if i < k {
        step(c0.nodes[p], request_of(c0.nodes[a])).state
    } else {
        c0.nodes[p]
    }
}

/// Whether the first `k` peers of `a` have voted and the others are as they
/// were.
pub open spec fn ballots(c0: Cluster, d: Cluster, a: u64, k: int) -> bool {
    forall|i: int| 0 <= i < c0.nodes[a].peers.len() ==> #[trigger] ballot_at(c0, d, a, i, k)
}

/// Whether the vote of peer `i` of `a` is on its way.
pub open spec fn vote_sent_at(c0: Cluster, d: Cluster, a: u64, i: int) -> bool {
    sent(d, a, vote_for(c0, a, c0.nodes[a].peers[i]))
}

/// Whether the votes of the first `k` peers of `a` are on their way.
pub open spec fn votes_sent(c0: Cluster, d: Cluster, a: u64, k: int) -> bool {
    forall|i: int| 0 <= i < k ==> #[trigger] vote_sent_at(c0, d, a, i)
}

/// Whether every request for a vote that was sent in `c0` is still there.
pub open spec fn asks_kept(c0: Cluster, d: Cluster, a: u64) -> bool {
    forall|i: int|
        0 <= i < c0.nodes[a].peers.len() ==> sent(
            d,
            #[trigger] c0.nodes[a].peers[i],
            request_of(c0.nodes[a]),
        )
}

/// What a peer of a candidate that is poised to win is and does.
proof fn lemma_voter(c0: Cluster, a: u64, i: int)
    requires
        poised(c0, a),
        0 <= i < c0.nodes[a].peers.len(),
    ensures
        ({
            let p = c0.nodes[a].peers[i];
            let t = step(c0.nodes[p], request_of(c0.nodes[a]));
            &&& c0.nodes.contains_key(p)
            &&& p != a
            &&& c0.nodes[p].id == p
            &&& c0.nodes[a].id == a
            &&& t.state.current_term == c0.nodes[a].current_term
            &&& t.state.current_role is Follower
            &&& t.state.log == c0.nodes[p].log
            &&& t.state.commit_length == c0.nodes[p].commit_length
            &&& t.messages.contains(Envelope { to: a, event: vote_for(c0, a, p) })
            &&& forall|j: int|
                0 <= j < c0.nodes[a].peers.len() && j != i ==> c0.nodes[a].peers[j] != p
        }),
{
    let peers = c0.nodes[a].peers;
    let p = peers[i];
    assert(member_ok(c0, a));
    assert(peers.contains(p));
    assert(member_ok(c0, p));
    assert(behind(c0, a, p));
    let t = step(c0.nodes[p], request_of(c0.nodes[a]));
    assert(t.messages[0] == Envelope { to: a, event: vote_for(c0, a, p) });
}

/// The first `k` peers are asked and grant their votes.
proof fn lemma_ballots_cast(trace0: Seq<Cluster>, a: u64, k: int) -> (longer: Seq<Cluster>)
    requires
        execution(trace0),
        poised(trace0.last(), a),
        0 <= k <= trace0.last().nodes[a].peers.len(),
    ensures
        execution(longer),
        extends(longer, trace0),
        longer.last().nodes.dom() == trace0.last().nodes.dom(),
        longer.last().nodes[a] == trace0.last().nodes[a],
        ballots(trace0.last(), longer.last(), a, k),
        votes_sent(trace0.last(), longer.last(), a, k),
        asks_kept(trace0.last(), longer.last(), a),
    decreases k,
{
    let c0 = trace0.last();
    let peers = c0.nodes[a].peers;
    if k == 0 {
        assert forall|i: int| 0 <= i < peers.len() implies #[trigger] ballot_at(
            c0,
            c0,
            a,
            i,
            0,
        ) by {}
        trace0
    } else {
        let before = lemma_ballots_cast(trace0, a, k - 1);
        let c = before.last();
        let p = peers[k - 1];
        lemma_voter(c0, a, k - 1);
        assert(ballot_at(c0, c, a, k - 1, k - 1));
        let longer = lemma_extend(before, p, request_of(c0.nodes[a]));
        let d = longer.last();
        assert(d.nodes.dom() =~= c0.nodes.dom());
        assert forall|i: int| 0 <= i < peers.len() implies #[trigger] ballot_at(
            c0,
            d,
            a,
            i,
            k,
        ) by {
            if i != k - 1 {
                assert(ballot_at(c0, c, a, i, k - 1));
            }
        }
        assert forall|i: int| 0 <= i < k implies #[trigger] vote_sent_at(c0, d, a, i) by {
            if i < k - 1 {
                assert(vote_sent_at(c0, c, a, i));
            }
        }
        longer
    }
}

/// The candidate `a` after the votes of its first `k` peers have come back.
pub open spec fn tally(c0: Cluster, s: NodeState, a: u64, k: int) -> bool {
    let s0 = c0.nodes[a];
    &&& s.wf()
    &&& s.id == a
    &&& s.peers == s0.peers
    &&& s.current_term == s0.current_term
    &&& s.voted_for == Some(a)
    &&& !(s.current_role is Follower)
    &&& s.log == s0.log
    &&& s.commit_length == s0.commit_length
    &&& forall|v: u64|
        s.votes_received.contains(v) <==> v == a || s0.peers.subrange(0, k).contains(v)
    &&& s.current_role is Leader ==> {
        &&& s.current_leader == Some(a)
        &&& s.sent_length == uniform(s0.peers, s0.log.len() as usize)
        &&& s.acked_length == uniform(s0.peers, 0)
    }
    &&& k == s0.peers.len() ==> s.current_role is Leader
}

/// The votes of the first `k` peers come back to `a`.
proof fn lemma_ballots_counted(trace0: Seq<Cluster>, a: u64, k: int) -> (longer: Seq<Cluster>)
    requires
        execution(trace0),
        poised(trace0.last(), a),
        0 <= k <= trace0.last().nodes[a].peers.len(),
    ensures
        execution(longer),
        extends(longer, trace0),
        longer.last().nodes.dom() == trace0.last().nodes.dom(),
        tally(trace0.last(), longer.last().nodes[a], a, k),
        ballots(trace0.last(), longer.last(), a, trace0.last().nodes[a].peers.len() as int),
        votes_sent(trace0.last(), longer.last(), a, trace0.last().nodes[a].peers.len() as int),
    decreases k,
{
    let c0 = trace0.last();
    let peers = c0.nodes[a].peers;
    let n = peers.len() as int;
    assert(member_ok(c0, a));
    if k == 0 {
        let longer = lemma_ballots_cast(trace0, a, n);
        assert(peers.subrange(0, 0) =~= Seq::<u64>::empty());
        longer
    } else {
        let before = lemma_ballots_counted(trace0, a, k - 1);
        let c = before.last();
        let p = peers[k - 1];
        let s = c.nodes[a];
        lemma_voter(c0, a, k - 1);
        assert(vote_sent_at(c0, c, a, k - 1));
        let longer = lemma_extend(before, a, vote_for(c0, a, p));
        let d = longer.last();
        let s2 = d.nodes[a];
        assert(d.nodes.dom() =~= c0.nodes.dom());
        lemma_step_wf(s, vote_for(c0, a, p));
        assert(s.peers.contains(p));
        let counted = s.votes_received.insert(p);
        assert forall|v: u64| counted.contains(v) <==> v == a || peers.subrange(0, k).contains(
            v,
        ) by {
            lemma_prefix_contains(peers, k - 1, v);
        }
        if k == n && s.current_role is Candidate {
            // Every member has voted: that is a majority.
            assert(peers.subrange(0, n) == peers);
            assert(counted =~= peers.to_set().insert(a));
            peers.unique_seq_to_set();
            assert(!peers.to_set().contains(a));
            assert(counted.len() == n + 1);
        }
        assert forall|i: int| 0 <= i < peers.len() implies #[trigger] ballot_at(
            c0,
            d,
            a,
            i,
            n,
        ) by {
            assert(ballot_at(c0, c, a, i, n));
            lemma_voter(c0, a, i);
        }
        assert forall|i: int| 0 <= i < n implies #[trigger] vote_sent_at(c0, d, a, i) by {
            assert(vote_sent_at(c0, c, a, i));
        }
        longer
    }
}

/// A leader can be elected. Take any execution at whose end no node leads,
/// in a cluster of at least two nodes none of which is in the last term the
/// machine can count. The execution can go on, by election rounds of one
/// node alone, to a state in which that node leads, every other node
/// follows, all are in the leader's term, which is later than every term
/// before, and every log is as it was.
pub proof fn election_is_possible(trace: Seq<Cluster>) -> (found: (Seq<Cluster>, u64))
    requires
        execution(trace),
        trace.last().nodes.dom().len() >= 2,
        forall|id: u64|
            trace.last().nodes.contains_key(id) ==> !((
            #[trigger] trace.last().nodes[id]).current_role is Leader)
                && trace.last().nodes[id].current_term < u64::MAX,
    ensures
        execution(found.0),
        extends(found.0, trace),
        found.0.last().nodes.dom() == trace.last().nodes.dom(),
        found.0.last().nodes.contains_key(found.1),
        found.0.last().nodes[found.1].current_role is Leader,
        forall|id: u64|
            trace.last().nodes.contains_key(id) ==> {
                let before = #[trigger] trace.last().nodes[id];
                let after = found.0.last().nodes[id];
                &&& after.current_term == found.0.last().nodes[found.1].current_term
                &&& after.current_term > before.current_term
                &&& id != found.1 ==> after.current_role is Follower
                &&& after.log == before.log
                &&& after.commit_length == before.commit_length
            },
{
    let c = trace.last();
    let h = history_at(trace, trace.len() - 1);
    lemma_inv(trace, trace.len() - 1);
    assert(inv(c, h));
    vstd::set::axiom_set_choose_len(c.nodes.dom());
    let x0 = c.nodes.dom().choose();
    assert(c.nodes.contains_key(x0));
    assert(node_votes_ok(c, h, x0));
    let ids = seq![x0] + c.nodes[x0].peers;
    assert forall|id: u64| c.nodes.contains_key(id) implies ids.contains(id) by {
        if id == x0 {
            assert(ids[0] == id);
        } else {
            assert(c.nodes[x0].peers.contains(id));
            let j = choose|j: int| 0 <= j < c.nodes[x0].peers.len() && c.nodes[x0].peers[j] == id;
            assert(ids[j + 1] == id);
        }
    }
    assert forall|i: int| 0 <= i < ids.len() implies c.nodes.contains_key(#[trigger] ids[i]) by {
        if i > 0 {
            assert(ids[i] == c.nodes[x0].peers[i - 1]);
            assert(c.nodes[x0].peers.contains(ids[i]));
        }
    }
    assert forall|i: int| 0 <= i < ids.len() implies (#[trigger] c.nodes[ids[i]]).log.len()
        <= usize::MAX && c.nodes[ids[i]].current_term < u64::MAX by {
        assert(c.nodes.contains_key(ids[i]));
        assert(node_votes_ok(c, h, ids[i]));
    }
    lemma_best(c, ids);
    lemma_top_term(c, ids);
    let a = best(c, ids);
    let top = top_term(c, ids);
    let ja = choose|j: int| 0 <= j < ids.len() && ids[j] == a;
    assert(c.nodes.contains_key(ids[ja]));
    assert(node_votes_ok(c, h, a));
    assert(c.nodes[ids[ja]].current_term <= top);
    let rounds = top - c.nodes[a].current_term + 1;
    let trace1 = lemma_timeouts(trace, a, rounds);
    let c1 = trace1.last();
    crate::election::lemma_cluster_size(c, a);
    assert(poised(c1, a)) by {
        assert forall|x: u64| c1.nodes.contains_key(x) implies #[trigger] member_ok(c1, x) by {
            assert(node_votes_ok(c, h, x));
            if x == a {
                assert(set![a].finite());
            }
        }
        assert forall|x: u64| c1.nodes.contains_key(x) && x != a implies #[trigger] behind(
            c1,
            a,
            x,
        ) by {
            assert(c.nodes.contains_key(x));
            assert(ids.contains(x));
            let j = choose|j: int| 0 <= j < ids.len() && ids[j] == x;
            assert(c.nodes[ids[j]].current_term <= top);
            assert(ahead(c.nodes[a], c.nodes[ids[j]]));
        }
    }
    let n = c1.nodes[a].peers.len() as int;
    let trace2 = lemma_ballots_counted(trace1, a, n);
    let d = trace2.last();
    assert forall|id: u64| c.nodes.contains_key(id) implies {
        let before = #[trigger] c.nodes[id];
        let after = d.nodes[id];
        &&& after.current_term == d.nodes[a].current_term
        &&& after.current_term > before.current_term
        &&& id != a ==> after.current_role is Follower
        &&& after.log == before.log
        &&& after.commit_length == before.commit_length
    } by {
        if id != a {
            assert(member_ok(c1, a));
            assert(c1.nodes[a].peers.contains(id));
            let i = choose|i: int| 0 <= i < n && c1.nodes[a].peers[i] == id;
            assert(ballot_at(c1, d, a, i, n));
            lemma_voter(c1, a, i);
            assert(behind(c1, a, id));
        }
    }
    (trace2, a)
}

/// Whether no node of `c` is in a later term than `a`, which leads.
pub open spec fn unrivalled(c: Cluster, a: u64) -> bool {
    &&& c.nodes.contains_key(a)
    &&& c.nodes[a].current_role is Leader
    &&& forall|x: u64|
        c.nodes.contains_key(x) ==> (#[trigger] c.nodes[x]).current_term
            <= c.nodes[a].current_term
}

/// What every node has committed is in the log of a leader that no node has
/// outrun.
proof fn lemma_committed_in_leader(trace: Seq<Cluster>, a: u64, p: u64, j: int)
    requires
        execution(trace),
        unrivalled(trace.last(), a),
        trace.last().nodes.contains_key(p),
        0 <= j < trace.last().nodes[p].commit_length,
    ensures
        j < trace.last().nodes[a].log.len(),
        j < trace.last().nodes[p].log.len(),
        trace.last().nodes[p].log[j] == trace.last().nodes[a].log[j],
{
    let c = trace.last();
    let h = history_at(trace, trace.len() - 1);
    lemma_inv(trace, trace.len() - 1);
    let t = c.nodes[a].current_term;
    let ct = h.commit_term;
    let mc = h.committed.len() as int;
    assert(node_commit_ok(c, h, p));
    assert(node_log_ok(c, h, a));
    assert(node_votes_ok(c, h, p));
    assert(committed_ok(c, h));
    assert(c.nodes[p].log[j] == h.committed[j]);
    if ct < t {
        lemma_leader_complete(c, h, ct, mc, h.commit_quorum, t);
        assert(h.leader_log[ct][j] == h.leader_log[t][j]);
    } else if ct > t {
        assert(leader_log_ok(h, ct));
        assert(term_ok(c, h, ct));
        assert(c.nodes[h.leaders[ct]].current_term <= t);
        assert(false);
    }
    assert(h.committed[j] == h.leader_log[ct][j]);
}

/// The answer of `p` to the replication message that the leader of state
/// `s` has for it.
pub open spec fn answer(s: NodeState, before: NodeState, p: u64) -> EventView {
    let took = takes_entries(before, s.request_for(p));
    EventView::LogResponse {
        from: p,
        term: s.current_term,
        success: took,
        ack_length: if took {
            s.log.len() as usize
        } else {
            0
        },
    }
}

/// One round between a leader and a peer: the leader's replication timer
/// fires, the peer gets the message meant for it and answers, and the
/// leader gets the answer.
proof fn lemma_round(trace: Seq<Cluster>, a: u64, p: u64) -> (longer: Seq<Cluster>)
    requires
        execution(trace),
        unrivalled(trace.last(), a),
        trace.last().nodes.contains_key(p),
        trace.last().nodes[a].peers.contains(p),
    ensures
        execution(longer),
        extends(longer, trace),
        longer.last().nodes.dom() == trace.last().nodes.dom(),
        forall|x: u64|
            x != a && x != p ==> #[trigger] longer.last().nodes[x] == trace.last().nodes[x],
        longer.last().nodes[p] == step(
            trace.last().nodes[p],
            trace.last().nodes[a].request_for(p),
        ).state,
        longer.last().nodes[a] == step(
            trace.last().nodes[a],
            answer(trace.last().nodes[a], trace.last().nodes[p], p),
        ).state,
        longer.last().nodes[p].current_term == trace.last().nodes[a].current_term,
        p != a,
        trace.last().nodes[a].wf(),
        trace.last().nodes[a].id == a,
{
    let c = trace.last();
    let h = history_at(trace, trace.len() - 1);
    lemma_inv(trace, trace.len() - 1);
    assert(node_votes_ok(c, h, a));
    assert(node_votes_ok(c, h, p));
    let s = c.nodes[a];
    let q = c.nodes[p];
    let offer = s.request_for(p);
    let beat = lemma_extend(trace, a, EventView::ReplicationTimeout);
    let c1 = beat.last();
    let t1 = step(s, EventView::ReplicationTimeout);
    let i = choose|i: int| 0 <= i < s.peers.len() && s.peers[i] == p;
    assert(t1.messages[i] == Envelope { to: p, event: offer });
    assert(t1.messages.contains(Envelope { to: p, event: offer }));
    assert(c1.nodes[p] == q);
    assert(s.sent_length.contains_key(p));
    let offered = lemma_extend(beat, p, offer);
    let c2 = offered.last();
    let t2 = step(q, offer);
    let reply = answer(s, q, p);
    assert(t2.messages[0] == Envelope { to: a, event: reply });
    assert(t2.messages.contains(Envelope { to: a, event: reply }));
    assert(c2.nodes[a] == s);
    let longer = lemma_extend(offered, a, reply);
    let d = longer.last();
    assert(d.nodes.dom() =~= c.nodes.dom());
    longer
}

/// The leader `a` of term `term` holds `log`, whose last entry is of that
/// term, and has committed at least as much as in `c1`.
pub open spec fn leading(c1: Cluster, d: Cluster, a: u64) -> bool {
    let s1 = c1.nodes[a];
    let s = d.nodes[a];
    &&& d.nodes.dom() == c1.nodes.dom()
    &&& unrivalled(d, a)
    &&& s.current_term == s1.current_term
    &&& s.log == s1.log
    &&& s.peers == s1.peers
    &&& s.log.len() >= 1
    &&& s.log.last().term == s.current_term
}

/// Whether the leader takes every peer of index below `k`, but for the one
/// of index `but`, to have acknowledged its whole log.
pub open spec fn synced(d: Cluster, a: u64, k: int, but: int) -> bool {
    let s = d.nodes[a];
    forall|i: int|
        0 <= i < k && i != but ==> s.acked_length[#[trigger] s.peers[i]] == s.log.len()
            && s.sent_length[s.peers[i]] == s.log.len()
}

/// A peer is brought up to date: the leader offers it the log from further
/// and further back, until the peer takes it and acknowledges the whole.
proof fn lemma_sync(trace: Seq<Cluster>, c1: Cluster, a: u64, i: int) -> (longer: Seq<Cluster>)
    requires
        execution(trace),
        leading(c1, trace.last(), a),
        0 <= i < trace.last().nodes[a].peers.len(),
    ensures
        execution(longer),
        extends(longer, trace),
        leading(c1, longer.last(), a),
        longer.last().nodes[a].acked_length[trace.last().nodes[a].peers[i]]
            == trace.last().nodes[a].log.len(),
        longer.last().nodes[a].sent_length[trace.last().nodes[a].peers[i]]
            == trace.last().nodes[a].log.len(),
        forall|q: u64|
            q != trace.last().nodes[a].peers[i] ==> (
            #[trigger] longer.last().nodes[a].acked_length[q])
                == trace.last().nodes[a].acked_length[q],
        forall|q: u64|
            q != trace.last().nodes[a].peers[i] ==> (
            #[trigger] longer.last().nodes[a].sent_length[q])
                == trace.last().nodes[a].sent_length[q],
        longer.last().nodes[a].commit_length >= trace.last().nodes[a].commit_length,
        synced(trace.last(), a, trace.last().nodes[a].peers.len() as int, i)
            ==> longer.last().nodes[a].commit_length == trace.last().nodes[a].log.len(),
    decreases trace.last().nodes[a].sent_length[trace.last().nodes[a].peers[i]],
{
    let c = trace.last();
    let h = history_at(trace, trace.len() - 1);
    lemma_inv(trace, trace.len() - 1);
    let s = c.nodes[a];
    let p = s.peers[i];
    assert(node_votes_ok(c, h, a));
    assert(s.peers.contains(p));
    assert(node_votes_ok(c, h, p));
    let q = c.nodes[p];
    let offer = s.request_for(p);
    let reply = answer(s, q, p);
    let round = lemma_round(trace, a, p);
    let d = round.last();
    let s2 = d.nodes[a];
    lemma_step_wf(s, reply);
    assert(s.sent_length.contains_key(p));
    assert(unrivalled(d, a)) by {
        assert forall|x: u64| d.nodes.contains_key(x) implies (#[trigger] d.nodes[x]).current_term
            <= d.nodes[a].current_term by {
            if x != a && x != p {
                assert(d.nodes[x] == c.nodes[x]);
            }
        }
    }
    if takes_entries(q, offer) {
        let acked = NodeState {
            sent_length: s.sent_length.insert(p, s.log.len() as usize),
            acked_length: s.acked_length.insert(p, s.log.len() as usize),
            ..s
        };
        lemma_highest_committable(acked, acked.log.len());
        if synced(c, a, s.peers.len() as int, i) {
            assert forall|j: int| 0 <= j < s.peers.len() implies acked.acked_length[
            #[trigger] s.peers[j]] >= s.log.len() by {
                if j != i {
                    assert(s.acked_length[s.peers[j]] == s.log.len());
                }
            }
            lemma_all_acked(s.peers, acked.acked_length, s.log.len() as int);
            assert(acked.committable(s.log.len() as int));
        }
        round
    } else {
        if s.sent_length[p] == 0 {
            // Offered the whole log, a peer takes it: what it has committed
            // is in the leader's log.
            let entries = s.log.subrange(0, s.log.len() as int);
            assert(entries =~= s.log);
            let k = agreeing_entries(q.log, 0, entries, 0);
            lemma_agreeing_entries(q.log, 0, entries, 0);
            if k < entries.len() && k < q.commit_length {
                lemma_committed_in_leader(trace, a, p, k as int);
                assert(agrees_at(q.log, 0, entries, k as int));
            }
            assert(false);
        }
        assert(s2.sent_length[p] == s.sent_length[p] - 1);
        let longer = lemma_sync(round, c1, a, i);
        assert forall|j: int| 0 <= j < round.len() implies #[trigger] longer[j] == round[j] by {}
        assert(synced(c, a, s.peers.len() as int, i) ==> synced(d, a, s.peers.len() as int, i));
        longer
    }
}

/// The first `k` peers are brought up to date, one after the other.
proof fn lemma_sync_all(trace1: Seq<Cluster>, a: u64, k: int) -> (longer: Seq<Cluster>)
    requires
        execution(trace1),
        leading(trace1.last(), trace1.last(), a),
        0 <= k <= trace1.last().nodes[a].peers.len(),
    ensures
        execution(longer),
        extends(longer, trace1),
        leading(trace1.last(), longer.last(), a),
        synced(longer.last(), a, k, -1),
        k == trace1.last().nodes[a].peers.len() && k >= 1 ==> longer.last().nodes[a].commit_length
            == trace1.last().nodes[a].log.len(),
    decreases k,
{
    let c1 = trace1.last();
    if k == 0 {
        trace1
    } else {
        let before = lemma_sync_all(trace1, a, k - 1);
        let c = before.last();
        let s = c.nodes[a];
        let h = history_at(before, before.len() - 1);
        lemma_inv(before, before.len() - 1);
        assert(node_votes_ok(c, h, a));
        let longer = lemma_sync(before, c1, a, k - 1);
        let d = longer.last();
        assert forall|j: int| 0 <= j < trace1.len() implies #[trigger] longer[j] == trace1[j] by {
            assert(before[j] == trace1[j]);
        }
        assert forall|j: int| 0 <= j < k implies d.nodes[a].acked_length[
        #[trigger] d.nodes[a].peers[j]] == d.nodes[a].log.len()
            && d.nodes[a].sent_length[d.nodes[a].peers[j]] == d.nodes[a].log.len() by {
            if j < k - 1 {
                assert(s.acked_length[s.peers[j]] == s.log.len());
                assert(s.peers[j] != s.peers[k - 1]);
            }
        }
        if k == s.peers.len() {
            assert(synced(c, a, k, k - 1));
        }
        longer
    }
}

/// Whether the leader has committed its whole log and takes every peer to
/// hold it, and the peers of index below `k` have committed it too.
pub open spec fn settled(d: Cluster, a: u64, k: int) -> bool {
    let s = d.nodes[a];
    &&& s.commit_length == s.log.len()
    &&& synced(d, a, s.peers.len() as int, -1)
    &&& forall|i: int|
        0 <= i < k ==> (#[trigger] d.nodes[s.peers[i]]).commit_length == s.log.len()
}

/// A peer that has acknowledged the leader's whole log learns from the
/// next replication message that all of it is committed.
proof fn lemma_inform(trace: Seq<Cluster>, c1: Cluster, a: u64, i: int) -> (longer: Seq<Cluster>)
    requires
        execution(trace),
        leading(c1, trace.last(), a),
        0 <= i < trace.last().nodes[a].peers.len(),
        settled(trace.last(), a, i),
    ensures
        execution(longer),
        extends(longer, trace),
        leading(c1, longer.last(), a),
        settled(longer.last(), a, i + 1),
{
    let c = trace.last();
    let h = history_at(trace, trace.len() - 1);
    lemma_inv(trace, trace.len() - 1);
    let s = c.nodes[a];
    let p = s.peers[i];
    let m = s.log.len() as int;
    let t = s.current_term;
    assert(node_votes_ok(c, h, a));
    assert(s.peers.contains(p));
    assert(node_votes_ok(c, h, p));
    assert(node_log_ok(c, h, a));
    assert(node_progress_ok(c, h, a));
    let q = c.nodes[p];
    // The peer holds the leader's log: it has acknowledged all of it in
    // this term, and no later leader can have taken it away.
    assert(s.acked_length[s.peers[i]] == m);
    assert(ack_known(h, s, p));
    assert(h.accepted.contains_key((p, t)));
    assert(acceptance_ok(c, h, p, t));
    assert(kept_by(c, h, p, t, m));
    assert(q.log[m - 1] == s.log[m - 1]);
    if q.commit_length > m {
        lemma_committed_in_leader(trace, a, p, m);
    }
    let offer = s.request_for(p);
    assert(s.log.subrange(m, m) =~= Seq::<LogEntry>::empty());
    assert(agreeing_entries(q.log, m, Seq::<LogEntry>::empty(), 0) == 0);
    assert(takes_entries(q, offer));
    let reply = answer(s, q, p);
    let longer = lemma_round(trace, a, p);
    let d = longer.last();
    let s2 = d.nodes[a];
    lemma_step_wf(s, reply);
    let acked = NodeState {
        sent_length: s.sent_length.insert(p, m as usize),
        acked_length: s.acked_length.insert(p, m as usize),
        ..s
    };
    lemma_highest_committable(acked, acked.log.len());
    assert(unrivalled(d, a)) by {
        assert forall|x: u64| d.nodes.contains_key(x) implies (#[trigger] d.nodes[x]).current_term
            <= d.nodes[a].current_term by {
            if x != a && x != p {
                assert(d.nodes[x] == c.nodes[x]);
            }
        }
    }
    assert forall|j: int| 0 <= j < s.peers.len() implies s2.acked_length[#[trigger] s2.peers[j]]
        == s2.log.len() && s2.sent_length[s2.peers[j]] == s2.log.len() by {
        assert(s.acked_length[s.peers[j]] == m);
    }
    assert forall|j: int| 0 <= j < i + 1 implies (#[trigger] d.nodes[s2.peers[j]]).commit_length
        == s2.log.len() by {
        if j < i {
            assert(c.nodes[s.peers[j]].commit_length == m);
            assert(s.peers[j] != p);
            assert(s.peers.contains(s.peers[j]));
        }
    }
    longer
}

/// The first `k` peers learn that the leader's whole log is committed.
proof fn lemma_inform_all(trace: Seq<Cluster>, c1: Cluster, a: u64, k: int) -> (longer: Seq<
    Cluster,
>)
    requires
        execution(trace),
        leading(c1, trace.last(), a),
        settled(trace.last(), a, 0),
        0 <= k <= trace.last().nodes[a].peers.len(),
    ensures
        execution(longer),
        extends(longer, trace),
        leading(c1, longer.last(), a),
        settled(longer.last(), a, k),
    decreases k,
{
    if k == 0 {
        trace
    } else {
        let before = lemma_inform_all(trace, c1, a, k - 1);
        let longer = lemma_inform(before, c1, a, k - 1);
        assert forall|j: int| 0 <= j < trace.len() implies #[trigger] longer[j] == trace[j] by {
            assert(before[j] == trace[j]);
        }
        longer
    }
}

/// A leader can commit. Take any execution at whose end a node leads that
/// no node has outrun, in a cluster of at least two nodes, and any payload
/// that the leader's log has room for. The execution can go on to a state
/// in which the same node still leads the same term, its log is the log it
/// had followed by the payload, and every node has committed all of it and
/// has delivered the payloads of the whole log in order.
pub proof fn commit_is_possible(trace: Seq<Cluster>, a: u64, payload: u64) -> (longer: Seq<
    Cluster,
>)
    requires
        execution(trace),
        unrivalled(trace.last(), a),
        trace.last().nodes.dom().len() >= 2,
        trace.last().nodes[a].log.len() < isize::MAX,
    ensures
        execution(longer),
        extends(longer, trace),
        longer.last().nodes.dom() == trace.last().nodes.dom(),
        unrivalled(longer.last(), a),
        longer.last().nodes[a].current_term == trace.last().nodes[a].current_term,
        longer.last().nodes[a].log == trace.last().nodes[a].log.push(
            LogEntry { term: trace.last().nodes[a].current_term, payload },
        ),
        forall|id: u64|
            trace.last().nodes.contains_key(id) ==> {
                &&& (#[trigger] longer.last().nodes[id]).commit_length
                    == longer.last().nodes[a].log.len()
                &&& longer.last().delivered[id] == payloads(longer.last().nodes[a].log)
            },
{
    let c = trace.last();
    let h = history_at(trace, trace.len() - 1);
    lemma_inv(trace, trace.len() - 1);
    assert(node_votes_ok(c, h, a));
    crate::election::lemma_cluster_size(c, a);
    let s = c.nodes[a];
    let event = EventView::Broadcast { payload };
    let trace1 = lemma_extend(trace, a, event);
    let c1 = trace1.last();
    assert(c1.nodes.dom() =~= c.nodes.dom());
    assert(leading(c1, c1, a));
    let n = s.peers.len() as int;
    let trace2 = lemma_sync_all(trace1, a, n);
    let longer = lemma_inform_all(trace2, c1, a, n);
    let d = longer.last();
    let last = longer.len() - 1;
    let log = d.nodes[a].log;
    assert forall|j: int| 0 <= j < trace.len() implies #[trigger] longer[j] == trace[j] by {
        assert(trace1[j] == trace[j]);
        assert(trace2[j] == trace[j]);
    }
    lemma_inv(longer, last);
    assert forall|id: u64| c.nodes.contains_key(id) implies {
        &&& (#[trigger] d.nodes[id]).commit_length == log.len()
        &&& d.delivered[id] == payloads(log)
    } by {
        assert(node_votes_ok(d, history_at(longer, last), id));
        assert(node_votes_ok(d, history_at(longer, last), a));
        if id != a {
            assert(d.nodes[a].peers.contains(id));
            let i = choose|i: int| 0 <= i < n && d.nodes[a].peers[i] == id;
            assert(d.nodes[d.nodes[a].peers[i]].commit_length == log.len());
        }
        delivered_is_committed(longer, last, id);
        let held = d.nodes[id].log.subrange(0, log.len() as int);
        assert(held =~= log) by {
            assert forall|j: int| 0 <= j < log.len() implies held[j] == log[j] by {
                commit_safety(longer, last, last, id, a, j + 1);
            }
        }
    }
    longer
}

/// A cluster without a leader can recover. Take any execution at whose end
/// no node leads, in a cluster of at least two nodes none of which has
/// reached the last term or the longest log the machine can hold, and any
/// payload. The execution can go on, by finitely many election rounds and
/// rounds of replication, to a state in which one node leads a term later
/// than every term before, no node is in a later term, the leader's log is
/// the log it had followed by the payload, and every node has committed all
/// of it and has delivered the payloads of the whole log in order.
pub proof fn recovery_is_possible(trace: Seq<Cluster>, payload: u64) -> (found: (
    Seq<Cluster>,
    u64,
))
    requires
        execution(trace),
        trace.last().nodes.dom().len() >= 2,
        forall|id: u64|
            trace.last().nodes.contains_key(id) ==> {
                &&& !((#[trigger] trace.last().nodes[id]).current_role is Leader)
                &&& trace.last().nodes[id].current_term < u64::MAX
                &&& trace.last().nodes[id].log.len() < isize::MAX
            },
    ensures
        execution(found.0),
        extends(found.0, trace),
        found.0.last().nodes.dom() == trace.last().nodes.dom(),
        unrivalled(found.0.last(), found.1),
        forall|id: u64|
            trace.last().nodes.contains_key(id) ==> (#[trigger] trace.last().nodes[id]).current_term
                < found.0.last().nodes[found.1].current_term,
        found.0.last().nodes[found.1].log == trace.last().nodes[found.1].log.push(
            LogEntry { term: found.0.last().nodes[found.1].current_term, payload },
        ),
        forall|id: u64|
            trace.last().nodes.contains_key(id) ==> {
                &&& (#[trigger] found.0.last().nodes[id]).commit_length
                    == found.0.last().nodes[found.1].log.len()
                &&& found.0.last().delivered[id] == payloads(found.0.last().nodes[found.1].log)
            },
{
    let c = trace.last();
    let (elected, a) = election_is_possible(trace);
    let e = elected.last();
    assert(unrivalled(e, a)) by {
        assert forall|x: u64| e.nodes.contains_key(x) implies (#[trigger] e.nodes[x]).current_term
            <= e.nodes[a].current_term by {
            assert(c.nodes[x].current_term < e.nodes[x].current_term);
        }
    }
    assert(c.nodes[a].log.len() < isize::MAX);
    let longer = commit_is_possible(elected, a, payload);
    assert forall|j: int| 0 <= j < trace.len() implies #[trigger] longer[j] == trace[j] by {
        assert(elected[j] == trace[j]);
    }
    assert forall|id: u64| c.nodes.contains_key(id) implies (#[trigger] c.nodes[id]).current_term
        < longer.last().nodes[a].current_term by {
        assert(c.nodes[id].current_term < e.nodes[id].current_term);
    }
    (longer, a)
}

/// A cluster can make progress from its start. In every cluster of at
/// least two nodes in its initial state, and for every payload, there is an
/// execution at whose end one node leads, its log is the payload alone, and
/// every node has committed it and has delivered exactly the payload.
pub proof fn progress_from_start(c: Cluster, payload: u64) -> (found: (Seq<Cluster>, u64))
    requires
        c.init(),
        c.nodes.dom().len() >= 2,
    ensures
        execution(found.0),
        found.0[0] == c,
        found.0.last().nodes.dom() == c.nodes.dom(),
        unrivalled(found.0.last(), found.1),
        found.0.last().nodes[found.1].log == seq![
            LogEntry { term: found.0.last().nodes[found.1].current_term, payload },
        ],
        forall|id: u64|
            c.nodes.contains_key(id) ==> {
                &&& (#[trigger] found.0.last().nodes[id]).commit_length == 1
                &&& found.0.last().delivered[id] == seq![payload]
            },
{
    let start = seq![c];
    assert(execution(start));
    assert forall|id: u64| c.nodes.contains_key(id) implies {
        &&& !((#[trigger] c.nodes[id]).current_role is Leader)
        &&& c.nodes[id].current_term < u64::MAX
        &&& c.nodes[id].log.len() < isize::MAX
    } by {
        assert(c.starts(id));
    }
    let (trace, a) = recovery_is_possible(start, payload);
    let d = trace.last();
    assert(c.starts(a));
    let entry = LogEntry { term: d.nodes[a].current_term, payload };
    assert(d.nodes[a].log =~= seq![entry]);
    assert(payloads(seq![entry]) =~= seq![payload]);
    assert(trace[0] == start[0]);
    (trace, a)
}

} // verus!
