//! Commit safety and delivery ordering.
//!
//! A leader commits a prefix of its log only when the last entry of the
//! prefix is of its own term and a strict majority of the cluster holds the
//! prefix. Every later leader was elected by a strict majority, so one of
//! its voters held the prefix, and a vote goes only to a candidate whose log
//! is at least as up to date: the prefix is in the log of every later
//! leader. So what is committed is never contradicted, every node commits a
//! prefix of the same sequence, and delivers it in the same order.

use crate::cluster::{execution, next_by, steps_at, Cluster};
use crate::election::{
    election_inv, lemma_cluster_size, lemma_election_step, lemma_quorums_meet, node_votes_ok,
    quorum, term_ok,
};
use crate::facts::{
    covered, lemma_merged, lemma_sent, lemma_step_acks, lemma_step_commit, lemma_step_log,
    lemma_step_role, lemma_step_takes, lemma_step_vote, lemma_step_wf, lemma_vote_is_kept,
    takes_entries,
};
use crate::history::{ackers, history_at, prefix_eq, record, step_taken, History};
use crate::log::{agreeing_entries, agrees_at, last_term, payloads};
use crate::matching::{
    entry_ok, leader_log_ok, lemma_accepted_log, lemma_log_kept, lemma_log_step, log_inv,
    log_ok, node_log_ok, request_ok,
};
use crate::model::{ack_count, step, up_to_date, NodeState};
use crate::types::{Envelope, EventView, LogEntry};
use vstd::prelude::*;

verus! {

/// Whether the log of the leader of `t` has `m` entries, the last of them
/// of term `t`: a prefix that the leader may commit.
pub open spec fn point(h: History, t: u64, m: int) -> bool {
    &&& h.leader_log.contains_key(t)
    &&& 0 < m <= h.leader_log[t].len()
    &&& h.leader_log[t][m - 1].term == t
}

/// Whether the log of the leader of `ts` starts with the first `m` entries
/// of the log of the leader of `t`.
pub open spec fn contains_prefix(h: History, ts: u64, t: u64, m: int) -> bool {
    prefix_eq(h.leader_log[t], h.leader_log[ts], m)
}

/// Whether the log of every leader of a term after `t` and up to `upto`
/// starts with the first `m` entries of the log of the leader of `t`.
pub open spec fn unbroken(h: History, t: u64, m: int, upto: int) -> bool {
    forall|ts: u64|
        t < ts <= upto && h.leader_log.contains_key(ts) ==> #[trigger] contains_prefix(
            h,
            ts,
            t,
            m,
        )
}

/// A node that has held the first `m` entries of the log of the leader of
/// `t` still holds them, unless a later leader that it may have followed
/// did not have them.
pub open spec fn kept_by(c: Cluster, h: History, v: u64, t: u64, m: int) -> bool {
    h.holds(v, t, m) && point(h, t, m) && unbroken(h, t, m, c.nodes[v].current_term as int)
        ==> prefix_eq(h.leader_log[t], c.nodes[v].log, m)
}

/// What holds of what node `v` has held in term `t`.
pub open spec fn acceptance_ok(c: Cluster, h: History, v: u64, t: u64) -> bool {
    &&& c.nodes.contains_key(v)
    &&& t <= c.nodes[v].current_term
    &&& h.leader_log.contains_key(t)
    &&& h.accepted[(v, t)] <= h.leader_log[t].len()
    &&& forall|m: int| #[trigger] kept_by(c, h, v, t, m)
}

/// What holds of the log a candidate stood with in term `t`: it is in
/// order, and all its entries are of earlier terms.
pub open spec fn candidacy_ok(h: History, x: u64, t: u64) -> bool {
    &&& t >= 1
    &&& log_ok(h, h.candidate_log[(x, t)], (t - 1) as u64)
}

/// What holds of the leader of `t`: its log is the log it stood with,
/// followed by entries of term `t`.
pub open spec fn leader_start_ok(h: History, t: u64) -> bool {
    let cl = h.candidate_log[(h.leaders[t], t)];
    &&& h.candidate_log.contains_key((h.leaders[t], t))
    &&& h.leader_log.contains_key(t)
    &&& prefix_eq(cl, h.leader_log[t], cl.len() as int)
    &&& forall|j: int|
        cl.len() <= j < h.leader_log[t].len() ==> (#[trigger] h.leader_log[t][j]).term == t
}

/// Whether the vote of `v` in `t2` may have made the leader of `t2`.
pub open spec fn ballot_counts(h: History, v: u64, t2: u64) -> bool {
    !h.leaders.contains_key(t2) || h.electors[t2].contains(v)
}

/// The candidate that `v` voted for in `t2` stood with a log that starts
/// with what `v` had held of the log of the leader of the earlier term `t`,
/// unless a leader between the two terms did not have it.
pub open spec fn carried(h: History, v: u64, t2: u64, t: u64, m: int) -> bool {
    t < t2 && h.holds(v, t, m) && point(h, t, m) && unbroken(h, t, m, t2 - 1) ==> prefix_eq(
        h.leader_log[t],
        h.candidate_log[(h.votes[(v, t2)], t2)],
        m,
    )
}

/// What holds of the vote of `v` in `t2`.
pub open spec fn ballot_ok(h: History, v: u64, t2: u64) -> bool {
    &&& h.candidate_log.contains_key((h.votes[(v, t2)], t2))
    &&& ballot_counts(h, v, t2) ==> forall|t: u64, m: int| #[trigger] carried(h, v, t2, t, m)
}

/// A leader takes a peer to have acknowledged only what the peer has held.
pub open spec fn ack_known(h: History, n: NodeState, p: u64) -> bool {
    n.acked_length[p] == 0 || h.holds(p, n.current_term, n.acked_length[p] as int)
}

/// What holds of member `id` and the history of candidacies and of what
/// nodes have held.
pub open spec fn node_progress_ok(c: Cluster, h: History, id: u64) -> bool {
    let n = c.nodes[id];
    &&& n.current_role is Leader ==> h.holds(id, n.current_term, n.log.len() as int)
    &&& n.current_role is Leader ==> forall|p: u64|
        n.peers.contains(p) ==> #[trigger] ack_known(h, n, p)
    &&& !(n.current_role is Follower) ==> h.candidate_log.contains_key((id, n.current_term))
    &&& n.current_role is Candidate ==> h.candidate_log[(id, n.current_term)] == n.log
    &&& forall|t: u64| #[trigger] h.candidate_log.contains_key((id, t)) ==> t <= n.current_term
}

/// What holds of a message: a vote request tells the candidate's log, and a
/// peer acknowledges only what it has held.
pub open spec fn progress_message_ok(h: History, env: Envelope) -> bool {
    match env.event {
        EventView::VoteRequest { term, candidate_id, last_log_term, last_log_length } => {
            let cl = h.candidate_log[(candidate_id, term)];
            &&& h.candidate_log.contains_key((candidate_id, term))
            &&& last_log_term == last_term(cl)
            &&& last_log_length == cl.len()
        },
        EventView::LogResponse { from, term, success, ack_length } => success && ack_length > 0
            ==> h.holds(from, term, ack_length as int),
        _ => true,
    }
}

/// The invariant behind the completeness of leaders' logs.
pub open spec fn progress_inv(c: Cluster, h: History) -> bool {
    &&& forall|id: u64| c.nodes.contains_key(id) ==> #[trigger] node_progress_ok(c, h, id)
    &&& forall|v: u64, t: u64| #[trigger]
        h.accepted.contains_key((v, t)) ==> acceptance_ok(c, h, v, t)
    &&& forall|x: u64, t: u64| #[trigger]
        h.candidate_log.contains_key((x, t)) ==> candidacy_ok(h, x, t)
    &&& forall|t: u64| h.leaders.contains_key(t) ==> #[trigger] leader_start_ok(h, t)
    &&& forall|v: u64, t: u64| #[trigger] h.votes.contains_key((v, t)) ==> ballot_ok(h, v, t)
    &&& forall|env: Envelope| c.network.contains(env) ==> #[trigger] progress_message_ok(h, env)
}

/// What holds of member `id` and what is committed: the node has committed
/// a prefix of it, and delivered the payloads of what it has committed.
pub open spec fn node_commit_ok(c: Cluster, h: History, id: u64) -> bool {
    let n = c.nodes[id];
    &&& n.commit_length <= h.committed.len()
    &&& prefix_eq(n.log, h.committed, n.commit_length as int)
    &&& c.delivered.contains_key(id)
    &&& c.delivered[id] == n.deliveries()
}

/// A replication message commits only what is committed.
pub open spec fn commit_message_ok(h: History, env: Envelope) -> bool {
    match env.event {
        EventView::LogRequest { term, leader_commit, .. } => {
            &&& leader_commit <= h.committed.len()
            &&& prefix_eq(h.leader_log[term], h.committed, leader_commit as int)
        },
        _ => true,
    }
}

/// What holds of what is committed: the leader of `commit_term` may commit
/// it, and a strict majority has held it in that term.
pub open spec fn committed_ok(c: Cluster, h: History) -> bool {
    let m = h.committed.len() as int;
    m > 0 ==> {
        &&& point(h, h.commit_term, m)
        &&& prefix_eq(h.committed, h.leader_log[h.commit_term], m)
        &&& quorum(c, h.commit_quorum)
        &&& forall|v: u64| #[trigger] h.commit_quorum.contains(v) ==> h.holds(v, h.commit_term, m)
    }
}

/// The invariant behind commit safety.
pub open spec fn commit_inv(c: Cluster, h: History) -> bool {
    &&& forall|id: u64| c.nodes.contains_key(id) ==> #[trigger] node_commit_ok(c, h, id)
    &&& forall|env: Envelope| c.network.contains(env) ==> #[trigger] commit_message_ok(h, env)
    &&& committed_ok(c, h)
}

/// Everything that is known to hold in every state of an execution.
pub open spec fn inv(c: Cluster, h: History) -> bool {
    &&& election_inv(c, h)
    &&& log_inv(c, h)
    &&& progress_inv(c, h)
    &&& commit_inv(c, h)
}

/// Whether every leader's log in `h` is in order.
pub open spec fn leader_logs_ok(h: History) -> bool {
    forall|t: u64| h.leader_log.contains_key(t) ==> #[trigger] leader_log_ok(h, t)
}

/// In a log that is in order the terms never go down.
pub proof fn lemma_terms_rise(h: History, log: Seq<LogEntry>, bound: u64, i: int, j: int)
    requires
        leader_logs_ok(h),
        log_ok(h, log, bound),
        0 <= i <= j < log.len(),
    ensures
        log[i].term <= log[j].term,
{
    let tj = log[j].term;
    assert(entry_ok(h, log, j, bound));
    assert(leader_log_ok(h, tj));
    assert(entry_ok(h, h.leader_log[tj], i, tj));
    assert(log[i] == h.leader_log[tj][i]);
}

/// A later leader's log that starts with a prefix of an earlier leader's
/// log did so before it grew: what it grew by are entries of its own term.
pub proof fn lemma_prefix_not_new(h: History, h2: History, t: u64, ts: u64, m: int)
    requires
        leader_logs_ok(h),
        h.logs_grown_in(h2),
        h.leader_log.contains_key(t),
        h.leader_log.contains_key(ts),
        t < ts,
        m <= h.leader_log[t].len(),
        contains_prefix(h2, ts, t, m),
    ensures
        contains_prefix(h, ts, t, m),
{
    let lt = h.leader_log[t];
    let ls = h.leader_log[ts];
    assert(h.log_grown_in(h2, t));
    assert(h.log_grown_in(h2, ts));
    assert(leader_log_ok(h, t));
    if m > ls.len() {
        let j = ls.len() as int;
        assert(h2.leader_log[ts][j].term == ts);
        assert(h2.leader_log[t][j] == h2.leader_log[ts][j]);
        assert(lt[j] == h2.leader_log[t][j]);
        assert(entry_ok(h, lt, j, t));
        assert(false);
    }
    assert forall|j: int| 0 <= j < m implies lt[j] == #[trigger] ls[j] by {
        assert(lt[j] == h2.leader_log[t][j]);
        assert(ls[j] == h2.leader_log[ts][j]);
    }
}

/// If no later leader breaks a prefix after the logs have grown, none broke
/// it before.
pub proof fn lemma_unbroken_before(h: History, h2: History, t: u64, m: int, upto: int, upto2: int)
    requires
        leader_logs_ok(h),
        h.logs_grown_in(h2),
        h.leader_log.contains_key(t),
        m <= h.leader_log[t].len(),
        upto <= upto2,
        unbroken(h2, t, m, upto2),
    ensures
        unbroken(h, t, m, upto),
{
    assert forall|ts: u64|
        t < ts <= upto && h.leader_log.contains_key(ts) implies #[trigger] contains_prefix(
        h,
        ts,
        t,
        m,
    ) by {
        assert(h.log_grown_in(h2, ts));
        assert(contains_prefix(h2, ts, t, m));
        lemma_prefix_not_new(h, h2, t, ts, m);
    }
}

/// A vote carries a held prefix over to the candidate. If a voter's log
/// starts with the first `m` entries of the log of the leader of `t`, the
/// last of them of term `t`, no leader between `t` and `t2` broke that
/// prefix, and the log `cl` of a candidate of term `t2` is at least as up to
/// date as the voter's, then `cl` starts with the same `m` entries.
pub proof fn lemma_vote_carries(
    h: History,
    log: Seq<LogEntry>,
    bound: u64,
    cl: Seq<LogEntry>,
    t2: u64,
    t: u64,
    m: int,
)
    requires
        leader_logs_ok(h),
        log_ok(h, log, bound),
        t2 >= 1,
        log_ok(h, cl, (t2 - 1) as u64),
        up_to_date(last_term(cl), cl.len() as usize, log),
        cl.len() <= usize::MAX,
        point(h, t, m),
        t < t2,
        prefix_eq(h.leader_log[t], log, m),
        unbroken(h, t, m, t2 - 1),
    ensures
        prefix_eq(h.leader_log[t], cl, m),
{
    let lt = h.leader_log[t];
    let last = log.len() - 1;
    // The voter's log ends in a term that is at least `t`.
    assert(log[m - 1] == lt[m - 1]);
    lemma_terms_rise(h, log, bound, m - 1, last);
    let tz = log[last].term;
    assert(last_term(log) == tz);
    assert(cl.len() > 0);
    let clast = cl.len() - 1;
    let tc = cl[clast].term;
    assert(last_term(cl) == tc);
    assert(entry_ok(h, cl, clast, (t2 - 1) as u64));
    let lc = h.leader_log[tc];
    if tc == tz {
        // Both logs are the log of the leader of their last term, and the
        // candidate's is no shorter.
        assert(entry_ok(h, log, last, bound));
        assert forall|j: int| 0 <= j < m implies lt[j] == #[trigger] cl[j] by {
            assert(lt[j] == log[j]);
            assert(log[j] == lc[j]);
            assert(cl[j] == lc[j]);
        }
    } else {
        // The candidate's log ends in a term between `t` and `t2`, whose
        // leader had the prefix; and the prefix ends before that term starts.
        assert(t < tc <= t2 - 1);
        assert(contains_prefix(h, tc, t, m));
        assert(leader_log_ok(h, tc));
        if clast < m - 1 {
            lemma_terms_rise(h, lc, tc, clast, m - 1);
            assert(lc[clast] == cl[clast]);
            assert(lc[m - 1] == lt[m - 1]);
            assert(false);
        }
        assert forall|j: int| 0 <= j < m implies lt[j] == #[trigger] cl[j] by {
            assert(lt[j] == lc[j]);
            assert(cl[j] == lc[j]);
        }
    }
}

/// How many of `peers` have acknowledged at least `length` entries is the
/// size of the set of those peers.
pub proof fn lemma_ack_count(peers: Seq<u64>, acked: Map<u64, usize>, length: int)
    requires
        peers.no_duplicates(),
    ensures
        Set::new(|p: u64| peers.contains(p) && acked[p] >= length).finite(),
        Set::new(|p: u64| peers.contains(p) && acked[p] >= length).len() == ack_count(
            peers,
            acked,
            length,
        ),
    decreases peers.len(),
{
    let all = Set::new(|p: u64| peers.contains(p) && acked[p] >= length);
    if peers.len() == 0 {
        assert(all =~= Set::empty());
    } else {
        let init = peers.drop_last();
        let last = peers.last();
        let rest = Set::new(|p: u64| init.contains(p) && acked[p] >= length);
        lemma_ack_count(init, acked, length);
        assert(!init.contains(last)) by {
            if init.contains(last) {
                let j = choose|j: int| 0 <= j < init.len() && init[j] == last;
                assert(peers[j] == peers[peers.len() - 1]);
            }
        }
        assert forall|p: u64| peers.contains(p) <==> init.contains(p) || p == last by {
            if peers.contains(p) {
                let j = choose|j: int| 0 <= j < peers.len() && peers[j] == p;
                if j < init.len() {
                    assert(init[j] == p);
                }
            }
            if init.contains(p) {
                let j = choose|j: int| 0 <= j < init.len() && init[j] == p;
                assert(peers[j] == p);
            }
            if p == last {
                assert(peers[peers.len() - 1] == p);
            }
        }
        if acked[last] >= length {
            assert(all =~= rest.insert(last));
        } else {
            assert(all =~= rest);
        }
    }
}

/// The leader and the peers that acknowledged a committable prefix are a
/// strict majority of the cluster.
pub proof fn lemma_ackers(c: Cluster, id: u64, length: int)
    requires
        c.nodes.dom().finite(),
        c.nodes.contains_key(id),
        c.configured(id),
        c.nodes[id].committable(length),
    ensures
        quorum(c, ackers(c.nodes[id], length)),
{
    let s = c.nodes[id];
    let others = Set::new(|p: u64| s.peers.contains(p) && s.acked_length[p] >= length);
    lemma_ack_count(s.peers, s.acked_length, length);
    lemma_cluster_size(c, id);
    assert(ackers(s, length) =~= others.insert(id));
    assert(!others.contains(id));
}

/// What a step does to the cluster and the history, whatever the event.
pub proof fn lemma_step_basics(c: Cluster, h: History, d: Cluster, id: u64, event: EventView)
    requires
        inv(c, h),
        next_by(c, d, id, event),
    ensures
        election_inv(d, record(c, h, id, event)),
        log_inv(d, record(c, h, id, event)),
        h.kept_in(record(c, h, id, event)),
        h.logs_grown_in(record(c, h, id, event)),
        h.progress_kept_in(record(c, h, id, event)),
        leader_logs_ok(h),
        leader_logs_ok(record(c, h, id, event)),
        d.nodes.dom() == c.nodes.dom(),
        d.nodes[id] == step(c.nodes[id], event).state,
        forall|x: u64| x != id ==> #[trigger] d.nodes[x] == c.nodes[x],
        c.nodes[id].wf(),
        d.nodes[id].wf(),
        c.configured(id),
        d.configured(id),
{
    let s = c.nodes[id];
    let s2 = step(s, event).state;
    let h2 = record(c, h, id, event);
    lemma_election_step(c, h, d, id, event);
    lemma_log_step(c, h, d, id, event);
    assert(d.nodes.dom() =~= c.nodes.dom());
    assert(node_votes_ok(c, h, id));
    assert(node_votes_ok(d, h2, id));
    assert(node_log_ok(c, h, id));
    assert(node_progress_ok(c, h, id));
    lemma_step_wf(s, event);
    lemma_vote_is_kept(s, event);
    lemma_step_role(s, event);
    lemma_step_log(s, event);
    assert forall|k: (u64, u64)| #[trigger]
        h.accepted.contains_key(k) implies h2.accepted.contains_key(k) && h2.accepted[k]
        >= h.accepted[k] by {
        if k == (id, s2.current_term) && s2.current_role is Leader {
            assert(acceptance_ok(c, h, id, s2.current_term));
            assert(leader_log_ok(h, s2.current_term));
            if !(s.current_role is Leader) {
                crate::election::lemma_elected(c, h, d, id, event);
            }
        }
    }
}

/// A step keeps what holds of each member's candidacy and acknowledgements.
proof fn lemma_node_progress_step(c: Cluster, h: History, d: Cluster, id: u64, event: EventView)
    requires
        inv(c, h),
        next_by(c, d, id, event),
    ensures
        forall|x: u64|
            d.nodes.contains_key(x) ==> #[trigger] node_progress_ok(d, record(c, h, id, event), x),
{
    let s = c.nodes[id];
    let s2 = step(s, event).state;
    let h2 = record(c, h, id, event);
    lemma_step_basics(c, h, d, id, event);
    lemma_step_role(s, event);
    lemma_step_log(s, event);
    lemma_vote_is_kept(s, event);
    assert forall|x: u64| d.nodes.contains_key(x) implies #[trigger] node_progress_ok(
        d,
        h2,
        x,
    ) by {
        assert(node_progress_ok(c, h, x));
        let n = d.nodes[x];
        if x == id {
            if s2.current_role is Leader {
                assert forall|p: u64| s2.peers.contains(p) implies #[trigger] ack_known(
                    h2,
                    s2,
                    p,
                ) by {
                    if s2.acked_length[p] > 0 {
                        lemma_step_acks(s, event, p);
                        if s.current_role is Leader && s.current_term == s2.current_term
                            && s.acked_length[p] == s2.acked_length[p] {
                            assert(ack_known(h, s, p));
                            assert(h.accepted.contains_key((p, s.current_term)));
                        } else {
                            let env = Envelope { to: id, event };
                            assert(c.network.contains(env));
                            assert(progress_message_ok(h, env));
                            assert(h.accepted.contains_key((p, s2.current_term)));
                        }
                    }
                }
            }
        } else {
            assert(n == c.nodes[x]);
            if n.current_role is Leader {
                assert(h.accepted.contains_key((x, n.current_term)));
                assert forall|p: u64| n.peers.contains(p) implies #[trigger] ack_known(
                    h2,
                    n,
                    p,
                ) by {
                    assert(ack_known(h, n, p));
                    if n.acked_length[p] > 0 {
                        assert(h.accepted.contains_key((p, n.current_term)));
                    }
                }
            }
            if !(n.current_role is Follower) {
                assert(h.candidate_log.contains_key((x, n.current_term)));
            }
        }
    }
}

/// A step keeps what holds of candidates' and leaders' logs.
proof fn lemma_candidacy_step(c: Cluster, h: History, d: Cluster, id: u64, event: EventView)
    requires
        inv(c, h),
        next_by(c, d, id, event),
    ensures
        forall|x: u64, t: u64| #[trigger]
            record(c, h, id, event).candidate_log.contains_key((x, t)) ==> candidacy_ok(
                record(c, h, id, event),
                x,
                t,
            ),
        forall|t: u64|
            record(c, h, id, event).leaders.contains_key(t) ==> #[trigger] leader_start_ok(
                record(c, h, id, event),
                t,
            ),
{
    let s = c.nodes[id];
    let s2 = step(s, event).state;
    let h2 = record(c, h, id, event);
    lemma_step_basics(c, h, d, id, event);
    lemma_step_role(s, event);
    lemma_step_log(s, event);
    lemma_vote_is_kept(s, event);
    assert(node_progress_ok(c, h, id));
    assert(node_log_ok(c, h, id));
    assert(node_votes_ok(c, h, id));
    assert forall|x: u64, t: u64| #[trigger]
        h2.candidate_log.contains_key((x, t)) implies candidacy_ok(h2, x, t) by {
        if h.candidate_log.contains_key((x, t)) {
            assert(candidacy_ok(h, x, t));
            lemma_log_kept(h, h2, h.candidate_log[(x, t)], (t - 1) as u64, (t - 1) as u64);
        } else {
            lemma_log_kept(h, h2, s.log, s.current_term, s.current_term);
        }
    }
    assert forall|t: u64| h2.leaders.contains_key(t) implies #[trigger] leader_start_ok(
        h2,
        t,
    ) by {
        if s2.current_role is Leader && t == s2.current_term {
            if s.current_role is Leader {
                assert(leader_start_ok(h, t));
                assert(h.candidate_log.contains_key((h.leaders[t], t)));
                assert(h.log_grown_in(h2, t));
                let cl = h.candidate_log[(id, t)];
                assert forall|j: int| 0 <= j < cl.len() implies cl[j]
                    == #[trigger] h2.leader_log[t][j] by {
                    assert(cl[j] == h.leader_log[t][j]);
                }
                assert forall|j: int| cl.len() <= j < h2.leader_log[t].len() implies (
                #[trigger] h2.leader_log[t][j]).term == t by {
                    if j < h.leader_log[t].len() {
                        assert(h.leader_log[t][j].term == t);
                    }
                }
            } else {
                assert(h.candidate_log.contains_key((id, t)));
            }
        } else {
            assert(leader_start_ok(h, t));
            assert(h.candidate_log.contains_key((h.leaders[t], t)));
            assert(h.leader_log.contains_key(t));
            assert(h.log_grown_in(h2, t));
        }
    }
}

/// A step keeps what holds of the messages about candidacies and
/// acknowledgements.
proof fn lemma_progress_message_step(c: Cluster, h: History, d: Cluster, id: u64, event: EventView)
    requires
        inv(c, h),
        next_by(c, d, id, event),
    ensures
        forall|env: Envelope|
            d.network.contains(env) ==> #[trigger] progress_message_ok(
                record(c, h, id, event),
                env,
            ),
{
    let s = c.nodes[id];
    let t = step(s, event);
    let s2 = t.state;
    let h2 = record(c, h, id, event);
    lemma_step_basics(c, h, d, id, event);
    lemma_step_role(s, event);
    lemma_step_log(s, event);
    lemma_vote_is_kept(s, event);
    assert forall|env: Envelope| d.network.contains(env) implies #[trigger] progress_message_ok(
        h2,
        env,
    ) by {
        if c.network.contains(env) {
            assert(progress_message_ok(h, env));
            match env.event {
                EventView::VoteRequest { term, candidate_id, .. } => {
                    assert(h.candidate_log.contains_key((candidate_id, term)));
                },
                EventView::LogResponse { from, term, success, ack_length } => {
                    if success && ack_length > 0 {
                        assert(h.accepted.contains_key((from, term)));
                    }
                },
                _ => {},
            }
        } else {
            assert(t.messages.contains(env));
            lemma_sent(s, event, env);
        }
    }
}

/// A step keeps what a node has held: one instance of `kept_by`.
proof fn lemma_kept_by_step(
    c: Cluster,
    h: History,
    d: Cluster,
    id: u64,
    event: EventView,
    v: u64,
    t: u64,
    m: int,
)
    requires
        inv(c, h),
        next_by(c, d, id, event),
        record(c, h, id, event).accepted.contains_key((v, t)),
    ensures
        kept_by(d, record(c, h, id, event), v, t, m),
{
    let s = c.nodes[id];
    let s2 = step(s, event).state;
    let h2 = record(c, h, id, event);
    lemma_step_basics(c, h, d, id, event);
    lemma_step_role(s, event);
    lemma_step_log(s, event);
    lemma_vote_is_kept(s, event);
    assert(node_log_ok(c, h, id));
    assert(node_log_ok(d, h2, id));
    if h2.holds(v, t, m) && point(h2, t, m) && unbroken(
        h2,
        t,
        m,
        d.nodes[v].current_term as int,
    ) {
        let lt2 = h2.leader_log[t];
        if v == id && t == s2.current_term && s2.current_role is Leader {
            assert(lt2 == s2.log);
        } else if v == id && takes_entries(s, event) {
            lemma_step_takes(s, event);
            let env = Envelope { to: id, event };
            assert(c.network.contains(env));
            assert(request_ok(h, env));
            if let EventView::LogRequest { term, prev_log_index, prev_log_term, entries, .. } =
                event {
                let start = prev_log_index + 1;
                let l = h.leader_log[term];
                let k = agreeing_entries(s.log, start, entries, 0);
                assert(leader_log_ok(h, term));
                assert(h2.leader_log == h.leader_log);
                lemma_accepted_log(
                    h,
                    s.log,
                    s.current_term,
                    term,
                    prev_log_index as int,
                    prev_log_term,
                    entries,
                );
                lemma_merged(s.log, start, entries);
                if t == term {
                    if m <= covered(event) {
                        assert forall|j: int| 0 <= j < m implies l[j] == #[trigger] s2.log[j] by {
                            assert(s2.log[j] == l[j]);
                        }
                    } else {
                        assert(h.accepted.contains_key((id, t)));
                        assert(acceptance_ok(c, h, id, t));
                        assert(kept_by(c, h, id, t, m));
                        assert(prefix_eq(l, s.log, m));
                        if k < entries.len() {
                            assert(entries[k as int] == l[prev_log_index + 1 + k]);
                            assert(l[start + k] == s.log[start + k]);
                            assert(agrees_at(s.log, start, entries, k as int));
                        }
                    }
                } else {
                    assert(h.accepted.contains_key((id, t)));
                    assert(acceptance_ok(c, h, id, t));
                    let lt = h.leader_log[t];
                    assert(contains_prefix(h2, term, t, m));
                    if k == entries.len() {
                        lemma_unbroken_before(
                            h,
                            h2,
                            t,
                            m,
                            s.current_term as int,
                            s2.current_term as int,
                        );
                        assert(kept_by(c, h, id, t, m));
                    } else {
                        if covered(event) < m {
                            assert(l[m - 1].term == term);
                            assert(l[m - 1] == lt[m - 1]);
                            assert(false);
                        }
                        assert forall|j: int| 0 <= j < m implies lt[j] == #[trigger] s2.log[j] by {
                            assert(s2.log[j] == l[j]);
                            assert(lt[j] == l[j]);
                        }
                    }
                }
            }
        } else {
            assert(h.accepted.contains_key((v, t)));
            assert(h.accepted[(v, t)] == h2.accepted[(v, t)]);
            assert(acceptance_ok(c, h, v, t));
            assert(h.log_grown_in(h2, t));
            let lt = h.leader_log[t];
            assert(lt[m - 1] == lt2[m - 1]);
            lemma_unbroken_before(
                h,
                h2,
                t,
                m,
                c.nodes[v].current_term as int,
                d.nodes[v].current_term as int,
            );
            assert(kept_by(c, h, v, t, m));
            let log = c.nodes[v].log;
            let log2 = d.nodes[v].log;
            assert forall|j: int| 0 <= j < m implies lt2[j] == #[trigger] log2[j] by {
                assert(lt[j] == lt2[j]);
                assert(lt[j] == log[j]);
                assert(log[j] == log2[j]);
            }
        }
    }
}

/// A step keeps what holds of what nodes have held.
proof fn lemma_acceptance_step(c: Cluster, h: History, d: Cluster, id: u64, event: EventView)
    requires
        inv(c, h),
        next_by(c, d, id, event),
    ensures
        forall|v: u64, t: u64| #[trigger]
            record(c, h, id, event).accepted.contains_key((v, t)) ==> acceptance_ok(
                d,
                record(c, h, id, event),
                v,
                t,
            ),
{
    let s = c.nodes[id];
    let s2 = step(s, event).state;
    let h2 = record(c, h, id, event);
    lemma_step_basics(c, h, d, id, event);
    lemma_step_role(s, event);
    lemma_vote_is_kept(s, event);
    assert(node_log_ok(d, h2, id));
    assert forall|v: u64, t: u64| #[trigger] h2.accepted.contains_key((v, t)) implies acceptance_ok(
        d,
        h2,
        v,
        t,
    ) by {
        if v == id && t == s2.current_term && s2.current_role is Leader {
        } else if v == id && t == s2.current_term && takes_entries(s, event) {
            lemma_step_takes(s, event);
            let env = Envelope { to: id, event };
            assert(c.network.contains(env));
            assert(request_ok(h, env));
            if h.accepted.contains_key((v, t)) {
                assert(acceptance_ok(c, h, v, t));
            }
        } else {
            assert(h.accepted.contains_key((v, t)));
            assert(acceptance_ok(c, h, v, t));
            assert(h.log_grown_in(h2, t));
        }
        assert forall|m: int| #[trigger] kept_by(d, h2, v, t, m) by {
            lemma_kept_by_step(c, h, d, id, event, v, t, m);
        }
    }
}

/// A step keeps what a vote carries: one instance of `carried`.
proof fn lemma_carried_step(
    c: Cluster,
    h: History,
    d: Cluster,
    id: u64,
    event: EventView,
    v: u64,
    t2: u64,
    t: u64,
    m: int,
)
    requires
        inv(c, h),
        next_by(c, d, id, event),
        record(c, h, id, event).votes.contains_key((v, t2)),
        ballot_counts(record(c, h, id, event), v, t2),
    ensures
        carried(record(c, h, id, event), v, t2, t, m),
{
    let s = c.nodes[id];
    let s2 = step(s, event).state;
    let h2 = record(c, h, id, event);
    lemma_step_basics(c, h, d, id, event);
    lemma_acceptance_step(c, h, d, id, event);
    lemma_step_role(s, event);
    lemma_vote_is_kept(s, event);
    assert(node_votes_ok(c, h, id));
    assert(node_log_ok(c, h, id));
    if t < t2 && h2.holds(v, t, m) && point(h2, t, m) && unbroken(h2, t, m, t2 - 1) {
        assert(h2.accepted.contains_key((v, t)));
        assert(acceptance_ok(d, h2, v, t));
        assert(node_votes_ok(d, h2, v));
        assert(t2 <= d.nodes[v].current_term);
        assert(h.accepted.contains_key((v, t)) && h.accepted[(v, t)] == h2.accepted[(v, t)]);
        assert(acceptance_ok(c, h, v, t));
        assert(h.log_grown_in(h2, t));
        let lt = h.leader_log[t];
        let lt2 = h2.leader_log[t];
        assert(lt[m - 1] == lt2[m - 1]);
        lemma_unbroken_before(h, h2, t, m, t2 - 1, t2 - 1);
        let cl = h2.candidate_log[(h2.votes[(v, t2)], t2)];
        if h.votes.contains_key((v, t2)) {
            assert(ballot_ok(h, v, t2));
            if h.leaders.contains_key(t2) {
                if s2.current_role is Leader && !(s.current_role is Leader) {
                    crate::election::lemma_elected(c, h, d, id, event);
                }
                assert(h2.electors[t2] == h.electors[t2]);
            }
            assert(ballot_counts(h, v, t2));
            assert(carried(h, v, t2, t, m));
            assert(h.candidate_log.contains_key((h.votes[(v, t2)], t2)));
        } else {
            assert(v == id && t2 == s2.current_term);
            lemma_step_vote(s, event);
            if h.leaders.contains_key(t2) {
                assert(term_ok(c, h, t2));
                assert(h2.electors[t2] == h.electors[t2]);
                assert(false);
            }
            assert(!h2.leaders.contains_key(t2));
            assert forall|ts: u64|
                t < ts <= s.current_term && h.leader_log.contains_key(
                    ts,
                ) implies #[trigger] contains_prefix(h, ts, t, m) by {
                if ts == t2 {
                    assert(leader_log_ok(h, ts));
                }
            }
            assert(kept_by(c, h, id, t, m));
            assert(prefix_eq(lt, s.log, m));
            if event is ElectionTimeout {
                assert(cl == s.log);
            } else {
                let env = Envelope { to: id, event };
                assert(c.network.contains(env));
                assert(progress_message_ok(h, env));
                assert(h.candidate_log.contains_key((h2.votes[(v, t2)], t2)));
                assert(candidacy_ok(h, h2.votes[(v, t2)], t2));
                lemma_vote_carries(h, s.log, s.current_term, cl, t2, t, m);
            }
        }
        assert forall|j: int| 0 <= j < m implies lt2[j] == #[trigger] cl[j] by {
            assert(lt[j] == lt2[j]);
            assert(lt[j] == cl[j]);
        }
    }
}

/// A step keeps what holds of the votes.
proof fn lemma_ballot_step(c: Cluster, h: History, d: Cluster, id: u64, event: EventView)
    requires
        inv(c, h),
        next_by(c, d, id, event),
    ensures
        forall|v: u64, t: u64| #[trigger]
            record(c, h, id, event).votes.contains_key((v, t)) ==> ballot_ok(
                record(c, h, id, event),
                v,
                t,
            ),
{
    let s = c.nodes[id];
    let s2 = step(s, event).state;
    let h2 = record(c, h, id, event);
    lemma_step_basics(c, h, d, id, event);
    lemma_vote_is_kept(s, event);
    assert(node_votes_ok(c, h, id));
    assert forall|v: u64, t2: u64| #[trigger] h2.votes.contains_key((v, t2)) implies ballot_ok(
        h2,
        v,
        t2,
    ) by {
        if h.votes.contains_key((v, t2)) {
            assert(ballot_ok(h, v, t2));
            assert(h.candidate_log.contains_key((h.votes[(v, t2)], t2)));
        } else {
            lemma_step_vote(s, event);
            if !(event is ElectionTimeout) {
                let env = Envelope { to: id, event };
                assert(c.network.contains(env));
                assert(progress_message_ok(h, env));
                assert(h.candidate_log.contains_key((h2.votes[(v, t2)], t2)));
            }
        }
        if ballot_counts(h2, v, t2) {
            assert forall|t: u64, m: int| #[trigger] carried(h2, v, t2, t, m) by {
                lemma_carried_step(c, h, d, id, event, v, t2, t, m);
            }
        }
    }
}

/// A step keeps the invariant behind the completeness of leaders' logs.
pub proof fn lemma_progress_step(c: Cluster, h: History, d: Cluster, id: u64, event: EventView)
    requires
        inv(c, h),
        next_by(c, d, id, event),
    ensures
        progress_inv(d, record(c, h, id, event)),
{
    lemma_node_progress_step(c, h, d, id, event);
    lemma_acceptance_step(c, h, d, id, event);
    lemma_candidacy_step(c, h, d, id, event);
    lemma_ballot_step(c, h, d, id, event);
    lemma_progress_message_step(c, h, d, id, event);
}

/// Leader completeness. If a strict majority has held the first `m`
/// entries of the log of the leader of `t`, the last of them of term `t`,
/// then the log of the leader of every later term starts with them.
pub proof fn lemma_leader_complete(c: Cluster, h: History, t: u64, m: int, q: Set<u64>, ts: u64)
    requires
        election_inv(c, h),
        log_inv(c, h),
        progress_inv(c, h),
        quorum(c, q),
        forall|v: u64| #[trigger] q.contains(v) ==> h.holds(v, t, m),
        point(h, t, m),
        t < ts,
        h.leader_log.contains_key(ts),
    ensures
        contains_prefix(h, ts, t, m),
    decreases ts,
{
    assert forall|tm: u64|
        t < tm <= ts - 1 && h.leader_log.contains_key(tm) implies #[trigger] contains_prefix(
        h,
        tm,
        t,
        m,
    ) by {
        lemma_leader_complete(c, h, t, m, q, tm);
    }
    assert(unbroken(h, t, m, ts - 1));
    assert(leader_log_ok(h, ts));
    assert(term_ok(c, h, ts));
    assert(leader_start_ok(h, ts));
    let v = lemma_quorums_meet(c, q, h.electors[ts]);
    assert(h.voted(v, ts, h.leaders[ts]));
    assert(h.votes.contains_key((v, ts)));
    assert(ballot_ok(h, v, ts));
    assert(ballot_counts(h, v, ts));
    assert(carried(h, v, ts, t, m));
    let cl = h.candidate_log[(h.leaders[ts], ts)];
    let lt = h.leader_log[t];
    let ls = h.leader_log[ts];
    assert(prefix_eq(lt, cl, m));
    assert forall|j: int| 0 <= j < m implies lt[j] == #[trigger] ls[j] by {
        assert(lt[j] == cl[j]);
        assert(cl[j] == ls[j]);
    }
}

/// A step only adds to what is committed, and keeps what holds of it. A
/// leader's own commit length stays within it.
proof fn lemma_committed_step(c: Cluster, h: History, d: Cluster, id: u64, event: EventView)
    requires
        inv(c, h),
        next_by(c, d, id, event),
    ensures
        prefix_eq(
            h.committed,
            record(c, h, id, event).committed,
            h.committed.len() as int,
        ),
        committed_ok(d, record(c, h, id, event)),
        d.nodes[id].current_role is Leader ==> {
            &&& d.nodes[id].commit_length <= record(c, h, id, event).committed.len()
            &&& prefix_eq(
                d.nodes[id].log,
                record(c, h, id, event).committed,
                d.nodes[id].commit_length as int,
            )
        },
{
    let s = c.nodes[id];
    let s2 = step(s, event).state;
    let h2 = record(c, h, id, event);
    lemma_step_basics(c, h, d, id, event);
    lemma_progress_step(c, h, d, id, event);
    lemma_step_commit(s, event);
    lemma_step_role(s, event);
    assert(node_commit_ok(c, h, id));
    assert(node_log_ok(d, h2, id));
    assert(node_progress_ok(d, h2, id));
    let m = s2.commit_length as int;
    let mc = h.committed.len() as int;
    let ct = h.commit_term;
    let cq = h.commit_quorum;
    let term = s2.current_term;
    // What held of the committed prefix before still holds.
    if mc > 0 {
        assert(h.log_grown_in(h2, ct));
        assert(h.leader_log[ct][mc - 1] == h2.leader_log[ct][mc - 1]);
        assert(point(h2, ct, mc));
        assert forall|j: int| 0 <= j < mc implies h.committed[j]
            == #[trigger] h2.leader_log[ct][j] by {
            assert(h.committed[j] == h.leader_log[ct][j]);
        }
        assert(quorum(d, cq));
        assert forall|v: u64| #[trigger] cq.contains(v) implies h2.holds(v, ct, mc) by {
            assert(h.holds(v, ct, mc));
            assert(h.accepted.contains_key((v, ct)));
        }
    }
    if s2.current_role is Leader {
        assert(h2.leader_log[term] == s2.log);
        if m > s.commit_length {
            let q = ackers(s2, m);
            assert(s2.committable(m));
            lemma_ackers(d, id, m);
            assert(point(h2, term, m));
            assert forall|v: u64| #[trigger] q.contains(v) implies h2.holds(v, term, m) by {
                if v != id {
                    assert(ack_known(h2, s2, v));
                }
            }
            if mc > 0 {
                if term > ct {
                    lemma_leader_complete(d, h2, ct, mc, cq, term);
                    assert(contains_prefix(h2, term, ct, mc));
                    if m < mc {
                        lemma_terms_rise(h2, s2.log, term, m - 1, mc - 1);
                        assert(s2.log[mc - 1] == h2.leader_log[ct][mc - 1]);
                        assert(false);
                    }
                    assert forall|j: int| 0 <= j < mc implies s2.log[j]
                        == #[trigger] h.committed[j] by {
                        assert(h2.leader_log[ct][j] == s2.log[j]);
                        assert(h.committed[j] == h.leader_log[ct][j]);
                    }
                } else if term < ct {
                    lemma_leader_complete(d, h2, term, m, q, ct);
                    assert(contains_prefix(h2, ct, term, m));
                    let lc = h2.leader_log[ct];
                    assert(leader_log_ok(h2, ct));
                    if m > mc {
                        lemma_terms_rise(h2, lc, ct, mc - 1, m - 1);
                        assert(lc[m - 1] == s2.log[m - 1]);
                        assert(false);
                    }
                    assert forall|j: int| 0 <= j < m implies s2.log[j]
                        == #[trigger] h.committed[j] by {
                        assert(lc[j] == s2.log[j]);
                        assert(h.committed[j] == lc[j]);
                    }
                } else {
                    assert forall|j: int| 0 <= j < mc implies s2.log[j]
                        == #[trigger] h.committed[j] by {
                        assert(h.committed[j] == h2.leader_log[ct][j]);
                    }
                }
            }
        } else {
            assert forall|j: int| 0 <= j < m implies s2.log[j] == #[trigger] h.committed[j] by {
                assert(s2.log[j] == s.log[j]);
            }
        }
    }
}

/// A step keeps what holds of each member and what is committed.
proof fn lemma_node_commit_step(c: Cluster, h: History, d: Cluster, id: u64, event: EventView)
    requires
        inv(c, h),
        next_by(c, d, id, event),
    ensures
        forall|x: u64|
            d.nodes.contains_key(x) ==> #[trigger] node_commit_ok(d, record(c, h, id, event), x),
{
    let s = c.nodes[id];
    let t = step(s, event);
    let s2 = t.state;
    let h2 = record(c, h, id, event);
    lemma_step_basics(c, h, d, id, event);
    lemma_committed_step(c, h, d, id, event);
    lemma_step_commit(s, event);
    assert(node_log_ok(c, h, id));
    assert forall|x: u64| d.nodes.contains_key(x) implies #[trigger] node_commit_ok(d, h2, x) by {
        assert(node_commit_ok(c, h, x));
        let n = d.nodes[x];
        if x == id {
            if !(s2.current_role is Leader) {
                assert(h2.committed == h.committed);
                if s2.commit_length > s.commit_length {
                    lemma_step_takes(s, event);
                    let env = Envelope { to: id, event };
                    assert(c.network.contains(env));
                    assert(request_ok(h, env));
                    assert(commit_message_ok(h, env));
                    if let EventView::LogRequest {
                        term,
                        prev_log_index,
                        prev_log_term,
                        entries,
                        leader_commit,
                        ..
                    } = event {
                        assert(leader_log_ok(h, term));
                        lemma_accepted_log(
                            h,
                            s.log,
                            s.current_term,
                            term,
                            prev_log_index as int,
                            prev_log_term,
                            entries,
                        );
                        let l = h.leader_log[term];
                        assert forall|j: int| 0 <= j < s2.commit_length implies s2.log[j]
                            == #[trigger] h.committed[j] by {
                            assert(s2.log[j] == l[j]);
                            assert(l[j] == h.committed[j]);
                        }
                    }
                } else {
                    assert forall|j: int| 0 <= j < s2.commit_length implies s2.log[j]
                        == #[trigger] h.committed[j] by {
                        assert(s2.log[j] == s.log[j]);
                    }
                }
            }
            let before = s.log.subrange(0, s.commit_length as int);
            let fresh = s2.log.subrange(s.commit_length as int, s2.commit_length as int);
            let after = s2.log.subrange(0, s2.commit_length as int);
            assert(payloads(before) + payloads(fresh) =~= payloads(after)) by {
                assert forall|j: int| 0 <= j < before.len() implies before[j] == after[j] by {
                    assert(s2.log[j] == s.log[j]);
                }
            }
        } else {
            assert(n == c.nodes[x]);
            assert forall|j: int| 0 <= j < n.commit_length implies n.log[j]
                == #[trigger] h2.committed[j] by {
                assert(n.log[j] == h.committed[j]);
            }
        }
    }
}

/// A step keeps what holds of the commit length that messages carry.
proof fn lemma_commit_message_step(c: Cluster, h: History, d: Cluster, id: u64, event: EventView)
    requires
        inv(c, h),
        next_by(c, d, id, event),
    ensures
        forall|env: Envelope|
            d.network.contains(env) ==> #[trigger] commit_message_ok(
                record(c, h, id, event),
                env,
            ),
{
    let s = c.nodes[id];
    let t = step(s, event);
    let s2 = t.state;
    let h2 = record(c, h, id, event);
    lemma_step_basics(c, h, d, id, event);
    lemma_committed_step(c, h, d, id, event);
    assert(node_log_ok(d, h2, id));
    assert forall|env: Envelope| d.network.contains(env) implies #[trigger] commit_message_ok(
        h2,
        env,
    ) by {
        if c.network.contains(env) {
            assert(commit_message_ok(h, env));
            assert(request_ok(h, env));
            if let EventView::LogRequest { term, leader_commit, .. } = env.event {
                assert(h.log_grown_in(h2, term));
                assert forall|j: int| 0 <= j < leader_commit implies h2.leader_log[term][j]
                    == #[trigger] h2.committed[j] by {
                    assert(h.leader_log[term][j] == h2.leader_log[term][j]);
                    assert(h.leader_log[term][j] == h.committed[j]);
                }
            }
        } else {
            assert(t.messages.contains(env));
            lemma_sent(s, event, env);
        }
    }
}

/// The whole invariant holds of an initial state.
pub proof fn lemma_init(c: Cluster)
    requires
        c.init(),
    ensures
        inv(c, History::empty()),
{
    let h = History::empty();
    crate::election::lemma_election_init(c);
    crate::matching::lemma_log_init(c);
    assert forall|id: u64| c.nodes.contains_key(id) implies #[trigger] node_progress_ok(
        c,
        h,
        id,
    ) by {
        assert(c.starts(id));
    }
    assert forall|id: u64| c.nodes.contains_key(id) implies #[trigger] node_commit_ok(c, h, id) by {
        assert(c.starts(id));
        assert(c.nodes[id].deliveries() =~= Seq::<u64>::empty());
    }
}

/// A step keeps the whole invariant, and only adds to what is committed.
pub proof fn lemma_step(c: Cluster, h: History, d: Cluster, id: u64, event: EventView)
    requires
        inv(c, h),
        next_by(c, d, id, event),
    ensures
        inv(d, record(c, h, id, event)),
        prefix_eq(
            h.committed,
            record(c, h, id, event).committed,
            h.committed.len() as int,
        ),
{
    lemma_step_basics(c, h, d, id, event);
    lemma_progress_step(c, h, d, id, event);
    lemma_committed_step(c, h, d, id, event);
    lemma_node_commit_step(c, h, d, id, event);
    lemma_commit_message_step(c, h, d, id, event);
}

/// The whole invariant holds in every state of an execution.
pub proof fn lemma_inv(trace: Seq<Cluster>, k: int)
    requires
        execution(trace),
        0 <= k < trace.len(),
    ensures
        inv(trace[k], history_at(trace, k)),
    decreases k,
{
    if k == 0 {
        lemma_init(trace[0]);
    } else {
        lemma_inv(trace, k - 1);
        assert(steps_at(trace, k - 1));
        let (id, event) = step_taken(trace[k - 1], trace[k]);
        lemma_step(trace[k - 1], history_at(trace, k - 1), trace[k], id, event);
    }
}

/// What is committed at one state of an execution is a prefix of what is
/// committed at every later one.
pub proof fn lemma_committed_grows(trace: Seq<Cluster>, i: int, j: int)
    requires
        execution(trace),
        0 <= i <= j < trace.len(),
    ensures
        prefix_eq(
            history_at(trace, i).committed,
            history_at(trace, j).committed,
            history_at(trace, i).committed.len() as int,
        ),
    decreases j - i,
{
    if i < j {
        lemma_committed_grows(trace, i, j - 1);
        lemma_inv(trace, j - 1);
        assert(steps_at(trace, j - 1));
        let (id, event) = step_taken(trace[j - 1], trace[j]);
        lemma_step(trace[j - 1], history_at(trace, j - 1), trace[j], id, event);
        let a = history_at(trace, i).committed;
        let b = history_at(trace, j - 1).committed;
        let e = history_at(trace, j).committed;
        assert forall|x: int| 0 <= x < a.len() implies a[x] == #[trigger] e[x] by {
            assert(a[x] == b[x]);
        }
    }
}

/// Commit safety: once a node has committed `i` entries, every node that
/// has committed at least `i` entries, then or at any other point of the
/// execution, holds the identical entry at index `i - 1`.
pub proof fn commit_safety(trace: Seq<Cluster>, k1: int, k2: int, a: u64, b: u64, i: int)
    requires
        execution(trace),
        0 <= k1 < trace.len(),
        0 <= k2 < trace.len(),
        trace[k1].nodes.contains_key(a),
        trace[k2].nodes.contains_key(b),
        1 <= i <= trace[k1].nodes[a].commit_length,
        i <= trace[k2].nodes[b].commit_length,
    ensures
        i <= trace[k1].nodes[a].log.len(),
        i <= trace[k2].nodes[b].log.len(),
        trace[k1].nodes[a].log[i - 1] == trace[k2].nodes[b].log[i - 1],
{
    let h1 = history_at(trace, k1);
    let h2 = history_at(trace, k2);
    lemma_inv(trace, k1);
    lemma_inv(trace, k2);
    assert(node_commit_ok(trace[k1], h1, a));
    assert(node_commit_ok(trace[k2], h2, b));
    if k1 <= k2 {
        lemma_committed_grows(trace, k1, k2);
    } else {
        lemma_committed_grows(trace, k2, k1);
    }
    assert(trace[k1].nodes[a].log[i - 1] == h1.committed[i - 1]);
    assert(trace[k2].nodes[b].log[i - 1] == h2.committed[i - 1]);
}

/// What a node has delivered is what its committed entries carry: the
/// stream of payloads handed to the application is, at every point, the
/// payloads of the committed prefix of the node's log, in log order.
pub proof fn delivered_is_committed(trace: Seq<Cluster>, k: int, a: u64)
    requires
        execution(trace),
        0 <= k < trace.len(),
        trace[k].nodes.contains_key(a),
    ensures
        trace[k].delivered.contains_key(a),
        trace[k].delivered[a] == trace[k].nodes[a].deliveries(),
{
    lemma_inv(trace, k);
    assert(node_commit_ok(trace[k], history_at(trace, k), a));
}

/// Delivery ordering: no two nodes ever deliver different payloads at the
/// same position. Whatever `a` has delivered at one point of an execution
/// and `b` at the same or another, the two sequences agree wherever both
/// reach, so one is a prefix of the other.
pub proof fn delivery_ordering(trace: Seq<Cluster>, k1: int, k2: int, a: u64, b: u64, j: int)
    requires
        execution(trace),
        0 <= k1 < trace.len(),
        0 <= k2 < trace.len(),
        trace[k1].nodes.contains_key(a),
        trace[k2].nodes.contains_key(b),
        0 <= j < trace[k1].delivered[a].len(),
        j < trace[k2].delivered[b].len(),
    ensures
        trace[k1].delivered[a][j] == trace[k2].delivered[b][j],
{
    let na = trace[k1].nodes[a];
    let nb = trace[k2].nodes[b];
    lemma_inv(trace, k1);
    lemma_inv(trace, k2);
    assert(node_votes_ok(trace[k1], history_at(trace, k1), a));
    assert(node_votes_ok(trace[k2], history_at(trace, k2), b));
    delivered_is_committed(trace, k1, a);
    delivered_is_committed(trace, k2, b);
    assert(na.deliveries()[j] == na.log.subrange(0, na.commit_length as int)[j].payload);
    assert(nb.deliveries()[j] == nb.log.subrange(0, nb.commit_length as int)[j].payload);
    commit_safety(trace, k1, k2, a, b, j + 1);
}

/// Delivery is a prefix relation: of what two nodes have delivered, at the
/// same or at different points of an execution, one sequence is a prefix of
/// the other.
pub proof fn deliveries_are_prefixes(trace: Seq<Cluster>, k1: int, k2: int, a: u64, b: u64)
    requires
        execution(trace),
        0 <= k1 < trace.len(),
        0 <= k2 < trace.len(),
        trace[k1].nodes.contains_key(a),
        trace[k2].nodes.contains_key(b),
    ensures
        trace[k1].delivered[a].is_prefix_of(trace[k2].delivered[b])
            || trace[k2].delivered[b].is_prefix_of(trace[k1].delivered[a]),
{
    let da = trace[k1].delivered[a];
    let db = trace[k2].delivered[b];
    if da.len() <= db.len() {
        assert forall|j: int| 0 <= j < da.len() implies da[j] == db[j] by {
            delivery_ordering(trace, k1, k2, a, b, j);
        }
        assert(da =~= db.subrange(0, da.len() as int));
    } else {
        assert forall|j: int| 0 <= j < db.len() implies da[j] == db[j] by {
            delivery_ordering(trace, k1, k2, a, b, j);
        }
        assert(db =~= da.subrange(0, db.len() as int));
    }
}

/// Commit monotonicity: a node's commit length never decreases, and what it
/// has committed stays in its log as it is.
pub proof fn commit_monotonic(trace: Seq<Cluster>, i: int, j: int, id: u64)
    requires
        execution(trace),
        0 <= i <= j < trace.len(),
        trace[i].nodes.contains_key(id),
    ensures
        trace[j].nodes.contains_key(id),
        trace[i].nodes[id].commit_length <= trace[j].nodes[id].commit_length,
        trace[j].nodes[id].commit_length <= trace[j].nodes[id].log.len(),
        forall|x: int|
            0 <= x < trace[i].nodes[id].commit_length ==> trace[i].nodes[id].log[x]
                == trace[j].nodes[id].log[x],
    decreases j - i,
{
    lemma_inv(trace, j);
    if i < j {
        commit_monotonic(trace, i, j - 1, id);
        lemma_inv(trace, j - 1);
        assert(steps_at(trace, j - 1));
        let (x, event) = step_taken(trace[j - 1], trace[j]);
        assert(node_votes_ok(trace[j - 1], history_at(trace, j - 1), x));
        lemma_step_commit(trace[j - 1].nodes[x], event);
    }
    assert(node_votes_ok(trace[j], history_at(trace, j), id));
    assert forall|x: int|
        0 <= x < trace[i].nodes[id].commit_length implies trace[i].nodes[id].log[x]
        == trace[j].nodes[id].log[x] by {
        commit_safety(trace, i, j, id, id, x + 1);
    }
}

} // verus!
