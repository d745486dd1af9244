//! Log matching.
//!
//! Every entry of a term was created by the one leader of that term, whose
//! log only grows while it leads. So a log that holds an entry of term `t`
//! at index `i` agrees with the log of the leader of `t` up to `i`, and two
//! logs that agree on the term at `i` agree on everything up to `i`.

use crate::cluster::{execution, next_by, steps_at, Cluster};
use crate::election::{
    election_inv, lemma_election_inv, lemma_election_step, node_votes_ok, term_ok,
};
use crate::facts::{
    lemma_merged, lemma_sent, lemma_step_log, lemma_step_role, lemma_step_wf,
    lemma_vote_is_kept,
};
use crate::history::{history_at, prefix_eq, record, step_taken, History};
use crate::log::{agreeing_entries, agrees_at, has_prefix, merged};
use crate::model::step;
use crate::types::{Envelope, EventView, LogEntry};
use vstd::prelude::*;

verus! {

/// What holds of the entry of `log` at `i`: its term is at most `bound`, the
/// term had a leader, and up to `i` the log is that leader's.
pub open spec fn entry_ok(h: History, log: Seq<LogEntry>, i: int, bound: u64) -> bool {
    let t = log[i].term;
    &&& t <= bound
    &&& h.leader_log.contains_key(t)
    &&& prefix_eq(log, h.leader_log[t], i + 1)
}

/// What holds of a log: `entry_ok` of each of its entries.
pub open spec fn log_ok(h: History, log: Seq<LogEntry>, bound: u64) -> bool {
    forall|i: int| 0 <= i < log.len() ==> #[trigger] entry_ok(h, log, i, bound)
}

/// What holds of the log of member `id`; a leader's log is the one the
/// history knows for its term.
pub open spec fn node_log_ok(c: Cluster, h: History, id: u64) -> bool {
    let n = c.nodes[id];
    &&& log_ok(h, n.log, n.current_term)
    &&& n.current_role is Leader ==> h.leader_log.contains_key(n.current_term)
        && h.leader_log[n.current_term] == n.log
}

/// What holds of the log of the leader of `t`.
pub open spec fn leader_log_ok(h: History, t: u64) -> bool {
    &&& h.leaders.contains_key(t)
    &&& log_ok(h, h.leader_log[t], t)
}

/// Whether the entries of a replication message that start after
/// `prev_log_index` are those of `log` at the same indices.
pub open spec fn entries_of(
    log: Seq<LogEntry>,
    prev_log_index: int,
    entries: Seq<LogEntry>,
) -> bool {
    &&& -1 <= prev_log_index
    &&& prev_log_index + 1 + entries.len() <= log.len()
    &&& forall|j: int|
        0 <= j < entries.len() ==> #[trigger] entries[j] == log[prev_log_index + 1 + j]
}

/// What holds of a replication message: it is cut from the log of the
/// leader of its term, which beyond the message holds only entries of that
/// term, and it commits no more than it covers.
pub open spec fn request_ok(h: History, env: Envelope) -> bool {
    match env.event {
        EventView::LogRequest {
            term,
            prev_log_index,
            prev_log_term,
            entries,
            leader_commit,
            ..
        } => {
            let l = h.leader_log[term];
            let covered = prev_log_index + 1 + entries.len();
            &&& h.leader_log.contains_key(term)
            &&& entries_of(l, prev_log_index as int, entries)
            &&& prev_log_index >= 0 ==> l[prev_log_index as int].term == prev_log_term
            &&& leader_commit <= covered
            &&& forall|j: int| covered <= j < l.len() ==> (#[trigger] l[j]).term == term
        },
        _ => true,
    }
}

/// The invariant behind log matching.
pub open spec fn log_inv(c: Cluster, h: History) -> bool {
    &&& forall|id: u64| c.nodes.contains_key(id) ==> #[trigger] node_log_ok(c, h, id)
    &&& forall|t: u64| h.leader_log.contains_key(t) ==> #[trigger] leader_log_ok(h, t)
    &&& forall|env: Envelope| c.network.contains(env) ==> #[trigger] request_ok(h, env)
}

/// An entry that is in order stays in order when the leaders' logs grow.
pub proof fn lemma_entry_kept(
    h: History,
    h2: History,
    log: Seq<LogEntry>,
    i: int,
    bound: u64,
    bound2: u64,
)
    requires
        0 <= i < log.len(),
        entry_ok(h, log, i, bound),
        h.logs_grown_in(h2),
        bound <= bound2,
    ensures
        entry_ok(h2, log, i, bound2),
{
    let t = log[i].term;
    assert(h.log_grown_in(h2, t));
    assert forall|j: int| 0 <= j < i + 1 implies log[j] == #[trigger] h2.leader_log[t][j] by {
        assert(log[j] == h.leader_log[t][j]);
    }
}

/// A log that is in order stays in order when the leaders' logs grow.
pub proof fn lemma_log_kept(h: History, h2: History, log: Seq<LogEntry>, bound: u64, bound2: u64)
    requires
        log_ok(h, log, bound),
        h.logs_grown_in(h2),
        bound <= bound2,
    ensures
        log_ok(h2, log, bound2),
{
    assert forall|i: int| 0 <= i < log.len() implies #[trigger] entry_ok(h2, log, i, bound2) by {
        assert(entry_ok(h, log, i, bound));
        lemma_entry_kept(h, h2, log, i, bound, bound2);
    }
}

/// Two logs in order that agree on the term at `i` agree up to `i`.
pub proof fn lemma_same_term_same_prefix(
    h: History,
    a: Seq<LogEntry>,
    b: Seq<LogEntry>,
    i: int,
    bound_a: u64,
    bound_b: u64,
)
    requires
        0 <= i < a.len(),
        i < b.len(),
        log_ok(h, a, bound_a),
        log_ok(h, b, bound_b),
        a[i].term == b[i].term,
    ensures
        prefix_eq(a, b, i + 1),
{
    assert(entry_ok(h, a, i, bound_a));
    assert(entry_ok(h, b, i, bound_b));
    let l = h.leader_log[a[i].term];
    assert forall|j: int| 0 <= j < i + 1 implies a[j] == #[trigger] b[j] by {
        assert(a[j] == l[j]);
        assert(b[j] == l[j]);
    }
}

/// The log of a follower that takes a leader's entries: afterwards it is in
/// order and agrees with the leader's log as far as the message covers.
pub proof fn lemma_accepted_log(
    h: History,
    log: Seq<LogEntry>,
    bound: u64,
    term: u64,
    prev_log_index: int,
    prev_log_term: u64,
    entries: Seq<LogEntry>,
)
    requires
        log_ok(h, log, bound),
        bound <= term,
        h.leader_log.contains_key(term),
        log_ok(h, h.leader_log[term], term),
        entries_of(h.leader_log[term], prev_log_index, entries),
        prev_log_index >= 0 ==> h.leader_log[term][prev_log_index].term == prev_log_term,
        has_prefix(log, prev_log_index, prev_log_term),
    ensures
        log_ok(h, merged(log, prev_log_index + 1, entries), term),
        prefix_eq(
            merged(log, prev_log_index + 1, entries),
            h.leader_log[term],
            prev_log_index + 1 + entries.len(),
        ),
{
    let l = h.leader_log[term];
    let start = prev_log_index + 1;
    let k = agreeing_entries(log, start, entries, 0);
    let m = merged(log, start, entries);
    lemma_merged(log, start, entries);
    // The follower's log is the leader's as far as the entries agree.
    assert(prefix_eq(log, l, start)) by {
        if prev_log_index >= 0 {
            lemma_same_term_same_prefix(h, log, l, prev_log_index, bound, term);
        }
    }
    assert forall|j: int| 0 <= j < start + k implies log[j] == #[trigger] l[j] by {
        if j >= start {
            assert(agrees_at(log, start, entries, j - start));
            assert(entries[j - start] == l[prev_log_index + 1 + (j - start)]);
            lemma_same_term_same_prefix(h, log, l, j, bound, term);
        }
    }
    assert forall|j: int| 0 <= j < start + entries.len() implies m[j] == #[trigger] l[j] by {
        if k < entries.len() && j >= start + k {
            assert(m[j] == entries[j - start]);
            assert(entries[j - start] == l[prev_log_index + 1 + (j - start)]);
        } else {
            assert(m[j] == log[j]);
        }
    }
    assert forall|i: int| 0 <= i < m.len() implies #[trigger] entry_ok(h, m, i, term) by {
        if k < entries.len() {
            assert(entry_ok(h, l, i, term));
            let t = m[i].term;
            assert forall|j: int| 0 <= j < i + 1 implies m[j] == #[trigger] h.leader_log[t][j] by {
                assert(m[j] == l[j]);
            }
        } else {
            assert(entry_ok(h, log, i, bound));
        }
    }
}

/// The invariant holds of an initial state.
pub proof fn lemma_log_init(c: Cluster)
    requires
        c.init(),
    ensures
        log_inv(c, History::empty()),
{
    assert forall|id: u64| c.nodes.contains_key(id) implies #[trigger] node_log_ok(
        c,
        History::empty(),
        id,
    ) by {
        assert(c.starts(id));
    }
}

/// In a step the leaders' logs only grow.
pub proof fn lemma_logs_grow(c: Cluster, h: History, d: Cluster, id: u64, event: EventView)
    requires
        election_inv(c, h),
        log_inv(c, h),
        next_by(c, d, id, event),
    ensures
        h.logs_grown_in(record(c, h, id, event)),
{
    let s = c.nodes[id];
    let s2 = step(s, event).state;
    let h2 = record(c, h, id, event);
    assert(node_votes_ok(c, h, id));
    assert(node_log_ok(c, h, id));
    lemma_step_wf(s, event);
    lemma_step_role(s, event);
    lemma_step_log(s, event);
    lemma_election_step(c, h, d, id, event);
    assert forall|t: u64| h.leader_log.contains_key(t) implies #[trigger] h.log_grown_in(
        h2,
        t,
    ) by {
        if s2.current_role is Leader && t == s2.current_term {
            assert(leader_log_ok(h, t));
            if !(s.current_role is Leader) {
                // A term that has just got its leader had no log before.
                assert(term_ok(c, h, t));
                assert(node_votes_ok(d, h2, id));
                assert(false);
            }
        }
    }
}

/// A step keeps the invariant.
pub proof fn lemma_log_step(c: Cluster, h: History, d: Cluster, id: u64, event: EventView)
    requires
        election_inv(c, h),
        log_inv(c, h),
        next_by(c, d, id, event),
    ensures
        log_inv(d, record(c, h, id, event)),
        h.logs_grown_in(record(c, h, id, event)),
{
    let s = c.nodes[id];
    let t = step(s, event);
    let s2 = t.state;
    let h2 = record(c, h, id, event);
    assert(node_votes_ok(c, h, id));
    assert(node_log_ok(c, h, id));
    lemma_step_wf(s, event);
    lemma_vote_is_kept(s, event);
    lemma_step_role(s, event);
    lemma_step_log(s, event);
    lemma_election_step(c, h, d, id, event);
    lemma_logs_grow(c, h, d, id, event);
    assert(d.nodes.dom() =~= c.nodes.dom());

    // The log of the node that took the step.
    assert(log_ok(h2, s2.log, s2.current_term)) by {
        if s2.log == s.log {
            lemma_log_kept(h, h2, s.log, s.current_term, s2.current_term);
        } else if event is Broadcast {
            assert forall|i: int| 0 <= i < s2.log.len() implies #[trigger] entry_ok(
                h2,
                s2.log,
                i,
                s2.current_term,
            ) by {
                if i < s.log.len() {
                    assert(entry_ok(h, s.log, i, s.current_term));
                    lemma_entry_kept(h, h2, s.log, i, s.current_term, s2.current_term);
                    let ti = s.log[i].term;
                    assert forall|j: int| 0 <= j < i + 1 implies s2.log[j]
                        == #[trigger] h2.leader_log[ti][j] by {
                        assert(s.log[j] == h2.leader_log[ti][j]);
                    }
                }
            }
        } else {
            let env = Envelope { to: id, event };
            assert(c.network.contains(env));
            assert(request_ok(h, env));
            if let EventView::LogRequest { term, prev_log_index, prev_log_term, entries, .. } =
                event {
                assert(leader_log_ok(h, term));
                lemma_accepted_log(
                    h,
                    s.log,
                    s.current_term,
                    term,
                    prev_log_index as int,
                    prev_log_term,
                    entries,
                );
                lemma_log_kept(h, h2, s2.log, term, term);
            }
        }
    }
    assert forall|x: u64| d.nodes.contains_key(x) implies #[trigger] node_log_ok(d, h2, x) by {
        assert(node_log_ok(c, h, x));
        if x != id {
            let n = c.nodes[x];
            assert(d.nodes[x] == n);
            lemma_log_kept(h, h2, n.log, n.current_term, n.current_term);
            if n.current_role is Leader {
                assert(node_votes_ok(c, h, x));
                assert(node_votes_ok(d, h2, x));
                assert(node_votes_ok(d, h2, id));
            }
        }
    }
    assert forall|term: u64| h2.leader_log.contains_key(term) implies #[trigger] leader_log_ok(
        h2,
        term,
    ) by {
        if s2.current_role is Leader && term == s2.current_term {
        } else {
            assert(leader_log_ok(h, term));
            lemma_log_kept(h, h2, h.leader_log[term], term, term);
        }
    }
    assert forall|env: Envelope| d.network.contains(env) implies #[trigger] request_ok(
        h2,
        env,
    ) by {
        if c.network.contains(env) {
            assert(request_ok(h, env));
            if let EventView::LogRequest { term, prev_log_index, entries, .. } = env.event {
                assert(h.log_grown_in(h2, term));
                let l = h.leader_log[term];
                let l2 = h2.leader_log[term];
                assert forall|j: int| 0 <= j < entries.len() implies #[trigger] entries[j]
                    == l2[prev_log_index + 1 + j] by {
                    assert(entries[j] == l[prev_log_index + 1 + j]);
                }
                assert forall|j: int|
                    prev_log_index + 1 + entries.len() <= j < l2.len() implies (
                #[trigger] l2[j]).term == term by {
                    if j < l.len() {
                        assert(l[j].term == term);
                    }
                }
            }
        } else {
            assert(t.messages.contains(env));
            lemma_sent(s, event, env);
            if env.event is LogRequest {
                assert(s2.sent_length.contains_key(env.to));
            }
        }
    }
}

/// Both invariants hold in every state of an execution.
pub proof fn lemma_log_inv(trace: Seq<Cluster>, k: int)
    requires
        execution(trace),
        0 <= k < trace.len(),
    ensures
        election_inv(trace[k], history_at(trace, k)),
        log_inv(trace[k], history_at(trace, k)),
    decreases k,
{
    lemma_election_inv(trace, k);
    if k == 0 {
        lemma_log_init(trace[0]);
    } else {
        lemma_log_inv(trace, k - 1);
        assert(steps_at(trace, k - 1));
        let (id, event) = step_taken(trace[k - 1], trace[k]);
        lemma_log_step(trace[k - 1], history_at(trace, k - 1), trace[k], id, event);
    }
}

/// The leaders' logs at one state of an execution have only grown at every
/// later one.
pub proof fn lemma_leader_logs_grow(trace: Seq<Cluster>, i: int, j: int)
    requires
        execution(trace),
        0 <= i <= j < trace.len(),
    ensures
        history_at(trace, i).logs_grown_in(history_at(trace, j)),
    decreases j - i,
{
    let hi = history_at(trace, i);
    let hj = history_at(trace, j);
    if i == j {
        assert forall|t: u64| hi.leader_log.contains_key(t) implies #[trigger] hi.log_grown_in(
            hj,
            t,
        ) by {}
    } else {
        let hk = history_at(trace, j - 1);
        lemma_leader_logs_grow(trace, i, j - 1);
        lemma_log_inv(trace, j - 1);
        assert(steps_at(trace, j - 1));
        let (id, event) = step_taken(trace[j - 1], trace[j]);
        lemma_log_step(trace[j - 1], hk, trace[j], id, event);
        assert forall|t: u64| hi.leader_log.contains_key(t) implies #[trigger] hi.log_grown_in(
            hj,
            t,
        ) by {
            assert(hi.log_grown_in(hk, t));
            assert(hk.log_grown_in(hj, t));
            assert forall|x: int| 0 <= x < hi.leader_log[t].len() implies hi.leader_log[t][x]
                == #[trigger] hj.leader_log[t][x] by {
                assert(hi.leader_log[t][x] == hk.leader_log[t][x]);
            }
            assert forall|x: int|
                hi.leader_log[t].len() <= x < hj.leader_log[t].len() implies (
            #[trigger] hj.leader_log[t][x]).term == t by {
                if x < hk.leader_log[t].len() {
                    assert(hk.leader_log[t][x].term == t);
                }
            }
        }
    }
}

/// Leader append-only: a leader never deletes or overwrites an entry of its
/// own log. If a node leads a term at one point of an execution and still
/// leads it at a later one, its log at the later point starts with its log
/// at the earlier one.
pub proof fn leader_append_only(trace: Seq<Cluster>, i: int, j: int, id: u64)
    requires
        execution(trace),
        0 <= i <= j < trace.len(),
        trace[i].nodes.contains_key(id),
        trace[j].nodes.contains_key(id),
        trace[i].nodes[id].current_role is Leader,
        trace[j].nodes[id].current_role is Leader,
        trace[i].nodes[id].current_term == trace[j].nodes[id].current_term,
    ensures
        trace[i].nodes[id].log.len() <= trace[j].nodes[id].log.len(),
        forall|x: int|
            0 <= x < trace[i].nodes[id].log.len() ==> trace[i].nodes[id].log[x]
                == trace[j].nodes[id].log[x],
{
    let hi = history_at(trace, i);
    let hj = history_at(trace, j);
    let t = trace[i].nodes[id].current_term;
    lemma_log_inv(trace, i);
    lemma_log_inv(trace, j);
    lemma_leader_logs_grow(trace, i, j);
    assert(node_log_ok(trace[i], hi, id));
    assert(node_log_ok(trace[j], hj, id));
    assert(hi.log_grown_in(hj, t));
    assert forall|x: int| 0 <= x < trace[i].nodes[id].log.len() implies trace[i].nodes[id].log[x]
        == trace[j].nodes[id].log[x] by {
        assert(hi.leader_log[t][x] == hj.leader_log[t][x]);
    }
}

/// Log matching: if the logs of two nodes hold entries of the same term at
/// index `i`, the two logs are identical up to and with index `i`. This
/// holds of any two logs of an execution: of two nodes at the same point, of
/// two nodes at different points, and of one node at two points.
pub proof fn log_matching(trace: Seq<Cluster>, k1: int, k2: int, a: u64, b: u64, i: int)
    requires
        execution(trace),
        0 <= k1 < trace.len(),
        0 <= k2 < trace.len(),
        trace[k1].nodes.contains_key(a),
        trace[k2].nodes.contains_key(b),
        0 <= i < trace[k1].nodes[a].log.len(),
        i < trace[k2].nodes[b].log.len(),
        trace[k1].nodes[a].log[i].term == trace[k2].nodes[b].log[i].term,
    ensures
        forall|j: int| 0 <= j <= i ==> trace[k1].nodes[a].log[j] == trace[k2].nodes[b].log[j],
{
    let h1 = history_at(trace, k1);
    let h2 = history_at(trace, k2);
    let la = trace[k1].nodes[a].log;
    let lb = trace[k2].nodes[b].log;
    let t = la[i].term;
    lemma_log_inv(trace, k1);
    lemma_log_inv(trace, k2);
    assert(node_log_ok(trace[k1], h1, a));
    assert(node_log_ok(trace[k2], h2, b));
    assert(entry_ok(h1, la, i, trace[k1].nodes[a].current_term));
    assert(entry_ok(h2, lb, i, trace[k2].nodes[b].current_term));
    if k1 <= k2 {
        lemma_leader_logs_grow(trace, k1, k2);
        assert(h1.log_grown_in(h2, t));
    } else {
        lemma_leader_logs_grow(trace, k2, k1);
        assert(h2.log_grown_in(h1, t));
    }
    assert forall|j: int| 0 <= j <= i implies la[j] == lb[j] by {
        assert(la[j] == h1.leader_log[t][j]);
        assert(lb[j] == h2.leader_log[t][j]);
    }
}

} // verus!
