//! What a single transition of a node does and leaves alone. The safety
//! theorems of the cluster are built on these facts.

use crate::log::{
    agreeing_entries, agrees_at, last_term, lemma_agreeing_entries, merged, payloads,
};
use crate::model::{
    accepts_entries, step, within_limits, NodeState,
};
use crate::types::{Envelope, EventView, LogEntry};
use vstd::prelude::*;

verus! {

/// The commit length a leader moves to lies between its commit length and
/// the length of its log, and where it is above the former, that much of the
/// log is committable.
pub proof fn lemma_highest_committable(s: NodeState, upto: nat)
    requires
        s.commit_length <= s.log.len(),
        upto <= s.log.len(),
    ensures
        s.commit_length <= s.highest_committable(upto) <= s.log.len(),
        s.highest_committable(upto) > s.commit_length ==> s.committable(
            s.highest_committable(upto) as int,
        ),
    decreases upto,
{
    if upto > s.commit_length && !s.committable(upto as int) {
        lemma_highest_committable(s, (upto - 1) as nat);
    }
}

/// The log after entries have been laid over it: up to the first entry that
/// is missing or differs it is the old log, from there on it is the entries;
/// where nothing is missing or differs it is the old log.
pub proof fn lemma_merged(log: Seq<LogEntry>, start: int, entries: Seq<LogEntry>)
    requires
        0 <= start <= log.len(),
    ensures
        ({
            let k = agreeing_entries(log, start, entries, 0);
            let m = merged(log, start, entries);
            &&& k <= entries.len()
            &&& start + k <= log.len()
            &&& forall|i: int| 0 <= i < k ==> #[trigger] agrees_at(log, start, entries, i)
            &&& k == entries.len() ==> m == log
            &&& k < entries.len() ==> {
                &&& !agrees_at(log, start, entries, k as int)
                &&& m.len() == start + entries.len()
                &&& forall|i: int| 0 <= i < start + k ==> #[trigger] m[i] == log[i]
                &&& forall|i: int|
                    start + k <= i < start + entries.len() ==> #[trigger] m[i] == entries[i
                        - start]
            }
        }),
{
    let k = agreeing_entries(log, start, entries, 0);
    lemma_agreeing_entries(log, start, entries, 0);
    if 0 < k {
        assert(agrees_at(log, start, entries, k - 1));
    }
}

/// A transition keeps the node's identity and its state well formed.
pub proof fn lemma_step_wf(s: NodeState, event: EventView)
    requires
        s.wf(),
        within_limits(s, event),
    ensures
        step(s, event).state.wf(),
        step(s, event).state.id == s.id,
        step(s, event).state.peers == s.peers,
{
    let t = step(s, event);
    match event {
        EventView::ElectionTimeout => {
            assert(set![s.id].finite());
        },
        EventView::ReplicationTimeout => {},
        EventView::VoteRequest { .. } => {},
        EventView::VoteResponse { from, term, granted } => {
            if t.state.votes_received != s.votes_received {
                assert(t.state.votes_received.finite());
            }
            if t.state.current_role is Leader {
                assert forall|p: u64| #[trigger]
                    t.state.sent_length.contains_key(p) implies t.state.sent_length[p]
                    <= t.state.log.len() by {
                    assert(s.sent_length.contains_key(p) <==> s.peers.contains(p));
                }
            }
        },
        EventView::LogRequest { term, prev_log_index, prev_log_term, entries, .. } => {
            if term >= s.current_term && accepts_entries(
                s,
                prev_log_index,
                prev_log_term,
                entries,
            ) {
                lemma_merged(s.log, prev_log_index + 1, entries);
            }
        },
        EventView::LogResponse { from, term, success, ack_length } => {
            if s.current_role is Leader && term == s.current_term && s.peers.contains(from)
                && success && ack_length <= s.log.len() {
                let acked = NodeState {
                    sent_length: s.sent_length.insert(from, ack_length),
                    acked_length: s.acked_length.insert(from, ack_length),
                    ..s
                };
                lemma_highest_committable(acked, acked.log.len());
            }
            if t.state.current_role is Leader {
                assert forall|p: u64| #[trigger]
                    t.state.sent_length.contains_key(p) implies t.state.sent_length[p]
                    <= t.state.log.len() by {
                    if s.sent_length.contains_key(p) {
                        assert(s.sent_length[p] <= s.log.len());
                    }
                }
            }
        },
        EventView::Broadcast { .. } => {},
    }
}

/// A node's term never goes back, and a vote cast in a term stands for as
/// long as the term lasts: within one term `voted_for` is set at most once
/// and never changes once set.
pub proof fn lemma_vote_is_kept(s: NodeState, event: EventView)
    requires
        within_limits(s, event),
    ensures
        step(s, event).state.current_term >= s.current_term,
        step(s, event).state.current_term == s.current_term && s.voted_for is Some ==> step(
            s,
            event,
        ).state.voted_for == s.voted_for,
        step(s, event).state.current_term > s.current_term && !(event is ElectionTimeout)
            ==> step(s, event).state.current_role is Follower,
{
}

/// How a node comes to lead, and how it stops leading.
pub proof fn lemma_step_role(s: NodeState, event: EventView)
    requires
        s.wf(),
        within_limits(s, event),
    ensures
        ({
            let s2 = step(s, event).state;
            &&& s.current_role is Leader && s2.current_role is Leader ==> s2.current_term
                == s.current_term
            &&& !(s.current_role is Leader) && s2.current_role is Leader ==> {
                &&& event matches EventView::VoteResponse { from, term, granted }
                &&& granted && term == s.current_term && s.peers.contains(from)
                &&& s.current_role is Candidate
                &&& s2.current_term == s.current_term
                &&& s2.votes_received == s.votes_received.insert(from)
                &&& 2 * s2.votes_received.len() > s.peers.len() + 1
                &&& s2.log == s.log
                &&& s2.commit_length == s.commit_length
            }
            &&& s.current_role is Leader && s2.current_term == s.current_term && !(
            s2.current_role is Leader) ==> {
                &&& event matches EventView::LogRequest { term, .. }
                &&& term == s.current_term
            }
            &&& s2.current_role is Candidate ==> (s.current_role is Candidate && s2.current_term
                == s.current_term) || (event is ElectionTimeout && s2.current_term
                == s.current_term + 1)
        }),
{
}

/// The election bookkeeping of a candidate or leader after a transition:
/// it has voted for itself, and every vote it counts it counted before,
/// unless it is the vote that the event brought or its own.
pub proof fn lemma_step_votes(s: NodeState, event: EventView, v: u64)
    requires
        s.wf(),
        within_limits(s, event),
        !(s.current_role is Follower) ==> s.voted_for == Some(s.id),
        !(step(s, event).state.current_role is Follower),
        step(s, event).state.votes_received.contains(v),
    ensures
        ({
            let s2 = step(s, event).state;
            &&& s2.voted_for == Some(s.id)
            &&& {
                ||| (s2.current_term == s.current_term && !(s.current_role is Follower)
                    && s.votes_received.contains(v))
                ||| (event is ElectionTimeout && v == s.id)
                ||| (event matches EventView::VoteResponse { from, term, granted } && granted
                    && term == s2.current_term && from == v && s2.current_term == s.current_term)
            }
        }),
{
}

/// How a transition changes the log: not at all, by one entry of the
/// leader's own term at the end, or by laying a leader's entries over it.
pub proof fn lemma_step_log(s: NodeState, event: EventView)
    requires
        s.wf(),
        within_limits(s, event),
    ensures
        ({
            let s2 = step(s, event).state;
            ||| s2.log == s.log
            ||| {
                &&& event matches EventView::Broadcast { payload }
                &&& s.current_role is Leader
                &&& s2.current_role is Leader
                &&& s2.current_term == s.current_term
                &&& s2.log == s.log.push(LogEntry { term: s.current_term, payload })
            }
            ||| {
                &&& event matches EventView::LogRequest {
                    term,
                    prev_log_index,
                    prev_log_term,
                    entries,
                    ..
                }
                &&& term >= s.current_term
                &&& s2.current_term == term
                &&& s2.current_role is Follower
                &&& accepts_entries(s, prev_log_index, prev_log_term, entries)
                &&& s2.log == merged(s.log, prev_log_index + 1, entries)
            }
        }),
{
}

/// Whether `event` is a replication message whose entries a node in state
/// `s` takes.
pub open spec fn takes_entries(s: NodeState, event: EventView) -> bool {
    &&& event matches EventView::LogRequest { term, prev_log_index, prev_log_term, entries, .. }
    &&& term >= s.current_term
    &&& accepts_entries(s, prev_log_index, prev_log_term, entries)
}

/// What taking the entries of a replication message does to a node.
pub proof fn lemma_step_takes(s: NodeState, event: EventView)
    requires
        s.wf(),
        takes_entries(s, event),
    ensures
        ({
            let s2 = step(s, event).state;
            &&& event matches EventView::LogRequest {
                term,
                prev_log_index,
                entries,
                leader_commit,
                ..
            }
            &&& s2.current_term == term
            &&& s2.current_role is Follower
            &&& s2.log == merged(s.log, prev_log_index + 1, entries)
            &&& 0 <= prev_log_index + 1 <= s.log.len()
        }),
{
}

/// How a node comes to cast a vote: it starts an election and votes for
/// itself, or it grants a candidate whose log is at least as up to date as
/// its own.
pub proof fn lemma_step_vote(s: NodeState, event: EventView)
    requires
        s.wf(),
        within_limits(s, event),
        !(s.current_role is Follower) ==> s.voted_for == Some(s.id),
        step(s, event).state.voted_for is Some,
        step(s, event).state.voted_for != s.voted_for || step(s, event).state.current_term
            > s.current_term,
    ensures
        ({
            let s2 = step(s, event).state;
            &&& s2.log == s.log
            &&& !(s2.current_role is Leader)
            &&& {
                ||| {
                    &&& event is ElectionTimeout
                    &&& s2.voted_for == Some(s.id)
                    &&& s2.current_term == s.current_term + 1
                    &&& s2.current_role is Candidate
                }
                ||| {
                    &&& event matches EventView::VoteRequest {
                        term,
                        candidate_id,
                        last_log_term,
                        last_log_length,
                    }
                    &&& term == s2.current_term
                    &&& s2.voted_for == Some(candidate_id)
                    &&& crate::model::up_to_date(last_log_term, last_log_length, s.log)
                }
            }
        }),
{
}

/// The length of the log that a replication message covers.
pub open spec fn covered(event: EventView) -> int {
    match event {
        EventView::LogRequest { prev_log_index, entries, .. } => prev_log_index + 1
            + entries.len(),
        _ => 0,
    }
}

/// A transition never takes the commit length back and never touches a
/// committed entry; it delivers exactly the payloads of the entries that
/// became committed. A leader commits only what is committable, a follower
/// only what the leader has committed and the message covers.
pub proof fn lemma_step_commit(s: NodeState, event: EventView)
    requires
        s.wf(),
        within_limits(s, event),
    ensures
        ({
            let t = step(s, event);
            let s2 = t.state;
            &&& s.commit_length <= s2.commit_length <= s2.log.len()
            &&& forall|j: int| 0 <= j < s.commit_length ==> #[trigger] s2.log[j] == s.log[j]
            &&& t.delivered == payloads(
                s2.log.subrange(s.commit_length as int, s2.commit_length as int),
            )
            &&& s2.commit_length > s.commit_length ==> {
                ||| {
                    &&& s.current_role is Leader
                    &&& s2.current_role is Leader
                    &&& s2.committable(s2.commit_length as int)
                }
                ||| {
                    &&& takes_entries(s, event)
                    &&& event matches EventView::LogRequest { leader_commit, .. }
                    &&& s2.commit_length <= leader_commit
                }
            }
        }),
{
    let t = step(s, event);
    let s2 = t.state;
    lemma_step_wf(s, event);
    match event {
        EventView::LogRequest { term, prev_log_index, prev_log_term, entries, .. } => {
            if term >= s.current_term && accepts_entries(
                s,
                prev_log_index,
                prev_log_term,
                entries,
            ) {
                lemma_merged(s.log, prev_log_index + 1, entries);
            }
        },
        EventView::LogResponse { from, term, success, ack_length } => {
            if s.current_role is Leader && term == s.current_term && s.peers.contains(from)
                && success && ack_length <= s.log.len() {
                let acked = NodeState {
                    sent_length: s.sent_length.insert(from, ack_length),
                    acked_length: s.acked_length.insert(from, ack_length),
                    ..s
                };
                lemma_highest_committable(acked, acked.log.len());
                let m = acked.advanced_commit() as int;
                assert(acked.committable(m) == s2.committable(m));
            }
        },
        _ => {},
    }
    assert(t.delivered =~= payloads(
        s2.log.subrange(s.commit_length as int, s2.commit_length as int),
    ));
}

/// What a leader takes a peer to have acknowledged it took so before, in
/// the same term, or learns from the answer it is handling.
pub proof fn lemma_step_acks(s: NodeState, event: EventView, p: u64)
    requires
        s.wf(),
        within_limits(s, event),
        step(s, event).state.current_role is Leader,
        s.peers.contains(p),
        step(s, event).state.acked_length[p] > 0,
    ensures
        ({
            let s2 = step(s, event).state;
            ||| {
                &&& s.current_role is Leader
                &&& s.current_term == s2.current_term
                &&& s.acked_length[p] == s2.acked_length[p]
            }
            ||| {
                &&& event matches EventView::LogResponse { from, term, success, ack_length }
                &&& s.current_role is Leader
                &&& from == p
                &&& term == s2.current_term
                &&& success
                &&& ack_length == s2.acked_length[p]
            }
        }),
{
    lemma_step_role(s, event);
}

/// What can be said of a message that a transition sends.
pub proof fn lemma_sent(s: NodeState, event: EventView, env: Envelope)
    requires
        s.wf(),
        within_limits(s, event),
        step(s, event).messages.contains(env),
    ensures
        ({
            let s2 = step(s, event).state;
            match env.event {
                EventView::VoteRequest { term, candidate_id, last_log_term, last_log_length } => {
                    &&& event is ElectionTimeout
                    &&& s2.current_role is Candidate
                    &&& s2.current_term == s.current_term + 1
                    &&& term == s2.current_term
                    &&& candidate_id == s.id
                    &&& last_log_term == last_term(s2.log)
                    &&& last_log_length == s2.log.len()
                    &&& s.peers.contains(env.to)
                },
                EventView::VoteResponse { from, term, granted } => {
                    &&& event matches EventView::VoteRequest {
                        candidate_id,
                        last_log_term,
                        last_log_length,
                        ..
                    }
                    &&& env.to == candidate_id
                    &&& from == s.id
                    &&& term == s2.current_term
                    &&& granted ==> s2.voted_for == Some(env.to) && crate::model::up_to_date(
                        last_log_term,
                        last_log_length,
                        s.log,
                    )
                },
                EventView::LogRequest { .. } => {
                    &&& s2.current_role is Leader
                    &&& s.peers.contains(env.to)
                    &&& env.event == s2.request_for(env.to)
                },
                EventView::LogResponse { from, term, success, ack_length } => {
                    &&& event matches EventView::LogRequest {
                        term: sent_term,
                        leader_id,
                        prev_log_index,
                        prev_log_term,
                        entries,
                        ..
                    }
                    &&& env.to == leader_id
                    &&& from == s.id
                    &&& term == s2.current_term
                    &&& success ==> {
                        &&& sent_term == s2.current_term
                        &&& accepts_entries(s, prev_log_index, prev_log_term, entries)
                        &&& ack_length == prev_log_index + 1 + entries.len()
                    }
                },
                _ => false,
            }
        }),
{
    let t = step(s, event);
    let i = choose|i: int| 0 <= i < t.messages.len() && t.messages[i] == env;
    assert(t.messages[i] == env);
    match event {
        EventView::ElectionTimeout => {},
        EventView::ReplicationTimeout => {},
        EventView::VoteRequest { .. } => {},
        EventView::VoteResponse { .. } => {},
        EventView::LogRequest { .. } => {},
        EventView::LogResponse { .. } => {},
        EventView::Broadcast { .. } => {},
    }
}

/// Replaying a replication message changes nothing. A node that has
/// handled a replication message and is handed the same message again stays
/// as it is, gives the same answer, and delivers nothing more.
pub proof fn replay_changes_nothing(s: NodeState, event: EventView)
    requires
        s.wf(),
        event is LogRequest,
    ensures
        step(step(s, event).state, event).state == step(s, event).state,
        step(step(s, event).state, event).messages == step(s, event).messages,
        step(step(s, event).state, event).delivered == Seq::<u64>::empty(),
{
    let first = step(s, event);
    let s1 = first.state;
    let second = step(s1, event);
    lemma_step_wf(s, event);
    if let EventView::LogRequest { term, prev_log_index, prev_log_term, entries, .. } = event {
        let start = prev_log_index + 1;
        if takes_entries(s, event) {
            lemma_merged(s.log, start, entries);
            let k = agreeing_entries(s.log, start, entries, 0);
            assert forall|i: int| 0 <= i < entries.len() implies #[trigger] agrees_at(
                s1.log,
                start,
                entries,
                i,
            ) by {
                if i < k {
                    assert(agrees_at(s.log, start, entries, i));
                }
            }
            lemma_agreeing_entries(s1.log, start, entries, 0);
            let again = agreeing_entries(s1.log, start, entries, 0);
            if again < entries.len() {
                assert(agrees_at(s1.log, start, entries, again as int));
            }
            assert(merged(s1.log, start, entries) == s1.log);
        }
        assert(second.state =~= s1);
        assert(second.delivered =~= Seq::<u64>::empty());
    }
}

} // verus!
