//! Roles, log entries, events and the effects of handling an event.

use vstd::prelude::*;

verus! {

/// The role a node plays in its current term.
#[derive(Clone, Copy, Debug, PartialEq, Eq, Structural)]
pub enum Role {
    Leader,
    Follower,
    Candidate,
}

/// One entry of the replicated log: the term of the leader that created it
/// and the client payload it carries.
#[derive(Clone, Copy, Debug, PartialEq, Eq, Structural)]
pub struct LogEntry {
    pub term: u64,
    pub payload: u64,
}

/// Everything a node reacts to: timer expirations, the four messages that
/// travel between peers, and client proposals.
///
/// `from` is the peer that sent a response; the transport fills it in.
/// `prev_log_index` is the index of the entry just before `entries`, or `-1`
/// when `entries` starts at the beginning of the log.
#[derive(Clone, Debug, PartialEq, Eq)]
pub enum Event {
    ElectionTimeout,
    ReplicationTimeout,
    VoteRequest { term: u64, candidate_id: u64, last_log_term: u64, last_log_length: usize },
    VoteResponse { from: u64, term: u64, granted: bool },
    LogRequest {
        term: u64,
        leader_id: u64,
        prev_log_index: isize,
        prev_log_term: u64,
        entries: Vec<LogEntry>,
        leader_commit: usize,
    },
    LogResponse { from: u64, term: u64, success: bool, ack_length: usize },
    Broadcast { payload: u64 },
}

/// The mathematical value of an [`Event`].
pub enum EventView {
    ElectionTimeout,
    ReplicationTimeout,
    VoteRequest { term: u64, candidate_id: u64, last_log_term: u64, last_log_length: usize },
    VoteResponse { from: u64, term: u64, granted: bool },
    LogRequest {
        term: u64,
        leader_id: u64,
        prev_log_index: isize,
        prev_log_term: u64,
        entries: Seq<LogEntry>,
        leader_commit: usize,
    },
    LogResponse { from: u64, term: u64, success: bool, ack_length: usize },
    Broadcast { payload: u64 },
}

impl View for Event {
    type V = EventView;

    open spec fn view(&self) -> EventView {
        match *self {
            Event::ElectionTimeout => EventView::ElectionTimeout,
            Event::ReplicationTimeout => EventView::ReplicationTimeout,
            Event::VoteRequest { term, candidate_id, last_log_term, last_log_length } =>
                EventView::VoteRequest { term, candidate_id, last_log_term, last_log_length },
            Event::VoteResponse { from, term, granted } => EventView::VoteResponse {
                from,
                term,
                granted,
            },
            Event::LogRequest {
                term,
                leader_id,
                prev_log_index,
                prev_log_term,
                entries,
                leader_commit,
            } => EventView::LogRequest {
                term,
                leader_id,
                prev_log_index,
                prev_log_term,
                entries: entries@,
                leader_commit,
            },
            Event::LogResponse { from, term, success, ack_length } => EventView::LogResponse {
                from,
                term,
                success,
                ack_length,
            },
            Event::Broadcast { payload } => EventView::Broadcast { payload },
        }
    }
}

/// A message on its way to the peer `to`.
#[derive(Clone, Debug, PartialEq, Eq)]
pub struct Outbound {
    pub to: u64,
    pub event: Event,
}

/// The mathematical value of an [`Outbound`]: a message addressed to a peer.
pub struct Envelope {
    pub to: u64,
    pub event: EventView,
}

impl View for Outbound {
    type V = Envelope;

    open spec fn view(&self) -> Envelope {
        Envelope { to: self.to, event: self.event@ }
    }
}

/// What the caller has to do after a node has handled an event.
#[derive(Clone, Debug, PartialEq, Eq)]
pub struct Effects {
    /// Messages to hand to the transport, in this order.
    pub messages: Vec<Outbound>,
    /// Payloads that became committed, in log order, for the delivery stream.
    pub delivered: Vec<u64>,
    /// Whether the election timer has to be restarted with a fresh timeout.
    pub reset_election_timer: bool,
}

/// The answer to a proposal made to a node that is not the leader; `leader`
/// is the node it believes to lead the current term, for redirection.
#[derive(Clone, Copy, Debug, PartialEq, Eq, Structural)]
pub struct NotLeaderError {
    pub leader: Option<u64>,
}

/// The messages of `out`, each by its mathematical value.
pub open spec fn envelopes(out: Seq<Outbound>) -> Seq<Envelope> {
    Seq::new(out.len(), |i: int| out[i]@)
}

} // verus!
