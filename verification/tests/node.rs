use raft::node::Raft;
use raft::types::{Effects, Event, LogEntry, NotLeaderError, Outbound, Role};

const A: u64 = 1;
const B: u64 = 2;
const C: u64 = 3;

fn node(id: u64, peers: Vec<u64>) -> Raft {
    Raft::new(id, peers).expect("a valid cluster")
}

fn trio() -> (Raft, Raft, Raft) {
    (node(A, vec![B, C]), node(B, vec![A, C]), node(C, vec![A, B]))
}

fn only(effects: &Effects) -> Outbound {
    assert_eq!(effects.messages.len(), 1);
    effects.messages[0].clone()
}

fn to(effects: &Effects, peer: u64) -> Event {
    let found: Vec<&Outbound> = effects.messages.iter().filter(|m| m.to == peer).collect();
    assert_eq!(found.len(), 1);
    found[0].event.clone()
}

/// Makes `a` the leader of term 1 with the votes of both `b` and `c`, and
/// lets the first heartbeats be answered.
fn elect(a: &mut Raft, b: &mut Raft, c: &mut Raft) {
    let asked = a.handle(Event::ElectionTimeout);
    let from_b = only(&b.handle(to(&asked, B)));
    let from_c = only(&c.handle(to(&asked, C)));
    let beats = a.handle(from_b.event);
    a.handle(from_c.event);
    let ack_b = only(&b.handle(to(&beats, B)));
    let ack_c = only(&c.handle(to(&beats, C)));
    a.handle(ack_b.event);
    a.handle(ack_c.event);
}

#[test]
fn a_node_starts_as_follower_in_term_zero() {
    let n = node(A, vec![B, C]);
    assert_eq!(n.id(), A);
    assert_eq!(n.peers(), &vec![B, C]);
    assert_eq!(n.current_term(), 0);
    assert_eq!(n.voted_for(), None);
    assert_eq!(n.current_role(), Role::Follower);
    assert_eq!(n.current_leader(), None);
    assert_eq!(n.vote_count(), 0);
    assert_eq!(n.log_length(), 0);
    assert_eq!(n.commit_length(), 0);
    assert_eq!(n.sent_length(B), Some(0));
    assert_eq!(n.acked_length(C), Some(0));
    assert_eq!(n.sent_length(A), None);
    assert_eq!(n.entry(0), None);
    assert!(n.deliveries().is_empty());
}

#[test]
fn new_refuses_a_peer_named_twice() {
    assert!(Raft::new(A, vec![B, C, B]).is_none());
}

#[test]
fn new_refuses_its_own_id_among_the_peers() {
    assert!(Raft::new(A, vec![B, A]).is_none());
}

#[test]
fn new_accepts_a_cluster_of_one() {
    assert!(Raft::new(A, vec![]).is_some());
}

#[test]
fn first_timeout_wins_the_election() {
    let (mut a, mut b, mut c) = trio();
    let asked = a.handle(Event::ElectionTimeout);
    assert_eq!(a.current_term(), 1);
    assert_eq!(a.current_role(), Role::Candidate);
    assert_eq!(a.voted_for(), Some(A));
    assert_eq!(a.current_leader(), None);
    assert!(a.has_vote_of(A));
    assert_eq!(a.vote_count(), 1);
    assert!(asked.reset_election_timer);
    let request = Event::VoteRequest {
        term: 1,
        candidate_id: A,
        last_log_term: 0,
        last_log_length: 0,
    };
    assert_eq!(
        asked.messages,
        vec![
            Outbound { to: B, event: request.clone() },
            Outbound { to: C, event: request.clone() },
        ]
    );

    let from_b = b.handle(request.clone());
    assert_eq!(
        from_b.messages,
        vec![Outbound { to: A, event: Event::VoteResponse { from: B, term: 1, granted: true } }]
    );
    assert!(from_b.reset_election_timer);
    assert_eq!(b.current_term(), 1);
    assert_eq!(b.voted_for(), Some(A));
    let from_c = c.handle(request);
    assert_eq!(
        from_c.messages,
        vec![Outbound { to: A, event: Event::VoteResponse { from: C, term: 1, granted: true } }]
    );

    let beats = a.handle(from_b.messages[0].event.clone());
    assert_eq!(a.current_role(), Role::Leader);
    assert_eq!(a.current_leader(), Some(A));
    let beat = Event::LogRequest {
        term: 1,
        leader_id: A,
        prev_log_index: -1,
        prev_log_term: 0,
        entries: vec![],
        leader_commit: 0,
    };
    assert_eq!(
        beats.messages,
        vec![Outbound { to: B, event: beat.clone() }, Outbound { to: C, event: beat }]
    );
    let late = a.handle(from_c.messages[0].event.clone());
    assert!(late.messages.is_empty());
    assert_eq!(a.current_role(), Role::Leader);
    assert_eq!(a.current_term(), 1);
    assert!(a.has_vote_of(A) && a.has_vote_of(B) && a.has_vote_of(C));
    assert_eq!(a.vote_count(), 3);
}

#[test]
fn a_proposal_is_committed_and_delivered_on_every_node() {
    let (mut a, mut b, mut c) = trio();
    elect(&mut a, &mut b, &mut c);
    assert_eq!(a.current_role(), Role::Leader);

    let x = 77;
    let sent = a.propose(x).expect("the leader takes a proposal");
    assert_eq!(a.entry(0), Some(LogEntry { term: 1, payload: x }));
    assert_eq!(a.log_length(), 1);
    let request = Event::LogRequest {
        term: 1,
        leader_id: A,
        prev_log_index: -1,
        prev_log_term: 0,
        entries: vec![LogEntry { term: 1, payload: x }],
        leader_commit: 0,
    };
    assert_eq!(
        sent.messages,
        vec![Outbound { to: B, event: request.clone() }, Outbound { to: C, event: request.clone() }]
    );
    assert!(sent.delivered.is_empty());

    let from_b = b.handle(request.clone());
    let from_c = c.handle(request);
    let ack = |from: u64| Event::LogResponse { from, term: 1, success: true, ack_length: 1 };
    assert_eq!(from_b.messages, vec![Outbound { to: A, event: ack(B) }]);
    assert_eq!(from_c.messages, vec![Outbound { to: A, event: ack(C) }]);
    assert!(from_b.delivered.is_empty());
    assert_eq!(b.commit_length(), 0);
    assert_eq!(b.entry(0), Some(LogEntry { term: 1, payload: x }));

    let first = a.handle(ack(B));
    assert_eq!(a.commit_length(), 1);
    assert_eq!(first.delivered, vec![x]);
    assert_eq!(a.sent_length(B), Some(1));
    assert_eq!(a.acked_length(B), Some(1));
    let second = a.handle(ack(C));
    assert_eq!(a.commit_length(), 1);
    assert!(second.delivered.is_empty());
    assert_eq!(a.deliveries(), vec![x]);

    let beats = a.handle(Event::ReplicationTimeout);
    let beat = Event::LogRequest {
        term: 1,
        leader_id: A,
        prev_log_index: 0,
        prev_log_term: 1,
        entries: vec![],
        leader_commit: 1,
    };
    assert_eq!(
        beats.messages,
        vec![Outbound { to: B, event: beat.clone() }, Outbound { to: C, event: beat.clone() }]
    );
    let on_b = b.handle(beat.clone());
    let on_c = c.handle(beat);
    assert_eq!(b.commit_length(), 1);
    assert_eq!(c.commit_length(), 1);
    assert_eq!(on_b.delivered, vec![x]);
    assert_eq!(on_c.delivered, vec![x]);
    assert_eq!(b.deliveries(), a.deliveries());
    assert_eq!(c.deliveries(), a.deliveries());
}

#[test]
fn a_stale_leader_steps_down() {
    let (mut a, mut b, mut c) = trio();
    elect(&mut a, &mut b, &mut c);
    assert_eq!(a.current_role(), Role::Leader);
    assert_eq!(a.current_term(), 1);
    // B moves on to term 2.
    b.handle(Event::ElectionTimeout);
    assert_eq!(b.current_term(), 2);

    let beats = a.handle(Event::ReplicationTimeout);
    let answer = b.handle(to(&beats, B));
    assert_eq!(
        answer.messages,
        vec![
            Outbound {
                to: A,
                event: Event::LogResponse { from: B, term: 2, success: false, ack_length: 0 },
            },
        ]
    );
    assert!(!answer.reset_election_timer);
    assert_eq!(b.current_term(), 2);
    assert_eq!(b.current_role(), Role::Candidate);

    let after = a.handle(answer.messages[0].event.clone());
    assert!(after.messages.is_empty());
    assert_eq!(a.current_role(), Role::Follower);
    assert_eq!(a.current_term(), 2);
    assert_eq!(a.voted_for(), None);
    assert_eq!(a.current_leader(), None);
    assert_eq!(a.vote_count(), 0);
}

#[test]
fn a_node_votes_once_per_term() {
    let mut b = node(B, vec![A, C]);
    let ask = |candidate_id: u64, term: u64| Event::VoteRequest {
        term,
        candidate_id,
        last_log_term: 0,
        last_log_length: 0,
    };
    let first = only(&b.handle(ask(A, 1)));
    assert_eq!(first.event, Event::VoteResponse { from: B, term: 1, granted: true });
    let second = b.handle(ask(C, 1));
    assert_eq!(
        only(&second),
        Outbound { to: C, event: Event::VoteResponse { from: B, term: 1, granted: false } }
    );
    assert!(!second.reset_election_timer);
    assert_eq!(b.voted_for(), Some(A));
    // The same candidate may ask again and is granted again.
    let again = only(&b.handle(ask(A, 1)));
    assert_eq!(again.event, Event::VoteResponse { from: B, term: 1, granted: true });
    assert_eq!(b.voted_for(), Some(A));
    // A new term frees the vote.
    let next = only(&b.handle(ask(C, 2)));
    assert_eq!(next.event, Event::VoteResponse { from: B, term: 2, granted: true });
    assert_eq!(b.voted_for(), Some(C));
    assert_eq!(b.current_term(), 2);
}

#[test]
fn a_vote_request_of_an_earlier_term_is_denied_with_the_current_term() {
    let mut b = node(B, vec![A, C]);
    b.handle(Event::ElectionTimeout);
    b.handle(Event::ElectionTimeout);
    assert_eq!(b.current_term(), 2);
    let answer = only(&b.handle(Event::VoteRequest {
        term: 1,
        candidate_id: A,
        last_log_term: 0,
        last_log_length: 0,
    }));
    assert_eq!(answer.event, Event::VoteResponse { from: B, term: 2, granted: false });
    assert_eq!(b.voted_for(), Some(B));
}

fn follower_with_log(terms: &[u64]) -> Raft {
    let mut b = node(B, vec![A, C]);
    let entries: Vec<LogEntry> =
        terms.iter().enumerate().map(|(i, t)| LogEntry { term: *t, payload: i as u64 }).collect();
    let last = *terms.last().unwrap_or(&0);
    let out = b.handle(Event::LogRequest {
        term: last,
        leader_id: A,
        prev_log_index: -1,
        prev_log_term: 0,
        entries,
        leader_commit: 0,
    });
    assert_eq!(
        only(&out).event,
        Event::LogResponse { from: B, term: last, success: true, ack_length: terms.len() }
    );
    b
}

#[test]
fn a_vote_is_denied_to_a_candidate_whose_log_is_behind() {
    let ask = |last_log_term: u64, last_log_length: usize| Event::VoteRequest {
        term: 9,
        candidate_id: C,
        last_log_term,
        last_log_length,
    };
    let granted = |b: &mut Raft, e: Event| match only(&b.handle(e)).event {
        Event::VoteResponse { from, term, granted } => {
            assert_eq!((from, term), (B, 9));
            granted
        }
        other => panic!("unexpected {:?}", other),
    };
    // Own log: two entries of term 1, one of term 3.
    assert!(!granted(&mut follower_with_log(&[1, 1, 3]), ask(2, 10)));
    assert!(!granted(&mut follower_with_log(&[1, 1, 3]), ask(3, 2)));
    assert!(granted(&mut follower_with_log(&[1, 1, 3]), ask(3, 3)));
    assert!(granted(&mut follower_with_log(&[1, 1, 3]), ask(4, 0)));
}

#[test]
fn a_follower_does_not_listen_to_vote_responses() {
    let mut b = node(B, vec![A, C]);
    let out = b.handle(Event::VoteResponse { from: A, term: 5, granted: true });
    assert!(out.messages.is_empty());
    assert_eq!(b.current_term(), 0);
    assert_eq!(b.vote_count(), 0);
    assert_eq!(b.current_role(), Role::Follower);
}

#[test]
fn a_candidate_steps_down_on_a_vote_response_of_a_later_term() {
    let mut a = node(A, vec![B, C]);
    a.handle(Event::ElectionTimeout);
    let out = a.handle(Event::VoteResponse { from: B, term: 4, granted: false });
    assert!(out.messages.is_empty());
    assert_eq!(a.current_role(), Role::Follower);
    assert_eq!(a.current_term(), 4);
    assert_eq!(a.voted_for(), None);
    assert_eq!(a.vote_count(), 0);
}

#[test]
fn votes_that_do_not_count_are_dropped() {
    let mut a = node(A, vec![B, C]);
    a.handle(Event::ElectionTimeout);
    a.handle(Event::ElectionTimeout);
    assert_eq!(a.current_term(), 2);
    // Denied, of an earlier term, from a stranger: none of them counts.
    a.handle(Event::VoteResponse { from: B, term: 2, granted: false });
    a.handle(Event::VoteResponse { from: B, term: 1, granted: true });
    a.handle(Event::VoteResponse { from: 99, term: 2, granted: true });
    assert_eq!(a.vote_count(), 1);
    assert_eq!(a.current_role(), Role::Candidate);
    // The same voter twice is one vote; in a cluster of five two are no majority.
    let mut five = node(A, vec![B, C, 4, 5]);
    five.handle(Event::ElectionTimeout);
    five.handle(Event::VoteResponse { from: B, term: 1, granted: true });
    five.handle(Event::VoteResponse { from: B, term: 1, granted: true });
    assert_eq!(five.vote_count(), 2);
    assert_eq!(five.current_role(), Role::Candidate);
    five.handle(Event::VoteResponse { from: C, term: 1, granted: true });
    assert_eq!(five.current_role(), Role::Leader);
}

#[test]
fn a_leader_ignores_the_election_timer() {
    let (mut a, mut b, mut c) = trio();
    elect(&mut a, &mut b, &mut c);
    let out = a.handle(Event::ElectionTimeout);
    assert!(out.messages.is_empty());
    assert!(!out.reset_election_timer);
    assert_eq!(a.current_term(), 1);
    assert_eq!(a.current_role(), Role::Leader);
}

#[test]
fn only_a_leader_replicates_on_the_replication_timer() {
    let mut b = node(B, vec![A, C]);
    let out = b.handle(Event::ReplicationTimeout);
    assert!(out.messages.is_empty());
    b.handle(Event::ElectionTimeout);
    assert!(b.handle(Event::ReplicationTimeout).messages.is_empty());
}

#[test]
fn a_proposal_to_a_follower_names_the_leader() {
    let (mut a, mut b, mut c) = trio();
    assert_eq!(b.propose(5), Err(NotLeaderError { leader: None }));
    elect(&mut a, &mut b, &mut c);
    assert_eq!(b.current_leader(), Some(A));
    assert_eq!(b.propose(5), Err(NotLeaderError { leader: Some(A) }));
    assert_eq!(b.log_length(), 0);
    // Through `handle` the proposal is dropped without a trace.
    let out = b.handle(Event::Broadcast { payload: 5 });
    assert!(out.messages.is_empty());
    assert_eq!(b.log_length(), 0);
}

#[test]
fn a_request_whose_prefix_is_missing_is_refused_and_the_leader_backs_off() {
    let (mut a, mut b, mut c) = trio();
    elect(&mut a, &mut b, &mut c);
    a.propose(10).unwrap();
    a.propose(11).unwrap();
    // B holds nothing, and is asked to append after index 0.
    let out = b.handle(Event::LogRequest {
        term: 1,
        leader_id: A,
        prev_log_index: 0,
        prev_log_term: 1,
        entries: vec![LogEntry { term: 1, payload: 11 }],
        leader_commit: 0,
    });
    let answer = only(&out);
    assert_eq!(
        answer.event,
        Event::LogResponse { from: B, term: 1, success: false, ack_length: 0 }
    );
    assert!(out.reset_election_timer);
    assert_eq!(b.log_length(), 0);

    // The leader believes C was sent one entry; a failure takes that back by one.
    a.handle(Event::LogResponse { from: C, term: 1, success: true, ack_length: 1 });
    assert_eq!(a.sent_length(C), Some(1));
    let quiet = a.handle(Event::LogResponse { from: C, term: 1, success: false, ack_length: 0 });
    assert!(quiet.messages.is_empty());
    assert_eq!(a.sent_length(C), Some(0));
    assert_eq!(a.acked_length(C), Some(1));
    a.handle(Event::LogResponse { from: C, term: 1, success: false, ack_length: 0 });
    assert_eq!(a.sent_length(C), Some(0));
    // The next round restarts from the earlier prefix.
    let round = a.handle(Event::ReplicationTimeout);
    assert_eq!(
        to(&round, C),
        Event::LogRequest {
            term: 1,
            leader_id: A,
            prev_log_index: -1,
            prev_log_term: 0,
            entries: vec![
                LogEntry { term: 1, payload: 10 },
                LogEntry { term: 1, payload: 11 },
            ],
            leader_commit: 1,
        }
    );
}

#[test]
fn a_request_with_the_wrong_previous_term_is_refused() {
    let mut b = follower_with_log(&[1, 1]);
    let out = b.handle(Event::LogRequest {
        term: 3,
        leader_id: A,
        prev_log_index: 1,
        prev_log_term: 2,
        entries: vec![],
        leader_commit: 0,
    });
    assert_eq!(
        only(&out).event,
        Event::LogResponse { from: B, term: 3, success: false, ack_length: 0 }
    );
    assert_eq!(b.current_term(), 3);
    assert_eq!(b.current_leader(), Some(A));
    assert_eq!(b.log_length(), 2);
    // An index below -1 names no entry.
    let out = b.handle(Event::LogRequest {
        term: 3,
        leader_id: A,
        prev_log_index: -2,
        prev_log_term: 0,
        entries: vec![],
        leader_commit: 0,
    });
    assert_eq!(
        only(&out).event,
        Event::LogResponse { from: B, term: 3, success: false, ack_length: 0 }
    );
}

#[test]
fn a_conflicting_suffix_is_cut_and_replaced() {
    let mut b = follower_with_log(&[1, 1, 2, 2]);
    let out = b.handle(Event::LogRequest {
        term: 3,
        leader_id: C,
        prev_log_index: 0,
        prev_log_term: 1,
        entries: vec![LogEntry { term: 1, payload: 1 }, LogEntry { term: 3, payload: 40 }],
        leader_commit: 0,
    });
    assert_eq!(
        only(&out).event,
        Event::LogResponse { from: B, term: 3, success: true, ack_length: 3 }
    );
    assert_eq!(b.log_length(), 3);
    assert_eq!(b.entry(0), Some(LogEntry { term: 1, payload: 0 }));
    assert_eq!(b.entry(1), Some(LogEntry { term: 1, payload: 1 }));
    assert_eq!(b.entry(2), Some(LogEntry { term: 3, payload: 40 }));
    assert_eq!(b.entry(3), None);
    assert_eq!(b.current_leader(), Some(C));
}

#[test]
fn replaying_a_request_changes_nothing() {
    let mut b = follower_with_log(&[1, 1, 1]);
    let early = Event::LogRequest {
        term: 1,
        leader_id: A,
        prev_log_index: -1,
        prev_log_term: 0,
        entries: vec![LogEntry { term: 1, payload: 0 }],
        leader_commit: 0,
    };
    let out = b.handle(early.clone());
    assert_eq!(
        only(&out).event,
        Event::LogResponse { from: B, term: 1, success: true, ack_length: 1 }
    );
    assert_eq!(b.log_length(), 3);
    assert_eq!(b.entry(2), Some(LogEntry { term: 1, payload: 2 }));
    b.handle(early);
    assert_eq!(b.log_length(), 3);
}

#[test]
fn a_follower_commits_no_further_than_its_log_reaches() {
    let mut b = node(B, vec![A, C]);
    let out = b.handle(Event::LogRequest {
        term: 1,
        leader_id: A,
        prev_log_index: -1,
        prev_log_term: 0,
        entries: vec![LogEntry { term: 1, payload: 5 }, LogEntry { term: 1, payload: 6 }],
        leader_commit: 7,
    });
    assert_eq!(b.commit_length(), 2);
    assert_eq!(out.delivered, vec![5, 6]);
    // The commit length never goes back.
    let out = b.handle(Event::LogRequest {
        term: 1,
        leader_id: A,
        prev_log_index: 1,
        prev_log_term: 1,
        entries: vec![],
        leader_commit: 1,
    });
    assert_eq!(b.commit_length(), 2);
    assert!(out.delivered.is_empty());
    assert_eq!(b.deliveries(), vec![5, 6]);
}

#[test]
fn a_request_that_would_rewrite_a_committed_entry_is_refused() {
    let mut b = node(B, vec![A, C]);
    b.handle(Event::LogRequest {
        term: 1,
        leader_id: A,
        prev_log_index: -1,
        prev_log_term: 0,
        entries: vec![LogEntry { term: 1, payload: 5 }],
        leader_commit: 1,
    });
    assert_eq!(b.commit_length(), 1);
    let out = b.handle(Event::LogRequest {
        term: 2,
        leader_id: C,
        prev_log_index: -1,
        prev_log_term: 0,
        entries: vec![LogEntry { term: 2, payload: 9 }],
        leader_commit: 0,
    });
    assert_eq!(
        only(&out).event,
        Event::LogResponse { from: B, term: 2, success: false, ack_length: 0 }
    );
    assert_eq!(b.entry(0), Some(LogEntry { term: 1, payload: 5 }));
    assert_eq!(b.commit_length(), 1);
    assert_eq!(b.current_term(), 2);
}

#[test]
fn an_entry_of_an_earlier_term_is_not_committed_by_counting() {
    // A holds an entry of term 1, then wins term 2.
    let mut a = node(A, vec![B, C]);
    a.handle(Event::LogRequest {
        term: 1,
        leader_id: B,
        prev_log_index: -1,
        prev_log_term: 0,
        entries: vec![LogEntry { term: 1, payload: 5 }],
        leader_commit: 0,
    });
    a.handle(Event::ElectionTimeout);
    assert_eq!(a.current_term(), 2);
    a.handle(Event::VoteResponse { from: C, term: 2, granted: true });
    assert_eq!(a.current_role(), Role::Leader);
    assert_eq!(a.sent_length(B), Some(1));
    assert_eq!(a.acked_length(B), Some(0));
    // Both peers hold the old entry: still nothing is committed.
    a.handle(Event::LogResponse { from: B, term: 2, success: true, ack_length: 1 });
    a.handle(Event::LogResponse { from: C, term: 2, success: true, ack_length: 1 });
    assert_eq!(a.commit_length(), 0);
    // An entry of the leader's own term commits, and the old one with it.
    a.propose(6).unwrap();
    let out = a.handle(Event::LogResponse { from: B, term: 2, success: true, ack_length: 2 });
    assert_eq!(a.commit_length(), 2);
    assert_eq!(out.delivered, vec![5, 6]);
}

#[test]
fn responses_a_leader_cannot_use_are_dropped() {
    let (mut a, mut b, mut c) = trio();
    elect(&mut a, &mut b, &mut c);
    a.propose(10).unwrap();
    // Of an earlier term, from a stranger, for more than the log holds.
    a.handle(Event::LogResponse { from: B, term: 0, success: true, ack_length: 1 });
    a.handle(Event::LogResponse { from: 99, term: 1, success: true, ack_length: 1 });
    a.handle(Event::LogResponse { from: B, term: 1, success: true, ack_length: 2 });
    assert_eq!(a.acked_length(B), Some(0));
    assert_eq!(a.sent_length(B), Some(0));
    assert_eq!(a.acked_length(99), None);
    assert_eq!(a.commit_length(), 0);
    // A follower does not listen at all.
    let out = b.handle(Event::LogResponse { from: A, term: 9, success: true, ack_length: 0 });
    assert!(out.messages.is_empty());
    assert_eq!(b.current_term(), 1);
}

#[test]
fn a_candidate_follows_a_leader_of_its_own_term() {
    let mut b = node(B, vec![A, C]);
    b.handle(Event::ElectionTimeout);
    assert_eq!(b.current_role(), Role::Candidate);
    let out = b.handle(Event::LogRequest {
        term: 1,
        leader_id: A,
        prev_log_index: -1,
        prev_log_term: 0,
        entries: vec![],
        leader_commit: 0,
    });
    assert_eq!(
        only(&out).event,
        Event::LogResponse { from: B, term: 1, success: true, ack_length: 0 }
    );
    assert_eq!(b.current_role(), Role::Follower);
    assert_eq!(b.current_leader(), Some(A));
    assert_eq!(b.current_term(), 1);
    assert_eq!(b.voted_for(), Some(B));
    assert_eq!(b.vote_count(), 0);
}

#[test]
fn the_handlers_agree_with_handle() {
    let mut direct = node(A, vec![B, C]);
    let mut routed = node(A, vec![B, C]);
    assert_eq!(direct.on_election_timeout(), routed.handle(Event::ElectionTimeout));
    assert_eq!(
        direct.on_vote_response(B, 1, true),
        routed.handle(Event::VoteResponse { from: B, term: 1, granted: true })
    );
    assert_eq!(direct.on_replication_timeout(), routed.handle(Event::ReplicationTimeout));
    assert_eq!(
        direct.on_log_response(B, 1, true, 0),
        routed.handle(Event::LogResponse { from: B, term: 1, success: true, ack_length: 0 })
    );
    assert_eq!(
        direct.on_vote_request(2, C, 0, 0),
        routed.handle(Event::VoteRequest {
            term: 2,
            candidate_id: C,
            last_log_term: 0,
            last_log_length: 0,
        })
    );
    assert_eq!(
        direct.on_log_request(2, C, -1, 0, &vec![LogEntry { term: 2, payload: 1 }], 1),
        routed.handle(Event::LogRequest {
            term: 2,
            leader_id: C,
            prev_log_index: -1,
            prev_log_term: 0,
            entries: vec![LogEntry { term: 2, payload: 1 }],
            leader_commit: 1,
        })
    );
    assert_eq!(direct.current_term(), routed.current_term());
    assert_eq!(direct.deliveries(), routed.deliveries());
    assert_eq!(direct.deliveries(), vec![1]);
}

#[test]
fn a_new_leader_backs_off_until_a_follower_that_missed_entries_takes_the_log() {
    let (mut a, mut b, mut c) = trio();
    elect(&mut a, &mut b, &mut c);
    // Three entries reach B, none reaches C.
    for payload in [1, 2, 3] {
        let sent = a.propose(payload).unwrap();
        let ack = only(&b.handle(to(&sent, B)));
        a.handle(ack.event);
    }
    assert_eq!((a.commit_length(), b.log_length(), c.log_length()), (3, 3, 0));
    assert_eq!(b.commit_length(), 2);
    // B takes over in term 2 with the vote of C.
    let asked = b.handle(Event::ElectionTimeout);
    let vote = only(&c.handle(to(&asked, C)));
    assert_eq!(vote.event, Event::VoteResponse { from: C, term: 2, granted: true });
    b.handle(vote.event);
    assert_eq!(b.current_role(), Role::Leader);
    assert_eq!(b.sent_length(C), Some(3));
    b.propose(4).unwrap();

    // Round after round the leader offers the log from one entry further back.
    let mut offered = Vec::new();
    loop {
        let round = b.handle(Event::ReplicationTimeout);
        let offer = to(&round, C);
        if let Event::LogRequest { prev_log_index, .. } = &offer {
            offered.push(*prev_log_index);
        }
        let answer = only(&c.handle(offer));
        let done = matches!(answer.event, Event::LogResponse { success: true, .. });
        if done {
            assert_eq!(
                answer.event,
                Event::LogResponse { from: C, term: 2, success: true, ack_length: 4 }
            );
        }
        let out = b.handle(answer.event);
        if done {
            // B and C hold the entry of term 2: that commits the whole log.
            // As a follower B had learnt of the first two entries already.
            assert_eq!(out.delivered, vec![3, 4]);
            assert_eq!(b.deliveries(), vec![1, 2, 3, 4]);
            break;
        }
        assert!(offered.len() < 10);
    }
    assert_eq!(offered, vec![2, 1, 0, -1]);
    assert_eq!(b.commit_length(), 4);
    assert_eq!(c.log_length(), 4);
    assert_eq!(b.sent_length(C), Some(4));
    assert_eq!(b.acked_length(C), Some(4));
    // With the log C took the leader's commit length of that time; the
    // next round tells it the rest.
    assert_eq!(c.deliveries(), vec![1, 2]);
    let round = b.handle(Event::ReplicationTimeout);
    let out = c.handle(to(&round, C));
    assert_eq!(out.delivered, vec![3, 4]);
    assert_eq!(c.deliveries(), b.deliveries());
    // The old leader, still in term 1, learns of the new term and follows.
    let out = a.handle(to(&round, A));
    assert_eq!(a.current_role(), Role::Follower);
    assert_eq!(a.current_term(), 2);
    assert_eq!(a.current_leader(), Some(B));
    assert_eq!(
        only(&out).event,
        Event::LogResponse { from: A, term: 2, success: true, ack_length: 4 }
    );
    assert_eq!(a.log_length(), 4);
}
