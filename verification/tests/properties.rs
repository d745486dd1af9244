use raft::node::Raft;
use raft::types::{Event, LogEntry, Outbound, Role};
use std::collections::HashMap;

/// A small deterministic generator, so that every run takes the same steps.
struct Dice(u64);

impl Dice {
    fn roll(&mut self, sides: usize) -> usize {
        self.0 = self.0.wrapping_mul(6364136223846793005).wrapping_add(1442695040888963407);
        ((self.0 >> 33) as usize) % sides
    }
}

/// A cluster under test: the nodes, the messages in flight, and what has
/// been observed of the run so far.
struct World {
    nodes: Vec<Raft>,
    in_flight: Vec<Outbound>,
    delivered: Vec<Vec<u64>>,
    leaders: HashMap<u64, u64>,
    votes: HashMap<(u64, u64), u64>,
    committed: Vec<LogEntry>,
    next_payload: u64,
}

impl World {
    fn new(size: u64) -> World {
        let ids: Vec<u64> = (1..=size).map(|i| i * 10).collect();
        let nodes = ids
            .iter()
            .map(|id| {
                let peers = ids.iter().copied().filter(|p| p != id).collect();
                Raft::new(*id, peers).expect("a valid cluster")
            })
            .collect::<Vec<Raft>>();
        World {
            delivered: vec![Vec::new(); nodes.len()],
            nodes,
            in_flight: Vec::new(),
            leaders: HashMap::new(),
            votes: HashMap::new(),
            committed: Vec::new(),
            next_payload: 1000,
        }
    }

    fn index_of(&self, id: u64) -> usize {
        self.nodes.iter().position(|n| n.id() == id).expect("a member")
    }

    fn log_of(&self, i: usize) -> Vec<LogEntry> {
        (0..self.nodes[i].log_length()).map(|k| self.nodes[i].entry(k).unwrap()).collect()
    }

    /// Hands `event` to node `i` and checks what must hold of one step.
    fn step(&mut self, i: usize, event: Event) {
        assert!(self.nodes[i].can_handle(&event));
        let term = self.nodes[i].current_term();
        let vote = self.nodes[i].voted_for();
        let commit = self.nodes[i].commit_length();
        let role = self.nodes[i].current_role();
        let log = self.log_of(i);

        let effects = self.nodes[i].handle(event);

        let node = &self.nodes[i];
        assert!(node.current_term() >= term);
        if node.current_term() == term && vote.is_some() {
            assert_eq!(node.voted_for(), vote);
        }
        assert!(node.commit_length() >= commit);
        assert!(node.commit_length() <= node.log_length());
        assert_eq!(effects.delivered.len(), node.commit_length() - commit);
        let now = self.log_of(i);
        assert_eq!(&now[..commit], &log[..commit]);
        if role == Role::Leader && node.current_role() == Role::Leader {
            assert_eq!(&now[..log.len()], &log[..]);
        }
        self.delivered[i].extend(effects.delivered.iter().copied());
        self.in_flight.extend(effects.messages.into_iter());
        self.check();
    }

    /// Checks what must hold of the cluster as a whole.
    fn check(&mut self) {
        for i in 0..self.nodes.len() {
            let n = &self.nodes[i];
            // Election safety.
            if n.current_role() == Role::Leader {
                let known = *self.leaders.entry(n.current_term()).or_insert(n.id());
                assert_eq!(known, n.id(), "two leaders in term {}", n.current_term());
            }
            // Vote uniqueness.
            if let Some(candidate) = n.voted_for() {
                let known = *self.votes.entry((n.id(), n.current_term())).or_insert(candidate);
                assert_eq!(known, candidate);
            }
            // Commit safety.
            let log = self.log_of(i);
            for k in 0..n.commit_length() {
                if k < self.committed.len() {
                    assert_eq!(self.committed[k], log[k], "committed entry {} differs", k);
                } else {
                    self.committed.push(log[k]);
                }
            }
            // Delivery ordering.
            assert_eq!(self.delivered[i], n.deliveries());
            let payloads: Vec<u64> = self.committed.iter().map(|e| e.payload).collect();
            assert_eq!(&payloads[..self.delivered[i].len()], &self.delivered[i][..]);
        }
        // Log matching.
        for a in 0..self.nodes.len() {
            let la = self.log_of(a);
            for b in (a + 1)..self.nodes.len() {
                let lb = self.log_of(b);
                let both = la.len().min(lb.len());
                for k in (0..both).rev() {
                    if la[k].term == lb[k].term {
                        assert_eq!(&la[..=k], &lb[..=k]);
                        break;
                    }
                }
            }
        }
    }

    /// Takes `steps` steps chosen by `dice`: mostly messages, delivered in
    /// any order, some of them twice and some never; now and then a timer
    /// or a proposal.
    fn run(&mut self, dice: &mut Dice, steps: usize) {
        let size = self.nodes.len();
        for _ in 0..steps {
            let choice = dice.roll(100);
            if choice < 70 && !self.in_flight.is_empty() {
                let k = dice.roll(self.in_flight.len());
                let message = match dice.roll(10) {
                    0 => self.in_flight[k].clone(),
                    1 => {
                        self.in_flight.swap_remove(k);
                        continue;
                    }
                    _ => self.in_flight.swap_remove(k),
                };
                let to = self.index_of(message.to);
                self.step(to, message.event);
            } else if choice < 80 {
                let i = dice.roll(size);
                self.step(i, Event::ReplicationTimeout);
            } else if choice < 83 {
                let i = dice.roll(size);
                self.step(i, Event::ElectionTimeout);
            } else {
                let i = dice.roll(size);
                self.next_payload += 1;
                let payload = self.next_payload;
                self.step(i, Event::Broadcast { payload });
            }
        }
    }
}

#[test]
fn safety_holds_on_a_long_run_of_three_nodes() {
    let mut world = World::new(3);
    world.run(&mut Dice(7), 6000);
    assert!(!world.leaders.is_empty());
    assert!(!world.committed.is_empty());
}

#[test]
fn safety_holds_on_a_long_run_of_five_nodes() {
    let mut world = World::new(5);
    world.run(&mut Dice(2024), 6000);
    assert!(!world.leaders.is_empty());
    assert!(!world.committed.is_empty());
}

#[test]
fn safety_holds_on_many_short_runs() {
    for seed in 1..40u64 {
        let mut world = World::new(2 + (seed % 4));
        world.run(&mut Dice(seed * 7919), 400);
    }
}

#[test]
fn a_term_has_one_leader_even_when_two_candidates_compete() {
    let (a, b, c) = (10u64, 20u64, 30u64);
    let mut na = Raft::new(a, vec![b, c]).unwrap();
    let mut nb = Raft::new(b, vec![a, c]).unwrap();
    let mut nc = Raft::new(c, vec![a, b]).unwrap();
    let ask_a = na.handle(Event::ElectionTimeout);
    let ask_b = nb.handle(Event::ElectionTimeout);
    assert_eq!((na.current_term(), nb.current_term()), (1, 1));
    // Each candidate refuses the other; C grants the first that asks.
    let to_c = |out: &raft::types::Effects| {
        out.messages.iter().find(|m| m.to == c).unwrap().event.clone()
    };
    let first = nc.handle(to_c(&ask_a));
    let second = nc.handle(to_c(&ask_b));
    assert_eq!(
        first.messages[0].event,
        Event::VoteResponse { from: c, term: 1, granted: true }
    );
    assert_eq!(
        second.messages[0].event,
        Event::VoteResponse { from: c, term: 1, granted: false }
    );
    let b_on_a = nb.handle(ask_a.messages.iter().find(|m| m.to == b).unwrap().event.clone());
    assert_eq!(
        b_on_a.messages[0].event,
        Event::VoteResponse { from: b, term: 1, granted: false }
    );
    na.handle(first.messages[0].event.clone());
    nb.handle(second.messages[0].event.clone());
    assert_eq!(na.current_role(), Role::Leader);
    assert_eq!(nb.current_role(), Role::Candidate);
    assert_eq!(nc.voted_for(), Some(a));
}

#[test]
fn events_beyond_the_machine_limits_are_told_apart() {
    let mut n = Raft::new(1, vec![2, 3]).unwrap();
    assert!(n.can_handle(&Event::ElectionTimeout));
    assert!(n.can_handle(&Event::Broadcast { payload: 1 }));
    // A request of the last term takes the node there; no election can follow.
    n.handle(Event::VoteRequest {
        term: u64::MAX,
        candidate_id: 2,
        last_log_term: 0,
        last_log_length: 0,
    });
    assert_eq!(n.current_term(), u64::MAX);
    assert!(!n.can_handle(&Event::ElectionTimeout));
    assert!(n.can_handle(&Event::ReplicationTimeout));
    assert!(n.can_handle(&Event::Broadcast { payload: 1 }));
    assert!(n.can_handle(&Event::VoteResponse { from: 2, term: 1, granted: true }));
}

#[test]
fn a_request_longer_than_a_log_can_be_is_refused() {
    let mut n = Raft::new(1, vec![2, 3]).unwrap();
    let out = n.handle(Event::LogRequest {
        term: 1,
        leader_id: 2,
        prev_log_index: isize::MAX,
        prev_log_term: 0,
        entries: vec![],
        leader_commit: 0,
    });
    assert_eq!(
        out.messages[0].event,
        Event::LogResponse { from: 1, term: 1, success: false, ack_length: 0 }
    );
    assert_eq!(n.log_length(), 0);
}
