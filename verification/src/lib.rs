//! A Raft consensus node as a verified state machine.
//!
//! A node consumes one [`types::Event`] at a time and answers with the
//! messages to send to its peers and the payloads that became committed.
//! The transport, the timers and the delivery stream live outside this
//! crate: the caller feeds events in and carries the effects out.
//!
//! The node:
//!
//! * [`types`]: roles, log entries, events and effects.
//! * [`log`]: the log store.
//! * [`model`]: the mathematical model of a node and its transition function.
//! * [`node`]: the executable node, proved to follow the model.
//!
//! The cluster, and what is proved of every execution of it:
//!
//! * [`cluster`]: nodes, messages and deliveries; steps and executions.
//! * [`facts`]: what a single transition does and leaves alone.
//! * [`history`]: what the proofs remember of an execution.
//! * [`election`]: `election_safety` and `vote_uniqueness`.
//! * [`matching`]: `log_matching` and `leader_append_only`.
//! * [`commit`]: `commit_safety`, `commit_monotonic`, `delivery_ordering`,
//!   `deliveries_are_prefixes` and `delivered_is_committed`.
//! * [`progress`]: `election_is_possible`, `commit_is_possible`,
//!   `recovery_is_possible` and `progress_from_start`.

pub mod types;
pub mod log;
pub mod model;
pub mod node;
pub mod facts;
pub mod cluster;
pub mod history;
pub mod election;
pub mod matching;
pub mod commit;
pub mod progress;
