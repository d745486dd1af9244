//! The cluster: every node, every message ever sent, and what each node has
//! delivered. One step of the cluster is one node handling one event; an
//! execution is any sequence of such steps from the initial state.
//!
//! A message, once sent, may be handed to its addressee at any later time,
//! any number of times, or never: that covers delay, reordering, duplication
//! and loss. Timers may fire and clients may propose at any time.

use crate::model::{step, within_limits, NodeState};
use crate::types::{Envelope, EventView};
use vstd::prelude::*;

verus! {

pub struct Cluster {
    /// The state of each member, by its identifier.
    pub nodes: Map<u64, NodeState>,
    /// Every message sent so far.
    pub network: Set<Envelope>,
    /// The payloads each member has handed to its application, in order.
    pub delivered: Map<u64, Seq<u64>>,
}

impl Cluster {
    /// Whether member `id` knows itself and takes exactly the other members
    /// for its peers.
    pub open spec fn configured(self, id: u64) -> bool {
        let n = self.nodes[id];
        &&& n.id == id
        &&& n.peers.no_duplicates()
        &&& forall|p: u64| #[trigger] n.peers.contains(p) <==> p != id && self.nodes.contains_key(p)
    }

    /// Whether member `id` is as it starts.
    pub open spec fn starts(self, id: u64) -> bool {
        &&& self.configured(id)
        &&& self.nodes[id] == NodeState::initial(id, self.nodes[id].peers)
        &&& self.delivered.contains_key(id)
        &&& self.delivered[id] == Seq::<u64>::empty()
    }

    /// The initial state of a cluster: finitely many members, each as it
    /// starts, and no message sent.
    pub open spec fn init(self) -> bool {
        &&& self.nodes.dom().finite()
        &&& forall|id: u64| self.nodes.contains_key(id) ==> #[trigger] self.starts(id)
        &&& forall|env: Envelope| !self.network.contains(env)
    }
}

/// Whether `event` can reach member `id` now: a timer or a proposal always,
/// a message once it has been sent to `id`.
pub open spec fn deliverable(c: Cluster, id: u64, event: EventView) -> bool {
    match event {
        EventView::ElectionTimeout => true,
        EventView::ReplicationTimeout => true,
        EventView::Broadcast { .. } => true,
        _ => c.network.contains(Envelope { to: id, event }),
    }
}

/// Whether the cluster goes from `c` to `d` by member `id` handling `event`.
pub open spec fn next_by(c: Cluster, d: Cluster, id: u64, event: EventView) -> bool {
    let t = step(c.nodes[id], event);
    &&& c.nodes.contains_key(id)
    &&& deliverable(c, id, event)
    &&& within_limits(c.nodes[id], event)
    &&& d.nodes == c.nodes.insert(id, t.state)
    &&& d.network == c.network.union(t.messages.to_set())
    &&& d.delivered == c.delivered.insert(id, c.delivered[id] + t.delivered)
}

/// Whether the cluster can go from `c` to `d` in one step.
pub open spec fn next(c: Cluster, d: Cluster) -> bool {
    exists|id: u64, event: EventView| next_by(c, d, id, event)
}

/// Whether step `k` of `trace` is a step of the cluster.
pub open spec fn steps_at(trace: Seq<Cluster>, k: int) -> bool {
    next(trace[k], trace[k + 1])
}

/// Whether `trace` is an execution: it starts in an initial state and every
/// state follows from the one before by one step.
pub open spec fn execution(trace: Seq<Cluster>) -> bool {
    &&& trace.len() > 0
    &&& trace[0].init()
    &&& forall|k: int| 0 <= k < trace.len() - 1 ==> #[trigger] steps_at(trace, k)
}

/// The items of `ids` other than `id`, in the order of `ids`.
pub open spec fn others(ids: Seq<u64>, id: u64) -> Seq<u64>
    decreases ids.len(),
{
    if ids.len() == 0 {
        Seq::empty()
    } else if ids.last() == id {
        others(ids.drop_last(), id)
    } else {
        others(ids.drop_last(), id).push(ids.last())
    }
}

/// The cluster whose members are `ids`, each as it starts.
pub open spec fn cluster_of(ids: Seq<u64>) -> Cluster {
    Cluster {
        nodes: Map::new(
            |id: u64| ids.contains(id),
            |id: u64| NodeState::initial(id, others(ids, id)),
        ),
        network: Set::empty(),
        delivered: Map::new(|id: u64| ids.contains(id), |id: u64| Seq::empty()),
    }
}

/// `others` leaves out `id` and nothing else, and names nothing twice.
pub proof fn lemma_others(ids: Seq<u64>, id: u64)
    requires
        ids.no_duplicates(),
    ensures
        others(ids, id).no_duplicates(),
        forall|p: u64| #[trigger] others(ids, id).contains(p) <==> ids.contains(p) && p != id,
    decreases ids.len(),
{
    let out = others(ids, id);
    if ids.len() > 0 {
        let init = ids.drop_last();
        let last = ids.last();
        let rest = others(init, id);
        lemma_others(init, id);
        assert forall|p: u64| ids.contains(p) <==> init.contains(p) || p == last by {
            if ids.contains(p) {
                let j = choose|j: int| 0 <= j < ids.len() && ids[j] == p;
                if j < init.len() {
                    assert(init[j] == p);
                }
            }
            if init.contains(p) {
                let j = choose|j: int| 0 <= j < init.len() && init[j] == p;
                assert(ids[j] == p);
            }
            if p == last {
                assert(ids[ids.len() - 1] == p);
            }
        }
        assert(!init.contains(last)) by {
            if init.contains(last) {
                let j = choose|j: int| 0 <= j < init.len() && init[j] == last;
                assert(ids[j] == ids[ids.len() - 1]);
            }
        }
        if last != id {
            assert(!rest.contains(last));
            assert forall|p: u64| #[trigger] out.contains(p) <==> ids.contains(p) && p != id by {
                if out.contains(p) {
                    let j = choose|j: int| 0 <= j < out.len() && out[j] == p;
                    if j < rest.len() {
                        assert(rest[j] == p);
                    }
                }
                if rest.contains(p) {
                    let j = choose|j: int| 0 <= j < rest.len() && rest[j] == p;
                    assert(out[j] == p);
                }
                if p == last {
                    assert(out[out.len() - 1] == p);
                }
            }
            assert forall|i: int, j: int| 0 <= i < out.len() && 0 <= j < out.len() && i
                != j implies out[i] != out[j] by {
                if i < rest.len() && j < rest.len() {
                    assert(rest[i] != rest[j]);
                } else if i < rest.len() {
                    assert(rest[i] == out[i]);
                } else {
                    assert(rest[j] == out[j]);
                }
            }
        }
    }
}

/// Every list of distinct identifiers makes a cluster in its initial state.
/// Its nodes are the states that `Raft::new` gives for each member with the
/// other members as peers.
pub proof fn lemma_cluster_of(ids: Seq<u64>)
    requires
        ids.no_duplicates(),
    ensures
        cluster_of(ids).init(),
        forall|id: u64| cluster_of(ids).nodes.contains_key(id) <==> ids.contains(id),
{
    let c = cluster_of(ids);
    assert(c.nodes.dom() =~= ids.to_set());
    vstd::seq_lib::seq_to_set_is_finite(ids);
    assert forall|id: u64| c.nodes.contains_key(id) implies #[trigger] c.starts(id) by {
        lemma_others(ids, id);
    }
}

} // verus!
