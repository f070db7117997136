//! System-wide laws of the protocol, stated over the same models that the
//! executable functions' contracts use: `ingested` for one store and a map of
//! per-node stores for a cluster.

use vstd::prelude::*;

use crate::gossip::ingested;
use crate::gossip::propagates;

verus! {

/// The store a node ends with after ingesting the values of `history`, in
/// that order, starting empty.
pub open spec fn store_after(history: Seq<i64>) -> Set<i64>
    decreases history.len(),
{
    if history.len() == 0 {
        Set::<i64>::empty()
    } else {
        ingested(store_after(history.drop_last()), history.last())
    }
}

/// No false positives: a store grown only by ingestion holds no value that
/// was never ingested.
pub proof fn lemma_no_false_positives(history: Seq<i64>, v: i64)
    requires
        store_after(history).contains(v),
    ensures
        history.contains(v),
    decreases history.len(),
{
    if history.len() > 0 {
        if history.last() == v {
            assert(history[history.len() - 1] == v);
        } else {
            lemma_no_false_positives(history.drop_last(), v);
            let k = choose|k: int|
                0 <= k < history.drop_last().len() && history.drop_last()[k] == v;
            assert(history[k] == v);
        }
    }
}

/// The store is exactly the set of all ingested values — none lost, none
/// duplicated, and independent of the order in which concurrent callers'
/// ingestions were serialized.
pub proof fn lemma_store_is_union_of_history(history: Seq<i64>)
    ensures
        store_after(history) == history.to_set(),
    decreases history.len(),
{
    if history.len() == 0 {
        assert(store_after(history) =~= history.to_set());
    } else {
        let rest = history.drop_last();
        lemma_store_is_union_of_history(rest);
        assert forall|a: i64| history.to_set().contains(a) <==> ingested(
            rest.to_set(),
            history.last(),
        ).contains(a) by {
            if history.contains(a) {
                let k = choose|k: int| 0 <= k < history.len() && history[k] == a;
                if k < rest.len() {
                    assert(rest[k] == a);
                    assert(rest.contains(a));
                }
            }
            if rest.contains(a) {
                let k = choose|k: int| 0 <= k < rest.len() && rest[k] == a;
                assert(history[k] == a);
                assert(history.contains(a));
            }
            if a == history.last() {
                assert(history.contains(a));
            }
        }
        assert(store_after(history) =~= history.to_set());
    }
}

/// Two serializations of the same ingestions end in the same store: the
/// values seen decide the store, their order does not.
pub proof fn lemma_ingestion_order_irrelevant(h1: Seq<i64>, h2: Seq<i64>)
    requires
        h1.to_set() == h2.to_set(),
    ensures
        store_after(h1) == store_after(h2),
{
    lemma_store_is_union_of_history(h1);
    lemma_store_is_union_of_history(h2);
}

/// A cluster maps node ids to stores. Delivering a broadcast of `v` at a
/// node runs that node's ingestion.
pub open spec fn deliver(stores: Map<Seq<char>, Set<i64>>, node: Seq<char>, v: i64) -> Map<
    Seq<char>,
    Set<i64>,
> {
    if stores.dom().contains(node) {
        stores.insert(node, ingested(stores[node], v))
    } else {
        stores
    }
}

/// One observable event of the running protocol.
pub enum ClusterEvent {
    /// A client hands `value` to `node` for broadcast.
    ClientBroadcast { node: Seq<char>, value: i64 },
    /// An in-flight propagation of `value` reaches `target`, which ingests it.
    Deliver { target: Seq<char>, value: i64 },
}

/// Whether `e` is a client broadcast of `v`.
pub open spec fn is_client_broadcast_of(e: ClusterEvent, v: i64) -> bool {
    match e {
        ClusterEvent::ClientBroadcast { value, .. } => value == v,
        _ => false,
    }
}

/// Whether some client broadcast `v` during `events`.
pub open spec fn client_ingested(events: Seq<ClusterEvent>, v: i64) -> bool {
    exists|i: int| 0 <= i < events.len() && is_client_broadcast_of(events[i], v)
}

/// The in-flight tasks after a node fans `v` out to `neighbors`: one new
/// propagation per neighbor, everything already in flight kept.
pub open spec fn fan_out(
    inflight: Set<(Seq<char>, i64)>,
    neighbors: Seq<Seq<char>>,
    v: i64,
) -> Set<(Seq<char>, i64)> {
    inflight.union(Set::new(|t: (Seq<char>, i64)| t.1 == v && neighbors.contains(t.0)))
}

/// A broadcast of `v` arriving at `node`, from a client or from a peer:
/// `node` ingests it and, exactly when it propagates, fans it out to its
/// neighbors — the cluster-level mirror of `ingest`'s contract.
pub open spec fn node_ingest(
    stores: Map<Seq<char>, Set<i64>>,
    inflight: Set<(Seq<char>, i64)>,
    topology: Map<Seq<char>, Seq<Seq<char>>>,
    node: Seq<char>,
    v: i64,
) -> (Map<Seq<char>, Set<i64>>, Set<(Seq<char>, i64)>) {
    if stores.dom().contains(node) {
        (
            deliver(stores, node, v),
            if propagates(stores[node], v) && topology.dom().contains(node) {
                fan_out(inflight, topology[node], v)
            } else {
                inflight
            },
        )
    } else {
        (stores, inflight)
    }
}

/// One step of the cluster. A delivery happens only for a task actually in
/// flight; it is kept in flight afterwards, so the model also covers the
/// duplicate deliveries that retrying after a lost acknowledgment can cause.
pub open spec fn cluster_step(
    stores: Map<Seq<char>, Set<i64>>,
    inflight: Set<(Seq<char>, i64)>,
    topology: Map<Seq<char>, Seq<Seq<char>>>,
    e: ClusterEvent,
) -> (Map<Seq<char>, Set<i64>>, Set<(Seq<char>, i64)>) {
    match e {
        ClusterEvent::ClientBroadcast { node, value } => node_ingest(
            stores,
            inflight,
            topology,
            node,
            value,
        ),
        ClusterEvent::Deliver { target, value } => if inflight.contains((target, value)) {
            node_ingest(stores, inflight, topology, target, value)
        } else {
            (stores, inflight)
        },
    }
}

/// The cluster after a whole run of events.
pub open spec fn cluster_run(
    stores: Map<Seq<char>, Set<i64>>,
    inflight: Set<(Seq<char>, i64)>,
    topology: Map<Seq<char>, Seq<Seq<char>>>,
    events: Seq<ClusterEvent>,
) -> (Map<Seq<char>, Set<i64>>, Set<(Seq<char>, i64)>)
    decreases events.len(),
{
    if events.len() == 0 {
        (stores, inflight)
    } else {
        let next = cluster_step(stores, inflight, topology, events[0]);
        cluster_run(next.0, next.1, topology, events.drop_first())
    }
}

/// Whether `v` is anywhere in the system: in some node's store or carried by
/// some in-flight propagation.
pub open spec fn in_system(
    stores: Map<Seq<char>, Set<i64>>,
    inflight: Set<(Seq<char>, i64)>,
    v: i64,
) -> bool {
    (exists|n: Seq<char>| stores.dom().contains(n) && stores[n].contains(v)) || (exists|t: (
        Seq<char>,
        i64,
    )| inflight.contains(t) && t.1 == v)
}

/// One step introduces no value of its own: whatever is in the system after
/// it was in the system before, unless the step itself was a client broadcast
/// of that value.
pub proof fn lemma_step_adds_no_value(
    stores: Map<Seq<char>, Set<i64>>,
    inflight: Set<(Seq<char>, i64)>,
    topology: Map<Seq<char>, Seq<Seq<char>>>,
    e: ClusterEvent,
    v: i64,
)
    requires
        in_system(cluster_step(stores, inflight, topology, e).0, cluster_step(
            stores,
            inflight,
            topology,
            e,
        ).1, v),
    ensures
        in_system(stores, inflight, v) || is_client_broadcast_of(e, v),
{
    let next = cluster_step(stores, inflight, topology, e);
    let (node, value) = match e {
        ClusterEvent::ClientBroadcast { node, value } => (node, value),
        ClusterEvent::Deliver { target, value } => (target, value),
    };
    if next.0 == stores && next.1 == inflight {
    } else {
        if exists|n: Seq<char>| next.0.dom().contains(n) && next.0[n].contains(v) {
            let n = choose|n: Seq<char>| next.0.dom().contains(n) && next.0[n].contains(v);
            if n == node {
                if v == value {
                    if e is Deliver {
                        assert(inflight.contains((node, value)));
                    }
                } else {
                    assert(stores[n].contains(v));
                }
            } else {
                assert(stores[n].contains(v));
            }
        } else {
            let t = choose|t: (Seq<char>, i64)| next.1.contains(t) && t.1 == v;
            if inflight.contains(t) {
            } else {
                assert(t.1 == value);
                if e is Deliver {
                    assert(inflight.contains((node, value)));
                }
            }
        }
    }
}

/// A run introduces no value of its own: whatever is in the system at the end
/// was in the system at the start or was broadcast by a client during the run.
pub proof fn lemma_run_adds_no_value(
    stores: Map<Seq<char>, Set<i64>>,
    inflight: Set<(Seq<char>, i64)>,
    topology: Map<Seq<char>, Seq<Seq<char>>>,
    events: Seq<ClusterEvent>,
    v: i64,
)
    requires
        in_system(cluster_run(stores, inflight, topology, events).0, cluster_run(
            stores,
            inflight,
            topology,
            events,
        ).1, v),
    ensures
        in_system(stores, inflight, v) || client_ingested(events, v),
    decreases events.len(),
{
    if events.len() > 0 {
        let next = cluster_step(stores, inflight, topology, events[0]);
        lemma_run_adds_no_value(next.0, next.1, topology, events.drop_first(), v);
        if client_ingested(events.drop_first(), v) {
            let i = choose|i: int|
                0 <= i < events.drop_first().len() && is_client_broadcast_of(
                    events.drop_first()[i],
                    v,
                );
            assert(is_client_broadcast_of(events[i + 1], v));
        } else if in_system(next.0, next.1, v) {
            lemma_step_adds_no_value(stores, inflight, topology, events[0], v);
            if is_client_broadcast_of(events[0], v) {
                assert(client_ingested(events, v));
            }
        }
    }
}

/// Fan-out coverage: every value a topology node's store holds has a
/// propagation to each of that node's neighbors in flight. New values fan out
/// on ingestion and in-flight work is never dropped, so every reachable
/// cluster state has this.
pub open spec fn fanned_out(
    stores: Map<Seq<char>, Set<i64>>,
    inflight: Set<(Seq<char>, i64)>,
    topology: Map<Seq<char>, Seq<Seq<char>>>,
) -> bool {
    forall|n: Seq<char>, v: i64, j: int|
        stores.dom().contains(n) && topology.dom().contains(n) && stores[n].contains(v) && 0 <= j
            < topology[n].len() ==> inflight.contains((topology[n][j], v))
}

/// One step keeps the cluster fanned out, and loses nothing: stores and the
/// in-flight set only grow, and the set of nodes never changes.
pub proof fn lemma_step_keeps_fanned_out(
    stores: Map<Seq<char>, Set<i64>>,
    inflight: Set<(Seq<char>, i64)>,
    topology: Map<Seq<char>, Seq<Seq<char>>>,
    e: ClusterEvent,
)
    requires
        fanned_out(stores, inflight, topology),
    ensures
        cluster_step(stores, inflight, topology, e).0.dom() == stores.dom(),
        fanned_out(
            cluster_step(stores, inflight, topology, e).0,
            cluster_step(stores, inflight, topology, e).1,
            topology,
        ),
        forall|n: Seq<char>, w: i64|
            stores.dom().contains(n) && stores[n].contains(w) ==> cluster_step(
                stores,
                inflight,
                topology,
                e,
            ).0[n].contains(w),
        forall|t: (Seq<char>, i64)|
            inflight.contains(t) ==> cluster_step(stores, inflight, topology, e).1.contains(t),
{
    let next = cluster_step(stores, inflight, topology, e);
    let (node, value) = match e {
        ClusterEvent::ClientBroadcast { node, value } => (node, value),
        ClusterEvent::Deliver { target, value } => (target, value),
    };
    assert(next.0.dom() =~= stores.dom());
    assert forall|n: Seq<char>, v: i64, j: int|
        next.0.dom().contains(n) && topology.dom().contains(n) && next.0[n].contains(v) && 0 <= j
            < topology[n].len() implies next.1.contains((topology[n][j], v)) by {
        if next.0 == stores && next.1 == inflight {
        } else {
            if n == node && v == value && propagates(stores[node], value) {
                assert(next.1 == fan_out(inflight, topology[node], value));
                assert(topology[n].contains(topology[n][j]));
            } else {
                assert(stores[n].contains(v));
                assert(inflight.contains((topology[n][j], v)));
            }
        }
    }
}

/// A whole run keeps the cluster fanned out, keeps every node, and loses no
/// value any store already held: membership is monotone across the cluster.
pub proof fn lemma_run_keeps_fanned_out(
    stores: Map<Seq<char>, Set<i64>>,
    inflight: Set<(Seq<char>, i64)>,
    topology: Map<Seq<char>, Seq<Seq<char>>>,
    events: Seq<ClusterEvent>,
)
    requires
        fanned_out(stores, inflight, topology),
    ensures
        cluster_run(stores, inflight, topology, events).0.dom() == stores.dom(),
        fanned_out(
            cluster_run(stores, inflight, topology, events).0,
            cluster_run(stores, inflight, topology, events).1,
            topology,
        ),
        forall|n: Seq<char>, w: i64|
            stores.dom().contains(n) && stores[n].contains(w) ==> cluster_run(
                stores,
                inflight,
                topology,
                events,
            ).0[n].contains(w),
    decreases events.len(),
{
    if events.len() > 0 {
        lemma_step_keeps_fanned_out(stores, inflight, topology, events[0]);
        let next = cluster_step(stores, inflight, topology, events[0]);
        lemma_run_keeps_fanned_out(next.0, next.1, topology, events.drop_first());
    }
}

/// Quiescence: every in-flight propagation aimed at a node of the cluster has
/// been ingested by its target. Unbounded retry forces the cluster into such
/// a state once the network stops dropping messages: each task redelivers
/// until its target acknowledges.
pub open spec fn quiescent(
    stores: Map<Seq<char>, Set<i64>>,
    inflight: Set<(Seq<char>, i64)>,
) -> bool {
    forall|t: (Seq<char>, i64)|
        inflight.contains(t) && stores.dom().contains(t.0) ==> stores[t.0].contains(t.1)
}

/// A walk through the neighbor graph: every node on it belongs to the cluster
/// and to the topology, and each step goes to a neighbor of the node before.
pub open spec fn is_path(
    topology: Map<Seq<char>, Seq<Seq<char>>>,
    stores: Map<Seq<char>, Set<i64>>,
    path: Seq<Seq<char>>,
) -> bool {
    &&& forall|i: int|
        0 <= i < path.len() ==> stores.dom().contains(#[trigger] path[i])
            && topology.dom().contains(path[i])
    &&& forall|i: int| 0 <= i < path.len() - 1 ==> topology[#[trigger] path[i]].contains(
        path[i + 1],
    )
}

/// Eventual consistency: once a cluster is fanned out and quiescent — the
/// state unbounded retry forces after the network stops dropping messages — a
/// value known at one end of a neighbor path is known at the other end. In a
/// connected graph every node lies on such a path from the ingesting node, so
/// a value ingested anywhere is known everywhere.
pub proof fn lemma_quiescent_consistency(
    stores: Map<Seq<char>, Set<i64>>,
    inflight: Set<(Seq<char>, i64)>,
    topology: Map<Seq<char>, Seq<Seq<char>>>,
    path: Seq<Seq<char>>,
    v: i64,
)
    requires
        fanned_out(stores, inflight, topology),
        quiescent(stores, inflight),
        is_path(topology, stores, path),
        path.len() > 0,
        stores[path[0]].contains(v),
    ensures
        stores[path.last()].contains(v),
    decreases path.len(),
{
    if path.len() > 1 {
        let j = choose|j: int|
            0 <= j < topology[path[0]].len() && topology[path[0]][j] == path[1];
        assert(inflight.contains((path[1], v)));
        assert(stores[path[1]].contains(v));
        let rest = path.drop_first();
        assert forall|i: int| 0 <= i < rest.len() implies stores.dom().contains(
            #[trigger] rest[i],
        ) && topology.dom().contains(rest[i]) by {
            assert(rest[i] == path[i + 1]);
        }
        assert forall|i: int| 0 <= i < rest.len() - 1 implies topology[
            #[trigger] rest[i]
        ].contains(rest[i + 1]) by {
            assert(rest[i] == path[i + 1]);
            assert(rest[i + 1] == path[i + 2]);
        }
        lemma_quiescent_consistency(stores, inflight, topology, rest, v);
        assert(rest.last() == path.last());
    }
}

/// No false positives, cluster-wide: starting from empty stores with nothing
/// in flight, after any run of client broadcasts and in-flight deliveries, no
/// snapshot anywhere holds a value that no client ever broadcast.
pub proof fn lemma_cluster_no_false_positives(
    stores: Map<Seq<char>, Set<i64>>,
    topology: Map<Seq<char>, Seq<Seq<char>>>,
    events: Seq<ClusterEvent>,
    v: i64,
)
    requires
        forall|n: Seq<char>| stores.dom().contains(n) ==> stores[n] == Set::<i64>::empty(),
        in_system(
            cluster_run(stores, Set::<(Seq<char>, i64)>::empty(), topology, events).0,
            cluster_run(stores, Set::<(Seq<char>, i64)>::empty(), topology, events).1,
            v,
        ),
    ensures
        client_ingested(events, v),
{
    lemma_run_adds_no_value(stores, Set::<(Seq<char>, i64)>::empty(), topology, events, v);
    assert(!in_system(stores, Set::<(Seq<char>, i64)>::empty(), v));
}

} // verus!
