//! The message protocol: the closed set of inbound message kinds, the replies
//! they owe, and the one dispatch step that a node runs per inbound message.
//!
//! The transport decodes wire JSON into `GossipMessage` once at the boundary
//! and routes the result here; `handle_message` mutates the store, says what
//! to reply, and hands back the propagation tasks to launch.

use vstd::prelude::*;

use crate::gossip::PropagationTask;
use crate::gossip::ingest;
use crate::gossip::ingested;
use crate::gossip::propagates;
use crate::store::ValueStore;

verus! {

/// An inbound message, tagged on the wire by its `type` field. `Init` and
/// `ReadOk` can arrive but are not the core's to answer: dispatch leaves them
/// to the surrounding runtime.
pub enum GossipMessage {
    /// `broadcast`: propagate and ingest one value.
    Broadcast { value: i64 },
    /// `read`: request a full snapshot of the observed values.
    Read,
    /// `read_ok`: a snapshot carried as a reply; never answered.
    ReadOk { values: Vec<i64> },
    /// `topology`: the neighbor map, acknowledged but not acted on here.
    Topology { topology: Vec<(String, Vec<String>)> },
    /// `init`: handshake owned by the surrounding runtime.
    Init,
}

/// The reply a handled message owes its sender.
pub enum Reply {
    /// `broadcast_ok`: the value is ingested.
    BroadcastOk,
    /// `read_ok`: every value observed so far, in no particular order.
    ReadOk { values: Vec<i64> },
    /// `topology_ok`: the topology message is acknowledged.
    TopologyOk,
}

/// Handle one inbound message: a `Broadcast` ingests its value (and fans out
/// to the neighbors exactly when the value is new), a `Read` answers with a
/// snapshot and changes nothing, a `Topology` is acknowledged and changes
/// nothing, and anything else is left unanswered for the runtime's default
/// path. The returned tasks are the propagation work the caller must launch.
pub fn handle_message(store: &mut ValueStore, msg: GossipMessage, neighbors: &Vec<String>) -> (out:
    (Option<Reply>, Vec<PropagationTask>))
    requires
        old(store).wf(),
    ensures
        final(store).wf(),
        match msg {
            GossipMessage::Broadcast { value } => {
                &&& final(store)@ == ingested(old(store)@, value)
                &&& out.0 == Some(Reply::BroadcastOk)
                &&& propagates(old(store)@, value) ==> {
                    &&& out.1@.len() == neighbors@.len()
                    &&& forall|i: int|
                        0 <= i < out.1@.len() ==> out.1@[i].target == neighbors@[i]
                            && out.1@[i].value == value && out.1@[i].is_pending()
                }
                &&& !propagates(old(store)@, value) ==> out.1@.len() == 0
            },
            GossipMessage::Read => {
                &&& final(store)@ == old(store)@
                &&& out.1@.len() == 0
                &&& out.0 matches Some(Reply::ReadOk { values }) && values@.to_set() == old(
                    store,
                )@ && values@.no_duplicates()
            },
            GossipMessage::Topology { .. } => {
                &&& final(store)@ == old(store)@
                &&& out.0 == Some(Reply::TopologyOk)
                &&& out.1@.len() == 0
            },
            _ => {
                &&& final(store)@ == old(store)@
                &&& out.0 is None
                &&& out.1@.len() == 0
            },
        },
{
    match msg {
        GossipMessage::Broadcast { value } => {
            let tasks = ingest(store, value, neighbors);
            (Some(Reply::BroadcastOk), tasks)
        },
        GossipMessage::Read => {
            let values = store.snapshot();
            (Some(Reply::ReadOk { values }), Vec::new())
        },
        GossipMessage::Topology { .. } => (Some(Reply::TopologyOk), Vec::new()),
        _ => (None, Vec::new()),
    }
}

} // verus!
