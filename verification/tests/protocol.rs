use gossip_broadcast::protocol::{handle_message, GossipMessage, Reply};
use gossip_broadcast::store::ValueStore;

fn neighbor_ids(names: &[&str]) -> Vec<String> {
    names.iter().map(|n| n.to_string()).collect()
}

#[test]
fn broadcast_is_acknowledged_and_fans_out() {
    // Node A has neighbors {B, C}; a client sends broadcast 42.
    let mut store = ValueStore::new();
    let neighbors = neighbor_ids(&["b", "c"]);
    let (reply, tasks) = handle_message(
        &mut store,
        GossipMessage::Broadcast { value: 42 },
        &neighbors,
    );
    assert!(matches!(reply, Some(Reply::BroadcastOk)));
    assert_eq!(tasks.len(), 2);
    assert_eq!(tasks[0].target, "b");
    assert_eq!(tasks[1].target, "c");
    assert!(store.snapshot().contains(&42));
}

#[test]
fn second_broadcast_of_same_value_is_quiet() {
    let mut store = ValueStore::new();
    let neighbors = neighbor_ids(&["b", "c"]);
    let (_, first) = handle_message(
        &mut store,
        GossipMessage::Broadcast { value: 7 },
        &neighbors,
    );
    assert_eq!(first.len(), 2);
    let (reply, second) = handle_message(
        &mut store,
        GossipMessage::Broadcast { value: 7 },
        &neighbors,
    );
    assert!(matches!(reply, Some(Reply::BroadcastOk)));
    assert!(second.is_empty());
}

#[test]
fn read_returns_every_observed_value() {
    let mut store = ValueStore::new();
    let neighbors = neighbor_ids(&["b"]);
    for v in [3_i64, 1, 2, 1] {
        handle_message(&mut store, GossipMessage::Broadcast { value: v }, &neighbors);
    }
    let (reply, tasks) = handle_message(&mut store, GossipMessage::Read, &neighbors);
    assert!(tasks.is_empty());
    match reply {
        Some(Reply::ReadOk { mut values }) => {
            values.sort();
            assert_eq!(values, vec![1, 2, 3]);
        }
        _ => panic!("read owes a read_ok reply"),
    }
}

#[test]
fn read_on_a_fresh_node_is_empty() {
    let mut store = ValueStore::new();
    let (reply, _) = handle_message(&mut store, GossipMessage::Read, &Vec::new());
    match reply {
        Some(Reply::ReadOk { values }) => assert!(values.is_empty()),
        _ => panic!("read owes a read_ok reply"),
    }
}

#[test]
fn topology_is_acknowledged_and_ignored() {
    let mut store = ValueStore::new();
    let topology = vec![
        ("a".to_string(), vec!["b".to_string(), "c".to_string()]),
        ("b".to_string(), vec!["a".to_string()]),
    ];
    let (reply, tasks) = handle_message(
        &mut store,
        GossipMessage::Topology { topology },
        &neighbor_ids(&["b", "c"]),
    );
    assert!(matches!(reply, Some(Reply::TopologyOk)));
    assert!(tasks.is_empty());
    assert_eq!(store.len(), 0);
}

#[test]
fn unrecognized_messages_get_no_reply() {
    let mut store = ValueStore::new();
    let (reply, tasks) = handle_message(&mut store, GossipMessage::Init, &Vec::new());
    assert!(reply.is_none());
    assert!(tasks.is_empty());
    let (reply, tasks) = handle_message(
        &mut store,
        GossipMessage::ReadOk { values: vec![1] },
        &Vec::new(),
    );
    assert!(reply.is_none());
    assert!(tasks.is_empty());
    assert_eq!(store.len(), 0);
}
