use gossip_broadcast::gossip::{ingest, PropagationTask};
use gossip_broadcast::store::ValueStore;

fn node_ids(names: &[&str]) -> Vec<String> {
    names.iter().map(|n| n.to_string()).collect()
}

#[test]
fn new_value_fans_out_to_every_neighbor() {
    let mut store = ValueStore::new();
    let neighbors = node_ids(&["b", "c"]);
    let tasks = ingest(&mut store, 42, &neighbors);
    assert_eq!(tasks.len(), 2);
    assert_eq!(tasks[0].target, "b");
    assert_eq!(tasks[1].target, "c");
    for task in &tasks {
        assert_eq!(task.value, 42);
        assert!(task.should_retry());
    }
    assert!(store.contains(42));
}

#[test]
fn duplicate_ingest_starts_no_second_wave() {
    let mut store = ValueStore::new();
    let neighbors = node_ids(&["b", "c", "d"]);
    let first = ingest(&mut store, 7, &neighbors);
    assert_eq!(first.len(), 3);
    let second = ingest(&mut store, 7, &neighbors);
    assert!(second.is_empty());
    assert_eq!(store.snapshot(), vec![7]);
}

#[test]
fn ingest_with_no_neighbors_only_stores() {
    let mut store = ValueStore::new();
    let tasks = ingest(&mut store, 9, &Vec::new());
    assert!(tasks.is_empty());
    assert!(store.contains(9));
}

#[test]
fn task_retries_through_partition_then_delivers() {
    // The target is unreachable for five attempts (five timeouts in a row)
    // and then acknowledges: the task never gives up and the value survives.
    let mut task = PropagationTask::new("b".to_string(), 42);
    for _ in 0..5 {
        assert!(task.should_retry());
        task.record_attempt(false);
    }
    assert!(task.should_retry());
    task.record_attempt(true);
    assert!(!task.should_retry());
    assert_eq!(task.target, "b");
    assert_eq!(task.value, 42);
}

#[test]
fn delivered_broadcast_reaches_neighbor_store() {
    let mut a = ValueStore::new();
    let a_neighbors = node_ids(&["b", "c"]);
    let tasks = ingest(&mut a, 42, &a_neighbors);

    // Each acknowledged delivery runs the same ingest on the target, which
    // dedups and fans out further on its own.
    let mut b = ValueStore::new();
    let mut c = ValueStore::new();
    for task in &tasks {
        let target_store = if task.target == "b" { &mut b } else { &mut c };
        ingest(target_store, task.value, &Vec::new());
    }
    assert!(b.contains(42));
    assert!(c.contains(42));
}

#[test]
fn value_travels_along_a_neighbor_path() {
    // a -> b -> c: each delivered broadcast is ingested by its target, which
    // fans out further; after the chain quiesces every node knows the value.
    let mut a = ValueStore::new();
    let mut b = ValueStore::new();
    let mut c = ValueStore::new();
    let from_a = ingest(&mut a, 11, &node_ids(&["b"]));
    assert_eq!(from_a.len(), 1);
    let from_b = ingest(&mut b, from_a[0].value, &node_ids(&["c"]));
    assert_eq!(from_b.len(), 1);
    let from_c = ingest(&mut c, from_b[0].value, &node_ids(&["b"]));
    assert!(a.contains(11) && b.contains(11) && c.contains(11));
    // c gossips back to b, whose dedup ends the wave there.
    let b_again = ingest(&mut b, from_c[0].value, &node_ids(&["a", "c"]));
    assert!(b_again.is_empty());
}

#[test]
fn overlapping_ingests_build_the_union() {
    // Two callers' ingestions, serialized in an arbitrary interleaving,
    // leave exactly the union of their values.
    let mut store = ValueStore::new();
    let neighbors = node_ids(&["b"]);
    let caller_one: Vec<i64> = vec![1, 2, 3];
    let caller_two: Vec<i64> = vec![3, 2, 4];
    for (x, y) in caller_one.iter().zip(caller_two.iter()) {
        ingest(&mut store, *x, &neighbors);
        ingest(&mut store, *y, &neighbors);
    }
    let mut got = store.snapshot();
    got.sort();
    assert_eq!(got, vec![1, 2, 3, 4]);
}
