//! The gossip disseminator: deduplicated ingestion of values and the
//! propagation tasks that carry a newly seen value to each neighbor.
//!
//! `ingest` is the single entry point for a value, whether it came from a
//! client or from a peer: it atomically test-and-inserts into the store and,
//! only when the value is new, produces one pending propagation task per
//! neighbor. A task retries until its target acknowledges; the only terminal
//! state is `Acked`.

use vstd::prelude::*;

use crate::store::ValueStore;

verus! {

/// What ingesting `v` leaves in a store that held `s`.
pub open spec fn ingested(s: Set<i64>, v: i64) -> Set<i64> {
    s.insert(v)
}

/// Whether ingesting `v` into a store that held `s` starts a propagation
/// round: only a value not seen before fans out, which bounds gossip traffic
/// and stops forwarding loops in a cyclic neighbor graph.
pub open spec fn propagates(s: Set<i64>, v: i64) -> bool {
    !s.contains(v)
}

/// The lifecycle of a propagation task: it stays `Pending` through any number
/// of failed delivery attempts and ends only in `Acked`.
pub enum TaskState {
    Pending,
    Acked,
}

/// One unit of confirmed delivery work: carry `value` to `target` until the
/// target acknowledges.
pub struct PropagationTask {
    pub target: String,
    pub value: i64,
    pub state: TaskState,
}

impl PropagationTask {
    /// Whether the task still awaits an acknowledgment.
    pub open spec fn is_pending(self) -> bool {
        self.state is Pending
    }

    /// A fresh task: nothing is acknowledged yet.
    pub fn new(target: String, value: i64) -> (t: PropagationTask)
        ensures
            t.target == target,
            t.value == value,
            t.is_pending(),
    {
        PropagationTask { target, value, state: TaskState::Pending }
    }

    /// Record the outcome of one delivery attempt. An acknowledgment ends the
    /// task; anything else (timeout, connection error, non-ack) leaves it
    /// pending, and the payload is never touched.
    pub fn record_attempt(&mut self, acked: bool)
        requires
            old(self).is_pending(),
        ensures
            final(self).target == old(self).target,
            final(self).value == old(self).value,
            final(self).is_pending() == !acked,
    {
        if acked {
            self.state = TaskState::Acked;
        }
    }

    /// Whether the task must attempt delivery again: exactly as long as no
    /// acknowledgment has arrived. There is no attempt budget and no other
    /// way out: retry never gives up.
    pub fn should_retry(&self) -> (r: bool)
        ensures
            r == self.is_pending(),
    {
        match self.state {
            TaskState::Pending => true,
            TaskState::Acked => false,
        }
    }
}

/// The task a run of attempt outcomes leaves behind: each outcome in turn is
/// recorded while the task is still pending; a task once acknowledged ignores
/// the rest.
pub open spec fn task_after(t: PropagationTask, outcomes: Seq<bool>) -> PropagationTask
    decreases outcomes.len(),
{
    if outcomes.len() == 0 {
        t
    } else if !t.is_pending() {
        t
    } else {
        task_after(
            PropagationTask {
                target: t.target,
                value: t.value,
                state: if outcomes[0] {
                    TaskState::Acked
                } else {
                    TaskState::Pending
                },
            },
            outcomes.drop_first(),
        )
    }
}

/// No run of attempts ever changes what a task carries or where it goes.
pub proof fn lemma_attempts_preserve_payload(t: PropagationTask, outcomes: Seq<bool>)
    ensures
        task_after(t, outcomes).target == t.target,
        task_after(t, outcomes).value == t.value,
    decreases outcomes.len(),
{
    if outcomes.len() > 0 && t.is_pending() {
        let t2 = PropagationTask {
            target: t.target,
            value: t.value,
            state: if outcomes[0] {
                TaskState::Acked
            } else {
                TaskState::Pending
            },
        };
        lemma_attempts_preserve_payload(t2, outcomes.drop_first());
    }
}

/// Retry never gives up: however long the target stays unreachable, a pending
/// task is still pending — and so still retrying — after any finite run of
/// failures, and the first acknowledged attempt after that ends it with its
/// payload intact. No value is ever abandoned.
pub proof fn lemma_retry_never_gives_up(t: PropagationTask, failures: nat)
    requires
        t.is_pending(),
    ensures
        task_after(t, Seq::new(failures, |i: int| false)).is_pending(),
        task_after(t, Seq::new(failures, |i: int| false)).target == t.target,
        task_after(t, Seq::new(failures, |i: int| false)).value == t.value,
        !task_after(t, Seq::new(failures, |i: int| false).push(true)).is_pending(),
        task_after(t, Seq::new(failures, |i: int| false).push(true)).target == t.target,
        task_after(t, Seq::new(failures, |i: int| false).push(true)).value == t.value,
    decreases failures,
{
    let fails = Seq::new(failures, |i: int| false);
    let run = fails.push(true);
    if failures == 0 {
        assert(fails =~= Seq::<bool>::empty());
        assert(run.len() == 1 && run[0]);
        let t2 = PropagationTask { target: t.target, value: t.value, state: TaskState::Acked };
        assert(task_after(t, run) == task_after(t2, run.drop_first()));
        assert(run.drop_first().len() == 0);
        assert(task_after(t2, run.drop_first()) == t2);
    } else {
        let t2 = PropagationTask { target: t.target, value: t.value, state: TaskState::Pending };
        lemma_retry_never_gives_up(t2, (failures - 1) as nat);
        assert(fails.drop_first() =~= Seq::new((failures - 1) as nat, |i: int| false));
        assert(run.drop_first() =~= Seq::new((failures - 1) as nat, |i: int| false).push(true));
        assert(task_after(t, fails) == task_after(t2, fails.drop_first()));
        assert(task_after(t, run) == task_after(t2, run.drop_first()));
    }
}

/// An acknowledged task is terminal: no further outcome moves it.
pub proof fn lemma_acked_is_terminal(t: PropagationTask, outcomes: Seq<bool>)
    requires
        !t.is_pending(),
    ensures
        task_after(t, outcomes) == t,
{
}

/// Ingest one value, from a client or from a peer: test-and-insert it into
/// the store and, exactly when it was absent, return one pending propagation
/// task per neighbor, in the neighbors' order. An already-present value
/// starts no propagation at all.
pub fn ingest(store: &mut ValueStore, value: i64, neighbors: &Vec<String>) -> (tasks: Vec<
    PropagationTask,
>)
    requires
        old(store).wf(),
    ensures
        final(store).wf(),
        final(store)@ == ingested(old(store)@, value),
        propagates(old(store)@, value) ==> {
            &&& tasks@.len() == neighbors@.len()
            &&& forall|i: int|
                0 <= i < tasks@.len() ==> tasks@[i].target == neighbors@[i] && tasks@[i].value
                    == value && tasks@[i].is_pending()
        },
        !propagates(old(store)@, value) ==> tasks@.len() == 0,
{
    let was_present = store.test_and_insert(value);
    let mut tasks: Vec<PropagationTask> = Vec::new();
    if !was_present {
        let mut i: usize = 0;
        while i < neighbors.len()
            invariant
                0 <= i <= neighbors@.len(),
                tasks@.len() == i,
                forall|j: int|
                    0 <= j < i ==> tasks@[j].target == neighbors@[j] && tasks@[j].value == value
                        && tasks@[j].is_pending(),
            decreases neighbors@.len() - i,
        {
            let target = neighbors[i].clone();
            let ghost pre_tasks = tasks@;
            let task = PropagationTask::new(target, value);
            tasks.push(task);
            proof {
                assert forall|j: int|
                    0 <= j < i + 1 implies tasks@[j].target == neighbors@[j] && tasks@[j].value
                    == value && tasks@[j].is_pending() by {
                    if j < i {
                        assert(tasks@[j] == pre_tasks[j]);
                    } else {
                        assert(tasks@[j] == task);
                    }
                }
            }
            i = i + 1;
        }
    }
    tasks
}

/// Ingesting a value a second time on the same node is a no-op: the store
/// does not change and no second propagation round is started. This is the
/// deduplication rule that keeps gossip from forwarding forever.
pub proof fn lemma_ingest_idempotent(s: Set<i64>, v: i64)
    ensures
        ingested(ingested(s, v), v) == ingested(s, v),
        !propagates(ingested(s, v), v),
{
    assert(ingested(ingested(s, v), v) =~= ingested(s, v));
}

} // verus!
