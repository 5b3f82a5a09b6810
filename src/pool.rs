//! The decisions of a worker pool that feeds its workers from an
//! `ArrayQueue`. The pool's threads, its shared `running` flag and the lock
//! round the queue live with the caller; these functions say what happens
//! on each submission and on each turn of a worker's loop.
//!
//! Shutdown: a worker always tries the queue first. It leaves its loop only
//! when `running` is false and the queue has nothing left, so every job that
//! was queued before shutdown is run before the workers stop.
use vstd::prelude::*;

use crate::queue::{after_pop, after_push, pop_result, ArrayQueue};

verus! {

/// What a worker does on one turn of its loop.
pub enum WorkerStep<J> {
    /// Run this job, then take another turn.
    Run(J),
    /// No job was waiting and the pool still runs: yield, then take
    /// another turn.
    Idle,
    /// No job was waiting and the pool is shutting down: leave the loop.
    Exit,
}

/// The step that a worker takes when the queue's contents were `q` and the
/// pool was still running or not.
pub open spec fn step_spec<J>(running: bool, q: Seq<J>) -> WorkerStep<J> {
    match pop_result(q) {
        Some(job) => WorkerStep::Run(job),
        None => if running {
            WorkerStep::Idle
        } else {
            WorkerStep::Exit
        },
    }
}

/// Queues `job`. When the queue is full the job is refused and dropped.
pub fn submit<J>(queue: &mut ArrayQueue<J>, job: J) -> (r: Result<(), ()>)
    requires
        old(queue).wf(),
    ensures
        final(queue).wf(),
        final(queue).cap() == old(queue).cap(),
        final(queue)@ == after_push(old(queue)@, old(queue).cap(), job),
        r is Ok <==> old(queue)@.len() < old(queue).cap(),
{
    match queue.push(job) {
        Ok(()) => Ok(()),
        Err(_) => Err(()),
    }
}

/// One turn of a worker's loop: take the job at the front of the queue, if
/// any; with the queue empty, wait while the pool runs and stop once it has
/// been shut down.
pub fn worker_step<J>(running: bool, queue: &mut ArrayQueue<J>) -> (r: WorkerStep<J>)
    requires
        old(queue).wf(),
    ensures
        final(queue).wf(),
        final(queue).cap() == old(queue).cap(),
        final(queue)@ == after_pop(old(queue)@),
        r == step_spec(running, old(queue)@),
{
    match queue.pop() {
        Some(job) => WorkerStep::Run(job),
        None => if running {
            WorkerStep::Idle
        } else {
            WorkerStep::Exit
        },
    }
}


/// The jobs that `k` turns of workers hand out from a queue that holds `q`
/// and receives nothing new, in the order they are handed out, with the
/// pool running or shut down throughout.
pub open spec fn jobs_taken<J>(running: bool, q: Seq<J>, k: nat) -> Seq<J>
    decreases k,
{
    if k == 0 {
        Seq::empty()
    } else {
        match step_spec(running, q) {
            WorkerStep::Run(job) => seq![job] + jobs_taken(running, after_pop(q), (k - 1) as nat),
            _ => Seq::empty(),
        }
    }
}

/// The contents left after `k` such turns.
pub open spec fn left_after<J>(q: Seq<J>, k: nat) -> Seq<J>
    decreases k,
{
    if k == 0 {
        q
    } else {
        left_after(after_pop(q), (k - 1) as nat)
    }
}

/// Whether the pool runs or has been shut down, as many turns as there are
/// queued jobs, by whichever workers take them, hand out every queued job
/// exactly once and in queue order, and leave the queue empty. After
/// shutdown the next turn is the first to leave the loop.
pub proof fn lemma_turns_drain<J>(running: bool, q: Seq<J>)
    ensures
        jobs_taken(running, q, q.len()) == q,
        left_after(q, q.len()).len() == 0,
        !running ==> step_spec(running, left_after(q, q.len())) is Exit,
        forall|k: nat| k < q.len() ==> step_spec(running, #[trigger] left_after(q, k)) is Run,
    decreases q.len(),
{
    if q.len() > 0 {
        lemma_turns_drain(running, q.drop_first());
        assert(seq![q[0]] + q.drop_first() =~= q);
        assert forall|k: nat| k < q.len() implies step_spec(
            running,
            #[trigger] left_after(q, k),
        ) is Run by {
            if k > 0 {
                assert(left_after(q, k) == left_after(q.drop_first(), (k - 1) as nat));
            }
        }
    }
}

} // verus!
