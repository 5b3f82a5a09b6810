//! Runs of queue operations, replayed on the contents model, and what every
//! run preserves.
use vstd::prelude::*;

use crate::queue::{after_pop, after_push, pop_result, push_result};

verus! {

/// Replays `ops` on an empty queue of capacity `cap`, where `Some(v)` pushes
/// `v` and `None` pops. Gives the contents at the end, the values whose push
/// succeeded and the values that pops returned, each in the order of the run.
pub open spec fn replay<T>(cap: nat, ops: Seq<Option<T>>) -> (Seq<T>, Seq<T>, Seq<T>)
    decreases ops.len(),
{
    if ops.len() == 0 {
        (Seq::empty(), Seq::empty(), Seq::empty())
    } else {
        let (q, pushed, popped) = replay(cap, ops.drop_last());
        match ops.last() {
            Some(v) => (
                after_push(q, cap, v),
                if push_result(q, cap, v) is Ok {
                    pushed.push(v)
                } else {
                    pushed
                },
                popped,
            ),
            None => (
                after_pop(q),
                pushed,
                match pop_result(q) {
                    Some(w) => popped.push(w),
                    None => popped,
                },
            ),
        }
    }
}

/// Over any run, the values popped followed by the values still held are
/// exactly the values pushed, in order.
pub proof fn lemma_replay_conserves<T>(cap: nat, ops: Seq<Option<T>>)
    ensures
        replay(cap, ops).2 + replay(cap, ops).0 == replay(cap, ops).1,
    decreases ops.len(),
{
    if ops.len() > 0 {
        lemma_replay_conserves(cap, ops.drop_last());
        let (q, pushed, popped) = replay(cap, ops.drop_last());
        match ops.last() {
            Some(v) => {
                if q.len() < cap {
                    assert(popped + q.push(v) =~= (popped + q).push(v));
                }
            },
            None => {
                if q.len() > 0 {
                    assert(popped.push(q[0]) + q.drop_first() =~= popped + q);
                }
            },
        }
    }
}

/// No duplication: over any run, every value popped was pushed, and no value
/// comes out more often than it went in.
pub proof fn lemma_no_duplication<T>(cap: nat, ops: Seq<Option<T>>)
    ensures
        replay(cap, ops).2.to_multiset().subset_of(replay(cap, ops).1.to_multiset()),
{
    lemma_replay_conserves(cap, ops);
    let (q, pushed, popped) = replay(cap, ops);
    vstd::seq_lib::lemma_multiset_commutative(popped, q);
    assert(popped.to_multiset().subset_of(popped.to_multiset().add(q.to_multiset())));
}

/// No loss: once a run has drained the queue, the values popped are, as a
/// multiset, the values pushed.
pub proof fn lemma_no_loss<T>(cap: nat, ops: Seq<Option<T>>)
    requires
        replay(cap, ops).0.len() == 0,
    ensures
        replay(cap, ops).2.to_multiset() == replay(cap, ops).1.to_multiset(),
{
    lemma_replay_conserves(cap, ops);
    let (q, pushed, popped) = replay(cap, ops);
    assert(popped + q =~= popped);
}

/// Capacity bound: at every point of a run the queue holds at most `cap`
/// values, the number pushed less the number popped.
pub proof fn lemma_capacity_bound<T>(cap: nat, ops: Seq<Option<T>>)
    ensures
        replay(cap, ops).0.len() <= cap,
        replay(cap, ops).0.len() == replay(cap, ops).1.len() - replay(cap, ops).2.len(),
    decreases ops.len(),
{
    lemma_replay_conserves(cap, ops);
    if ops.len() > 0 {
        lemma_capacity_bound(cap, ops.drop_last());
    }
}

/// First in, first out: the values popped over a run are the values pushed,
/// in the order they were pushed, up to the number popped.
pub proof fn lemma_fifo<T>(cap: nat, ops: Seq<Option<T>>)
    ensures
        replay(cap, ops).2 == replay(cap, ops).1.take(replay(cap, ops).2.len() as int),
{
    lemma_replay_conserves(cap, ops);
    let (q, pushed, popped) = replay(cap, ops);
    assert((popped + q).take(popped.len() as int) =~= popped);
}

/// On a full queue a push hands its value back and changes nothing; after a
/// pop from it, the next push succeeds.
pub proof fn lemma_full_gate<T>(q: Seq<T>, cap: nat, v: T, w: T)
    requires
        q.len() == cap,
        cap > 0,
    ensures
        push_result(q, cap, v) == Err::<(), T>(v),
        after_push(q, cap, v) == q,
        pop_result(q) is Some,
        push_result(after_pop(q), cap, w) is Ok,
        after_push(after_pop(q), cap, w) == after_pop(q).push(w),
{
}

/// On an empty queue a pop gives nothing and changes nothing; after a push
/// onto it, the next pop returns the value pushed.
pub proof fn lemma_empty_gate<T>(q: Seq<T>, cap: nat, v: T)
    requires
        q.len() == 0,
        cap > 0,
    ensures
        pop_result(q) is None,
        after_pop(q) == q,
        push_result(q, cap, v) is Ok,
        pop_result(after_push(q, cap, v)) == Some(v),
{
}

} // verus!
