//! The dispatch step of the time-and-priority engine. The engine's poll
//! loop, thread, and handoff channel live with the embedding program; the
//! decision of which jobs leave the store on a tick, in what order, and in
//! what state, is made — and proved — here.

use vstd::prelude::*;
use crate::job::{Job, Status};
use crate::queue::{QueueManager, ready_count, lemma_ready_count_props};

verus! {

/// A job as it leaves for execution: marked `Running`, otherwise untouched.
pub open spec fn mark_running(j: Job) -> Job {
    Job { status: Status::Running, ..j }
}

/// One tick of the dispatch loop: remove every job already due at `now`
/// from the store, mark each `Running`, and hand them back in dispatch
/// order — earliest due time first, higher priority first among equal due
/// times — for forwarding to the worker. The store keeps exactly its
/// not-yet-due suffix, undisturbed.
#[verifier::loop_isolation(false)]
pub fn dispatch_tick(queue: &mut QueueManager, now: i64) -> (dispatched: Vec<Job>)
    requires
        old(queue).wf(),
    ensures
        final(queue).wf(),
        final(queue)@ == old(queue)@.skip(ready_count(old(queue)@, now)),
        dispatched@.len() == ready_count(old(queue)@, now),
        forall|i: int| 0 <= i < dispatched@.len()
            ==> dispatched@[i] == mark_running(old(queue)@[i]),
        forall|i: int| 0 <= i < final(queue)@.len()
            ==> #[trigger] final(queue)@[i].execution_time > now,
{
    let mut ready = queue.pop_ready(now);
    let ghost ready0 = ready@;
    let mut dispatched: Vec<Job> = Vec::new();
    while ready.len() > 0
        invariant
            dispatched@.len() + ready@.len() == ready0.len(),
            ready@ == ready0.skip(dispatched@.len() as int),
            forall|i: int| 0 <= i < dispatched@.len()
                ==> dispatched@[i] == mark_running(ready0[i]),
        decreases ready@.len(),
    {
        let ghost k = dispatched@.len() as int;
        let mut job = ready.remove(0);
        proof {
            assert(ready0.skip(k)[0] == ready0[k]);
            assert(ready@ =~= ready0.skip(k + 1));
        }
        job.start();
        dispatched.push(job);
    }
    proof {
        lemma_ready_count_props(old(queue)@, now);
        assert forall|i: int| 0 <= i < dispatched@.len() implies
            dispatched@[i] == mark_running(old(queue)@[i]) by {
            assert(ready0[i] == old(queue)@.take(ready_count(old(queue)@, now))[i]);
        }
    }
    dispatched
}

} // verus!
