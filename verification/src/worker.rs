//! The worker: a registry from function names to callables, and the
//! execution and retry policy applied to each job handed over for execution.

use vstd::prelude::*;
use crate::job::{Job, Status, fail_step};
use crate::queue::{QueueManager, ready_count, lemma_ready_count_props};

verus! {

/// First-match lookup in the registry's association list. Registration puts
/// the newest entry first, so the newest registration for a name wins.
pub open spec fn lookup_name<F>(s: Seq<(String, F)>, name: Seq<char>) -> Option<F>
    decreases s.len(),
{
    if s.len() == 0 {
        None
    } else if s[0].0@ == name {
        Some(s[0].1)
    } else {
        lookup_name(s.drop_first(), name)
    }
}

/// A name with no match in the first `i` entries resolves the same in the
/// rest of the list.
pub proof fn lemma_lookup_skip<F>(s: Seq<(String, F)>, name: Seq<char>, i: int)
    requires
        0 <= i <= s.len(),
        forall|k: int| 0 <= k < i ==> (#[trigger] s[k]).0@ != name,
    ensures
        lookup_name(s, name) == lookup_name(s.skip(i), name),
    decreases i,
{
    if i > 0 {
        assert(s[0].0@ != name);
        assert forall|k: int| 0 <= k < i - 1 implies
            (#[trigger] s.drop_first()[k]).0@ != name by {
            assert(s.drop_first()[k] == s[k + 1]);
        }
        lemma_lookup_skip(s.drop_first(), name, i - 1);
        assert(s.drop_first().skip(i - 1) =~= s.skip(i));
    } else {
        assert(s.skip(0) =~= s);
    }
}

/// When every registered callable may be invoked, so may whatever a lookup
/// returns.
pub proof fn lemma_lookup_callable<F: Fn()>(s: Seq<(String, F)>, name: Seq<char>)
    requires
        forall|k: int| 0 <= k < s.len() ==> call_requires((#[trigger] s[k]).1, ()),
    ensures
        lookup_name(s, name) matches Some(g) ==> call_requires(g, ()),
    decreases s.len(),
{
    if s.len() > 0 && s[0].0@ != name {
        assert forall|k: int| 0 <= k < s.drop_first().len() implies
            call_requires((#[trigger] s.drop_first()[k]).1, ()) by {
            assert(s.drop_first()[k] == s[k + 1]);
        }
        lemma_lookup_callable(s.drop_first(), name);
    }
}

/// The worker. Its callables take no arguments and return nothing; the
/// registry maps each registered function name to one of them.
pub struct Worker<F> {
    registry: Vec<(String, F)>,
}

impl<F: Fn()> Worker<F> {
    /// The registry's contents, newest registration first.
    pub closed spec fn reg(&self) -> Seq<(String, F)> {
        self.registry@
    }

    /// The callable a function name resolves to.
    pub open spec fn spec_lookup(&self, name: Seq<char>) -> Option<F> {
        lookup_name(self.reg(), name)
    }

    /// Every registered callable may be invoked.
    pub open spec fn wf(&self) -> bool {
        forall|k: int| 0 <= k < self.reg().len()
            ==> call_requires((#[trigger] self.reg()[k]).1, ())
    }

    /// A worker with an empty registry.
    pub fn new() -> (w: Self)
        ensures
            w.wf(),
            forall|n: Seq<char>| w.spec_lookup(n) is None,
    {
        Worker { registry: Vec::new() }
    }

    /// Register a callable under a name; a later registration for the same
    /// name overrides an earlier one.
    pub fn register(&mut self, name: &str, f: F)
        requires
            old(self).wf(),
            call_requires(f, ()),
        ensures
            final(self).wf(),
            final(self).spec_lookup(name@) == Some(f),
            forall|n: Seq<char>| n != name@
                ==> final(self).spec_lookup(n) == old(self).spec_lookup(n),
    {
        self.registry.insert(0, (name.to_owned(), f));
        proof {
            assert(self.reg()[0].0@ == name@);
            assert(self.reg().drop_first() =~= old(self).reg());
            assert forall|k: int| 0 <= k < self.reg().len() implies
                call_requires((#[trigger] self.reg()[k]).1, ()) by {
                if k > 0 {
                    assert(self.reg()[k] == old(self).reg()[k - 1]);
                }
            }
        }
    }

    /// The registry entry the given name resolves to, if any.
    #[verifier::loop_isolation(false)]
    fn find_callable(&self, name: &String) -> (r: Option<&F>)
        ensures
            r is Some <==> self.spec_lookup(name@) is Some,
            r matches Some(f) ==> self.spec_lookup(name@) == Some(*f),
    {
        let mut i: usize = 0;
        while i < self.registry.len()
            invariant
                0 <= i <= self.reg().len(),
                forall|k: int| 0 <= k < i ==> (#[trigger] self.reg()[k]).0@ != name@,
            decreases self.reg().len() - i,
        {
            if self.registry[i].0 == *name {
                proof {
                    lemma_lookup_skip(self.reg(), name@, i as int);
                    assert(self.reg().skip(i as int)[0] == self.reg()[i as int]);
                }
                return Some(&self.registry[i].1);
            }
            i += 1;
        }
        proof {
            lemma_lookup_skip(self.reg(), name@, i as int);
            assert(self.reg().skip(i as int) =~= Seq::<(String, F)>::empty());
        }
        None
    }

    /// The state `run_job` leaves a job in: executed to `Success` when its
    /// name is registered, else put through the retry policy.
    pub open spec fn run_outcome(&self, j: Job) -> Job {
        if self.spec_lookup(j.function@) is Some {
            Job { status: Status::Success, ..j }
        } else {
            fail_step(j)
        }
    }

    /// Execute one job: resolve its function name in the registry. Found:
    /// the job runs to completion (`Pending` → `Running` → `Success`). Not
    /// found: nothing is executed and the retry policy is applied. Returns
    /// whether a callable ran.
    pub fn run_job(&self, job: &mut Job) -> (executed: bool)
        requires
            self.wf(),
        ensures
            executed == (self.spec_lookup(old(job).function@) is Some),
            *final(job) == self.run_outcome(*old(job)),
            old(job).wf() ==> final(job).wf(),
    {
        proof {
            lemma_lookup_callable(self.reg(), job.function@);
        }
        match self.find_callable(&job.function) {
            Some(f) => {
                job.start();
                f();
                job.complete();
                true
            },
            None => {
                job.fail_and_retry();
                false
            },
        }
    }

    /// Drain every job due at instant `now` from the store, in dispatch
    /// order, and run each through `run_job`; the finished jobs come back,
    /// and the store keeps exactly its not-yet-due suffix.
    #[verifier::loop_isolation(false)]
    pub fn process_at(&self, queue: &mut QueueManager, now: i64) -> (done: Vec<Job>)
        requires
            self.wf(),
            old(queue).wf(),
        ensures
            final(queue).wf(),
            final(queue)@ == old(queue)@.skip(ready_count(old(queue)@, now)),
            done@.len() == ready_count(old(queue)@, now),
            forall|i: int| 0 <= i < done@.len()
                ==> done@[i] == self.run_outcome(old(queue)@[i]),
    {
        let mut ready = queue.pop_ready(now);
        let ghost ready0 = ready@;
        let mut done: Vec<Job> = Vec::new();
        while ready.len() > 0
            invariant
                self.wf(),
                done@.len() + ready@.len() == ready0.len(),
                ready@ == ready0.skip(done@.len() as int),
                forall|i: int| 0 <= i < done@.len()
                    ==> done@[i] == self.run_outcome(ready0[i]),
            decreases ready@.len(),
        {
            let ghost k = done@.len() as int;
            let mut job = ready.remove(0);
            proof {
                assert(ready0.skip(k)[0] == ready0[k]);
                assert(ready@ =~= ready0.skip(k + 1));
            }
            self.run_job(&mut job);
            done.push(job);
        }
        proof {
            lemma_ready_count_props(old(queue)@, now);
            assert forall|i: int| 0 <= i < done@.len() implies
                done@[i] == self.run_outcome(old(queue)@[i]) by {
                assert(ready0[i] == old(queue)@.take(ready_count(old(queue)@, now))[i]);
            }
        }
        done
    }

    /// Drain and execute everything due now, by the wall clock. Whatever
    /// instant the clock returned, the store keeps exactly the suffix not
    /// yet due at it, and each drained job came back through `run_job`.
    pub fn process_once(&self, queue: &mut QueueManager) -> (done: Vec<Job>)
        requires
            self.wf(),
            old(queue).wf(),
        ensures
            final(queue).wf(),
            exists|t: i64|
                final(queue)@ == old(queue)@.skip(ready_count(old(queue)@, t))
                && done@.len() == ready_count(old(queue)@, t)
                && (forall|i: int| 0 <= i < done@.len()
                    ==> done@[i] == self.run_outcome(old(queue)@[i])),
    {
        let now = Job::now();
        let done = self.process_at(queue, now);
        proof {
            let t = now;
            assert(queue@ == old(queue)@.skip(ready_count(old(queue)@, t))
                && done@.len() == ready_count(old(queue)@, t)
                && (forall|i: int| 0 <= i < done@.len()
                    ==> done@[i] == self.run_outcome(old(queue)@[i])));
        }
        done
    }
}

} // verus!
