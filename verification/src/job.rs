//! The job data model: an immutable identity with mutable execution state,
//! a validated constructor, and the retry/failure policy.

use vstd::prelude::*;
use vstd::string::StringExecFns;

verus! {

/// Execution state of a job. `Success` and `Failed` are terminal; the only
/// backward edge is the retry edge `Running -> Pending`.
#[derive(Clone, Copy, Debug, PartialEq, Eq, Structural)]
pub enum Status {
    Pending,
    Running,
    Success,
    Failed,
}

/// A unit of work: due at `execution_time` (Unix seconds), more urgent the
/// larger `priority` is, and allowed `max_retries` further failures before it
/// becomes terminally `Failed`.
#[derive(Debug)]
pub struct Job {
    pub id: u128,
    pub execution_time: i64,
    pub priority: u8,
    pub description: String,
    pub function: String,
    pub status: Status,
    pub max_retries: u32,
    pub retry_count: u32,
}

/// The mathematical image of a `Job`: the same fields with the strings
/// abstracted to their character sequences.
pub ghost struct JobView {
    pub id: u128,
    pub execution_time: i64,
    pub priority: u8,
    pub description: Seq<char>,
    pub function: Seq<char>,
    pub status: Status,
    pub max_retries: u32,
    pub retry_count: u32,
}

impl View for Job {
    type V = JobView;

    open spec fn view(&self) -> JobView {
        JobView {
            id: self.id,
            execution_time: self.execution_time,
            priority: self.priority,
            description: self.description@,
            function: self.function@,
            status: self.status,
            max_retries: self.max_retries,
            retry_count: self.retry_count,
        }
    }
}

/// The mathematical image of a whole job sequence.
pub open spec fn views_of(s: Seq<Job>) -> Seq<JobView> {
    s.map_values(|j: Job| j@)
}

impl Clone for Job {
    fn clone(&self) -> (r: Self)
        ensures
            r == *self,
    {
        Job {
            id: self.id,
            execution_time: self.execution_time,
            priority: self.priority,
            description: self.description.clone(),
            function: self.function.clone(),
            status: self.status,
            max_retries: self.max_retries,
            retry_count: self.retry_count,
        }
    }
}

/// One application of the retry policy: consume a unit of retry budget and go
/// back to `Pending`, or, with the budget exhausted, become `Failed`.
pub open spec fn fail_step(j: Job) -> Job {
    if j.retry_count < j.max_retries {
        Job { retry_count: (j.retry_count + 1) as u32, status: Status::Pending, ..j }
    } else {
        Job { status: Status::Failed, ..j }
    }
}

/// The retry policy applied `k` times in a row.
pub open spec fn fail_iter(j: Job, k: nat) -> Job
    decreases k,
{
    if k == 0 {
        j
    } else {
        fail_step(fail_iter(j, (k - 1) as nat))
    }
}

/// Whether an acceptance decision matches a clock reading: accepted exactly
/// when the due time is not before it.
pub open spec fn decided_by_clock(ok: bool, execution_time: i64, n: i64) -> bool {
    ok == (execution_time >= n)
}

impl Job {
    /// The retry counter never runs ahead of the retry budget.
    pub open spec fn wf(&self) -> bool {
        self.retry_count <= self.max_retries
    }

    /// Relies on `std::time::SystemTime::now` and
    /// `SystemTime::duration_since(UNIX_EPOCH)`: the wall-clock time as whole
    /// seconds since the Unix epoch. The result depends on the clock, so
    /// nothing is promised of it. A clock reading before the epoch is
    /// reported as 0 rather than a panic.
    #[verifier::external_body]
    pub fn now() -> i64 {
        match std::time::SystemTime::now().duration_since(std::time::UNIX_EPOCH) {
            Ok(d) => d.as_secs() as i64,
            Err(_) => 0,
        }
    }

    /// Relies on `uuid::Uuid::new_v4` and `uuid::Uuid::as_u128`: a random
    /// version-4 UUID as its 128-bit value. The result is random, so nothing
    /// is promised of it.
    #[verifier::external_body]
    fn fresh_id() -> u128 {
        uuid::Uuid::new_v4().as_u128()
    }

    /// Construct a job, validating the due time against the given clock
    /// reading: a due time already in the past is rejected.
    pub fn new_at(
        execution_time: i64,
        priority: u8,
        description: &str,
        function: &str,
        max_retries: u32,
        now: i64,
    ) -> (r: Result<Job, String>)
        ensures
            r is Ok <==> execution_time >= now,
            r matches Ok(j) ==> j@ == (JobView {
                id: j.id,
                execution_time,
                priority,
                description: description@,
                function: function@,
                status: Status::Pending,
                max_retries,
                retry_count: 0,
            }),
            r matches Ok(j) ==> j.wf(),
    {
        if execution_time < now {
            return Err(String::from_str("execution_time is in the past"));
        }
        Ok(Job {
            id: Self::fresh_id(),
            execution_time,
            priority,
            description: description.to_owned(),
            function: function.to_owned(),
            status: Status::Pending,
            max_retries,
            retry_count: 0,
        })
    }

    /// Construct a job due at `execution_time`, validated against the clock:
    /// whatever instant the clock returned, an accepted job starts `Pending`
    /// with an untouched retry counter and the given fields.
    pub fn new(
        execution_time: i64,
        priority: u8,
        description: &str,
        function: &str,
        max_retries: u32,
    ) -> (r: Result<Job, String>)
        ensures
            exists|n: i64| #[trigger] decided_by_clock(r is Ok, execution_time, n),
            r matches Ok(j) ==> j@ == (JobView {
                id: j.id,
                execution_time,
                priority,
                description: description@,
                function: function@,
                status: Status::Pending,
                max_retries,
                retry_count: 0,
            }),
            r matches Ok(j) ==> j.wf(),
    {
        let now = Self::now();
        let r = Self::new_at(execution_time, priority, description, function, max_retries, now);
        proof {
            assert(decided_by_clock(r is Ok, execution_time, now));
        }
        r
    }

    /// Mark the job as picked up for execution.
    pub fn start(&mut self)
        ensures
            *final(self) == (Job { status: Status::Running, ..*old(self) }),
    {
        self.status = Status::Running;
    }

    /// Mark the job as finished successfully.
    pub fn complete(&mut self)
        ensures
            *final(self) == (Job { status: Status::Success, ..*old(self) }),
    {
        self.status = Status::Success;
    }

    /// Apply the retry policy once: with budget left, consume one unit and go
    /// back to `Pending` (returns true, "will retry"); with the budget
    /// exhausted, become terminally `Failed` (returns false, "exhausted").
    pub fn fail_and_retry(&mut self) -> (will_retry: bool)
        ensures
            *final(self) == fail_step(*old(self)),
            will_retry == (old(self).retry_count < old(self).max_retries),
            old(self).wf() ==> final(self).wf(),
    {
        if self.retry_count < self.max_retries {
            self.retry_count = self.retry_count + 1;
            self.status = Status::Pending;
            true
        } else {
            self.status = Status::Failed;
            false
        }
    }
}

/// Retry-policy law: applying `fail_and_retry` `k` times in a row, while the
/// retry budget lasts, leaves the job `Pending` with its retry counter grown
/// by exactly `k`, and touches nothing else.
pub proof fn lemma_fail_and_retry_budget(j: Job, k: nat)
    requires
        1 <= k,
        j.retry_count + k <= j.max_retries,
    ensures
        fail_iter(j, k) == (Job {
            status: Status::Pending,
            retry_count: (j.retry_count + k) as u32,
            ..j
        }),
    decreases k,
{
    if k == 1 {
        assert(fail_iter(j, 1) == fail_step(j));
    } else {
        lemma_fail_and_retry_budget(j, (k - 1) as nat);
    }
}

/// Retry-policy law: a job whose retry counter has reached its budget fails
/// terminally on the next application, with the counter left where it is. In
/// particular, a fresh job survives `max_retries` applications as `Pending`
/// and turns `Failed` on the one after.
pub proof fn lemma_fail_and_retry_exhaustion(j: Job)
    requires
        j.retry_count == 0,
    ensures
        fail_iter(j, (j.max_retries + 1) as nat).status == Status::Failed,
        fail_iter(j, (j.max_retries + 1) as nat).retry_count == j.max_retries,
        fail_iter(j, (j.max_retries + 1) as nat).id == j.id,
{
    if j.max_retries == 0 {
        assert(fail_iter(j, 1) == fail_step(j));
    } else {
        lemma_fail_and_retry_budget(j, j.max_retries as nat);
        assert(fail_iter(j, (j.max_retries + 1) as nat)
            == fail_step(fail_iter(j, j.max_retries as nat)));
    }
}

} // verus!
