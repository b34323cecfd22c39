use scheduler::job::Job;
use scheduler::job::Status;
use std::time::{SystemTime, UNIX_EPOCH};

fn now() -> i64 {
    SystemTime::now()
        .duration_since(UNIX_EPOCH)
        .unwrap()
        .as_secs() as i64
}

#[test]
fn test_job_state_transitions() {
    let mut job = Job::new(Job::now() + 10, 1, "desc", "func", 2).unwrap();
    assert_eq!(job.status, Status::Pending);

    job.start();
    assert_eq!(job.status, Status::Running);

    job.complete();
    assert_eq!(job.status, Status::Success);
}

#[test]
fn test_job_retries() {
    let mut job = Job::new(Job::now() + 10, 1, "desc", "func", 1).unwrap();

    // Fail once - should retry
    let can_retry = job.fail_and_retry();
    assert!(can_retry);
    assert_eq!(job.retry_count, 1);
    assert_eq!(job.status, Status::Pending);

    // Fail twice - should exceed max_retries and fail
    let can_retry_again = job.fail_and_retry();
    assert!(!can_retry_again);
    assert_eq!(job.retry_count, 1);
    assert_eq!(job.status, Status::Failed);
}

#[test]
fn construction_validates_against_clock() {
    let t = now();
    // A due time strictly before the clock reading is rejected.
    assert!(Job::new_at(t - 1, 5, "late", "fn", 0, t).is_err());
    // A due time at or after the clock reading is accepted, Pending, with an
    // untouched retry counter.
    let j = Job::new_at(t, 5, "on time", "fn", 2, t).unwrap();
    assert_eq!(j.status, Status::Pending);
    assert_eq!(j.retry_count, 0);
    assert_eq!(j.execution_time, t);
    assert_eq!(j.priority, 5);
    assert_eq!(j.description, "on time");
    assert_eq!(j.function, "fn");
    assert_eq!(j.max_retries, 2);
}

#[test]
fn retry_budget_exhaustion() {
    let mut job = Job::new(Job::now() + 10, 1, "desc", "func", 3).unwrap();
    for k in 1..=3u32 {
        assert!(job.fail_and_retry());
        assert_eq!(job.status, Status::Pending);
        assert_eq!(job.retry_count, k);
    }
    assert!(!job.fail_and_retry());
    assert_eq!(job.status, Status::Failed);
    assert_eq!(job.retry_count, 3);
}

#[test]
fn ids_distinguish_jobs() {
    let t = now() + 10;
    let a = Job::new(t, 1, "a", "fn", 0).unwrap();
    let b = Job::new(t, 1, "a", "fn", 0).unwrap();
    assert_ne!(a.id, b.id);
}
