use scheduler::job::{Job, Status};
use scheduler::persistence::{decode_snapshot, encode_snapshot, load_jobs_from_contents, PersistenceManager};
use std::time::{SystemTime, UNIX_EPOCH};

fn now() -> i64 {
    SystemTime::now()
        .duration_since(UNIX_EPOCH)
        .unwrap()
        .as_secs() as i64
}

#[test]
fn snapshot_round_trip_preserves_jobs() {
    let t = now();
    let job1 = Job::new(t + 1000, 1, "Task 1", "func1", 3).unwrap();
    let mut job2 = Job::new(t + 2000, 2, "Task 2", "func2", 3).unwrap();
    job2.status = Status::Running;

    let snapshot = vec![job1.clone(), job2.clone()];
    let text = encode_snapshot(&snapshot);
    let loaded_jobs = decode_snapshot(text.as_str());

    assert_eq!(loaded_jobs.len(), 2);

    let loaded_job1 = loaded_jobs.iter().find(|j| j.id == job1.id).unwrap();
    assert_eq!(loaded_job1.description, "Task 1");
    assert_eq!(loaded_job1.function, "func1");
    assert_eq!(loaded_job1.status, Status::Pending);
    assert_eq!(loaded_job1.execution_time, t + 1000);
    assert_eq!(loaded_job1.priority, 1);
    assert_eq!(loaded_job1.max_retries, 3);
    assert_eq!(loaded_job1.retry_count, 0);

    let loaded_job2 = loaded_jobs.iter().find(|j| j.id == job2.id).unwrap();
    assert_eq!(loaded_job2.description, "Task 2");
    assert_eq!(loaded_job2.status, Status::Running);
}

#[test]
fn round_trip_keeps_awkward_text_fields() {
    // Descriptions may hold spaces, newlines, digits, and non-ASCII text;
    // the length-prefixed format needs no escaping for any of them.
    let t = now();
    let mut j = Job::new(t + 5, 200, "line one\nline 2 \t 0123:45", "fn näme", 1).unwrap();
    j.retry_count = 1;
    let text = encode_snapshot(&vec![j.clone()]);
    let back = decode_snapshot(text.as_str());
    assert_eq!(back.len(), 1);
    assert_eq!(back[0].id, j.id);
    assert_eq!(back[0].description, "line one\nline 2 \t 0123:45");
    assert_eq!(back[0].function, "fn näme");
    assert_eq!(back[0].retry_count, 1);
    assert_eq!(back[0].max_retries, 1);
}

#[test]
fn round_trip_of_empty_snapshot() {
    let text = encode_snapshot(&Vec::new());
    assert_eq!(text, "");
    assert!(decode_snapshot(text.as_str()).is_empty());
}

#[test]
fn load_missing_contents_returns_empty() {
    // A missing backing file means a first run, not an error.
    let jobs = load_jobs_from_contents(None);
    assert!(jobs.is_empty());
}

#[test]
fn load_malformed_contents_returns_empty() {
    // Malformed durable state must not take the scheduler down.
    let jobs = load_jobs_from_contents(Some("{ randome stuff ]"));
    assert!(jobs.is_empty());
}

#[test]
fn decode_rejects_truncated_snapshot() {
    let t = now();
    let j = Job::new(t + 10, 1, "whole", "fn", 0).unwrap();
    let mut text = encode_snapshot(&vec![j]);
    // Chop off the trailing newline: the record no longer terminates.
    text.pop();
    assert!(decode_snapshot(text.as_str()).is_empty());
}

#[test]
fn decode_rejects_trailing_garbage() {
    let t = now();
    let j = Job::new(t + 10, 1, "whole", "fn", 0).unwrap();
    let mut text = encode_snapshot(&vec![j]);
    text.push('x');
    assert!(decode_snapshot(text.as_str()).is_empty());
}

#[test]
fn persistence_manager_keeps_path() {
    let m = PersistenceManager::new("queue.json");
    assert_eq!(m.storage_path, "queue.json");
}
