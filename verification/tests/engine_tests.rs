use scheduler::engine::dispatch_tick;
use scheduler::job::{Job, Status};
use scheduler::queue::QueueManager;
use std::time::{SystemTime, UNIX_EPOCH};

fn now() -> i64 {
    SystemTime::now()
        .duration_since(UNIX_EPOCH)
        .unwrap()
        .as_secs() as i64
}

#[test]
fn dispatch_tick_marks_due_jobs_running() {
    let t = now();
    let mut q = QueueManager::new();
    q.push(Job::new(t, 1, "now job", "fn", 3).unwrap());
    q.push(Job::new(t + 100, 1, "future job", "fn", 3).unwrap());

    let dispatched = dispatch_tick(&mut q, t);
    assert_eq!(dispatched.len(), 1);
    assert_eq!(dispatched[0].description, "now job");
    assert_eq!(dispatched[0].status, Status::Running);

    assert_eq!(q.len(), 1);
    assert_eq!(q.peek().unwrap().description, "future job");

    let later = dispatch_tick(&mut q, t + 100);
    assert_eq!(later.len(), 1);
    assert_eq!(later[0].description, "future job");
    assert_eq!(later[0].status, Status::Running);
    assert!(q.is_empty());
}

#[test]
fn dispatch_tick_keeps_dispatch_order() {
    let t = now() + 10;
    let mut q = QueueManager::new();
    q.push(Job::new(t, 1, "low", "fn", 0).unwrap());
    q.push(Job::new(t, 9, "high", "fn", 0).unwrap());
    q.push(Job::new(t - 5, 1, "earlier", "fn", 0).unwrap());

    let dispatched = dispatch_tick(&mut q, t);
    assert_eq!(dispatched.len(), 3);
    assert_eq!(dispatched[0].description, "earlier");
    assert_eq!(dispatched[1].description, "high");
    assert_eq!(dispatched[2].description, "low");
}

#[test]
fn dispatch_tick_on_quiet_store_changes_nothing() {
    let t = now();
    let mut q = QueueManager::new();
    q.push(Job::new(t + 500, 1, "far away", "fn", 0).unwrap());
    let dispatched = dispatch_tick(&mut q, t);
    assert!(dispatched.is_empty());
    assert_eq!(q.len(), 1);
    assert_eq!(q.peek().unwrap().status, Status::Pending);
}
