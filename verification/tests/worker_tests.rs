use scheduler::job::{Job, Status};
use scheduler::queue::QueueManager;
use scheduler::worker::Worker;
use std::cell::Cell;
use std::rc::Rc;
use std::time::{SystemTime, UNIX_EPOCH};

fn now() -> i64 {
    SystemTime::now()
        .duration_since(UNIX_EPOCH)
        .unwrap()
        .as_secs() as i64
}

fn ready_job(function: &str, description: &str, priority: u8) -> Job {
    Job {
        id: uuid::Uuid::new_v4().as_u128(),
        function: function.to_string(),
        description: description.to_string(),
        priority,
        execution_time: 0,
        status: Status::Pending,
        max_retries: 3,
        retry_count: 0,
    }
}

#[test]
fn test_worker_registry_execution() {
    let was_called = Rc::new(Cell::new(false));
    let observer = was_called.clone();

    let mut worker = Worker::new();
    worker.register("test_func", move || observer.set(true));

    let mut job = ready_job("test_func", "A test job for the registry", 1);

    let executed = worker.run_job(&mut job);

    assert!(
        was_called.get(),
        "The registered function should have been executed"
    );
    assert!(executed);
    assert_eq!(job.status, Status::Success);
}

#[test]
fn test_unknown_function_graceful_failure() {
    let worker: Worker<fn()> = Worker::new(); // No functions registered

    let mut job = ready_job("missing_func", "A test job for the registry", 2);

    // Should not panic; the retry policy applies instead.
    let executed = worker.run_job(&mut job);
    assert!(!executed);
    assert_eq!(job.status, Status::Pending);
    assert_eq!(job.retry_count, 1);
}

#[test]
fn reregistering_overrides_prior_entry() {
    let first = Rc::new(Cell::new(0u32));
    let second = Rc::new(Cell::new(0u32));
    let f1 = first.clone();
    let f2 = second.clone();

    let mut worker: Worker<Box<dyn Fn()>> = Worker::new();
    worker.register("task", Box::new(move || f1.set(f1.get() + 1)));
    worker.register("task", Box::new(move || f2.set(f2.get() + 1)));

    let mut job = ready_job("task", "overridden", 1);
    worker.run_job(&mut job);

    assert_eq!(first.get(), 0);
    assert_eq!(second.get(), 1);
}

#[test]
fn process_at_drains_due_jobs() {
    let hits = Rc::new(Cell::new(0u32));
    let h = hits.clone();

    let mut worker = Worker::new();
    worker.register("tick", move || h.set(h.get() + 1));

    let t = now();
    let mut q = QueueManager::new();
    q.push(Job::new(t + 1, 1, "soon", "tick", 0).unwrap());
    q.push(Job::new(t + 2, 1, "soonish", "absent", 0).unwrap());
    q.push(Job::new(t + 900, 1, "later", "tick", 0).unwrap());

    let done = worker.process_at(&mut q, t + 2);

    assert_eq!(done.len(), 2);
    assert_eq!(hits.get(), 1);
    assert_eq!(done[0].description, "soon");
    assert_eq!(done[0].status, Status::Success);
    assert_eq!(done[1].description, "soonish");
    assert_eq!(done[1].status, Status::Failed);
    assert_eq!(q.len(), 1);
}
