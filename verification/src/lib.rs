//! An in-process time- and priority-ordered job scheduler.
//!
//! Callers submit jobs tagged with a due time and a priority. The store keeps
//! them ordered by due time (earliest first), breaking ties by priority
//! (highest first). A dispatch step moves due jobs out for execution, a worker
//! registry resolves job function names to callables and applies a retry
//! policy on failure, and a text codec turns store snapshots into durable
//! bytes and back.

pub mod engine;
pub mod job;
pub mod numfmt;
pub mod persistence;
pub mod queue;
pub mod text;
pub mod tui;
pub mod worker;

pub use job::Job;
pub use persistence::PersistenceManager;
pub use job::Status;
pub use queue::QueueManager;
pub use worker::Worker;
