//! The thread-pool capability: a bounded worker set that runs queued
//! tasks, isolating the pool from task panics.

use vstd::prelude::*;

use crate::error::KVStoreError;

verus! {

/// A pool which uses multiple threads to execute tasks.
///
/// `new` builds a pool with the requested number of worker threads;
/// `spawn` hands a task to some worker and never blocks the submitter
/// beyond enqueue time. A task that panics is absorbed: the pool keeps
/// its worker count and keeps accepting tasks. Implementations live with
/// the server runtime, outside the verified core.
pub trait ThreadPool: Sized {
    /// Creates a new thread pool with `threads` worker threads.
    fn new(threads: usize) -> Result<Self, KVStoreError>;

    /// Schedules a task to run on some worker thread.
    fn spawn<F>(&self, job: F) where F: FnOnce() + Send + 'static;
}

} // verus!
