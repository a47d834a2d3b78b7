//! Pools that run the jobs of the server.

use vstd::prelude::*;
use crate::errors::KvsError;

verus! {

/// A pool of threads that runs jobs.
pub trait ThreadPool {
    /// A pool of `size` threads.
    fn new(size: usize) -> Result<Self, KvsError> where Self: Sized;

    /// Hands a job to the pool.
    fn spawn<F>(&self, job: F) where F: FnOnce() + Send + 'static;
}

/// A pool that is to share a queue of jobs among its threads. It runs no
/// job yet: what is handed to it is dropped.
pub struct SharedQueueThreadPool;

impl ThreadPool for SharedQueueThreadPool {
    fn new(size: usize) -> (r: Result<SharedQueueThreadPool, KvsError>)
        ensures
            r is Ok,
    {
        Ok(SharedQueueThreadPool)
    }

    fn spawn<F>(&self, job: F) where F: FnOnce() + Send + 'static {
    }
}

/// A pool that is to run its jobs on a work-stealing scheduler. It runs no
/// job yet: what is handed to it is dropped.
pub struct RayonThreadPool;

impl ThreadPool for RayonThreadPool {
    fn new(size: usize) -> (r: Result<RayonThreadPool, KvsError>)
        ensures
            r is Ok,
    {
        Ok(RayonThreadPool)
    }

    fn spawn<F>(&self, job: F) where F: FnOnce() + Send + 'static {
    }
}

} // verus!
