//! Synchronization objects: mutex, semaphore and condition variable.

pub mod condvar;
pub mod mutex;
pub mod semaphore;
