//! A counting semaphore.

use std::collections::VecDeque;
use vstd::prelude::*;

verus! {

/// A counting semaphore with the queue of the tasks that wait for an instance.
#[derive(Debug)]
pub struct Semaphore {
    /// Number of instances that can be taken without waiting.
    pub count: usize,
    /// The tasks that wait, in order of arrival.
    pub wait_queue: VecDeque<usize>,
}

/// The mathematical value of a semaphore.
pub struct SemaphoreView {
    pub count: usize,
    pub wait_queue: Seq<usize>,
}

impl View for Semaphore {
    type V = SemaphoreView;

    open spec fn view(&self) -> SemaphoreView {
        SemaphoreView { count: self.count, wait_queue: self.wait_queue@ }
    }
}

impl Semaphore {
    /// A semaphore with `res_count` instances and no waiters.
    pub fn new(res_count: usize) -> (s: Self)
        ensures
            s@ == (SemaphoreView { count: res_count, wait_queue: Seq::empty() }),
    {
        Self { count: res_count, wait_queue: VecDeque::new() }
    }
}

} // verus!
