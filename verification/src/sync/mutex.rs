//! A mutex in its two variants.

use std::collections::VecDeque;
use vstd::prelude::*;

verus! {

/// A mutex. The blocking variant queues the tasks that wait for it; the spin
/// variant has no queue, its waiters poll.
#[derive(Debug)]
pub struct Mutex {
    /// Whether waiters are queued (blocking) or poll (spin).
    pub blocking: bool,
    /// Whether the mutex is held.
    pub locked: bool,
    /// The tasks that wait, in order of arrival.
    pub wait_queue: VecDeque<usize>,
}

/// The mathematical value of a mutex.
pub struct MutexView {
    pub blocking: bool,
    pub locked: bool,
    pub wait_queue: Seq<usize>,
}

impl View for Mutex {
    type V = MutexView;

    open spec fn view(&self) -> MutexView {
        MutexView { blocking: self.blocking, locked: self.locked, wait_queue: self.wait_queue@ }
    }
}

impl Mutex {
    /// A free mutex without waiters.
    pub fn new(blocking: bool) -> (m: Self)
        ensures
            m@ == (MutexView { blocking, locked: false, wait_queue: Seq::empty() }),
    {
        Self { blocking, locked: false, wait_queue: VecDeque::new() }
    }
}

} // verus!
