//! A condition variable.

use std::collections::VecDeque;
use vstd::prelude::*;

verus! {

/// A condition variable: the queue of the tasks that wait for a signal.
#[derive(Debug)]
pub struct Condvar {
    /// The tasks that wait, in order of arrival.
    pub wait_queue: VecDeque<usize>,
}

/// The mathematical value of a condition variable.
pub struct CondvarView {
    pub wait_queue: Seq<usize>,
}

impl View for Condvar {
    type V = CondvarView;

    open spec fn view(&self) -> CondvarView {
        CondvarView { wait_queue: self.wait_queue@ }
    }
}

impl Condvar {
    /// A condition variable without waiters.
    pub fn new() -> (c: Self)
        ensures
            c@ == (CondvarView { wait_queue: Seq::empty() }),
    {
        Self { wait_queue: VecDeque::new() }
    }
}

} // verus!
