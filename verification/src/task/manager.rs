//! The ready queue.

use std::collections::VecDeque;
use vstd::prelude::*;

verus! {

/// The queue of the tasks that are ready to run, first in, first out.
#[derive(Debug)]
pub struct TaskManager {
    /// Identifiers of the ready tasks, the next one to run first.
    pub ready_queue: VecDeque<usize>,
}

impl View for TaskManager {
    type V = Seq<usize>;

    open spec fn view(&self) -> Seq<usize> {
        self.ready_queue@
    }
}

impl TaskManager {
    /// An empty queue.
    pub fn new() -> (tm: Self)
        ensures
            tm@ == Seq::<usize>::empty(),
    {
        Self { ready_queue: VecDeque::new() }
    }

    /// Adds a task at the back of the queue.
    pub fn add(&mut self, tid: usize)
        ensures
            final(self)@ == old(self)@.push(tid),
    {
        self.ready_queue.push_back(tid);
    }

    /// Takes the task at the front of the queue, if there is one.
    pub fn fetch(&mut self) -> (tid: Option<usize>)
        ensures
            old(self)@.len() == 0 ==> tid is None && final(self)@ == old(self)@,
            old(self)@.len() > 0 ==> tid == Some(old(self)@[0]) && final(self)@ == old(
                self,
            )@.drop_first(),
    {
        let tid = self.ready_queue.pop_front();
        proof {
            if old(self)@.len() > 0 {
                assert(old(self)@.subrange(1, old(self)@.len() as int) =~= old(self)@.drop_first());
            }
        }
        tid
    }

    /// Number of ready tasks.
    pub fn len(&self) -> (n: usize)
        ensures
            n == self@.len(),
    {
        self.ready_queue.len()
    }
}

} // verus!
