//! The task control block and the states of a task.

use vstd::prelude::*;
use crate::config::MAX_SYSCALL_NUM;
use crate::task::context::TaskContext;

verus! {

/// The status of a task in its life cycle.
#[derive(Copy, Clone, Debug, PartialEq, Eq, Structural)]
pub enum TaskStatus {
    /// Created, not yet eligible to run.
    UnInit,
    /// Eligible to run.
    Ready,
    /// Running on the processor.
    Running,
    /// Waiting for a lock, a semaphore, a signal or a timer.
    Blocked,
    /// Terminated.
    Exited,
}

/// What a task still has to obtain before the call that it is in is complete.
#[derive(Copy, Clone, Debug, PartialEq, Eq, Structural)]
pub enum Pending {
    /// Nothing: the task is in no call that waits.
    Nothing,
    /// The mutex with this id.
    Mutex(usize),
    /// One instance of the semaphore with this id.
    Semaphore(usize),
    /// A signal on the condition variable (first id), then the mutex (second id).
    Condvar(usize, usize),
    /// The time, in milliseconds, at which its sleep ends.
    Sleep(usize),
}

/// The task control block of a task.
#[derive(Copy, Clone, Debug)]
pub struct TaskControlBlock {
    /// Identifier of the task, unique within its process.
    pub tid: usize,
    /// The status of the task.
    pub task_status: TaskStatus,
    /// The saved context; meaningful while the task is not running.
    pub task_cx: TaskContext,
    /// Time of the first dispatch, in microseconds; `None` until then.
    pub start_time: Option<usize>,
    /// How often the task has made each syscall, by syscall number.
    pub syscall_times: [u32; MAX_SYSCALL_NUM],
    /// What the task waits for.
    pub pending: Pending,
    /// The exit code, once the task has exited.
    pub exit_code: Option<i32>,
}

impl TaskControlBlock {
    /// The control block of a task that has not run yet.
    pub open spec fn spec_new(tid: usize, task_cx: TaskContext) -> TaskControlBlock {
        TaskControlBlock {
            tid,
            task_status: TaskStatus::UnInit,
            task_cx,
            start_time: None,
            syscall_times: [0u32; MAX_SYSCALL_NUM],
            pending: Pending::Nothing,
            exit_code: None,
        }
    }

    /// A task that has not run yet.
    #[verifier::when_used_as_spec(spec_new)]
    pub fn new(tid: usize, task_cx: TaskContext) -> (tcb: Self)
        ensures
            tcb == Self::spec_new(tid, task_cx),
    {
        Self {
            tid,
            task_status: TaskStatus::UnInit,
            task_cx,
            start_time: None,
            syscall_times: [0; MAX_SYSCALL_NUM],
            pending: Pending::Nothing,
            exit_code: None,
        }
    }

    /// The mutex that the task must still obtain.
    pub open spec fn spec_pending_mutex_request(&self) -> Option<usize> {
        match self.pending {
            Pending::Mutex(m) => Some(m),
            Pending::Condvar(_, m) => Some(m),
            _ => None,
        }
    }

    /// The mutex that the task must still obtain: the one it is queued or
    /// polling for, or the one it re-acquires after a wait on a condition variable.
    #[verifier::when_used_as_spec(spec_pending_mutex_request)]
    pub fn pending_mutex_request(&self) -> (m: Option<usize>)
        ensures
            m == self.spec_pending_mutex_request(),
    {
        match self.pending {
            Pending::Mutex(m) => Some(m),
            Pending::Condvar(_, m) => Some(m),
            _ => None,
        }
    }

    /// The semaphore of which the task must still obtain an instance.
    pub open spec fn spec_pending_semaphore_request(&self) -> Option<usize> {
        match self.pending {
            Pending::Semaphore(s) => Some(s),
            _ => None,
        }
    }

    /// The semaphore of which the task must still obtain an instance.
    #[verifier::when_used_as_spec(spec_pending_semaphore_request)]
    pub fn pending_semaphore_request(&self) -> (s: Option<usize>)
        ensures
            s == self.spec_pending_semaphore_request(),
    {
        match self.pending {
            Pending::Semaphore(s) => Some(s),
            _ => None,
        }
    }
}

} // verus!
