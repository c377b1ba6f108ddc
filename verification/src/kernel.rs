//! The kernel state: one process, the processor, the ready queue and the timers.

use vstd::prelude::*;
use crate::deadlock::{held_by, held_total};
use crate::task::context::TaskContext;
use crate::task::manager::TaskManager;
use crate::task::process::{Process, ProcessView};
use crate::task::processor::Processor;
use crate::task::task::{Pending, TaskStatus};
use crate::timer::Timer;

verus! {

/// The kernel state.
#[derive(Debug)]
pub struct Kernel {
    /// The process whose tasks are scheduled.
    pub process: Process,
    /// The processor.
    pub processor: Processor,
    /// The ready queue.
    pub task_manager: TaskManager,
    /// The timers of the sleeping tasks, in the order in which they were set.
    pub timers: Vec<Timer>,
}

/// The mathematical value of the kernel state.
pub struct KernelView {
    pub process: ProcessView,
    /// The running task.
    pub current: Option<usize>,
    /// The saved context of the idle control flow.
    pub idle_task_cx: TaskContext,
    /// The ready queue, the next task to run first.
    pub ready: Seq<usize>,
    /// The timers of the sleeping tasks.
    pub timers: Seq<Timer>,
}

impl View for Kernel {
    type V = KernelView;

    open spec fn view(&self) -> KernelView {
        KernelView {
            process: self.process@,
            current: self.processor.current,
            idle_task_cx: self.processor.idle_task_cx,
            ready: self.task_manager@,
            timers: self.timers@,
        }
    }
}

impl KernelView {
    /// Task `t` is blocked and waits for exactly `pend`.
    pub open spec fn waits(self, t: int, pend: Pending) -> bool {
        &&& 0 <= t < self.process.tasks.len()
        &&& self.process.tasks[t].task_status == TaskStatus::Blocked
        &&& self.process.tasks[t].pending == pend
    }

    /// Task `t` is blocked and waits for a signal on condition variable `c`.
    pub open spec fn waits_on_condvar(self, t: int, c: int) -> bool {
        &&& 0 <= t < self.process.tasks.len()
        &&& self.process.tasks[t].task_status == TaskStatus::Blocked
        &&& self.process.tasks[t].pending matches Pending::Condvar(c2, _)
        &&& c2 == c
    }

    /// The tables have matching dimensions.
    pub open spec fn dims_ok(self) -> bool {
        let p = self.process;
        &&& p.tasks.len() <= usize::MAX
        &&& p.mutex_list.len() <= usize::MAX
        &&& p.semaphore_list.len() <= usize::MAX
        &&& p.condvar_list.len() <= usize::MAX
        &&& p.mutex_alloc.len() == p.mutex_list.len()
        &&& p.sem_avail.len() == p.semaphore_list.len()
        &&& p.sem_total.len() == p.semaphore_list.len()
        &&& p.mutex_request.len() == p.tasks.len()
        &&& p.sem_request.len() == p.tasks.len()
        &&& p.sem_alloc.len() == p.tasks.len()
        &&& forall|t: int|
            0 <= t < p.sem_alloc.len() ==> (#[trigger] p.sem_alloc[t]).len()
                == p.semaphore_list.len()
    }

    /// The control block of task `t` is coherent with the tables.
    pub open spec fn task_ok(self, t: int) -> bool {
        let p = self.process;
        let tcb = p.tasks[t];
        &&& tcb.tid == t
        &&& match tcb.task_status {
            TaskStatus::Ready | TaskStatus::Running => tcb.pending is Nothing
                || tcb.pending is Mutex || tcb.pending is Semaphore,
            TaskStatus::Blocked => !(tcb.pending is Nothing),
            _ => tcb.pending is Nothing,
        }
        &&& match tcb.pending {
            Pending::Nothing => true,
            Pending::Mutex(m) => m < p.mutex_list.len() && p.mutex_list[m as int] is Some
                && p.mutex_request[t] == Some(m),
            Pending::Semaphore(s) => s < p.semaphore_list.len() && p.semaphore_list[s as int] is Some,
            Pending::Condvar(c, m) => c < p.condvar_list.len() && p.condvar_list[c as int] is Some
                && m < p.mutex_list.len() && p.mutex_list[m as int] is Some,
            Pending::Sleep(_) => true,
        }
        &&& p.sem_request[t] == tcb.pending_semaphore_request()
        &&& tcb.task_status is Running ==> tcb.start_time is Some && self.current == Some(
            t as usize,
        )
    }

    /// The queue `q` has no duplicates and each of its tasks waits for `pend`.
    pub open spec fn queue_ok(self, q: Seq<usize>, pend: Pending) -> bool {
        &&& q.no_duplicates()
        &&& forall|i: int| 0 <= i < q.len() ==> self.waits(#[trigger] q[i] as int, pend)
    }

    /// The mutex slot `m` is coherent: the mutex is locked exactly when it has
    /// a holder, and its queue holds tasks that wait for it.
    pub open spec fn mutex_ok(self, m: int) -> bool {
        let p = self.process;
        match p.mutex_list[m] {
            Some(mx) => {
                &&& mx.locked <==> p.mutex_alloc[m] is Some
                &&& p.mutex_alloc[m] matches Some(h) ==> h < p.tasks.len()
                &&& self.queue_ok(mx.wait_queue, Pending::Mutex(m as usize))
                &&& !mx.blocking ==> mx.wait_queue.len() == 0
            },
            None => p.mutex_alloc[m] is None,
        }
    }

    /// The semaphore slot `s` is coherent: no instance is lost or made up,
    /// the count is what is available, and its queue holds tasks that wait for it.
    pub open spec fn semaphore_ok(self, s: int) -> bool {
        let p = self.process;
        &&& p.sem_avail[s] + held_total(p.sem_alloc, s) == p.sem_total[s]
        &&& match p.semaphore_list[s] {
            Some(sem) => {
                &&& sem.count == p.sem_avail[s]
                &&& self.queue_ok(sem.wait_queue, Pending::Semaphore(s as usize))
            },
            None => forall|t: int| 0 <= t < p.tasks.len() ==> #[trigger] held_by(p.sem_alloc, t, s) == 0,
        }
    }

    /// The queue of condition variable `c` holds tasks that wait for it.
    pub open spec fn condvar_ok(self, c: int) -> bool {
        match self.process.condvar_list[c] {
            Some(cv) => {
                &&& cv.wait_queue.no_duplicates()
                &&& forall|i: int|
                    0 <= i < cv.wait_queue.len() ==> self.waits_on_condvar(
                        #[trigger] cv.wait_queue[i] as int,
                        c,
                    )
            },
            None => true,
        }
    }

    /// The ready queue holds ready tasks, each once.
    pub open spec fn ready_ok(self) -> bool {
        &&& self.ready.no_duplicates()
        &&& forall|i: int|
            0 <= i < self.ready.len() ==> (#[trigger] self.ready[i]) < self.process.tasks.len()
                && self.process.tasks[self.ready[i] as int].task_status == TaskStatus::Ready
    }

    /// Each timer belongs to a task that sleeps until it expires, and no task has two.
    pub open spec fn timers_ok(self) -> bool {
        &&& forall|i: int|
            0 <= i < self.timers.len() ==> self.waits(
                (#[trigger] self.timers[i]).tid as int,
                Pending::Sleep(self.timers[i].expire_ms),
            )
        &&& forall|i: int, j: int|
            0 <= i < self.timers.len() && 0 <= j < self.timers.len() && i != j ==> (
            #[trigger] self.timers[i]).tid != (#[trigger] self.timers[j]).tid
    }

    /// The invariant of the kernel state.
    pub open spec fn wf(self) -> bool {
        let p = self.process;
        &&& self.dims_ok()
        &&& forall|t: int| 0 <= t < p.tasks.len() ==> #[trigger] self.task_ok(t)
        &&& forall|m: int| 0 <= m < p.mutex_list.len() ==> #[trigger] self.mutex_ok(m)
        &&& forall|s: int| 0 <= s < p.semaphore_list.len() ==> #[trigger] self.semaphore_ok(s)
        &&& forall|c: int| 0 <= c < p.condvar_list.len() ==> #[trigger] self.condvar_ok(c)
        &&& self.ready_ok()
        &&& self.timers_ok()
        &&& self.current matches Some(t) ==> t < p.tasks.len() && p.tasks[t as int].task_status
            == TaskStatus::Running
        &&& p.memory_set.wf()
    }

    /// The task `t` exists and is the one that runs.
    pub open spec fn running(self, t: usize) -> bool {
        self.current == Some(t)
    }

    /// A task runs and has nothing left to obtain: it is free to make a call.
    /// A task that was woken inside a lock, a down or a wait runs with its
    /// request still pending until `retry_pending` has served it.
    pub open spec fn calling(self) -> bool {
        &&& self.current matches Some(t)
        &&& t < self.process.tasks.len()
        &&& self.process.tasks[t as int].pending is Nothing
    }

    /// The mutex `m` exists.
    pub open spec fn has_mutex(self, m: usize) -> bool {
        m < self.process.mutex_list.len() && self.process.mutex_list[m as int] is Some
    }

    /// The semaphore `s` exists.
    pub open spec fn has_semaphore(self, s: usize) -> bool {
        s < self.process.semaphore_list.len() && self.process.semaphore_list[s as int] is Some
    }

    /// The condition variable `c` exists.
    pub open spec fn has_condvar(self, c: usize) -> bool {
        c < self.process.condvar_list.len() && self.process.condvar_list[c as int] is Some
    }
}

impl Kernel {
    /// The invariant of the kernel state, with that of the regions of its address space.
    pub open spec fn wf(&self) -> bool {
        self@.wf() && self.process.memory_set.wf()
    }

    /// Whether a task runs that has nothing left to obtain.
    pub fn calling(&self) -> (b: bool)
        ensures
            b == self@.calling(),
    {
        match self.processor.current {
            Some(t) => t < self.process.tasks.len() && match self.process.tasks[t].pending {
                Pending::Nothing => true,
                _ => false,
            },
            None => false,
        }
    }

    /// Whether the mutex `m` exists.
    pub fn has_mutex(&self, m: usize) -> (b: bool)
        ensures
            b == self@.has_mutex(m),
    {
        m < self.process.mutex_list.len() && self.process.mutex_list[m].is_some()
    }

    /// Whether the semaphore `s` exists.
    pub fn has_semaphore(&self, s: usize) -> (b: bool)
        ensures
            b == self@.has_semaphore(s),
    {
        s < self.process.semaphore_list.len() && self.process.semaphore_list[s].is_some()
    }

    /// Whether the condition variable `c` exists.
    pub fn has_condvar(&self, c: usize) -> (b: bool)
        ensures
            b == self@.has_condvar(c),
    {
        c < self.process.condvar_list.len() && self.process.condvar_list[c].is_some()
    }

    /// Whether the running task holds the mutex `m`.
    pub fn current_holds_mutex(&self, m: usize) -> (b: bool)
        ensures
            b == (self@.current is Some && m < self@.process.mutex_alloc.len()
                && self@.process.mutex_alloc[m as int] == self@.current),
    {
        match self.processor.current {
            Some(t) => m < self.process.mutex_alloc.len() && match self.process.mutex_alloc[m] {
                Some(h) => h == t,
                None => false,
            },
            None => false,
        }
    }

    /// Whether the running task can put an instance into the semaphore `s`
    /// without its counters running over: it holds one, or the instances
    /// that exist do not yet fill a machine word.
    pub fn current_can_up(&self, s: usize) -> (b: bool)
        requires
            self.wf(),
            self@.current is Some,
            self@.has_semaphore(s),
        ensures
            b == (self@.process.sem_alloc[self@.current->0 as int][s as int] > 0
                || self@.process.sem_total[s as int] < usize::MAX),
    {
        let t: usize = self.processor.current.unwrap();
        proof {
            assert(self@.process.sem_alloc[t as int] == self.process.sem_alloc[t as int]@);
        }
        self.process.sem_alloc[t][s] > 0 || self.process.sem_total[s] < usize::MAX
    }
}

} // verus!
