//! System calls for sleeping and for the synchronization objects.

use vstd::prelude::*;
use crate::config::DEADLOCK;
use crate::deadlock::{
    chain_revisits, matrix_ok, matrix_view, mutex_wait_cycle, semaphore_wait_deadlock,
    semaphores_deadlocked,
};
use crate::kernel::{Kernel, KernelView};
use crate::steps::{first_free, lemma_with_mutex_request};
use crate::task::task::{Pending, TaskStatus};

verus! {

impl KernelView {
    /// With detection on, the wait-for chain of task `t`, once it asks for
    /// mutex `m`, comes back to a task it has passed: the lock is refused.
    pub open spec fn lock_refused(self, t: usize, m: usize) -> bool {
        self.process.deadlock_detection_enabled && chain_revisits(
            self.process.mutex_alloc,
            self.process.mutex_request.update(t as int, Some(m)),
            t,
        )
    }

    /// Task `t`, which is in no queue, tries to take mutex `m`: it gets the
    /// mutex if it is free; else it waits in the queue of a blocking mutex, or
    /// goes to the back of the ready queue to poll a spin mutex again.
    pub open spec fn acquire_mutex(self, t: usize, m: usize) -> KernelView {
        let mx = self.process.mutex_list[m as int]->0;
        if !mx.locked {
            self.grant_mutex(t, m)
        } else if mx.blocking {
            self.park_on_mutex(t, m)
        } else {
            self.enqueue_ready(t, Pending::Mutex(m))
        }
    }

    /// The running task asks for mutex `m`. The request is recorded; then the
    /// lock is refused, or the task tries to take the mutex.
    pub open spec fn mutex_lock(self, m: usize) -> KernelView {
        let t = self.current->0;
        let asked = self.with_mutex_request(t, Some(m));
        if self.lock_refused(t, m) {
            asked
        } else {
            asked.acquire_mutex(t, m)
        }
    }

    /// Mutex `m` is freed and its first waiter, if any, is woken.
    pub open spec fn mutex_unlock(self, m: usize) -> KernelView {
        self.release_mutex(m).wake_mutex_waiter(m)
    }

    /// With detection on, the semaphore tables, once task `t` waits for
    /// semaphore `s`, describe an unsafe state: the down is refused.
    pub open spec fn down_refused(self, t: usize, s: usize) -> bool {
        self.process.deadlock_detection_enabled && semaphores_deadlocked(
            self.process.sem_avail,
            self.process.sem_alloc,
            self.process.sem_request.update(t as int, Some(s)),
        )
    }

    /// Task `t`, which is in no queue, tries to take an instance of semaphore
    /// `s`: it gets one if the count is not zero, else it waits in the queue.
    pub open spec fn acquire_semaphore(self, t: usize, s: usize) -> KernelView {
        if self.process.semaphore_list[s as int]->0.count > 0 {
            self.grant_semaphore(t, s)
        } else {
            self.park_on_semaphore(t, s)
        }
    }

    /// The running task asks for an instance of semaphore `s`. The down is
    /// refused, which changes nothing, or the task tries to take an instance.
    pub open spec fn semaphore_down(self, s: usize) -> KernelView {
        let t = self.current->0;
        if self.down_refused(t, s) {
            self
        } else {
            self.acquire_semaphore(t, s)
        }
    }

    /// The running task puts an instance into semaphore `s`, and the first
    /// waiter, if any, is woken.
    pub open spec fn semaphore_up(self, s: usize) -> KernelView {
        self.return_semaphore(self.current->0, s).wake_semaphore_waiter(s)
    }

    /// The running task frees mutex `m`, whose first waiter is woken, and
    /// waits for a signal on condition variable `c`.
    pub open spec fn condvar_wait(self, c: usize, m: usize) -> KernelView {
        self.mutex_unlock(m).park_on_condvar(self.current->0, c, m)
    }

    /// The running task, in the middle of a lock, a down or a wait, tries
    /// again to take what it still has to obtain. With nothing pending,
    /// nothing changes.
    pub open spec fn retry_pending(self) -> KernelView {
        let t = self.current->0;
        match self.process.tasks[t as int].pending {
            Pending::Mutex(m) => self.acquire_mutex(t, m),
            Pending::Semaphore(s) => self.acquire_semaphore(t, s),
            _ => self,
        }
    }

    /// Whether the running task has nothing left to obtain after a retry.
    pub open spec fn retry_succeeds(self) -> bool {
        match self.process.tasks[self.current->0 as int].pending {
            Pending::Mutex(m) => !self.process.mutex_list[m as int]->0.locked,
            Pending::Semaphore(s) => self.process.semaphore_list[s as int]->0.count > 0,
            _ => true,
        }
    }

    /// A running task is never in the ready queue.
    pub proof fn lemma_current_detached(self)
        requires
            self.wf(),
            self.current is Some,
        ensures
            self.current->0 < self.process.tasks.len(),
            self.detached(self.current->0),
            self.process.tasks[self.current->0 as int].task_status == TaskStatus::Running,
            self.calling() ==> self.process.sem_request[self.current->0 as int] is None,
    {
        let t = self.current->0;
        assert(self.task_ok(t as int));
        if self.ready.contains(t) {
            let i = choose|i: int| 0 <= i < self.ready.len() && self.ready[i] == t;
            assert(self.process.tasks[self.ready[i] as int].task_status == TaskStatus::Ready);
        }
    }

    /// An unlock leaves the running task as it is.
    pub proof fn lemma_unlock_keeps_caller(self, m: usize)
        requires
            self.wf(),
            self.current is Some,
            self.has_mutex(m),
        ensures
            self.mutex_unlock(m).current == self.current,
            self.mutex_unlock(m).process.tasks.len() == self.process.tasks.len(),
            self.mutex_unlock(m).process.tasks[self.current->0 as int]
                == self.process.tasks[self.current->0 as int],
    {
        self.lemma_current_detached();
        assert(self.mutex_ok(m as int));
        let q = self.process.mutex_list[m as int]->0.wait_queue;
        if q.len() > 0 {
            assert(self.waits(q[0] as int, Pending::Mutex(m)));
        }
    }

    /// In a well-formed state the semaphore tables fit together, whatever the requests are.
    pub proof fn lemma_matrix_ok(self, request: Seq<Option<usize>>)
        requires
            self.wf(),
            request.len() == self.process.tasks.len(),
        ensures
            matrix_ok(self.process.sem_avail, self.process.sem_alloc, request),
    {
        assert forall|s: int| 0 <= s < self.process.sem_avail.len() implies self.process.sem_avail[s]
            + #[trigger] crate::deadlock::held_total(self.process.sem_alloc, s)
            <= usize::MAX by {
            assert(self.semaphore_ok(s));
        }
    }
}

impl Kernel {
    /// Task `t`, which is in no queue, tries to take mutex `m`; tells whether it got it.
    pub fn acquire_mutex(&mut self, t: usize, m: usize) -> (acquired: bool)
        requires
            old(self).wf(),
            old(self)@.detached(t),
            old(self)@.process.tasks[t as int].task_status != TaskStatus::UnInit,
            old(self)@.has_mutex(m),
            old(self)@.process.mutex_request[t as int] == Some(m),
            old(self)@.wants_at_most_mutex(t, m),
        ensures
            final(self).wf(),
            final(self)@ == old(self)@.acquire_mutex(t, m),
            acquired == !old(self)@.process.mutex_list[m as int]->0.locked,
    {
        let (locked, blocking) = match &self.process.mutex_list[m] {
            Some(mx) => (mx.locked, mx.blocking),
            None => (false, false),
        };
        if !locked {
            self.grant_mutex(t, m);
            true
        } else if blocking {
            self.park_on_mutex(t, m);
            false
        } else {
            self.enqueue_ready(t, Pending::Mutex(m));
            false
        }
    }

    /// Task `t`, which is in no queue, tries to take an instance of semaphore
    /// `s`; tells whether it got one.
    pub fn acquire_semaphore(&mut self, t: usize, s: usize) -> (acquired: bool)
        requires
            old(self).wf(),
            old(self)@.detached(t),
            old(self)@.process.tasks[t as int].task_status != TaskStatus::UnInit,
            old(self)@.has_semaphore(s),
            old(self)@.wants_at_most_semaphore(t, s),
        ensures
            final(self).wf(),
            final(self)@ == old(self)@.acquire_semaphore(t, s),
            acquired == (old(self)@.process.semaphore_list[s as int]->0.count > 0),
    {
        let count: usize = match &self.process.semaphore_list[s] {
            Some(sem) => sem.count,
            None => 0,
        };
        if count > 0 {
            self.grant_semaphore(t, s);
            true
        } else {
            self.park_on_semaphore(t, s);
            false
        }
    }
}

/// The running task, which was woken or dispatched in the middle of a lock,
/// a down or a wait, tries again to take the mutex or the instance that it
/// still has to obtain.
///
/// If it gets it, the task goes on running and `true` is returned: its call
/// is complete. If not, the task stops running again, as at its first
/// attempt, and `false` is returned. With nothing pending, nothing changes
/// and `true` is returned. No deadlock check is made: the check belongs to
/// the request, not to the retry.
pub fn retry_pending(kernel: &mut Kernel) -> (acquired: bool)
    requires
        old(kernel).wf(),
        old(kernel)@.current is Some,
    ensures
        final(kernel).wf(),
        final(kernel)@ == old(kernel)@.retry_pending(),
        acquired == old(kernel)@.retry_succeeds(),
        acquired ==> final(kernel)@.calling(),
        !acquired ==> final(kernel)@.current is None,
{
    let tid: usize = kernel.processor.current.unwrap();
    proof {
        kernel@.lemma_current_detached();
        assert(kernel@.task_ok(tid as int));
    }
    match kernel.process.tasks[tid].pending {
        Pending::Mutex(m) => kernel.acquire_mutex(tid, m),
        Pending::Semaphore(s) => kernel.acquire_semaphore(tid, s),
        _ => true,
    }
}

/// The running task sleeps for `ms` milliseconds from the time `now_ms`:
/// it blocks until a check of the timers at or after `now_ms + ms` wakes it.
/// Returns 0.
pub fn sys_sleep(kernel: &mut Kernel, ms: usize, now_ms: usize) -> (code: isize)
    requires
        old(kernel).wf(),
        old(kernel)@.calling(),
        now_ms + ms <= usize::MAX,
    ensures
        final(kernel).wf(),
        final(kernel)@ == old(kernel)@.park_on_timer(
            old(kernel)@.current->0,
            (now_ms + ms) as usize,
        ),
        code == 0,
{
    let expire_ms: usize = now_ms + ms;
    let tid: usize = kernel.processor.current.unwrap();
    proof {
        kernel@.lemma_current_detached();
    }
    kernel.park_on_timer(tid, expire_ms);
    0
}

/// Creates a mutex, blocking or spin, in the first free slot of the table,
/// or in a new slot at its end, and returns its id.
pub fn sys_mutex_create(kernel: &mut Kernel, blocking: bool) -> (id: isize)
    requires
        old(kernel).wf(),
        first_free(old(kernel)@.process.mutex_list) < isize::MAX,
    ensures
        final(kernel).wf(),
        final(kernel)@ == old(kernel)@.create_mutex(blocking),
        id == first_free(old(kernel)@.process.mutex_list),
{
    let id: usize = kernel.create_mutex(blocking);
    id as isize
}

/// The running task locks the mutex `mutex_id`.
///
/// The request is recorded first. With deadlock detection on, the wait-for
/// chain is walked from the task; if a task is met twice, the call returns
/// `DEADLOCK` and the task neither gets the mutex nor waits. Otherwise the
/// task takes the mutex if it is free, and else stops running until it gets
/// it; the call returns 0, which the task sees once it holds the mutex.
pub fn sys_mutex_lock(kernel: &mut Kernel, mutex_id: usize) -> (code: isize)
    requires
        old(kernel).wf(),
        old(kernel)@.calling(),
        old(kernel)@.has_mutex(mutex_id),
    ensures
        final(kernel).wf(),
        final(kernel)@ == old(kernel)@.mutex_lock(mutex_id),
        code == if old(kernel)@.lock_refused(old(kernel)@.current->0, mutex_id) {
            DEADLOCK
        } else {
            0
        },
{
    let tid: usize = kernel.processor.current.unwrap();
    proof {
        kernel@.lemma_current_detached();
        lemma_with_mutex_request(kernel@, tid, Some(mutex_id));
    }
    kernel.set_mutex_request(tid, Some(mutex_id));
    if kernel.process.deadlock_detection_enabled {
        if mutex_wait_cycle(&kernel.process.mutex_alloc, &kernel.process.mutex_request, tid) {
            return DEADLOCK;
        }
    }
    proof {
        kernel@.lemma_current_detached();
    }
    kernel.acquire_mutex(tid, mutex_id);
    0
}

/// Unlocks the mutex `mutex_id` and wakes the task that has waited longest
/// for it, if any. Returns 0.
pub fn sys_mutex_unlock(kernel: &mut Kernel, mutex_id: usize) -> (code: isize)
    requires
        old(kernel).wf(),
        old(kernel)@.has_mutex(mutex_id),
    ensures
        final(kernel).wf(),
        final(kernel)@ == old(kernel)@.mutex_unlock(mutex_id),
        code == 0,
{
    kernel.release_mutex(mutex_id);
    kernel.wake_mutex_waiter(mutex_id);
    0
}

/// Creates a semaphore with `res_count` instances in the first free slot of
/// the table, or in a new slot at its end, and returns its id.
pub fn sys_semaphore_create(kernel: &mut Kernel, res_count: usize) -> (id: isize)
    requires
        old(kernel).wf(),
        first_free(old(kernel)@.process.semaphore_list) < isize::MAX,
    ensures
        final(kernel).wf(),
        final(kernel)@ == old(kernel)@.create_semaphore(res_count),
        id == first_free(old(kernel)@.process.semaphore_list),
{
    let id: usize = kernel.create_semaphore(res_count);
    id as isize
}

/// The running task puts an instance into the semaphore `sem_id`: one that
/// it holds, if it holds any, else a new one. The task that has waited
/// longest for the semaphore, if any, is woken. Returns 0.
pub fn sys_semaphore_up(kernel: &mut Kernel, sem_id: usize) -> (code: isize)
    requires
        old(kernel).wf(),
        old(kernel)@.current is Some,
        old(kernel)@.has_semaphore(sem_id),
        old(kernel)@.process.sem_alloc[old(kernel)@.current->0 as int][sem_id as int] > 0 || old(
            kernel,
        )@.process.sem_total[sem_id as int] < usize::MAX,
    ensures
        final(kernel).wf(),
        final(kernel)@ == old(kernel)@.semaphore_up(sem_id),
        code == 0,
{
    let tid: usize = kernel.processor.current.unwrap();
    kernel.return_semaphore(tid, sem_id);
    kernel.wake_semaphore_waiter(sem_id);
    0
}

/// The running task takes an instance of the semaphore `sem_id`.
///
/// With deadlock detection on, the safety check runs on the tables with the
/// request of the task added; if the state is unsafe, the call returns
/// `DEADLOCK` and nothing changes. Otherwise the task takes an instance if
/// the count is not zero, and else stops running until it gets one; the call
/// returns 0, which the task sees once it holds the instance.
pub fn sys_semaphore_down(kernel: &mut Kernel, sem_id: usize) -> (code: isize)
    requires
        old(kernel).wf(),
        old(kernel)@.calling(),
        old(kernel)@.has_semaphore(sem_id),
    ensures
        final(kernel).wf(),
        final(kernel)@ == old(kernel)@.semaphore_down(sem_id),
        code == if old(kernel)@.down_refused(old(kernel)@.current->0, sem_id) {
            DEADLOCK
        } else {
            0
        },
{
    let tid: usize = kernel.processor.current.unwrap();
    proof {
        kernel@.lemma_current_detached();
    }
    if kernel.process.deadlock_detection_enabled {
        kernel.process.sem_request[tid] = Some(sem_id);
        proof {
            old(kernel)@.lemma_matrix_ok(kernel.process.sem_request@);
            assert(matrix_view(&kernel.process.sem_alloc) =~= old(kernel)@.process.sem_alloc);
        }
        let stuck: bool = semaphore_wait_deadlock(
            &kernel.process.sem_avail,
            &kernel.process.sem_alloc,
            &kernel.process.sem_request,
        );
        kernel.process.sem_request[tid] = None;
        proof {
            assert(kernel.process.sem_request@ =~= old(kernel).process.sem_request@);
            assert(kernel@ == old(kernel)@);
        }
        if stuck {
            return DEADLOCK;
        }
    }
    kernel.acquire_semaphore(tid, sem_id);
    0
}

/// Creates a condition variable in the first free slot of the table, or in a
/// new slot at its end, and returns its id.
pub fn sys_condvar_create(kernel: &mut Kernel) -> (id: isize)
    requires
        old(kernel).wf(),
        first_free(old(kernel)@.process.condvar_list) < isize::MAX,
    ensures
        final(kernel).wf(),
        final(kernel)@ == old(kernel)@.create_condvar(),
        id == first_free(old(kernel)@.process.condvar_list),
{
    let id: usize = kernel.create_condvar();
    id as isize
}

/// Wakes the task that has waited longest on the condition variable
/// `condvar_id`, if any; it then asks for its mutex again. Returns 0.
pub fn sys_condvar_signal(kernel: &mut Kernel, condvar_id: usize) -> (code: isize)
    requires
        old(kernel).wf(),
        old(kernel)@.has_condvar(condvar_id),
    ensures
        final(kernel).wf(),
        final(kernel)@ == old(kernel)@.wake_condvar_waiter(condvar_id),
        code == 0,
{
    kernel.wake_condvar_waiter(condvar_id);
    0
}

/// The running task, which holds the mutex `mutex_id`, frees it and waits
/// for a signal on the condition variable `condvar_id`. Once signalled it
/// takes the mutex again before it continues. Returns 0, which the task sees
/// once it holds the mutex again.
pub fn sys_condvar_wait(kernel: &mut Kernel, condvar_id: usize, mutex_id: usize) -> (code: isize)
    requires
        old(kernel).wf(),
        old(kernel)@.calling(),
        old(kernel)@.has_condvar(condvar_id),
        old(kernel)@.has_mutex(mutex_id),
        old(kernel)@.process.mutex_alloc[mutex_id as int] == old(kernel)@.current,
    ensures
        final(kernel).wf(),
        final(kernel)@ == old(kernel)@.condvar_wait(condvar_id, mutex_id),
        code == 0,
{
    let tid: usize = kernel.processor.current.unwrap();
    proof {
        old(kernel)@.lemma_unlock_keeps_caller(mutex_id);
    }
    kernel.release_mutex(mutex_id);
    kernel.wake_mutex_waiter(mutex_id);
    proof {
        kernel@.lemma_current_detached();
    }
    kernel.park_on_condvar(tid, condvar_id, mutex_id);
    0
}

/// Switches deadlock detection off (0) or on (1) and returns 0; any other
/// value changes nothing and returns -1.
pub fn sys_enable_deadlock_detect(kernel: &mut Kernel, is_enabled: usize) -> (code: isize)
    requires
        old(kernel).wf(),
    ensures
        final(kernel).wf(),
        is_enabled <= 1 ==> code == 0 && final(kernel)@ == old(kernel)@.with_detection(
            is_enabled == 1,
        ),
        is_enabled > 1 ==> code == -1 && final(kernel)@ == old(kernel)@,
{
    proof {
        crate::steps::lemma_plain_updates(
            kernel@,
            0,
            kernel@.idle_task_cx,
            0,
            is_enabled == 1,
        );
    }
    if is_enabled == 0 {
        kernel.process.deadlock_detection_enabled = false;
        0
    } else if is_enabled == 1 {
        kernel.process.deadlock_detection_enabled = true;
        0
    } else {
        -1
    }
}

} // verus!
