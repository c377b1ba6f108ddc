//! The kernel as a state machine: its operations, and what holds of every
//! state that the operations can reach.

use vstd::prelude::*;
use crate::config::MAX_SYSCALL_NUM;
use crate::deadlock::held_total;
use crate::kernel::KernelView;
use crate::steps::{
    first_free, lemma_create_condvar, lemma_create_mutex, lemma_create_semaphore, lemma_dispatch,
    lemma_enqueue_ready, lemma_exit_current, lemma_grant_mutex, lemma_grant_semaphore,
    lemma_park_on_condvar, lemma_park_on_mutex, lemma_park_on_semaphore, lemma_park_on_timer,
    lemma_plain_updates, lemma_pop_ready, lemma_release_mutex, lemma_return_semaphore,
    lemma_spawn, lemma_wake_condvar_waiter, lemma_wake_mutex_waiter, lemma_wake_semaphore_waiter,
    lemma_wake_timer, lemma_with_memory_set, lemma_with_mutex_request,
};
use crate::task::context::TaskContext;
use crate::task::task::{Pending, TaskControlBlock, TaskStatus};
use crate::timer::{first_expired, lemma_first_expired};

verus! {

/// An operation of the kernel.
pub enum Op {
    /// A task with this saved context is added.
    Spawn(TaskContext),
    /// The task, which has not run yet, becomes eligible to run.
    AddTask(usize),
    /// One round of the dispatch loop at this time in microseconds.
    RunTasks(usize),
    /// The running task tries again to take what it still has to obtain.
    RetryPending,
    /// The saved context of the task is stored on the way back to the idle flow.
    Schedule(usize, TaskContext),
    /// The running task gives up the processor.
    Yield,
    /// The running task exits with this code.
    Exit(i32),
    /// The running task sleeps until this time in milliseconds.
    Sleep(usize),
    /// The timers are checked at this time in milliseconds.
    CheckTimer(usize),
    /// A mutex is created, blocking or spin.
    MutexCreate(bool),
    /// The running task locks the mutex.
    MutexLock(usize),
    /// The mutex is unlocked.
    MutexUnlock(usize),
    /// A semaphore with this many instances is created.
    SemaphoreCreate(usize),
    /// The running task puts an instance into the semaphore.
    SemaphoreUp(usize),
    /// The running task takes an instance of the semaphore.
    SemaphoreDown(usize),
    /// A condition variable is created.
    CondvarCreate,
    /// The condition variable is signalled.
    CondvarSignal(usize),
    /// The running task waits on the condition variable (first) with the mutex (second).
    CondvarWait(usize, usize),
    /// Deadlock detection is switched on or off.
    EnableDeadlockDetect(bool),
    /// One more syscall with this number is counted for the running task.
    CountSyscall(usize),
    /// The running task maps bytes: start, length, permission bits.
    Mmap(usize, usize, usize),
    /// The running task unmaps bytes: start, length.
    Munmap(usize, usize),
    /// The running task moves its program break by this many bytes.
    Sbrk(i32),
}

impl KernelView {
    /// Whether the operation may be made in this state.
    pub open spec fn admits(self, op: Op) -> bool {
        let p = self.process;
        match op {
            Op::Spawn(_) => p.tasks.len() < usize::MAX,
            Op::AddTask(t) => t < p.tasks.len() && p.tasks[t as int].task_status
                == TaskStatus::UnInit,
            Op::RunTasks(_) => self.current is None,
            Op::RetryPending => self.current is Some,
            Op::Schedule(t, _) => t < p.tasks.len() && self.current is None,
            Op::Yield => self.calling(),
            Op::Exit(_) => self.calling(),
            Op::Sleep(_) => self.calling(),
            Op::CheckTimer(_) => true,
            Op::MutexCreate(_) => first_free(p.mutex_list) < isize::MAX,
            Op::MutexLock(m) => self.calling() && self.has_mutex(m),
            Op::MutexUnlock(m) => self.has_mutex(m),
            Op::SemaphoreCreate(_) => first_free(p.semaphore_list) < isize::MAX,
            Op::SemaphoreUp(s) => self.current is Some && self.has_semaphore(s) && (
            p.sem_alloc[self.current->0 as int][s as int] > 0 || p.sem_total[s as int]
                < usize::MAX),
            Op::SemaphoreDown(s) => self.calling() && self.has_semaphore(s),
            Op::CondvarCreate => first_free(p.condvar_list) < isize::MAX,
            Op::CondvarSignal(c) => self.has_condvar(c),
            Op::CondvarWait(c, m) => self.calling() && self.has_condvar(c) && self.has_mutex(
                m,
            ) && p.mutex_alloc[m as int] == self.current,
            Op::EnableDeadlockDetect(_) => true,
            Op::CountSyscall(id) => self.current is Some && id < MAX_SYSCALL_NUM
                && p.tasks[self.current->0 as int].syscall_times[id as int] < u32::MAX,
            Op::Mmap(_, _, _) => self.current is Some,
            Op::Munmap(_, _) => self.current is Some,
            Op::Sbrk(_) => self.current is Some,
        }
    }

    /// The state after the operation.
    pub open spec fn apply(self, op: Op) -> KernelView {
        match op {
            Op::Spawn(cx) => self.spawn(cx),
            Op::AddTask(t) => self.enqueue_ready(t, Pending::Nothing),
            Op::RunTasks(now_us) => self.run_tasks(now_us),
            Op::RetryPending => self.retry_pending(),
            Op::Schedule(t, cx) => self.with_task_cx(t, cx),
            Op::Yield => self.enqueue_ready(self.current->0, Pending::Nothing),
            Op::Exit(code) => self.exit_current(code),
            Op::Sleep(expire_ms) => self.park_on_timer(self.current->0, expire_ms),
            Op::CheckTimer(now_ms) => self.check_timer(now_ms),
            Op::MutexCreate(blocking) => self.create_mutex(blocking),
            Op::MutexLock(m) => self.mutex_lock(m),
            Op::MutexUnlock(m) => self.mutex_unlock(m),
            Op::SemaphoreCreate(count) => self.create_semaphore(count),
            Op::SemaphoreUp(s) => self.semaphore_up(s),
            Op::SemaphoreDown(s) => self.semaphore_down(s),
            Op::CondvarCreate => self.create_condvar(),
            Op::CondvarSignal(c) => self.wake_condvar_waiter(c),
            Op::CondvarWait(c, m) => self.condvar_wait(c, m),
            Op::EnableDeadlockDetect(on) => self.with_detection(on),
            Op::CountSyscall(id) => self.count_syscall(self.current->0, id),
            Op::Mmap(start, len, perm) => if self.mmap_granted(start, len, perm) {
                self.with_memory_set(self.process.memory_set.mmap(start, len, perm))
            } else {
                self
            },
            Op::Munmap(start, len) => if self.munmap_granted(start, len) {
                self.with_memory_set(self.process.memory_set.munmap(start, len))
            } else {
                self
            },
            Op::Sbrk(delta) => self.with_memory_set(self.process.memory_set.sbrk(delta as int)),
        }
    }

    /// The state after a sequence of operations, each made in the state that
    /// the ones before it leave.
    pub open spec fn run(self, ops: Seq<Op>) -> KernelView
        decreases ops.len(),
    {
        if ops.len() == 0 {
            self
        } else {
            self.run(ops.drop_last()).apply(ops.last())
        }
    }

    /// Each operation of the sequence may be made in the state in which it is made.
    pub open spec fn admits_all(self, ops: Seq<Op>) -> bool
        decreases ops.len(),
    {
        if ops.len() == 0 {
            true
        } else {
            self.admits_all(ops.drop_last()) && self.run(ops.drop_last()).admits(ops.last())
        }
    }

    /// The task that holds mutex `m`.
    pub open spec fn holder(self, m: usize) -> Option<usize> {
        self.process.mutex_alloc[m as int]
    }

    /// Task `t` holds mutex `m`.
    pub open spec fn holds(self, t: usize, m: usize) -> bool {
        m < self.process.mutex_alloc.len() && self.process.mutex_alloc[m as int] == Some(t)
    }

    /// The tasks of `next` are those of `self`, changed at most in that tasks
    /// that slept are ready.
    pub open spec fn only_sleepers_woken(self, next: KernelView) -> bool {
        &&& next.process.tasks.len() == self.process.tasks.len()
        &&& forall|t: int|
            0 <= t < self.process.tasks.len() ==> #[trigger] next.process.tasks[t]
                == self.process.tasks[t] || (self.process.tasks[t].pending is Sleep
                && next.process.tasks[t] == TaskControlBlock {
                task_status: TaskStatus::Ready,
                pending: Pending::Nothing,
                ..self.process.tasks[t]
            })
    }

    /// A check of the timers keeps the invariant and changes nothing but the
    /// timers, the ready queue, and the tasks that it wakes.
    pub proof fn lemma_check_timer(self, now_ms: usize)
        requires
            self.wf(),
        ensures
            self.check_timer(now_ms).wf(),
            self.only_sleepers_woken(self.check_timer(now_ms)),
            self.check_timer(now_ms).current == self.current,
            self.check_timer(now_ms).idle_task_cx == self.idle_task_cx,
            self.check_timer(now_ms).process.mutex_list == self.process.mutex_list,
            self.check_timer(now_ms).process.mutex_alloc == self.process.mutex_alloc,
            self.check_timer(now_ms).process.mutex_request == self.process.mutex_request,
            self.check_timer(now_ms).process.semaphore_list == self.process.semaphore_list,
            self.check_timer(now_ms).process.sem_avail == self.process.sem_avail,
            self.check_timer(now_ms).process.sem_alloc == self.process.sem_alloc,
            self.check_timer(now_ms).process.sem_total == self.process.sem_total,
            self.check_timer(now_ms).process.sem_request == self.process.sem_request,
            self.check_timer(now_ms).process.condvar_list == self.process.condvar_list,
            self.check_timer(now_ms).process.memory_set == self.process.memory_set,
            self.check_timer(now_ms).process.deadlock_detection_enabled
                == self.process.deadlock_detection_enabled,
        decreases self.timers.len(),
    {
        let i = first_expired(self.timers, now_ms);
        lemma_first_expired(self.timers, now_ms);
        if 0 <= i < self.timers.len() {
            let k = self.wake_timer(i);
            lemma_wake_timer(self, i);
            assert(self.waits(
                self.timers[i].tid as int,
                Pending::Sleep(self.timers[i].expire_ms),
            ));
            k.lemma_check_timer(now_ms);
            let r = k.check_timer(now_ms);
            assert forall|t: int| 0 <= t < self.process.tasks.len() implies #[trigger] r.process.tasks[t]
                == self.process.tasks[t] || (self.process.tasks[t].pending is Sleep
                && r.process.tasks[t] == TaskControlBlock {
                task_status: TaskStatus::Ready,
                pending: Pending::Nothing,
                ..self.process.tasks[t]
            }) by {
                assert(r.process.tasks[t] == k.process.tasks[t] || (k.process.tasks[t].pending is Sleep
                    && r.process.tasks[t] == TaskControlBlock {
                    task_status: TaskStatus::Ready,
                    pending: Pending::Nothing,
                    ..k.process.tasks[t]
                }));
            }
        }
    }

    /// Every operation that may be made keeps the invariant.
    pub proof fn lemma_apply_wf(self, op: Op)
        requires
            self.wf(),
            self.admits(op),
        ensures
            self.apply(op).wf(),
    {
        match op {
            Op::Spawn(cx) => {
                lemma_spawn(self, cx);
            },
            Op::AddTask(t) => {
                self.lemma_not_ready_not_queued(t);
                assert(self.task_ok(t as int));
                lemma_enqueue_ready(self, t, Pending::Nothing);
            },
            Op::RunTasks(now_us) => {
                self.lemma_run_tasks(now_us);
            },
            Op::RetryPending => {
                self.lemma_retry_pending();
            },
            Op::Schedule(t, cx) => {
                lemma_plain_updates(self, t, cx, 0, false);
            },
            Op::Yield => {
                self.lemma_current_detached();
                lemma_enqueue_ready(self, self.current->0, Pending::Nothing);
            },
            Op::Exit(code) => {
                lemma_exit_current(self, code);
            },
            Op::Sleep(expire_ms) => {
                self.lemma_current_detached();
                lemma_park_on_timer(self, self.current->0, expire_ms);
            },
            Op::CheckTimer(now_ms) => {
                self.lemma_check_timer(now_ms);
            },
            Op::MutexCreate(blocking) => {
                lemma_create_mutex(self, blocking);
            },
            Op::MutexLock(m) => {
                self.lemma_mutex_lock(m);
            },
            Op::MutexUnlock(m) => {
                lemma_release_mutex(self, m);
                lemma_wake_mutex_waiter(self.release_mutex(m), m);
            },
            Op::SemaphoreCreate(count) => {
                lemma_create_semaphore(self, count);
            },
            Op::SemaphoreUp(s) => {
                lemma_return_semaphore(self, self.current->0, s);
                lemma_wake_semaphore_waiter(self.return_semaphore(self.current->0, s), s);
            },
            Op::SemaphoreDown(s) => {
                self.lemma_current_detached();
                self.lemma_acquire_semaphore(self.current->0, s);
            },
            Op::CondvarCreate => {
                lemma_create_condvar(self);
            },
            Op::CondvarSignal(c) => {
                lemma_wake_condvar_waiter(self, c);
            },
            Op::CondvarWait(c, m) => {
                lemma_release_mutex(self, m);
                lemma_wake_mutex_waiter(self.release_mutex(m), m);
                self.lemma_unlock_keeps_caller(m);
                self.mutex_unlock(m).lemma_current_detached();
                lemma_park_on_condvar(self.mutex_unlock(m), self.current->0, c, m);
            },
            Op::EnableDeadlockDetect(on) => {
                lemma_plain_updates(self, 0, self.idle_task_cx, 0, on);
            },
            Op::CountSyscall(id) => {
                lemma_plain_updates(self, self.current->0, self.idle_task_cx, id, false);
            },
            Op::Mmap(start, len, perm) => {
                let ms = self.process.memory_set;
                if ms.can_mmap(start, len) {
                    ms.lemma_map_pages(
                        crate::mm::memory_set::page_of(start as int) as usize,
                        crate::mm::memory_set::span(start, len),
                        perm,
                    );
                }
                lemma_with_memory_set(self, ms.mmap(start, len, perm));
            },
            Op::Munmap(start, len) => {
                let ms = self.process.memory_set;
                if ms.can_munmap(start, len) {
                    ms.lemma_unmap_pages(
                        crate::mm::memory_set::page_of(start as int) as usize,
                        crate::mm::memory_set::span(start, len),
                    );
                }
                lemma_with_memory_set(self, ms.munmap(start, len));
            },
            Op::Sbrk(delta) => {
                let ms = self.process.memory_set;
                ms.lemma_sbrk(delta as int);
                lemma_with_memory_set(self, ms.sbrk(delta as int));
            },
        }
    }

    /// A task that is not ready is not in the ready queue.
    pub proof fn lemma_not_ready_not_queued(self, t: usize)
        requires
            self.wf(),
            t < self.process.tasks.len(),
            self.process.tasks[t as int].task_status != TaskStatus::Ready,
        ensures
            !self.ready.contains(t),
    {
        if self.ready.contains(t) {
            let i = choose|i: int| 0 <= i < self.ready.len() && self.ready[i] == t;
            assert(self.process.tasks[self.ready[i] as int].task_status == TaskStatus::Ready);
        }
    }

    /// An attempt to take a mutex keeps the invariant.
    pub proof fn lemma_acquire_mutex(self, t: usize, m: usize)
        requires
            self.wf(),
            self.detached(t),
            self.process.tasks[t as int].task_status != TaskStatus::UnInit,
            self.has_mutex(m),
            self.process.mutex_request[t as int] == Some(m),
            self.wants_at_most_mutex(t, m),
        ensures
            self.acquire_mutex(t, m).wf(),
    {
        let mx = self.process.mutex_list[m as int]->0;
        if !mx.locked {
            lemma_grant_mutex(self, t, m);
        } else if mx.blocking {
            lemma_park_on_mutex(self, t, m);
        } else {
            lemma_enqueue_ready(self, t, Pending::Mutex(m));
        }
    }

    /// An attempt to take an instance of a semaphore keeps the invariant.
    pub proof fn lemma_acquire_semaphore(self, t: usize, s: usize)
        requires
            self.wf(),
            self.detached(t),
            self.process.tasks[t as int].task_status != TaskStatus::UnInit,
            self.has_semaphore(s),
            self.wants_at_most_semaphore(t, s),
        ensures
            self.acquire_semaphore(t, s).wf(),
    {
        if self.process.semaphore_list[s as int]->0.count > 0 {
            lemma_grant_semaphore(self, t, s);
        } else {
            lemma_park_on_semaphore(self, t, s);
        }
    }

    /// A lock request keeps the invariant.
    pub proof fn lemma_mutex_lock(self, m: usize)
        requires
            self.wf(),
            self.calling(),
            self.has_mutex(m),
        ensures
            self.mutex_lock(m).wf(),
    {
        let t = self.current->0;
        self.lemma_current_detached();
        lemma_with_mutex_request(self, t, Some(m));
        let asked = self.with_mutex_request(t, Some(m));
        asked.lemma_current_detached();
        asked.lemma_acquire_mutex(t, m);
    }

    /// A round of the dispatch loop keeps the invariant.
    pub proof fn lemma_run_tasks(self, now_us: usize)
        requires
            self.wf(),
            self.current is None,
        ensures
            self.run_tasks(now_us).wf(),
    {
        if self.ready.len() > 0 {
            lemma_pop_ready(self);
            lemma_dispatch(self.pop_ready(), self.ready[0], now_us);
        }
    }

    /// A retry of the running task keeps the invariant.
    pub proof fn lemma_retry_pending(self)
        requires
            self.wf(),
            self.current is Some,
        ensures
            self.retry_pending().wf(),
    {
        let t = self.current->0;
        self.lemma_current_detached();
        assert(self.task_ok(t as int));
        match self.process.tasks[t as int].pending {
            Pending::Mutex(m) => {
                self.lemma_acquire_mutex(t, m);
            },
            Pending::Semaphore(s) => {
                self.lemma_acquire_semaphore(t, s);
            },
            _ => {},
        }
    }

    /// Whatever sequence of operations is made from a well-formed state, the
    /// state stays well formed.
    pub proof fn lemma_run_wf(self, ops: Seq<Op>)
        requires
            self.wf(),
            self.admits_all(ops),
        ensures
            self.run(ops).wf(),
        decreases ops.len(),
    {
        if ops.len() > 0 {
            self.lemma_run_wf(ops.drop_last());
            self.run(ops.drop_last()).lemma_apply_wf(ops.last());
        }
    }
}

impl KernelView {
    /// No operation removes a task.
    pub proof fn lemma_tasks_stay(self, op: Op)
        requires
            self.wf(),
            self.admits(op),
        ensures
            self.apply(op).process.tasks.len() >= self.process.tasks.len(),
    {
        self.lemma_waiters(op);
        match op {
            Op::CheckTimer(now_ms) => {
                self.lemma_check_timer(now_ms);
            },
            _ => {},
        }
    }

    /// The task that an operation wakes, if any, is a blocked task that
    /// waits in the queue from which it is taken.
    pub proof fn lemma_waiters(self, op: Op)
        requires
            self.wf(),
            self.admits(op),
        ensures
            match op {
                Op::MutexUnlock(m) => self.process.mutex_list[m as int]->0.wait_queue.len() > 0
                    ==> self.waits(
                    self.process.mutex_list[m as int]->0.wait_queue[0] as int,
                    Pending::Mutex(m),
                ),
                Op::CondvarWait(_, m) => self.process.mutex_list[m as int]->0.wait_queue.len() > 0
                    ==> self.waits(
                    self.process.mutex_list[m as int]->0.wait_queue[0] as int,
                    Pending::Mutex(m),
                ),
                Op::SemaphoreUp(s) => self.process.semaphore_list[s as int]->0.wait_queue.len() > 0
                    ==> self.waits(
                    self.process.semaphore_list[s as int]->0.wait_queue[0] as int,
                    Pending::Semaphore(s),
                ),
                Op::CondvarSignal(c) => self.process.condvar_list[c as int]->0.wait_queue.len() > 0
                    ==> self.waits_on_condvar(
                    self.process.condvar_list[c as int]->0.wait_queue[0] as int,
                    c as int,
                ),
                _ => true,
            },
    {
        match op {
            Op::MutexUnlock(m) => {
                assert(self.mutex_ok(m as int));
            },
            Op::CondvarWait(_, m) => {
                assert(self.mutex_ok(m as int));
            },
            Op::SemaphoreUp(s) => {
                assert(self.semaphore_ok(s as int));
            },
            Op::CondvarSignal(c) => {
                assert(self.condvar_ok(c as int));
            },
            _ => {},
        }
    }

    /// A mutex has at most one holder.
    pub proof fn lemma_single_holder(self, m: usize, a: usize, b: usize)
        requires
            self.holds(a, m),
            self.holds(b, m),
        ensures
            a == b,
    {
    }

    /// A mutex is locked exactly while some task holds it.
    pub proof fn lemma_locked_iff_held(self, m: usize)
        requires
            self.wf(),
            self.has_mutex(m),
        ensures
            self.process.mutex_list[m as int]->0.locked <==> self.holder(m) is Some,
    {
        assert(self.mutex_ok(m as int));
    }

    /// A task comes to hold a mutex only when the mutex is free, and it is
    /// then the task that runs: no operation takes a mutex from its holder.
    pub proof fn lemma_taken_only_when_free(self, op: Op, t: usize, m: usize)
        requires
            self.wf(),
            self.admits(op),
            self.apply(op).holds(t, m),
            !self.holds(t, m),
        ensures
            m < self.process.mutex_alloc.len(),
            self.holder(m) is None,
            self.apply(op).current == Some(t),
    {
        self.lemma_waiters(op);
        match op {
            Op::CheckTimer(now_ms) => {
                self.lemma_check_timer(now_ms);
            },
            Op::MutexLock(m2) => {
                self.lemma_current_detached();
                assert(self.mutex_ok(m2 as int));
            },
            Op::MutexCreate(_) => {
                crate::steps::lemma_first_free(self.process.mutex_list);
                let id = first_free(self.process.mutex_list);
                if id < self.process.mutex_list.len() {
                    assert(self.mutex_ok(id));
                }
            },
            Op::RetryPending => {
                self.lemma_current_detached();
                let r = self.current->0;
                assert(self.task_ok(r as int));
                match self.process.tasks[r as int].pending {
                    Pending::Mutex(m2) => {
                        assert(self.mutex_ok(m2 as int));
                    },
                    _ => {},
                }
            },
            _ => {},
        }
    }

    /// Of each semaphore, the instances that are available and those that
    /// the tasks hold are together the instances that exist.
    pub proof fn lemma_instances_conserved(self, s: usize)
        requires
            self.wf(),
            s < self.process.semaphore_list.len(),
        ensures
            self.process.sem_avail[s as int] + held_total(self.process.sem_alloc, s as int)
                == self.process.sem_total[s as int],
    {
        assert(self.semaphore_ok(s as int));
    }

    /// The number of instances that exist of a semaphore changes only when
    /// the semaphore is created or when a task that holds none puts one in.
    pub proof fn lemma_total_kept(self, op: Op, s: usize)
        requires
            self.wf(),
            self.admits(op),
            s < self.process.sem_total.len(),
            !(op == Op::SemaphoreUp(s)
                && self.process.sem_alloc[self.current->0 as int][s as int] == 0),
            !(op is SemaphoreCreate && first_free(self.process.semaphore_list) == s),
        ensures
            s < self.apply(op).process.sem_total.len(),
            self.apply(op).process.sem_total[s as int] == self.process.sem_total[s as int],
    {
        self.lemma_waiters(op);
        match op {
            Op::CheckTimer(now_ms) => {
                self.lemma_check_timer(now_ms);
            },
            Op::SemaphoreCreate(_) => {
                crate::steps::lemma_first_free(self.process.semaphore_list);
            },
            _ => {},
        }
    }

    /// A down that finds an instance, followed by an up of the same task,
    /// leaves the counts of the semaphore as they were.
    pub proof fn lemma_down_up_pair(self, s: usize)
        requires
            self.wf(),
            self.calling(),
            self.has_semaphore(s),
            !self.down_refused(self.current->0, s),
            self.process.semaphore_list[s as int]->0.count > 0,
        ensures
            self.semaphore_down(s).admits(Op::SemaphoreUp(s)),
            self.semaphore_down(s).semaphore_up(s).wf(),
            self.semaphore_down(s).semaphore_up(s).process.sem_avail[s as int]
                == self.process.sem_avail[s as int],
            self.semaphore_down(s).semaphore_up(s).process.sem_total[s as int]
                == self.process.sem_total[s as int],
            self.semaphore_down(s).semaphore_up(
                s,
            ).process.sem_alloc[self.current->0 as int][s as int]
                == self.process.sem_alloc[self.current->0 as int][s as int],
            self.semaphore_down(s).semaphore_up(s).process.semaphore_list[s as int]->0.count
                == self.process.semaphore_list[s as int]->0.count,
    {
        let t = self.current->0;
        self.lemma_current_detached();
        lemma_grant_semaphore(self, t, s);
        let k1 = self.semaphore_down(s);
        assert(k1 == self.grant_semaphore(t, s));
        assert(self.semaphore_ok(s as int));
        assert(self.process.sem_alloc[t as int].len() == self.process.semaphore_list.len());
        lemma_return_semaphore(k1, t, s);
        lemma_wake_semaphore_waiter(k1.return_semaphore(t, s), s);
    }

    /// A task that must still obtain a mutex keeps that need until it holds
    /// the mutex: the need ends only by a retry that the task makes while it
    /// runs, and that retry leaves it running with the mutex held. A task
    /// makes its next call only with nothing left to obtain, so a wait on a
    /// condition variable returns to its caller only with the mutex held.
    pub proof fn lemma_resumes_holding(self, op: Op, t: usize, m: usize)
        requires
            self.wf(),
            self.admits(op),
            t < self.process.tasks.len(),
            self.process.tasks[t as int].pending_mutex_request() == Some(m),
        ensures
            t < self.apply(op).process.tasks.len(),
            !self.calling() || self.current != Some(t),
            self.apply(op).process.tasks[t as int].pending_mutex_request() == Some(m) || (
            op is RetryPending && self.current == Some(t) && self.apply(op).current == Some(t)
                && self.apply(op).process.tasks[t as int].pending is Nothing && self.apply(
                op,
            ).holds(t, m) && self.apply(op).process.mutex_list[m as int]->0.locked),
    {
        assert(self.task_ok(t as int));
        if self.current is Some {
            self.lemma_current_detached();
        }
        self.lemma_waiters(op);
        match op {
            Op::CheckTimer(now_ms) => {
                self.lemma_check_timer(now_ms);
            },
            Op::RunTasks(now_us) => {
                if self.ready.len() > 0 {
                    lemma_pop_ready(self);
                }
            },
            Op::RetryPending => {
                let r = self.current->0;
                assert(self.task_ok(r as int));
                match self.process.tasks[r as int].pending {
                    Pending::Mutex(m2) => {
                        assert(self.mutex_ok(m2 as int));
                    },
                    Pending::Semaphore(s2) => {
                        assert(self.semaphore_ok(s2 as int));
                    },
                    _ => {},
                }
            },
            _ => {},
        }
    }

    /// A wait on a condition variable leaves its caller blocked, off the
    /// processor, in need of the mutex, which it no longer holds.
    pub proof fn lemma_wait_parks(self, c: usize, m: usize)
        requires
            self.wf(),
            self.admits(Op::CondvarWait(c, m)),
        ensures
            self.condvar_wait(c, m).process.tasks[self.current->0 as int].task_status
                == TaskStatus::Blocked,
            self.condvar_wait(c, m).process.tasks[self.current->0 as int].pending
                == Pending::Condvar(c, m),
            self.condvar_wait(c, m).current is None,
            !self.condvar_wait(c, m).holds(self.current->0, m),
    {
        self.lemma_current_detached();
        assert(self.mutex_ok(m as int));
        let q = self.process.mutex_list[m as int]->0.wait_queue;
        if q.len() > 0 {
            assert(self.waits(q[0] as int, Pending::Mutex(m)));
        }
    }

    /// The tasks of `self` are tasks of `next`, with the start times and the
    /// syscall counts that they had.
    pub open spec fn same_start_times(self, next: KernelView) -> bool {
        &&& next.process.tasks.len() >= self.process.tasks.len()
        &&& forall|t: int|
            0 <= t < self.process.tasks.len() ==> (#[trigger] next.process.tasks[t]).start_time
                == self.process.tasks[t].start_time && next.process.tasks[t].syscall_times
                == self.process.tasks[t].syscall_times
    }

    /// The operations on the address space and on the tables leave the start times alone.
    proof fn lemma_start_times_tables(self, op: Op)
        requires
            self.wf(),
            self.admits(op),
            op is Spawn || op is Schedule || op is MutexCreate || op is SemaphoreCreate
                || op is CondvarCreate || op is EnableDeadlockDetect || op is Mmap
                || op is Munmap || op is Sbrk,
        ensures
            self.same_start_times(self.apply(op)),
    {
    }

    /// The operations that move the running task leave the start times alone.
    proof fn lemma_start_times_moves(self, op: Op)
        requires
            self.wf(),
            self.admits(op),
            op is AddTask || op is Yield || op is Exit || op is Sleep,
        ensures
            self.same_start_times(self.apply(op)),
    {
    }

    /// The operations on mutexes leave the start times alone.
    proof fn lemma_start_times_mutex(self, op: Op)
        requires
            self.wf(),
            self.admits(op),
            op is MutexLock || op is MutexUnlock,
        ensures
            self.same_start_times(self.apply(op)),
    {
        self.lemma_waiters(op);
    }

    /// The operations on semaphores leave the start times alone.
    proof fn lemma_start_times_semaphore(self, op: Op)
        requires
            self.wf(),
            self.admits(op),
            op is SemaphoreUp || op is SemaphoreDown,
        ensures
            self.same_start_times(self.apply(op)),
    {
        self.lemma_waiters(op);
    }

    /// A retry of the running task leaves the start times alone.
    proof fn lemma_start_times_retry(self)
        requires
            self.wf(),
            self.current is Some,
        ensures
            self.same_start_times(self.retry_pending()),
    {
        self.lemma_current_detached();
        assert(self.task_ok(self.current->0 as int));
    }

    /// The operations on condition variables leave the start times alone.
    proof fn lemma_start_times_condvar(self, op: Op)
        requires
            self.wf(),
            self.admits(op),
            op is CondvarSignal || op is CondvarWait,
        ensures
            self.same_start_times(self.apply(op)),
    {
        self.lemma_waiters(op);
    }

    /// The start time of a task is set once, by the round of the dispatch
    /// loop that lets the task run for the first time, and never changes after.
    pub proof fn lemma_start_time_set_once(self, op: Op, t: usize)
        requires
            self.wf(),
            self.admits(op),
            t < self.process.tasks.len(),
        ensures
            t < self.apply(op).process.tasks.len(),
            self.process.tasks[t as int].start_time is Some ==> self.apply(
                op,
            ).process.tasks[t as int].start_time == self.process.tasks[t as int].start_time,
            self.process.tasks[t as int].start_time is None && self.apply(
                op,
            ).process.tasks[t as int].start_time is Some ==> op is RunTasks && self.apply(
                op,
            ).current == Some(t) && self.apply(op).process.tasks[t as int].start_time == Some(
                op->RunTasks_0,
            ),
            self.process.tasks[t as int].start_time is None && op is RunTasks && self.ready.len()
                > 0 && self.ready[0] == t ==> self.apply(op).process.tasks[t as int].start_time
                == Some(op->RunTasks_0),
    {
        let next = self.apply(op);
        match op {
            Op::CheckTimer(now_ms) => {
                self.lemma_check_timer(now_ms);
                assert(next.process.tasks[t as int].start_time
                    == self.process.tasks[t as int].start_time);
            },
            Op::RunTasks(now_us) => {
                self.lemma_run_tasks_start_time(now_us, t);
            },
            Op::AddTask(_) | Op::Yield | Op::Exit(_) | Op::Sleep(_) => {
                self.lemma_start_times_moves(op);
                assert(next.process.tasks[t as int].start_time
                    == self.process.tasks[t as int].start_time);
            },
            Op::MutexLock(_) | Op::MutexUnlock(_) => {
                self.lemma_start_times_mutex(op);
                assert(next.process.tasks[t as int].start_time
                    == self.process.tasks[t as int].start_time);
            },
            Op::SemaphoreUp(_) | Op::SemaphoreDown(_) => {
                self.lemma_start_times_semaphore(op);
                assert(next.process.tasks[t as int].start_time
                    == self.process.tasks[t as int].start_time);
            },
            Op::CondvarSignal(_) | Op::CondvarWait(_, _) => {
                self.lemma_start_times_condvar(op);
                assert(next.process.tasks[t as int].start_time
                    == self.process.tasks[t as int].start_time);
            },
            Op::CountSyscall(_) => {},
            Op::RetryPending => {
                self.lemma_start_times_retry();
                assert(next.process.tasks[t as int].start_time
                    == self.process.tasks[t as int].start_time);
            },
            _ => {
                self.lemma_start_times_tables(op);
                assert(next.process.tasks[t as int].start_time
                    == self.process.tasks[t as int].start_time);
            },
        }
    }

    /// The count of a syscall of a task never goes down: it goes up by one
    /// when that syscall is counted for the task while it runs, and stays as
    /// it is in every other operation.
    pub proof fn lemma_syscall_counts(self, op: Op, t: usize, id: usize)
        requires
            self.wf(),
            self.admits(op),
            t < self.process.tasks.len(),
            id < MAX_SYSCALL_NUM,
        ensures
            t < self.apply(op).process.tasks.len(),
            self.apply(op).process.tasks[t as int].syscall_times[id as int]
                == self.process.tasks[t as int].syscall_times[id as int] + if op
                == Op::CountSyscall(id) && self.current == Some(t) {
                1int
            } else {
                0int
            },
    {
        let next = self.apply(op);
        self.lemma_tasks_stay(op);
        match op {
            Op::CheckTimer(now_ms) => {
                self.lemma_check_timer(now_ms);
                assert(next.process.tasks[t as int].syscall_times
                    == self.process.tasks[t as int].syscall_times);
            },
            Op::RunTasks(now_us) => {
                self.lemma_run_tasks_start_time(now_us, t);
            },
            Op::AddTask(_) | Op::Yield | Op::Exit(_) | Op::Sleep(_) => {
                self.lemma_start_times_moves(op);
                assert(next.process.tasks[t as int].syscall_times
                    == self.process.tasks[t as int].syscall_times);
            },
            Op::MutexLock(_) | Op::MutexUnlock(_) => {
                self.lemma_start_times_mutex(op);
                assert(next.process.tasks[t as int].syscall_times
                    == self.process.tasks[t as int].syscall_times);
            },
            Op::SemaphoreUp(_) | Op::SemaphoreDown(_) => {
                self.lemma_start_times_semaphore(op);
                assert(next.process.tasks[t as int].syscall_times
                    == self.process.tasks[t as int].syscall_times);
            },
            Op::CondvarSignal(_) | Op::CondvarWait(_, _) => {
                self.lemma_start_times_condvar(op);
                assert(next.process.tasks[t as int].syscall_times
                    == self.process.tasks[t as int].syscall_times);
            },
            Op::RetryPending => {
                self.lemma_start_times_retry();
                assert(next.process.tasks[t as int].syscall_times
                    == self.process.tasks[t as int].syscall_times);
            },
            Op::CountSyscall(id2) => {
                let cur = self.current->0;
                let a = self.process.tasks[cur as int].syscall_times;
                let b = vstd::array::spec_array_update(
                    a,
                    id2 as int,
                    (a[id2 as int] + 1) as u32,
                );
                assert(b@ == a@.update(id2 as int, (a[id2 as int] + 1) as u32));
                assert(b[id as int] == b@[id as int]);
                assert(a[id as int] == a@[id as int]);
            },
            _ => {
                self.lemma_start_times_tables(op);
                assert(next.process.tasks[t as int].syscall_times
                    == self.process.tasks[t as int].syscall_times);
            },
        }
    }

    /// What a round of the dispatch loop does to the start time of a task.
    proof fn lemma_run_tasks_start_time(self, now_us: usize, t: usize)
        requires
            self.wf(),
            self.current is None,
            t < self.process.tasks.len(),
        ensures
            t < self.run_tasks(now_us).process.tasks.len(),
            self.process.tasks[t as int].start_time is Some ==> self.run_tasks(
                now_us,
            ).process.tasks[t as int].start_time == self.process.tasks[t as int].start_time,
            self.process.tasks[t as int].start_time is None ==> self.run_tasks(
                now_us,
            ).process.tasks[t as int].start_time == if self.ready.len() > 0 && self.ready[0]
                == t {
                Some(now_us)
            } else {
                None
            },
            self.run_tasks(now_us).process.tasks[t as int].syscall_times
                == self.process.tasks[t as int].syscall_times,
    {
        if self.ready.len() > 0 {
            lemma_pop_ready(self);
        }
    }

    /// Whatever operations are made, a start time that is set stays as it is.
    pub proof fn lemma_start_time_kept(self, ops: Seq<Op>, t: usize)
        requires
            self.wf(),
            self.admits_all(ops),
            t < self.process.tasks.len(),
            self.process.tasks[t as int].start_time is Some,
        ensures
            t < self.run(ops).process.tasks.len(),
            self.run(ops).process.tasks[t as int].start_time
                == self.process.tasks[t as int].start_time,
        decreases ops.len(),
    {
        if ops.len() > 0 {
            self.lemma_start_time_kept(ops.drop_last(), t);
            self.lemma_run_wf(ops.drop_last());
            self.run(ops.drop_last()).lemma_start_time_set_once(ops.last(), t);
        }
    }

    /// The elapsed time that a query reports for the running task does not
    /// decrease from one query to a later one, whatever was done in between,
    /// as long as the same task is asked about.
    pub proof fn lemma_elapsed_monotone(self, ops: Seq<Op>, now1: usize, now2: usize)
        requires
            self.wf(),
            self.admits_all(ops),
            self.current is Some,
            self.run(ops).current == self.current,
            self.current_start_time() <= now1 <= now2,
        ensures
            self.run(ops).current_start_time() == self.current_start_time(),
            self.elapsed_ms(now1) <= self.run(ops).elapsed_ms(now2),
    {
        let t = self.current->0;
        assert(self.task_ok(t as int));
        self.lemma_start_time_kept(ops, t);
    }
}

impl KernelView {
    /// How the status of a task may change in one operation: an exited task
    /// stays exited; a task comes to run only from the front of the ready
    /// queue, by a round of the dispatch loop, and that round lets the task at
    /// the front run; and a task becomes blocked only as the running task.
    pub open spec fn status_step(self, op: Op, next: KernelView, t: int) -> bool {
        let before = self.process.tasks[t];
        let after = next.process.tasks[t];
        &&& before.task_status == TaskStatus::Exited ==> after.task_status == TaskStatus::Exited
        &&& after.task_status == TaskStatus::Running && before.task_status != TaskStatus::Running
            ==> op is RunTasks && before.task_status == TaskStatus::Ready && self.ready.len() > 0
            && self.ready[0] == t
        &&& op is RunTasks && self.ready.len() > 0 && self.ready[0] == t ==> after.task_status
            == TaskStatus::Running && next.current == Some(t as usize)
        &&& after.task_status == TaskStatus::Blocked && before.task_status != TaskStatus::Blocked
            ==> self.current == Some(t as usize) && before.task_status == TaskStatus::Running
        &&& after.task_status == TaskStatus::UnInit ==> before.task_status == TaskStatus::UnInit
    }

    /// Every task keeps to `status_step` in the operations on tables and
    /// on the address space, which leave the status of every task alone.
    proof fn lemma_status_tables(self, op: Op, t: usize)
        requires
            self.wf(),
            self.admits(op),
            t < self.process.tasks.len(),
            op is Spawn || op is Schedule || op is MutexCreate || op is SemaphoreCreate
                || op is CondvarCreate || op is EnableDeadlockDetect || op is CountSyscall
                || op is Mmap || op is Munmap || op is Sbrk,
        ensures
            self.apply(op).process.tasks[t as int].task_status
                == self.process.tasks[t as int].task_status,
    {
    }

    /// Every task keeps to `status_step` in the operations that move the running task.
    proof fn lemma_status_moves(self, op: Op, t: usize)
        requires
            self.wf(),
            self.admits(op),
            t < self.process.tasks.len(),
            op is AddTask || op is Yield || op is Exit || op is Sleep,
        ensures
            self.status_step(op, self.apply(op), t as int),
    {
        assert(self.task_ok(t as int));
        if self.current is Some {
            self.lemma_current_detached();
        }
    }

    /// Every task keeps to `status_step` in the operations on mutexes.
    proof fn lemma_status_mutex(self, op: Op, t: usize)
        requires
            self.wf(),
            self.admits(op),
            t < self.process.tasks.len(),
            op is MutexLock || op is MutexUnlock,
        ensures
            self.status_step(op, self.apply(op), t as int),
    {
        assert(self.task_ok(t as int));
        self.lemma_waiters(op);
        if self.current is Some {
            self.lemma_current_detached();
        }
    }

    /// Every task keeps to `status_step` in the operations on semaphores.
    proof fn lemma_status_semaphore(self, op: Op, t: usize)
        requires
            self.wf(),
            self.admits(op),
            t < self.process.tasks.len(),
            op is SemaphoreUp || op is SemaphoreDown,
        ensures
            self.status_step(op, self.apply(op), t as int),
    {
        assert(self.task_ok(t as int));
        self.lemma_waiters(op);
        if self.current is Some {
            self.lemma_current_detached();
        }
    }

    /// Every task keeps to `status_step` in the operations on condition variables.
    proof fn lemma_status_condvar(self, op: Op, t: usize)
        requires
            self.wf(),
            self.admits(op),
            t < self.process.tasks.len(),
            op is CondvarSignal || op is CondvarWait,
        ensures
            self.status_step(op, self.apply(op), t as int),
    {
        assert(self.task_ok(t as int));
        self.lemma_waiters(op);
        if self.current is Some {
            self.lemma_current_detached();
        }
    }

    /// Every task keeps to `status_step` in a round of the dispatch loop.
    proof fn lemma_status_run_tasks(self, now_us: usize, t: usize)
        requires
            self.wf(),
            self.current is None,
            t < self.process.tasks.len(),
        ensures
            self.status_step(Op::RunTasks(now_us), self.run_tasks(now_us), t as int),
    {
        assert(self.task_ok(t as int));
        if self.ready.len() > 0 {
            lemma_pop_ready(self);
        }
    }

    /// Every task keeps to `status_step` in a retry of the running task.
    proof fn lemma_status_retry(self, t: usize)
        requires
            self.wf(),
            self.current is Some,
            t < self.process.tasks.len(),
        ensures
            self.status_step(Op::RetryPending, self.retry_pending(), t as int),
    {
        assert(self.task_ok(t as int));
        self.lemma_current_detached();
        assert(self.task_ok(self.current->0 as int));
    }

    /// The life cycle of a task: in every operation, every task keeps to `status_step`.
    pub proof fn lemma_life_cycle(self, op: Op, t: usize)
        requires
            self.wf(),
            self.admits(op),
            t < self.process.tasks.len(),
        ensures
            t < self.apply(op).process.tasks.len(),
            self.status_step(op, self.apply(op), t as int),
    {
        self.lemma_tasks_stay(op);
        match op {
            Op::CheckTimer(now_ms) => {
                self.lemma_check_timer(now_ms);
                assert(self.task_ok(t as int));
            },
            Op::RunTasks(now_us) => {
                self.lemma_status_run_tasks(now_us, t);
            },
            Op::RetryPending => {
                self.lemma_status_retry(t);
            },
            Op::AddTask(_) | Op::Yield | Op::Exit(_) | Op::Sleep(_) => {
                self.lemma_status_moves(op, t);
            },
            Op::MutexLock(_) | Op::MutexUnlock(_) => {
                self.lemma_status_mutex(op, t);
            },
            Op::SemaphoreUp(_) | Op::SemaphoreDown(_) => {
                self.lemma_status_semaphore(op, t);
            },
            Op::CondvarSignal(_) | Op::CondvarWait(_, _) => {
                self.lemma_status_condvar(op, t);
            },
            _ => {
                self.lemma_status_tables(op, t);
            },
        }
    }

    /// In the sequence `ops`, made from `self`, no instance of semaphore `s`
    /// is made up: every up of `s` is made by a task that holds an instance
    /// of it, and `s` is not created anew.
    pub open spec fn ups_return(self, ops: Seq<Op>, s: usize) -> bool
        decreases ops.len(),
    {
        if ops.len() == 0 {
            true
        } else {
            let k = self.run(ops.drop_last());
            let op = ops.last();
            &&& self.ups_return(ops.drop_last(), s)
            &&& !(op == Op::SemaphoreUp(s) && k.process.sem_alloc[k.current->0 as int][s as int]
                == 0)
            &&& !(op is SemaphoreCreate && first_free(k.process.semaphore_list) == s)
        }
    }

    /// Whatever downs and ups are made, as long as every up gives back an
    /// instance that a down took: the instances that are available and those
    /// that the tasks hold are together the instances that there were at first.
    pub proof fn lemma_pairs_conserve(self, ops: Seq<Op>, s: usize)
        requires
            self.wf(),
            self.admits_all(ops),
            s < self.process.semaphore_list.len(),
            self.ups_return(ops, s),
        ensures
            self.run(ops).wf(),
            s < self.run(ops).process.semaphore_list.len(),
            self.run(ops).process.sem_total[s as int] == self.process.sem_total[s as int],
            self.run(ops).process.sem_avail[s as int] + held_total(
                self.run(ops).process.sem_alloc,
                s as int,
            ) == self.process.sem_total[s as int],
        decreases ops.len(),
    {
        if ops.len() > 0 {
            let k = self.run(ops.drop_last());
            self.lemma_pairs_conserve(ops.drop_last(), s);
            k.lemma_total_kept(ops.last(), s);
            k.lemma_apply_wf(ops.last());
        }
        self.run(ops).lemma_instances_conserved(s);
    }
}

impl KernelView {
    /// What the creation of a mutex does: the new mutex takes the first free
    /// slot, which held no mutex, or a new slot at the end; it is free, has no
    /// holder and no waiters; and every other slot keeps its mutex and its
    /// holder. So every mutex still has at most one holder.
    pub proof fn lemma_create_mutex_fresh(self, blocking: bool)
        requires
            self.wf(),
        ensures
            ({
                let id = first_free(self.process.mutex_list);
                let old_len = self.process.mutex_list.len();
                let next = self.create_mutex(blocking).process;
                &&& 0 <= id <= old_len
                &&& forall|j: int| 0 <= j < id ==> (#[trigger] self.process.mutex_list[j]) is Some
                &&& id < old_len ==> self.process.mutex_list[id] is None
                    && self.process.mutex_alloc[id] is None
                &&& next.mutex_list.len() == if id < old_len { old_len } else { old_len + 1 }
                &&& next.mutex_alloc.len() == next.mutex_list.len()
                &&& next.mutex_list[id] == Some(
                    crate::sync::mutex::MutexView {
                        blocking,
                        locked: false,
                        wait_queue: Seq::empty(),
                    },
                )
                &&& next.mutex_alloc[id] is None
                &&& forall|m: int|
                    0 <= m < old_len && m != id ==> #[trigger] next.mutex_list[m]
                        == self.process.mutex_list[m] && next.mutex_alloc[m]
                        == self.process.mutex_alloc[m]
                &&& next.tasks == self.process.tasks
                &&& next.mutex_request == self.process.mutex_request
            }),
    {
        crate::steps::lemma_first_free(self.process.mutex_list);
        let id = first_free(self.process.mutex_list);
        if id < self.process.mutex_list.len() {
            assert(self.mutex_ok(id));
        }
    }

    /// What the creation of a semaphore with `res_count` instances does: the
    /// new semaphore takes the first free slot, or a new slot at the end; its
    /// count is `res_count` and it has no waiters; `res_count` instances are
    /// available, no task holds any, and so many exist; and every other slot
    /// keeps its semaphore and its counts.
    pub proof fn lemma_create_semaphore_fresh(self, res_count: usize)
        requires
            self.wf(),
        ensures
            ({
                let id = first_free(self.process.semaphore_list);
                let old_len = self.process.semaphore_list.len();
                let next = self.create_semaphore(res_count).process;
                &&& 0 <= id <= old_len
                &&& forall|j: int|
                    0 <= j < id ==> (#[trigger] self.process.semaphore_list[j]) is Some
                &&& id < old_len ==> self.process.semaphore_list[id] is None
                &&& next.semaphore_list.len() == if id < old_len { old_len } else { old_len + 1 }
                &&& next.semaphore_list[id] == Some(
                    crate::sync::semaphore::SemaphoreView {
                        count: res_count,
                        wait_queue: Seq::empty(),
                    },
                )
                &&& next.sem_avail[id] == res_count
                &&& next.sem_total[id] == res_count
                &&& next.sem_alloc.len() == self.process.tasks.len()
                &&& forall|t: int|
                    0 <= t < self.process.tasks.len() ==> (#[trigger] next.sem_alloc[t]).len()
                        == next.semaphore_list.len() && next.sem_alloc[t][id] == 0
                &&& held_total(next.sem_alloc, id) == 0
                &&& next.sem_avail[id] + held_total(next.sem_alloc, id) == res_count
                &&& forall|s: int|
                    0 <= s < old_len && s != id ==> #[trigger] next.semaphore_list[s]
                        == self.process.semaphore_list[s] && next.sem_avail[s]
                        == self.process.sem_avail[s] && next.sem_total[s]
                        == self.process.sem_total[s]
                &&& forall|t: int, s: int|
                    0 <= t < self.process.tasks.len() && 0 <= s < old_len && s != id
                        ==> #[trigger] next.sem_alloc[t][s] == self.process.sem_alloc[t][s]
                &&& next.tasks == self.process.tasks
                &&& next.sem_request == self.process.sem_request
            }),
    {
        crate::steps::lemma_first_free(self.process.semaphore_list);
        let id = first_free(self.process.semaphore_list);
        let next = self.create_semaphore(res_count).process;
        let n = self.process.tasks.len();
        assert forall|t: int| 0 <= t < n implies (#[trigger] next.sem_alloc[t]).len()
            == next.semaphore_list.len() && next.sem_alloc[t][id] == 0 by {
            assert(self.process.sem_alloc[t].len() == self.process.semaphore_list.len());
            if id < self.process.semaphore_list.len() {
                assert(self.semaphore_ok(id));
                assert(crate::deadlock::held_by(self.process.sem_alloc, t, id) == 0);
            }
        }
        assert forall|u: int| 0 <= u < n implies crate::deadlock::held_by(next.sem_alloc, u, id)
            == 0 by {
            assert(next.sem_alloc[u][id] == 0);
        }
        crate::deadlock::lemma_held_zero(next.sem_alloc, id, n);
        assert forall|t: int, s: int|
            0 <= t < n && 0 <= s < self.process.semaphore_list.len() && s
                != id implies #[trigger] next.sem_alloc[t][s] == self.process.sem_alloc[t][s] by {
            assert(self.process.sem_alloc[t].len() == self.process.semaphore_list.len());
        }
    }
}

} // verus!
