//! The processor: which task runs, the idle control flow, and the dispatch
//! of the next ready task.

use vstd::prelude::*;
use crate::config::MAX_SYSCALL_NUM;
use crate::kernel::{Kernel, KernelView};
use crate::steps::{lemma_plain_updates, lemma_with_memory_set};
use crate::task::context::TaskContext;
use crate::task::process::Process;
use crate::task::task::{Pending, TaskStatus};

verus! {

/// The state of the one processor.
#[derive(Debug)]
pub struct Processor {
    /// The task that is running, if any.
    pub current: Option<usize>,
    /// The saved context of the idle control flow, which picks the next task.
    pub idle_task_cx: TaskContext,
}

impl Processor {
    /// A processor on which nothing runs.
    pub fn new() -> (p: Self)
        ensures
            p.current is None,
            p.idle_task_cx.ra == 0,
            p.idle_task_cx.sp == 0,
            forall|i: int| 0 <= i < 12 ==> p.idle_task_cx.s[i] == 0,
    {
        Self { current: None, idle_task_cx: TaskContext::zero_init() }
    }

    /// Takes the running task off the processor.
    pub fn take_current(&mut self) -> (tid: Option<usize>)
        ensures
            tid == old(self).current,
            final(self).current is None,
            final(self).idle_task_cx == old(self).idle_task_cx,
    {
        self.current.take()
    }

    /// The running task.
    pub fn current(&self) -> (tid: Option<usize>)
        ensures
            tid == self.current,
    {
        self.current
    }

    /// The running task of `process` exists.
    pub open spec fn runs_in(&self, process: &Process) -> bool {
        self.current matches Some(t) && t < process.tasks.len()
    }

    /// The time of the first dispatch of the running task, in microseconds;
    /// zero if it was never dispatched.
    pub fn get_current_tasks_start_time(&self, process: &Process) -> (start: usize)
        requires
            self.runs_in(process),
        ensures
            start == match process.tasks[self.current->0 as int].start_time {
                Some(t) => t,
                None => 0,
            },
    {
        match process.tasks[self.current.unwrap()].start_time {
            Some(t) => t,
            None => 0,
        }
    }

    /// How often the running task has made each syscall.
    pub fn get_syscall_times(&self, process: &Process) -> (times: [u32; MAX_SYSCALL_NUM])
        requires
            self.runs_in(process),
        ensures
            times == process.tasks[self.current->0 as int].syscall_times,
    {
        process.tasks[self.current.unwrap()].syscall_times
    }

    /// The status of the running task.
    pub fn get_current_task_status(&self, process: &Process) -> (status: TaskStatus)
        requires
            self.runs_in(process),
        ensures
            status == process.tasks[self.current->0 as int].task_status,
    {
        process.tasks[self.current.unwrap()].task_status
    }

    /// Counts one more syscall with the number `syscall_id` for the running task.
    pub fn add_current_syscall_times(&mut self, process: &mut Process, syscall_id: usize)
        requires
            old(self).runs_in(old(process)),
            syscall_id < MAX_SYSCALL_NUM,
            old(process).tasks[old(self).current->0 as int].syscall_times[syscall_id as int]
                < u32::MAX,
        ensures
            *final(self) == *old(self),
            final(process).memory_set == old(process).memory_set,
            final(process)@ == (KernelView {
                process: old(process)@,
                current: old(self).current,
                idle_task_cx: old(self).idle_task_cx,
                ready: Seq::empty(),
                timers: Seq::empty(),
            }).count_syscall(old(self).current->0, syscall_id).process,
    {
        let t: usize = self.current.unwrap();
        let count: u32 = process.tasks[t].syscall_times[syscall_id];
        process.tasks[t].syscall_times[syscall_id] = count + 1;
        proof {
            let target = (KernelView {
                process: old(process)@,
                current: old(self).current,
                idle_task_cx: old(self).idle_task_cx,
                ready: Seq::empty(),
                timers: Seq::empty(),
            }).count_syscall(t, syscall_id).process;
            assert(process@.tasks =~= target.tasks);
        }
    }

    /// Maps `len` bytes at `start` into the address space of the running task.
    pub fn mmap_current_task(
        &mut self,
        process: &mut Process,
        start: usize,
        len: usize,
        perm: usize,
    ) -> (code: isize)
        requires
            old(self).runs_in(old(process)),
            old(process).memory_set.wf(),
        ensures
            *final(self) == *old(self),
            final(process).memory_set.wf(),
            final(process).memory_set@ == old(process).memory_set@.mmap(start, len, perm),
            code == if old(process).memory_set@.can_mmap(start, len) { 0isize } else { -1isize },
            final(process).tasks == old(process).tasks,
            final(process).mutex_list == old(process).mutex_list,
            final(process).semaphore_list == old(process).semaphore_list,
            final(process).condvar_list == old(process).condvar_list,
            final(process).mutex_alloc == old(process).mutex_alloc,
            final(process).mutex_request == old(process).mutex_request,
            final(process).sem_avail == old(process).sem_avail,
            final(process).sem_alloc == old(process).sem_alloc,
            final(process).sem_request == old(process).sem_request,
            final(process).sem_total == old(process).sem_total,
            final(process).deadlock_detection_enabled == old(process).deadlock_detection_enabled,
    {
        process.memory_set.mmap(start, len, perm)
    }

    /// Unmaps `len` bytes at `start` from the address space of the running task.
    pub fn munmap_current_task(&mut self, process: &mut Process, start: usize, len: usize) -> (code:
        isize)
        requires
            old(self).runs_in(old(process)),
            old(process).memory_set.wf(),
        ensures
            *final(self) == *old(self),
            final(process).memory_set.wf(),
            final(process).memory_set@ == old(process).memory_set@.munmap(start, len),
            code == if old(process).memory_set@.can_munmap(start, len) { 0isize } else { -1isize },
            final(process).tasks == old(process).tasks,
            final(process).mutex_list == old(process).mutex_list,
            final(process).semaphore_list == old(process).semaphore_list,
            final(process).condvar_list == old(process).condvar_list,
            final(process).mutex_alloc == old(process).mutex_alloc,
            final(process).mutex_request == old(process).mutex_request,
            final(process).sem_avail == old(process).sem_avail,
            final(process).sem_alloc == old(process).sem_alloc,
            final(process).sem_request == old(process).sem_request,
            final(process).sem_total == old(process).sem_total,
            final(process).deadlock_detection_enabled == old(process).deadlock_detection_enabled,
    {
        process.memory_set.munmap(start, len)
    }
}

impl KernelView {
    /// One round of the dispatch loop: the first ready task, if any, is taken
    /// off the ready queue and runs.
    pub open spec fn run_tasks(self, now_us: usize) -> KernelView {
        if self.ready.len() == 0 {
            self
        } else {
            self.pop_ready().dispatch(self.ready[0], now_us)
        }
    }

    /// The time of the first dispatch of the running task.
    pub open spec fn current_start_time(self) -> usize {
        match self.process.tasks[self.current->0 as int].start_time {
            Some(t) => t,
            None => 0,
        }
    }
}

/// One round of the dispatch loop, run by the idle control flow at the time
/// `now_us`. The task at the front of the ready queue is taken off the queue
/// and runs: it is marked as running, it gets `now_us` as its start time if
/// it has none yet, and the processor names it. Nothing else changes.
/// Returns the saved context of that task, to switch to, or `None`, with
/// nothing changed, when no task is ready.
///
/// A task that was woken in the middle of a lock, a down or a wait runs with
/// its request still pending; `retry_pending` serves it.
pub fn run_tasks(kernel: &mut Kernel, now_us: usize) -> (next: Option<TaskContext>)
    requires
        old(kernel).wf(),
        old(kernel)@.current is None,
    ensures
        final(kernel).wf(),
        final(kernel)@ == old(kernel)@.run_tasks(now_us),
        old(kernel)@.ready.len() == 0 ==> next is None && final(kernel)@ == old(kernel)@,
        old(kernel)@.ready.len() > 0 ==> final(kernel)@ == old(kernel)@.pop_ready().dispatch(
            old(kernel)@.ready[0],
            now_us,
        ) && next == Some(old(kernel)@.process.tasks[old(kernel)@.ready[0] as int].task_cx)
            && final(kernel)@.current == Some(old(kernel)@.ready[0]),
{
    match kernel.pop_ready() {
        None => None,
        Some(t) => {
            kernel.dispatch(t, now_us);
            Some(kernel.process.tasks[t].task_cx)
        },
    }
}

/// Takes the running task off the processor and returns its id. The task
/// keeps its status: the caller gives it its new status and queue.
pub fn take_current_task(kernel: &mut Kernel) -> (tid: Option<usize>)
    ensures
        tid == old(kernel)@.current,
        final(kernel)@ == (KernelView { current: None, ..old(kernel)@ }),
        final(kernel).process.memory_set == old(kernel).process.memory_set,
{
    kernel.processor.take_current()
}

/// The id of the running task.
pub fn current_task(kernel: &Kernel) -> (tid: Option<usize>)
    ensures
        tid == kernel@.current,
{
    kernel.processor.current()
}

/// The token of the address space of the running task.
pub fn current_user_token(kernel: &Kernel) -> (token: usize)
    requires
        kernel@.current is Some,
    ensures
        token == kernel@.process.memory_set.token,
{
    kernel.process.memory_set.token()
}

/// The time of the first dispatch of the running task, in microseconds.
pub fn current_task_start_time(kernel: &Kernel) -> (start: usize)
    requires
        kernel.wf(),
        kernel@.current is Some,
    ensures
        start == kernel@.current_start_time(),
        kernel@.process.tasks[kernel@.current->0 as int].start_time == Some(start),
{
    proof {
        assert(kernel@.task_ok(kernel@.current->0 as int));
    }
    kernel.processor.get_current_tasks_start_time(&kernel.process)
}

/// How often the running task has made each syscall.
pub fn current_task_syscall_times(kernel: &Kernel) -> (times: [u32; MAX_SYSCALL_NUM])
    requires
        kernel.wf(),
        kernel@.current is Some,
    ensures
        times == kernel@.process.tasks[kernel@.current->0 as int].syscall_times,
{
    kernel.processor.get_syscall_times(&kernel.process)
}

/// Counts one more syscall with the number `syscall_id` for the running task.
pub fn add_syscall_times(kernel: &mut Kernel, syscall_id: usize)
    requires
        old(kernel).wf(),
        old(kernel)@.current is Some,
        syscall_id < MAX_SYSCALL_NUM,
        old(kernel)@.process.tasks[old(kernel)@.current->0 as int].syscall_times[syscall_id as int]
            < u32::MAX,
    ensures
        final(kernel).wf(),
        final(kernel)@ == old(kernel)@.count_syscall(old(kernel)@.current->0, syscall_id),
{
    proof {
        lemma_plain_updates(
            kernel@,
            kernel@.current->0,
            kernel@.idle_task_cx,
            syscall_id,
            false,
        );
    }
    kernel.processor.add_current_syscall_times(&mut kernel.process, syscall_id);
}

/// The status of the task that the processor names as running. Where the
/// invariant of the kernel state holds, that status is `Running`.
pub fn current_task_status(kernel: &Kernel) -> (status: TaskStatus)
    requires
        kernel@.current is Some,
        kernel@.current->0 < kernel@.process.tasks.len(),
    ensures
        status == kernel@.process.tasks[kernel@.current->0 as int].task_status,
        kernel.wf() ==> status == TaskStatus::Running,
{
    kernel.processor.get_current_task_status(&kernel.process)
}

/// The physical address of the virtual address `ptr` in the address space of
/// the running task, whose page is mapped.
pub fn current_tranlated_physical_address(kernel: &Kernel, ptr: usize) -> (pa: usize)
    requires
        kernel.wf(),
        kernel@.current is Some,
        kernel@.process.memory_set.translate(ptr) is Some,
    ensures
        Some(pa) == kernel@.process.memory_set.translate(ptr),
{
    kernel.process.memory_set.translate(ptr).unwrap()
}

/// Maps `len` bytes at `start` into the address space of the running task.
/// Returns 0, or -1 with nothing changed when the bytes cannot be mapped.
pub fn mmap_current_task(kernel: &mut Kernel, start: usize, len: usize, perm: usize) -> (code: isize)
    requires
        old(kernel).wf(),
        old(kernel)@.current is Some,
    ensures
        final(kernel).wf(),
        final(kernel)@ == old(kernel)@.with_memory_set(
            old(kernel)@.process.memory_set.mmap(start, len, perm),
        ),
        code == if old(kernel)@.process.memory_set.can_mmap(start, len) { 0isize } else { -1isize },
{
    let code = kernel.processor.mmap_current_task(&mut kernel.process, start, len, perm);
    proof {
        lemma_with_memory_set(old(kernel)@, kernel@.process.memory_set);
    }
    code
}

/// Unmaps `len` bytes at `start` from the address space of the running task.
/// Returns 0, or -1 with nothing changed when the bytes are not all mapped.
pub fn munmap_current_task(kernel: &mut Kernel, start: usize, len: usize) -> (code: isize)
    requires
        old(kernel).wf(),
        old(kernel)@.current is Some,
    ensures
        final(kernel).wf(),
        final(kernel)@ == old(kernel)@.with_memory_set(
            old(kernel)@.process.memory_set.munmap(start, len),
        ),
        code == if old(kernel)@.process.memory_set.can_munmap(start, len) {
            0isize
        } else {
            -1isize
        },
{
    let code = kernel.processor.munmap_current_task(&mut kernel.process, start, len);
    proof {
        lemma_with_memory_set(old(kernel)@, kernel@.process.memory_set);
    }
    code
}

/// Returns to the idle control flow: stores `switched_task_cx` as the saved
/// context of the task `tid`, which has just stopped running, and returns
/// the context of the idle flow, to switch to.
pub fn schedule(kernel: &mut Kernel, tid: usize, switched_task_cx: TaskContext) -> (idle: TaskContext)
    requires
        old(kernel).wf(),
        tid < old(kernel)@.process.tasks.len(),
        old(kernel)@.current is None,
    ensures
        final(kernel).wf(),
        final(kernel)@ == old(kernel)@.with_task_cx(tid, switched_task_cx),
        idle == old(kernel)@.idle_task_cx,
{
    proof {
        lemma_plain_updates(kernel@, tid, switched_task_cx, 0, false);
    }
    kernel.process.tasks[tid].task_cx = switched_task_cx;
    kernel.processor.idle_task_cx
}

} // verus!
