//! System calls for the life of a task, for time and accounting, and for
//! the address space.

use vstd::prelude::*;
use crate::config::{MAX_SYSCALL_NUM, PAGE_SIZE, TASK_INFO_SIZE, TIME_VAL_SIZE};
use crate::kernel::{Kernel, KernelView};
use crate::mm::memory_set::Segment;
use crate::steps::lemma_with_memory_set;
use crate::task::processor::{
    current_task_start_time, current_task_status, current_task_syscall_times, mmap_current_task,
    munmap_current_task,
};
use crate::task::task::{Pending, TaskStatus};

verus! {

/// A time: seconds and the microseconds within the second.
#[derive(Clone, Copy, Debug, PartialEq, Eq)]
pub struct TimeVal {
    pub sec: usize,
    pub usec: usize,
}

/// Information on a task.
#[derive(Clone, Copy, Debug)]
pub struct TaskInfo {
    /// The status of the task.
    pub status: TaskStatus,
    /// How often the task has made each syscall.
    pub syscall_times: [u32; MAX_SYSCALL_NUM],
    /// The time since the first dispatch of the task, in milliseconds.
    pub time: usize,
}

/// The time `us` microseconds as seconds and microseconds.
pub open spec fn time_val(us: usize) -> TimeVal {
    TimeVal { sec: us / 1_000_000, usec: us % 1_000_000 }
}

/// The permission bits of a mapping are valid: at least one of read (1),
/// write (2) and execute (4), and no other bit.
pub open spec fn valid_permission(perm: usize) -> bool {
    1 <= perm <= 7
}

impl KernelView {
    /// The time for which the running task has existed at `now_us`, in milliseconds.
    pub open spec fn elapsed_ms(self, now_us: usize) -> int {
        (now_us - self.current_start_time()) / 1_000
    }

    /// Whether a request to map `len` bytes at `start` with `perm` is granted.
    pub open spec fn mmap_granted(self, start: usize, len: usize, perm: usize) -> bool {
        &&& start % PAGE_SIZE == 0
        &&& valid_permission(perm)
        &&& self.process.memory_set.can_mmap(start, len)
    }

    /// Whether a request to unmap `len` bytes at `start` is granted.
    pub open spec fn munmap_granted(self, start: usize, len: usize) -> bool {
        &&& start % PAGE_SIZE == 0
        &&& self.process.memory_set.can_munmap(start, len)
    }
}

/// The running task exits with `exit_code`: it is marked as exited, what it
/// asked for is forgotten, and the processor is left idle.
pub fn sys_exit(kernel: &mut Kernel, exit_code: i32)
    requires
        old(kernel).wf(),
        old(kernel)@.calling(),
    ensures
        final(kernel).wf(),
        final(kernel)@ == old(kernel)@.exit_current(exit_code),
{
    kernel.exit_current(exit_code);
}

/// The running task gives up the processor: it becomes ready and goes to the
/// back of the ready queue. Returns 0.
pub fn sys_yield(kernel: &mut Kernel) -> (code: isize)
    requires
        old(kernel).wf(),
        old(kernel)@.calling(),
    ensures
        final(kernel).wf(),
        final(kernel)@ == old(kernel)@.enqueue_ready(old(kernel)@.current->0, Pending::Nothing),
        code == 0,
{
    let tid: usize = kernel.processor.current.unwrap();
    proof {
        kernel@.lemma_current_detached();
    }
    kernel.enqueue_ready(tid, Pending::Nothing);
    0
}

/// The time `now_us` as a time record for the user buffer at `ts`.
///
/// Returns the code, the record, and the physical ranges that the record is
/// to be stored in, one for each page that the buffer touches. The code is 0,
/// or -1, with no ranges, when the buffer does not lie in mapped memory.
pub fn sys_get_time(kernel: &Kernel, ts: usize, tz: usize, now_us: usize) -> (res: (
    isize,
    TimeVal,
    Vec<Segment>,
))
    requires
        kernel.wf(),
    ensures
        res.1 == time_val(now_us),
        kernel@.process.memory_set.buffer_mapped(ts, TIME_VAL_SIZE) ==> res.0 == 0 && res.2@
            == kernel@.process.memory_set.segments(ts, TIME_VAL_SIZE),
        !kernel@.process.memory_set.buffer_mapped(ts, TIME_VAL_SIZE) ==> res.0 == -1
            && res.2@.len() == 0,
{
    let value = TimeVal { sec: now_us / 1_000_000, usec: now_us % 1_000_000 };
    match kernel.process.memory_set.translated_byte_buffer(ts, TIME_VAL_SIZE) {
        Some(segs) => (0, value, segs),
        None => (-1, value, Vec::new()),
    }
}

/// Information on the running task at the time `now_us`, for the user
/// buffer at `ti`.
///
/// Returns the code, the record, and the physical ranges that the record is
/// to be stored in, one for each page that the buffer touches. The code is 0,
/// or -1, with no ranges, when the buffer does not lie in mapped memory.
pub fn sys_task_info(kernel: &Kernel, ti: usize, now_us: usize) -> (res: (
    isize,
    TaskInfo,
    Vec<Segment>,
))
    requires
        kernel.wf(),
        kernel@.current is Some,
        kernel@.current_start_time() <= now_us,
    ensures
        res.1.status == TaskStatus::Running,
        res.1.syscall_times == kernel@.process.tasks[kernel@.current->0 as int].syscall_times,
        res.1.time == kernel@.elapsed_ms(now_us),
        kernel@.process.memory_set.buffer_mapped(ti, TASK_INFO_SIZE) ==> res.0 == 0 && res.2@
            == kernel@.process.memory_set.segments(ti, TASK_INFO_SIZE),
        !kernel@.process.memory_set.buffer_mapped(ti, TASK_INFO_SIZE) ==> res.0 == -1
            && res.2@.len() == 0,
{
    let value = TaskInfo {
        status: current_task_status(kernel),
        syscall_times: current_task_syscall_times(kernel),
        time: (now_us - current_task_start_time(kernel)) / 1_000,
    };
    match kernel.process.memory_set.translated_byte_buffer(ti, TASK_INFO_SIZE) {
        Some(segs) => (0, value, segs),
        None => (-1, value, Vec::new()),
    }
}

/// Maps `len` bytes at the address `start` into the address space of the
/// running task, with the permission bits `perm`.
///
/// Returns -1 and changes nothing when `start` is not page-aligned, when
/// `perm` has a bit other than the low three or none of them, when the range
/// does not end within the address space, when one of its pages is mapped
/// already, or when the frames do not suffice. Otherwise every page that the
/// range touches gets a frame, and 0 is returned.
pub fn sys_mmap(kernel: &mut Kernel, start: usize, len: usize, perm: usize) -> (code: isize)
    requires
        old(kernel).wf(),
        old(kernel)@.current is Some,
    ensures
        final(kernel).wf(),
        old(kernel)@.mmap_granted(start, len, perm) ==> code == 0 && final(kernel)@ == old(
            kernel,
        )@.with_memory_set(old(kernel)@.process.memory_set.mmap(start, len, perm)),
        !old(kernel)@.mmap_granted(start, len, perm) ==> code == -1 && final(kernel)@ == old(
            kernel,
        )@,
{
    if start % PAGE_SIZE != 0 {
        return -1;
    }
    assert((perm & !0x7usize != 0) <==> perm > 7) by (bit_vector);
    if perm & !0x7 != 0 {
        return -1;
    }
    assert((!perm & 0x7usize == 7) <==> (perm & 0x7usize == 0)) by (bit_vector);
    assert(perm <= 7 ==> ((perm & 0x7usize == 0) <==> perm == 0)) by (bit_vector);
    if !perm & 0x7 == 7 {
        return -1;
    }
    let code = mmap_current_task(kernel, start, len, perm);
    proof {
        if code != 0 {
            assert(kernel@.process =~= old(kernel)@.process);
        }
    }
    code
}

/// Unmaps `len` bytes at the address `start` from the address space of the
/// running task.
///
/// Returns -1 and changes nothing when `start` is not page-aligned, when the
/// range does not end within the address space, or when one of its pages is
/// not mapped. Otherwise every page that the range touches loses its frame,
/// and 0 is returned.
pub fn sys_munmap(kernel: &mut Kernel, start: usize, len: usize) -> (code: isize)
    requires
        old(kernel).wf(),
        old(kernel)@.current is Some,
    ensures
        final(kernel).wf(),
        old(kernel)@.munmap_granted(start, len) ==> code == 0 && final(kernel)@ == old(
            kernel,
        )@.with_memory_set(old(kernel)@.process.memory_set.munmap(start, len)),
        !old(kernel)@.munmap_granted(start, len) ==> code == -1 && final(kernel)@ == old(kernel)@,
{
    if start % PAGE_SIZE != 0 {
        return -1;
    }
    let code = munmap_current_task(kernel, start, len);
    proof {
        if code != 0 {
            assert(kernel@.process =~= old(kernel)@.process);
        }
    }
    code
}

/// Moves the program break of the running task by `size` bytes and returns
/// the old break. Returns -1 and changes nothing when the new break would be
/// below the bottom of the heap or beyond the address space, when a page
/// that the heap would gain is mapped already or has no frame left, or when
/// a page that it would lose is not mapped.
pub fn sys_sbrk(kernel: &mut Kernel, size: i32) -> (code: isize)
    requires
        old(kernel).wf(),
        old(kernel)@.current is Some,
        old(kernel)@.process.memory_set.program_brk <= isize::MAX,
    ensures
        final(kernel).wf(),
        final(kernel)@ == old(kernel)@.with_memory_set(
            old(kernel)@.process.memory_set.sbrk(size as int),
        ),
        code == if old(kernel)@.process.memory_set.can_sbrk(size as int) {
            old(kernel)@.process.memory_set.program_brk as isize
        } else {
            -1isize
        },
{
    let old_brk = kernel.process.memory_set.change_program_brk(size);
    proof {
        lemma_with_memory_set(old(kernel)@, kernel@.process.memory_set);
    }
    match old_brk {
        Some(brk) => brk as isize,
        None => -1,
    }
}

} // verus!
