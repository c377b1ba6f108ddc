//! The process: its tasks, its address space, the tables of its
//! synchronization objects and the bookkeeping of the deadlock detectors.

use vstd::prelude::*;
use crate::mm::memory_set::{MemorySet, MemorySetView};
use crate::sync::condvar::{Condvar, CondvarView};
use crate::sync::mutex::{Mutex, MutexView};
use crate::sync::semaphore::{Semaphore, SemaphoreView};
use crate::task::task::TaskControlBlock;

verus! {

/// A process.
#[derive(Debug)]
pub struct Process {
    /// The tasks of the process, by task id.
    pub tasks: Vec<TaskControlBlock>,
    /// The address space.
    pub memory_set: MemorySet,
    /// The mutexes, by handle; a free slot is `None`.
    pub mutex_list: Vec<Option<Mutex>>,
    /// The semaphores, by handle.
    pub semaphore_list: Vec<Option<Semaphore>>,
    /// The condition variables, by handle.
    pub condvar_list: Vec<Option<Condvar>>,
    /// The task that holds each mutex, by mutex id.
    pub mutex_alloc: Vec<Option<usize>>,
    /// The mutex that each task has asked for, by task id.
    pub mutex_request: Vec<Option<usize>>,
    /// The instances of each semaphore that nobody holds, by semaphore id.
    pub sem_avail: Vec<usize>,
    /// The instances that each task holds: by task id, then by semaphore id.
    pub sem_alloc: Vec<Vec<usize>>,
    /// The semaphore that each task waits for, by task id.
    pub sem_request: Vec<Option<usize>>,
    /// The instances that exist of each semaphore, by semaphore id.
    pub sem_total: Vec<usize>,
    /// Whether a lock or a down is checked for deadlock first.
    pub deadlock_detection_enabled: bool,
}

/// The mathematical value of a process.
pub struct ProcessView {
    pub tasks: Seq<TaskControlBlock>,
    pub memory_set: MemorySetView,
    pub mutex_list: Seq<Option<MutexView>>,
    pub semaphore_list: Seq<Option<SemaphoreView>>,
    pub condvar_list: Seq<Option<CondvarView>>,
    pub mutex_alloc: Seq<Option<usize>>,
    pub mutex_request: Seq<Option<usize>>,
    pub sem_avail: Seq<usize>,
    pub sem_alloc: Seq<Seq<usize>>,
    pub sem_request: Seq<Option<usize>>,
    pub sem_total: Seq<usize>,
    pub deadlock_detection_enabled: bool,
}

/// The value of a mutex slot.
pub open spec fn mutex_slot_view(slot: Option<Mutex>) -> Option<MutexView> {
    match slot {
        Some(m) => Some(m@),
        None => None,
    }
}

/// The value of a semaphore slot.
pub open spec fn semaphore_slot_view(slot: Option<Semaphore>) -> Option<SemaphoreView> {
    match slot {
        Some(s) => Some(s@),
        None => None,
    }
}

/// The value of a condition variable slot.
pub open spec fn condvar_slot_view(slot: Option<Condvar>) -> Option<CondvarView> {
    match slot {
        Some(c) => Some(c@),
        None => None,
    }
}

impl View for Process {
    type V = ProcessView;

    open spec fn view(&self) -> ProcessView {
        ProcessView {
            tasks: self.tasks@,
            memory_set: self.memory_set@,
            mutex_list: Seq::new(
                self.mutex_list.len() as nat,
                |i: int| mutex_slot_view(self.mutex_list[i]),
            ),
            semaphore_list: Seq::new(
                self.semaphore_list.len() as nat,
                |i: int| semaphore_slot_view(self.semaphore_list[i]),
            ),
            condvar_list: Seq::new(
                self.condvar_list.len() as nat,
                |i: int| condvar_slot_view(self.condvar_list[i]),
            ),
            mutex_alloc: self.mutex_alloc@,
            mutex_request: self.mutex_request@,
            sem_avail: self.sem_avail@,
            sem_alloc: Seq::new(self.sem_alloc.len() as nat, |t: int| self.sem_alloc[t]@),
            sem_request: self.sem_request@,
            sem_total: self.sem_total@,
            deadlock_detection_enabled: self.deadlock_detection_enabled,
        }
    }
}

} // verus!
