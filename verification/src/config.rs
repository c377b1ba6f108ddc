//! Constants of the kernel.

use vstd::prelude::*;

verus! {

/// Number of distinct syscall numbers that are counted per task.
pub const MAX_SYSCALL_NUM: usize = 500;

/// Size of a page in bytes.
pub const PAGE_SIZE: usize = 0x1000;

/// Size in bytes of a time record in user memory: two machine words.
pub const TIME_VAL_SIZE: usize = 16;

/// Size in bytes of a task information record in user memory: the status in
/// one word, the syscall counts, and the running time in one word.
pub const TASK_INFO_SIZE: usize = 2016;

/// Code returned by a lock or a down that was refused because it would deadlock.
pub const DEADLOCK: isize = -0xdead;

} // verus!
