//! The address space of a process: frames, mapped regions and translation.

pub mod frame_allocator;
pub mod memory_set;
