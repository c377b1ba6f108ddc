//! The system calls of the kernel, as transitions of the kernel state.

pub mod process;
pub mod sync;
