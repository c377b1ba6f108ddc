//! A model of a small teaching kernel's concurrency and address-space core:
//! task scheduling on one core, mutexes, semaphores and condition variables
//! with deadlock detection, and the map / unmap operations of an address space.
//!
//! Every operation is a total state transition on an explicit kernel state,
//! and each contract says which state results and which code is returned.
//!
//! - `kernel` holds the state, its mathematical value and its invariant;
//! - `steps` holds the elementary transitions, `syscall` and
//!   `task::processor` the operations that are built from them;
//! - `deadlock` holds the two detectors;
//! - `mm` holds the address space;
//! - `machine` lists the operations and proves what holds of every state
//!   that they can reach.

pub mod block_dev;
pub mod config;
pub mod deadlock;
pub mod kernel;
pub mod machine;
pub mod mm;
pub mod steps;
pub mod sync;
pub mod syscall;
pub mod task;
pub mod timer;
