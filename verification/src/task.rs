//! Tasks, the process that owns them, the ready queue and the processor.

pub mod context;
pub mod manager;
pub mod process;
pub mod processor;
pub mod task;
