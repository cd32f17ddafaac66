//! The task form of the virtual machine: each task names itself in the events
//! it reports, keeps its slots in a vector indexed by slot number, and hands
//! the outputs of a user-defined function back to its caller. It shares the
//! built-in and special functions of the virtual machine.

pub mod event;
pub mod instruction;
pub mod task;
