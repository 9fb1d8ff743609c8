//! Tasks: control blocks, process identifiers and the ready queue.

pub mod context;
pub mod pid;
pub mod task;
pub mod manager;
pub mod processor;
pub mod lifecycle;
pub mod frames;
pub mod descriptors;
