//! The records that a task manager hands over.

pub mod task;
