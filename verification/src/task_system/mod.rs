//! The task graph: tasks that wait for other tasks, are claimed by an agent, and completed by it.

pub mod store;
pub mod task;
pub mod tools;
