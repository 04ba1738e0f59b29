//! Slow commands that run in the background: a command gets an id at once, and when it has ended a
//! `<task_notification>` goes into a later turn. Everything is in memory.

pub mod manager;
pub mod task;
pub mod tools;
