//! bytemaker: the verified core of a terminal coding agent.

pub mod agent;
pub mod background_tasks;
pub mod budget_laws;
pub mod builtins;
pub mod compact;
pub mod config;
pub mod cron_scheduler;
pub mod domain;
pub mod driver;
pub mod error;
pub mod eval;
pub mod frontmatter;
pub mod gate_laws;
pub mod goal;
pub mod hooks;
pub mod io;
pub mod json;
pub mod loop_laws;
pub mod memory;
pub mod output_laws;
pub mod pattern;
pub mod providers;
mod random;
pub mod render;
pub mod schedule_laws;
pub mod select;
pub mod skills;
pub mod task_system;
pub mod team;
pub mod text;
pub mod text_laws;
pub mod todo;
pub mod tools;
pub mod work_laws;
