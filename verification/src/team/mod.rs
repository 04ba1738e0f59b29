//! The team: named agents that work side by side.

pub mod runtime;
