//! Dependency-graph extraction and build scheduling for a concurrent
//! front-end to `make`.
//!
//! The crate recovers a target graph from build-file text, resolves the
//! requested targets against it, plans the tasks that a request needs, and
//! decides, step by step, which task may run next.

pub mod command;
pub mod edges;
pub mod grammar;
pub mod graph;
pub mod insertion;
pub mod name;
pub mod parse;
pub mod plan;
pub mod progress;
pub mod resolve;
pub mod scheduler;
pub mod text;
