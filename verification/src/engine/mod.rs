//! The engine: the task graph, what it is expected to cost, and the state machine that runs it.

pub mod eta;
pub mod exec;
pub mod graph;
pub mod order;
pub mod progress;
pub mod report;
pub mod run;
pub mod scheduler;
pub mod trace;
