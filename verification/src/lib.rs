//! An incremental artifact runtime: content-addressed nodes, a task graph, artifact adapters and
//! the rules that decide what has to be recomputed.

pub mod adapter;
pub mod bench;
pub mod cli;
pub mod code;
pub mod doc;
pub mod engine;
pub mod figures;
pub mod identity;
pub mod impact;
pub mod json;
pub mod maps;
pub mod names;
pub mod orchestrator;
pub mod reach;
pub mod server;
pub mod sheets;
pub mod slides;
pub mod splice;
pub mod store;
pub mod text;
pub mod utf8;
pub mod wording;
