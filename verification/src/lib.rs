//! Dead-code analysis for Python projects: report types, project
//! configuration, and reachability over an index of symbols.

pub mod text;
pub mod report;
pub mod config;
pub mod order;
pub mod index;
pub mod tables;
pub mod hierarchy;
pub mod flow;
pub mod resolve;
pub mod pool;
pub mod reach;
pub mod reexports;
pub mod scan;
pub mod metadata;
pub mod analysis;
pub mod diagnostics;
pub mod paths;
pub mod project;
pub mod cli;
pub mod errors;
pub mod allow;
pub mod types;
pub mod syntax;
pub mod reader;
pub mod root_order;
pub mod collect;
pub mod roots;
pub mod sources;
pub mod call_results;
