//! Verified core of a monorepo task-ordering tool: a directed dependency
//! graph with cycle-detecting topological ordering, a manifest model, and
//! workspace discovery over a pure snapshot of the directory tree.
pub mod cli;
pub mod config;
pub mod dependency_graph;
pub mod error;
pub mod package_json;
pub mod project;
