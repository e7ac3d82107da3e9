//! The command model of the driver: plain data that an argument parser in
//! the driver fills in.
use vstd::prelude::*;

verus! {

/// A top-level command.
#[derive(Debug)]
pub enum CLI {
    /// Interact with the tool's cache.
    Cache(Cache),
    /// Explore the workspaces in a project.
    Workspaces(Workspaces),
}

/// Cache subcommands.
#[derive(Debug)]
pub enum Cache {
    /// Clean the cache.
    Clean {},
}

/// Workspace subcommands.
#[derive(Debug)]
pub enum Workspaces {
    /// List the workspaces in a project.
    List {},
}

} // verus!
