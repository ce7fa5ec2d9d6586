//! The records that `goto` keeps. Times are nanoseconds since the Unix
//! epoch (negative before it), paths are strings.

use vstd::prelude::*;

verus! {

/// The kind of project a directory holds, judged by marker files.
#[derive(Debug, Clone, Copy, PartialEq, Eq, Structural)]
pub enum ProjectType {
    Git,
    Rust,
    Node,
    Python,
    Docker,
    Unknown,
}

/// An indexed directory.
#[derive(Debug, Clone)]
pub struct Directory {
    pub id: u64,
    pub path: String,
    pub name: String,
    pub depth: usize,
    pub last_seen: i128,
    pub project_type: ProjectType,
}

/// A visit of the directory with id `path_id`.
#[derive(Debug, Clone)]
pub struct VisitEvent {
    pub path_id: u64,
    pub timestamp: i128,
}

/// How often a query led to the directory with id `path_id`.
#[derive(Debug, Clone)]
pub struct QueryMapping {
    pub query: String,
    pub path_id: u64,
    pub count: u64,
}

/// A tag on the directory with id `path_id`.
#[derive(Debug, Clone)]
pub struct Tag {
    pub name: String,
    pub path_id: u64,
}

/// A workspace root.
#[derive(Debug, Clone)]
pub struct Workspace {
    pub path: String,
}

/// How many records a purge removed, per kind.
#[derive(Debug, Default, Clone, Copy)]
pub struct PurgeStats {
    pub directories: usize,
    pub visits: usize,
    pub query_mappings: usize,
    pub tags: usize,
    pub workspaces: usize,
}

} // verus!
