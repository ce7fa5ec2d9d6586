//! Directory navigation logic: query matching, path handling, ignore
//! rules, ranking features, storage record rules and the inline picker's
//! state transitions.

pub mod text;
pub mod matcher;
pub mod paths;
pub mod cli;
pub mod models;
pub mod project_detect;
pub mod config;
pub mod search;
pub mod ui;
pub mod storage;
pub mod workspace;
