//! Grove: a git worktree manager. This crate holds the verified core:
//! record escaping, id encoding, path and pattern logic, configuration
//! merging, the worktree registry and the decisions behind each command.

pub mod text;
pub mod porcelain;
pub mod ids;
pub mod paths;
pub mod glob;
pub mod template;
pub mod config;
pub mod git;
pub mod meta;
pub mod listing;
pub mod render;
pub mod commands;
pub mod summary;
pub mod cli;
pub mod shell;
