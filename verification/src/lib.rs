//! Worktrees for git repositories that start out with a copy-on-write clone of
//! everything git ignores.

pub mod bytes;
pub mod clonefile;
pub mod commands;
pub mod config;
pub mod course;
pub mod create;
pub mod path;
pub mod progress;
pub mod remove;
pub mod repo;
pub mod scrub;
pub mod stage;
pub mod steps;
pub mod text;
