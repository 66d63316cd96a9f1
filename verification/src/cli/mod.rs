//! The command line.
pub mod args;
pub mod commands;
pub mod prompts;
pub mod rewind;
pub mod runtime;
