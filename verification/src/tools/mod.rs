//! The tools that a model can call.
pub mod bash;
pub mod patch;
pub mod path;
pub mod read;
pub mod runner;
