//! The verified core of a small terminal coding agent.
pub mod agent;
pub mod cli;
pub mod config;
pub mod context;
pub mod fish;
pub mod json;
pub mod model;
pub mod pricing;
pub mod provider;
pub mod seqs;
pub mod session;
pub mod settings;
pub mod store;
pub mod table;
pub mod text;
pub mod tools;
pub mod tui;
