//! Mechanical resolution of diff3-style merge conflicts.
pub mod text;
pub mod types;
pub mod parse;
pub mod resolve;
pub mod simple;
pub mod style;
pub mod diff;
pub mod git;
pub mod mediate;
pub mod cli;
