//! The shell: its language, and how a command is run.
pub mod laws;
pub mod order;
pub mod parse;
pub mod run;
pub mod split;
