//! Run one external command across a set of tagged directories.
//!
//! The library holds the command-line token classifier, the tag resolver and
//! the execution engine's decisions; process spawning, printing and
//! configuration storage stay with the caller.
pub mod classify;
pub mod completion;
pub mod config;
pub mod errors;
pub mod execute;
pub mod help;
pub mod paint;
pub mod resolve;
pub mod sorted;
pub mod status;
pub mod text;
pub mod tmux;
pub mod util;
