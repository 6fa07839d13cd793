//! A linear command history: every action, undos included, is recorded on an
//! append-only stack, so that undos can be undone in turn.
pub mod action;
pub mod command;
pub mod history;
pub mod laws;
pub mod limits;
pub mod replay;

pub use history::{Command, History, HistoryAction};
