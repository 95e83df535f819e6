//! The terminal interface, without the terminal.

pub mod draw;
pub mod state;
pub mod tasks;
