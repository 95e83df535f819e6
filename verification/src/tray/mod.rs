//! The menu bar item.

pub mod menu_model;
