//! Which language models fit this machine, how fast they run, and how to
//! launch them: the decisions behind the `paddock` command, verified.

pub mod app;
pub mod bench;
pub mod big;
pub mod calibration;
pub mod catalog;
pub mod cli;
pub mod clock;
pub mod decimal;
pub mod double;
pub mod error;
pub mod estimate;
pub mod hardware;
pub mod json;
pub mod launch;
pub mod logs;
pub mod numeral;
pub mod output;
pub mod paths;
pub mod precision;
pub mod rounding;
pub mod runtime;
pub mod score;
pub mod serving;
pub mod stop;
pub mod text;
pub mod tray;
pub mod tui;
