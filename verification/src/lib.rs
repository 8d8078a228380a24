//! Process status navigator: the verified core of a terminal process browser.

pub mod app;
pub mod cli;
pub mod demo;
pub mod effects;
pub mod model;
pub mod process;
pub mod recorded;
pub mod runtime;
pub mod signal;
pub mod terminal;
pub mod text;
pub mod tree;
pub mod ui;
