//! glit: the parsing, caching and navigation logic of an interactive git
//! log viewer.
pub mod config;
pub mod error;
pub mod git;
pub mod matcher;
pub mod num;
pub mod state;
pub mod table;
pub mod text;
pub mod ui;
