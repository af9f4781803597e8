//! Saving and restoring Ghostty workspaces: which windows, tabs and terminals there
//! are, which conversations run in them, and how to bring them back.

pub mod agents;
pub mod agents_laws;
pub mod app;
pub mod assign;
pub mod assign_laws;
pub mod clean;
pub mod clean_laws;
pub mod cli;
pub mod cli_laws;
pub mod clock;
pub mod command;
pub mod command_laws;
pub mod error;
pub mod ghostty;
pub mod ghostty_laws;
pub mod list;
pub mod match_laws;
pub mod model;
pub mod number;
pub mod path;
pub mod path_laws;
pub mod pattern;
pub mod pattern_laws;
pub mod quote;
pub mod random;
pub mod report;
pub mod report_laws;
pub mod restore;
pub mod restore_laws;
pub mod save;
pub mod snapshot;
pub mod snapshot_laws;
pub mod store;
pub mod store_laws;
pub mod text;
pub mod text_laws;
pub mod title_laws;
pub mod ui;
pub mod ui_laws;
pub mod watch;
pub mod watch_laws;
