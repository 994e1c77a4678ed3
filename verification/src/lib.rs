pub mod text;
pub mod label;
pub mod path;
pub mod state;
pub mod config;
pub mod herdr;
pub mod git;
pub mod sync;
pub mod report;
pub mod watcher;
pub mod reply;
