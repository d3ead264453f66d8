//! A single-connection IRC client core: line framing, zero-copy message
//! parsing, session state handling and plugin output ingestion.

pub mod bytes;
pub mod client;
pub mod cmdline;
pub mod config;
pub mod event;
pub mod helpers;
pub mod iter;
pub mod parse;
pub mod plugin;
pub mod text;
