//! Zero-copy parsing, indexing, filtering and analysis of FIX
//! (Financial Information eXchange) logs, with machine-checked contracts.

pub mod analysis;
pub mod bytes;
pub mod commands;
pub mod dict;
pub mod format;
pub mod index;
pub mod parser;
pub mod taglist;
pub mod query;
pub mod render;
