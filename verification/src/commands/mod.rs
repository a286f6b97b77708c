//! The logic behind the command-line tool: argument forms, the reports
//! each command prints, and the decisions of its follow mode. Everything
//! here produces values or bytes; reading files and writing to the
//! terminal happen in the tool itself.

pub mod consolidate;
pub mod grep;
pub mod histogram;
pub mod input;
pub mod orders;
pub mod parse;
pub mod rank;
pub mod sessions;
pub mod sniff;
pub mod stats;
pub mod text;
