//! A small filter language over FIX messages: `tag=value`, `tag!=value`,
//! `tag~regex`, combined with `AND`, `OR`, `NOT` and parentheses.
pub mod ast;
pub mod eval;
pub mod parser;
pub mod matcher;
