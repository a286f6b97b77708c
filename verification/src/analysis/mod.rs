//! Derived views over an indexed FIX log: timestamps, order lifecycles,
//! consolidated order summaries and temporal histograms.

pub mod assoc;
pub mod consolidated;
pub mod histogram;
pub mod number_text;
pub mod orders;
pub mod sessions;
pub mod sets;
pub mod util;

use vstd::prelude::*;

use crate::parser::ParseError;

verus! {

/// Errors produced by analysis builders.
#[derive(Debug, Clone, Copy, PartialEq, Eq, Structural)]
pub enum AnalysisError {
    /// Parse error delegated from the parser.
    Parse(ParseError),
    /// A required tag was missing from the message at `ordinal`.
    MissingTag { tag: u32, ordinal: u32 },
}

impl From<ParseError> for AnalysisError {
    fn from(e: ParseError) -> (r: Self) {
        AnalysisError::Parse(e)
    }
}

impl vstd::std_specs::convert::FromSpecImpl<ParseError> for AnalysisError {
    open spec fn obeys_from_spec() -> bool {
        true
    }

    open spec fn from_spec(e: ParseError) -> Self {
        AnalysisError::Parse(e)
    }
}

} // verus!
