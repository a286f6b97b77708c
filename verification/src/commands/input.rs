//! The inputs of the command-line tool: the sniffing window of a log and
//! the sources a consolidated summary reads.
use vstd::prelude::*;
use vstd::string::StrSliceExecFns;

verus! {

/// The first `n` bytes of `bytes`, or all of them if shorter.
pub fn head(bytes: &[u8], n: usize) -> (r: &[u8])
    ensures
        r@ == bytes@.take(if bytes@.len() < n { bytes@.len() as int } else { n as int }),
{
    let end = if bytes.len() < n {
        bytes.len()
    } else {
        n
    };
    &bytes[0..end]
}

/// An input the consolidated reader consumes: a path on disk (possibly
/// `.gz`) or the standard input (`-`).
#[derive(Debug, Clone)]
pub enum InputSource {
    File(String),
    Stdin,
}

/// The source a command-line token names: a single dash is the standard
/// input, anything else a path.
pub open spec fn source_of(raw: Seq<char>) -> Option<Seq<char>> {
    if raw == seq!['-'] {
        None
    } else {
        Some(raw)
    }
}

/// The view of a source: `None` for the standard input, the path otherwise.
pub open spec fn source_view(s: InputSource) -> Option<Seq<char>> {
    match s {
        InputSource::File(p) => Some(p@),
        InputSource::Stdin => None,
    }
}

impl InputSource {
    /// Parse one command-line token: `-` is [`InputSource::Stdin`], anything
    /// else a path.
    pub fn from_arg(raw: &str) -> (r: Self)
        ensures
            source_view(r) == source_of(raw@),
    {
        if raw.unicode_len() == 1 && raw.get_char(0) == '-' {
            assert(raw@ =~= seq!['-']);
            InputSource::Stdin
        } else {
            InputSource::File(raw.to_owned())
        }
    }
}

} // verus!
