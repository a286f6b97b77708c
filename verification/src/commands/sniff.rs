//! The `sniff` report: a detected log layout described in words.
use vstd::prelude::*;

use crate::format::{Encoding, LineEnding, LinePrefix, LogFormat, MessageBoundary, Separator};
use crate::render::{decimal, push_bytes, push_decimal, str_bytes};

verus! {

/// How a separator is described.
pub open spec fn separator_text(s: Separator) -> &'static str {
    match s {
        Separator::Soh => "SOH (0x01)",
        Separator::Pipe => "| (0x7C)",
        Separator::Caret => "^ (0x5E)",
        Separator::Semicolon => "; (0x3B)",
        Separator::Custom(_) => "custom",
    }
}

/// Describe a separator: its name and byte, or `custom`.
pub fn describe_separator(s: Separator) -> (r: &'static str)
    ensures
        r == separator_text(s),
{
    match s {
        Separator::Soh => "SOH (0x01)",
        Separator::Pipe => "| (0x7C)",
        Separator::Caret => "^ (0x5E)",
        Separator::Semicolon => "; (0x3B)",
        Separator::Custom(_) => "custom",
    }
}

/// How a line prefix is described: `none`, or `fixed <n> bytes`.
pub open spec fn prefix_text(p: LinePrefix) -> Seq<u8> {
    match p {
        LinePrefix::NoPrefix => str_bytes("none"),
        LinePrefix::Fixed(n) => str_bytes("fixed ") + decimal(n as nat) + str_bytes(" bytes"),
    }
}

/// Describe a line prefix.
pub fn describe_prefix(p: LinePrefix) -> (r: Vec<u8>)
    ensures
        r@ == prefix_text(p),
{
    let mut out: Vec<u8> = Vec::new();
    match p {
        LinePrefix::NoPrefix => push_bytes(&mut out, "none".as_bytes()),
        LinePrefix::Fixed(n) => {
            push_bytes(&mut out, "fixed ".as_bytes());
            push_decimal(&mut out, n as u64);
            push_bytes(&mut out, " bytes".as_bytes());
        },
    }
    assert(out@ =~= prefix_text(p));
    out
}

/// How a line ending is described.
pub open spec fn line_ending_text(le: LineEnding) -> &'static str {
    match le {
        LineEnding::Lf => "LF (\\n)",
        LineEnding::CrLf => "CRLF (\\r\\n)",
    }
}

/// Describe a line ending.
pub fn describe_line_ending(le: LineEnding) -> (r: &'static str)
    ensures
        r == line_ending_text(le),
{
    match le {
        LineEnding::Lf => "LF (\\n)",
        LineEnding::CrLf => "CRLF (\\r\\n)",
    }
}

/// Describe an encoding.
pub fn describe_encoding(enc: Encoding) -> (r: &'static str)
    ensures
        r == "UTF-8 / ASCII",
{
    match enc {
        Encoding::Utf8 => "UTF-8 / ASCII",
    }
}

/// How a message boundary is described.
pub open spec fn boundary_text(b: MessageBoundary) -> &'static str {
    match b {
        MessageBoundary::Line => "line",
        MessageBoundary::Checksum => "checksum",
    }
}

/// Describe a message boundary.
pub fn describe_boundary(b: MessageBoundary) -> (r: &'static str)
    ensures
        r == boundary_text(b),
{
    match b {
        MessageBoundary::Line => "line",
        MessageBoundary::Checksum => "checksum",
    }
}

/// The lines of the report for `fmt` read from the file `path`:
/// `File:`, `Separator:`, `Line prefix:`, `Line ending:`, `Encoding:` and
/// `Msg boundary:`, each label padded to one column.
pub open spec fn format_report(fmt: LogFormat, path: Seq<u8>) -> Seq<u8> {
    str_bytes("File:           ") + path + str_bytes("\n") + str_bytes("Separator:      ") + str_bytes(
        separator_text(fmt.separator),
    ) + str_bytes("\n") + str_bytes("Line prefix:    ") + prefix_text(fmt.line_prefix) + str_bytes("\n")
        + str_bytes("Line ending:    ") + str_bytes(line_ending_text(fmt.line_ending)) + str_bytes("\n")
        + str_bytes("Encoding:       ") + str_bytes("UTF-8 / ASCII") + str_bytes("\n") + str_bytes(
        "Msg boundary:   ",
    ) + str_bytes(boundary_text(fmt.message_boundary)) + str_bytes("\n")
}

/// The report of the `sniff` command for `fmt`, detected in the file
/// shown as `path`.
pub fn print_format(fmt: &LogFormat, path: &[u8]) -> (r: Vec<u8>)
    ensures
        r@ == format_report(*fmt, path@),
{
    let mut out: Vec<u8> = Vec::new();
    push_bytes(&mut out, "File:           ".as_bytes());
    push_bytes(&mut out, path);
    push_bytes(&mut out, "\n".as_bytes());
    push_bytes(&mut out, "Separator:      ".as_bytes());
    push_bytes(&mut out, describe_separator(fmt.separator).as_bytes());
    push_bytes(&mut out, "\n".as_bytes());
    let ghost a = out@;
    push_bytes(&mut out, "Line prefix:    ".as_bytes());
    let p = describe_prefix(fmt.line_prefix);
    push_bytes(&mut out, p.as_slice());
    push_bytes(&mut out, "\n".as_bytes());
    push_bytes(&mut out, "Line ending:    ".as_bytes());
    push_bytes(&mut out, describe_line_ending(fmt.line_ending).as_bytes());
    push_bytes(&mut out, "\n".as_bytes());
    let ghost b = out@;
    push_bytes(&mut out, "Encoding:       ".as_bytes());
    push_bytes(&mut out, describe_encoding(fmt.encoding).as_bytes());
    push_bytes(&mut out, "\n".as_bytes());
    push_bytes(&mut out, "Msg boundary:   ".as_bytes());
    push_bytes(&mut out, describe_boundary(fmt.message_boundary).as_bytes());
    push_bytes(&mut out, "\n".as_bytes());
    assert(out@ =~= format_report(*fmt, path@));
    out
}

} // verus!
