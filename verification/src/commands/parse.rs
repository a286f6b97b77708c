//! The `parse` command: the messages of a log, each rendered as a table or
//! as a JSON line.
use vstd::prelude::*;

use crate::commands::grep::{ParseFormat, lemma_rendered, rendered};
use crate::dict::resolver::resolve;
use crate::format::{LogFormat, separator_byte};
use crate::parser::{
    RawMessage, fields_of, lemma_messages_step, lemma_next_advances, message_view, messages_from, parse_all_with_format,
};
use crate::render::{write_jsonl, write_pretty};

verus! {

/// The printed form of messages, one after the other.
pub open spec fn rendered_all(msgs: Seq<(Seq<(u32, Seq<u8>)>, int, int)>, fmt: ParseFormat) -> Seq<u8>
    decreases msgs.len(),
{
    if msgs.len() == 0 {
        Seq::empty()
    } else {
        rendered_all(msgs.drop_last(), fmt) + rendered(msgs.last(), fmt)
    }
}

/// How many of `n` messages are printed under the limit `first`: all of
/// them without one.
pub open spec fn printed_count(n: int, first: Option<usize>) -> int {
    match first {
        Some(k) => if k < n {
            k as int
        } else {
            n
        },
        None => n,
    }
}

/// One more message read: it joins those read, and its printed form is
/// appended.
proof fn lemma_one_more(
    all: Seq<(Seq<(u32, Seq<u8>)>, int, int)>,
    prev: Seq<(Seq<(u32, Seq<u8>)>, int, int)>,
    m: (Seq<(u32, Seq<u8>)>, int, int),
    buf: Seq<u8>,
    pos: int,
    next: int,
    sep: u8,
    fmt: ParseFormat,
)
    requires
        all == prev + messages_from(buf, pos, sep),
        messages_from(buf, pos, sep) == seq![m] + messages_from(buf, next, sep),
    ensures
        all == prev.push(m) + messages_from(buf, next, sep),
        rendered_all(prev.push(m), fmt) == rendered_all(prev, fmt) + rendered(m, fmt),
{
    assert(prev + (seq![m] + messages_from(buf, next, sep)) =~= prev.push(m) + messages_from(buf, next, sep));
    assert(prev.push(m).drop_last() =~= prev);
}

/// Append message `msg` in the chosen format.
fn emit(out: &mut Vec<u8>, msg: &RawMessage, out_format: ParseFormat)
    ensures
        final(out)@ == old(out)@ + rendered((fields_of(*msg), msg.offset as int, msg.raw@.len() as int), out_format),
{
    let resolved = resolve(msg);
    proof {
        lemma_rendered(resolved, *msg, out_format);
    }
    match out_format {
        ParseFormat::Pretty => write_pretty(out, &resolved, msg.raw.len()),
        ParseFormat::Json => write_jsonl(out, &resolved, msg.raw.len()),
    }
}

/// Render the messages of `buf` that parse, in order, at most `first` of
/// them, as tables or JSON lines.
#[verifier::rlimit(40)]
pub fn write_messages(
    buf: &[u8],
    log_format: &LogFormat,
    first: Option<usize>,
    out_format: ParseFormat,
    out: &mut Vec<u8>,
)
    ensures
        ({
            let msgs = messages_from(buf@, 0, separator_byte(log_format.separator));
            final(out)@ == old(out)@ + rendered_all(msgs.take(printed_count(msgs.len() as int, first)), out_format)
        }),
{
    let ghost sep = separator_byte(log_format.separator);
    let ghost all = messages_from(buf@, 0, sep);
    let ghost o = out@;
    let mut parser = parse_all_with_format(buf, log_format);
    let ghost mut done: Seq<(Seq<(u32, Seq<u8>)>, int, int)> = Seq::empty();
    let mut count: usize = 0;
    let n = buf.len();
    assert(all == done + messages_from(buf@, parser.position(), sep));
    loop
        invariant
            parser.source() == buf@,
            parser.separator() == sep,
            sep == separator_byte(log_format.separator),
            0 <= parser.position() <= buf@.len(),
            n == buf@.len(),
            all == done + messages_from(buf@, parser.position(), sep),
            count == done.len(),
            count <= parser.position(),
            first matches Some(k) ==> count <= k,
            out@ == o + rendered_all(done, out_format),
        ensures
            done == all.take(printed_count(all.len() as int, first)),
            out@ == o + rendered_all(done, out_format),
        decreases buf@.len() - parser.position(),
    {
        match first {
            Some(k) => {
                if count == k {
                    assert(all.take(k as int) =~= done);
                    break;
                }
            },
            None => {},
        }
        let ghost pos = parser.position();
        proof {
            lemma_next_advances(buf@, pos, sep);
            lemma_messages_step(buf@, pos, sep);
        }
        match parser.next() {
            None => {
                assert(done =~= all);
                assert(all.take(all.len() as int) =~= all);
                break;
            },
            Some(Err(_)) => {},
            Some(Ok(msg)) => {
                let ghost m = (fields_of(msg), msg.offset as int, msg.raw@.len() as int);
                let ghost prev = done;
                proof {
                    assert(message_view(Ok(msg)) == Ok::<_, crate::parser::ParseError>(m));
                    lemma_one_more(all, prev, m, buf@, pos, parser.position(), sep, out_format);
                    done = prev.push(m);
                }
                emit(out, &msg, out_format);
                count += 1;
            },
        }
    }
}

} // verus!
