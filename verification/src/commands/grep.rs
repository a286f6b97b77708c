//! The `grep` command: the messages of a log that a filter expression
//! selects, rendered one after the other, and the decisions of its follow
//! mode as the log grows, shrinks or is replaced.
use vstd::prelude::*;

use crate::dict::resolver::{
    chain_of, field_name, msg_type_name_upto, resolve, resolved_by, resolved_field_ok, value_label, TAG_APPL_VER_ID,
};
use crate::dict::{FixVersion, spec_chain_for};
use crate::format::{LogFormat, separator_byte};
use crate::index::builder::lemma_messages_in_bounds;
use crate::index::incremental::{end_of, lemma_stream_split, lemma_tail_stream};
use crate::parser::{
    RawMessage, TAG_BEGIN_STRING, fields_of, first_value, lemma_messages_step, lemma_next_advances, message_view,
    messages_from, parse_all_with_format, spec_next,
};
use crate::query::ast::{Expr, expr_matches};
use crate::render::{
    FieldView, field_views, json_line_v, lemma_message_views, pretty_block_v, write_jsonl, write_pretty,
};

verus! {

/// How messages are printed.
#[derive(Clone, Copy, Debug, PartialEq, Eq, Structural)]
pub enum ParseFormat {
    /// The aligned table of [`crate::render::write_pretty`].
    Pretty,
    /// One JSON line per message, [`crate::render::write_jsonl`].
    Json,
}

/// Outcome of a `grep` run over a whole file.
pub struct GrepOutcome {
    pub matched: usize,
}

/// The dictionary chain a message with fields `f` is resolved against.
pub open spec fn fields_chain(f: Seq<(u32, Seq<u8>)>) -> Seq<FixVersion> {
    let begin = match first_value(f, TAG_BEGIN_STRING) {
        Some(b) => b,
        None => Seq::empty(),
    };
    spec_chain_for(begin, first_value(f, TAG_APPL_VER_ID))
}

/// The views of the fields `f` resolved along `chain`.
pub open spec fn resolved_views(f: Seq<(u32, Seq<u8>)>, chain: Seq<FixVersion>) -> Seq<FieldView> {
    Seq::new(f.len(), |i: int| (f[i].0, field_name(chain, f[i].0), f[i].1, value_label(chain, f[i].0, f[i].1)))
}

/// How a message `(fields, offset, length)` is printed.
pub open spec fn rendered(m: (Seq<(u32, Seq<u8>)>, int, int), fmt: ParseFormat) -> Seq<u8> {
    let chain = fields_chain(m.0);
    let name = msg_type_name_upto(chain, m.0, m.0.len() as int);
    match fmt {
        ParseFormat::Pretty => pretty_block_v(m.1 as u64, name, resolved_views(m.0, chain), m.2 as nat),
        ParseFormat::Json => json_line_v(m.1 as u64, name, resolved_views(m.0, chain), m.2 as nat),
    }
}

/// The printed form of the messages of `msgs` that `expr` selects.
pub open spec fn grep_output(msgs: Seq<(Seq<(u32, Seq<u8>)>, int, int)>, expr: Expr, fmt: ParseFormat) -> Seq<u8>
    decreases msgs.len(),
{
    if msgs.len() == 0 {
        Seq::empty()
    } else {
        grep_output(msgs.drop_last(), expr, fmt) + if expr_matches(expr, msgs.last().0) {
            rendered(msgs.last(), fmt)
        } else {
            Seq::empty()
        }
    }
}

/// How many messages of `msgs` `expr` selects.
pub open spec fn grep_count(msgs: Seq<(Seq<(u32, Seq<u8>)>, int, int)>, expr: Expr) -> nat
    decreases msgs.len(),
{
    if msgs.len() == 0 {
        0
    } else {
        grep_count(msgs.drop_last(), expr) + if expr_matches(expr, msgs.last().0) {
            1nat
        } else {
            0nat
        }
    }
}

/// The end of the last message of `msgs`, relative to where they were
/// read from; zero when there is none.
pub open spec fn last_end(msgs: Seq<(Seq<(u32, Seq<u8>)>, int, int)>) -> int {
    if msgs.len() == 0 {
        0
    } else {
        msgs.last().1 + msgs.last().2
    }
}

/// A resolved message is printed as [`rendered`] says.
pub(crate) proof fn lemma_rendered(r: crate::dict::resolver::ResolvedMessage, msg: RawMessage, fmt: ParseFormat)
    requires
        resolved_by(r, msg, chain_of(msg)),
    ensures
        rendered((fields_of(msg), msg.offset as int, msg.raw@.len() as int), fmt) == match fmt {
            ParseFormat::Pretty => crate::render::pretty_block(r, msg.raw@.len() as nat),
            ParseFormat::Json => crate::render::json_line(r, msg.raw@.len() as nat),
        },
{
    let f = fields_of(msg);
    let chain = chain_of(msg);
    lemma_message_views(r, msg.raw@.len() as nat);
    assert forall|i: int| 0 <= i < f.len() implies field_views(r.fields@)[i] == resolved_views(f, chain)[i] by {
        assert(resolved_field_ok(r.fields@[i], chain, f, i));
    }
    assert(field_views(r.fields@) =~= resolved_views(f, chain));
}

/// Append message `msg` in the chosen format when `expr` selects it;
/// whether it did.
fn emit_if_matches(out: &mut Vec<u8>, msg: &RawMessage, expr: &Expr, out_format: ParseFormat) -> (hit: bool)
    ensures
        hit == expr_matches(*expr, fields_of(*msg)),
        final(out)@ == old(out)@ + if hit {
            rendered((fields_of(*msg), msg.offset as int, msg.raw@.len() as int), out_format)
        } else {
            Seq::empty()
        },
{
    if expr.matches(msg) {
        let resolved = resolve(msg);
        proof {
            lemma_rendered(resolved, *msg, out_format);
        }
        match out_format {
            ParseFormat::Pretty => write_pretty(out, &resolved, msg.raw.len()),
            ParseFormat::Json => write_jsonl(out, &resolved, msg.raw.len()),
        }
        true
    } else {
        assert(out@ =~= old(out)@ + Seq::<u8>::empty());
        false
    }
}

/// One more message read.
proof fn lemma_grep_push(
    done: Seq<(Seq<(u32, Seq<u8>)>, int, int)>,
    m: (Seq<(u32, Seq<u8>)>, int, int),
    term: Expr,
    fmt: ParseFormat,
)
    ensures
        grep_output(done.push(m), term, fmt) == grep_output(done, term, fmt) + if expr_matches(term, m.0) {
            rendered(m, fmt)
        } else {
            Seq::empty()
        },
        grep_count(done.push(m), term) == grep_count(done, term) + if expr_matches(term, m.0) {
            1nat
        } else {
            0nat
        },
        last_end(done.push(m)) == m.1 + m.2,
{
    assert(done.push(m).drop_last() =~= done);
}

/// Evaluate `expr` against every message of `buf[from..]`, appending the
/// selected ones to `out` in the chosen format. Returns how many matched
/// and the absolute offset past the last message read (where a follow-up
/// pass resumes); `(0, from)` when `from` is at or past the end.
#[verifier::rlimit(50)]
pub fn stream_matches(
    buf: &[u8],
    from: u64,
    expr: &Expr,
    log_format: &LogFormat,
    out_format: ParseFormat,
    out: &mut Vec<u8>,
) -> (r: (usize, u64))
    ensures
        from >= buf@.len() ==> r == (0usize, from) && final(out)@ == old(out)@,
        from < buf@.len() ==> {
            let msgs = messages_from(buf@.subrange(from as int, buf@.len() as int), 0, separator_byte(log_format.separator));
            &&& r.0 == grep_count(msgs, *expr)
            &&& r.1 == from + last_end(msgs)
            &&& final(out)@ == old(out)@ + grep_output(msgs, *expr, out_format)
        },
{
    if from >= buf.len() as u64 {
        return (0, from);
    }
    let tail = &buf[from as usize..buf.len()];
    let ghost sep = separator_byte(log_format.separator);
    let ghost term = *expr;
    let ghost all = messages_from(tail@, 0, sep);
    let ghost o = out@;
    let mut parser = parse_all_with_format(tail, log_format);
    let ghost mut done: Seq<(Seq<(u32, Seq<u8>)>, int, int)> = Seq::empty();
    let mut matched: usize = 0;
    let mut end: u64 = from;
    assert(all == done + messages_from(tail@, parser.position(), sep));
    loop
        invariant
            parser.source() == tail@,
            parser.separator() == sep,
            sep == separator_byte(log_format.separator),
            term == *expr,
            0 <= parser.position() <= tail@.len(),
            tail@.len() + from == buf@.len(),
            buf@.len() <= usize::MAX,
            all == done + messages_from(tail@, parser.position(), sep),
            matched == grep_count(done, term),
            matched <= parser.position(),
            end == from + last_end(done),
            done.len() == 0 || last_end(done) <= parser.position(),
            out@ == o + grep_output(done, term, out_format),
        ensures
            all == done,
            matched == grep_count(done, term),
            end == from + last_end(done),
            out@ == o + grep_output(done, term, out_format),
        decreases tail@.len() - parser.position(),
    {
        let ghost pos = parser.position();
        proof {
            lemma_next_advances(tail@, pos, sep);
            lemma_messages_step(tail@, pos, sep);
        }
        match parser.next() {
            None => {
                assert(done =~= all);
                break;
            },
            Some(Err(_)) => {},
            Some(Ok(msg)) => {
                let ghost m = (fields_of(msg), msg.offset as int, msg.raw@.len() as int);
                let ghost prev = done;
                proof {
                    assert(message_view(Ok(msg)) == Ok::<_, crate::parser::ParseError>(m));
                    assert(messages_from(tail@, pos, sep) == seq![m] + messages_from(tail@, parser.position(), sep));
                    assert(prev + messages_from(tail@, pos, sep) =~= prev.push(m) + messages_from(
                        tail@,
                        parser.position(),
                        sep,
                    ));
                    lemma_grep_push(prev, m, term, out_format);
                    done = prev.push(m);
                    assert(usize::MAX == u64::MAX || usize::MAX == u32::MAX);
                }
                end = from + msg.offset + msg.raw.len() as u64;
                if emit_if_matches(out, &msg, expr, out_format) {
                    matched += 1;
                }
            },
        }
    }
    assert(all == done);
    (matched, end)
}

/// Resuming a scan where it stopped finds nothing new: past the end `e`
/// that [`stream_matches`] returns for `buf[from..]`, either nothing of
/// `buf` is left or no message of `buf[e..]` parses, so a second call from
/// `e` counts no match, returns `e` again and writes nothing.
pub proof fn law_resume_finds_nothing(buf: Seq<u8>, from: int, sep: u8, expr: Expr, fmt: ParseFormat)
    requires
        0 <= from < buf.len(),
    ensures
        ({
            let e = from + last_end(messages_from(buf.subrange(from, buf.len() as int), 0, sep));
            e >= buf.len() || ({
                let rest = messages_from(buf.subrange(e, buf.len() as int), 0, sep);
                &&& grep_count(rest, expr) == 0
                &&& last_end(rest) == 0
                &&& grep_output(rest, expr, fmt) == Seq::<u8>::empty()
            })
        }),
{
    let t = buf.subrange(from, buf.len() as int);
    let ms = messages_from(t, 0, sep);
    let e = from + last_end(ms);
    if ms.len() > 0 {
        let k = ms.len() as int;
        lemma_stream_split(t, 0, sep, k);
        assert(ms.take(k) =~= ms);
        let x = end_of(ms[k - 1]);
        assert(messages_from(t, x, sep).len() == 0);
        lemma_messages_in_bounds(t, 0, sep);
        if e < buf.len() {
            lemma_tail_stream(buf, from, x, sep);
            assert(messages_from(buf, e, sep).len() == 0);
            lemma_tail_stream(buf, e, 0, sep);
            let rest = messages_from(buf.subrange(e, buf.len() as int), 0, sep);
            assert(rest.len() == 0);
            assert(rest =~= Seq::<(Seq<(u32, Seq<u8>)>, int, int)>::empty());
        }
    } else {
        assert(ms =~= Seq::<(Seq<(u32, Seq<u8>)>, int, int)>::empty());
    }
}

/// What the follow mode does when the watched file may have changed.
#[derive(Clone, Copy, Debug, PartialEq, Eq, Structural)]
pub enum FollowStep {
    /// The file is shorter than what was already read: it was truncated
    /// or replaced, so start over from its first byte.
    Restart,
    /// The file grew past the mapped bytes: map it again, then read on from
    /// where the last pass stopped.
    Remap,
    /// Read on from where the last pass stopped.
    Resume,
}

/// The follow step for a file now `current_len` bytes long, of which
/// `consumed` were read and `mapped_len` are mapped.
pub fn follow_step(current_len: u64, consumed: u64, mapped_len: u64) -> (r: FollowStep)
    ensures
        r == if current_len < consumed {
            FollowStep::Restart
        } else if current_len > mapped_len {
            FollowStep::Remap
        } else {
            FollowStep::Resume
        },
{
    if current_len < consumed {
        FollowStep::Restart
    } else if current_len > mapped_len {
        FollowStep::Remap
    } else {
        FollowStep::Resume
    }
}

/// The kind of a change the file watcher reports.
#[derive(Clone, Copy, Debug, PartialEq, Eq, Structural)]
pub enum WatchEventKind {
    /// The file's contents changed.
    ModifyData,
    /// The file was renamed.
    ModifyName,
    /// The file changed in a way the watcher does not tell.
    ModifyAny,
    /// Another modification (metadata and the like).
    ModifyOther,
    /// The file was created.
    Create,
    /// The file was removed.
    Remove,
    /// Anything else (an access, say).
    Other,
}

/// Whether a watcher event calls for a catch-up pass: it names the followed
/// file, and it may mean growth or replacement (a data, name or unspecified
/// modification, a creation or a removal).
pub fn event_is_relevant(names_target: bool, kind: WatchEventKind) -> (r: bool)
    ensures
        r == (names_target && (kind == WatchEventKind::ModifyData || kind == WatchEventKind::ModifyName || kind
            == WatchEventKind::ModifyAny || kind == WatchEventKind::Create || kind == WatchEventKind::Remove)),
{
    if !names_target {
        return false;
    }
    match kind {
        WatchEventKind::ModifyData | WatchEventKind::ModifyName | WatchEventKind::ModifyAny | WatchEventKind::Create
        | WatchEventKind::Remove => true,
        WatchEventKind::ModifyOther | WatchEventKind::Other => false,
    }
}

} // verus!
