//! Growing an index as its log grows: extending the index of a prefix of a
//! buffer from where it stopped gives the index of the whole buffer.
use vstd::prelude::*;

use crate::index::builder::{MessageView, extended, extended_from, messages_after, offsets_of, record_messages, sat_u32};
use crate::index::{LogIndex, MessageOffset};
use crate::parser::{
    ParseError, fields_from, lemma_messages_step, lemma_next_advances, messages_from, spec_find_begin, spec_next,
    spec_parse_one, spec_read_field,
};

verus! {

/// Whether a parse succeeded, and with what, apart from the error.
pub open spec fn ok_part<T>(r: Result<T, ParseError>) -> Option<T> {
    match r {
        Ok(v) => Some(v),
        Err(_) => None,
    }
}

/// Where a message was found changes only the offsets its errors carry.
proof fn lemma_fields_offset_free(raw: Seq<u8>, sep: u8, cursor: int, m1: int, m2: int)
    ensures
        ok_part(fields_from(raw, sep, cursor, m1)) == ok_part(fields_from(raw, sep, cursor, m2)),
    decreases raw.len() - cursor,
{
    if 0 <= cursor < raw.len() {
        assert(ok_part(spec_read_field(raw, sep, cursor, m1)) == ok_part(spec_read_field(raw, sep, cursor, m2)));
        match spec_read_field(raw, sep, cursor, m1) {
            Ok((tag, vs, ve, next)) => {
                crate::parser::lemma_read_field_advances_pub(raw, sep, cursor, m1);
                lemma_fields_offset_free(raw, sep, next, m1, m2);
            },
            Err(_) => {},
        }
    }
}

/// A parse succeeds, with the same fields and length, wherever the buffer
/// was found.
proof fn lemma_parse_offset_free(buf: Seq<u8>, o1: int, o2: int, sep: u8)
    ensures
        ok_part(spec_parse_one(buf, o1, sep)) == ok_part(spec_parse_one(buf, o2, sep)),
{
    assert(ok_part(spec_read_field(buf, sep, 0, o1)) == ok_part(spec_read_field(buf, sep, 0, o2)));
    if let Ok((tag, _, _, after_begin)) = spec_read_field(buf, sep, 0, o1) {
        assert(ok_part(spec_read_field(buf, sep, after_begin, o1)) == ok_part(
            spec_read_field(buf, sep, after_begin, o2),
        ));
        if let Ok((tag2, vs, ve, after_body_len)) = spec_read_field(buf, sep, after_begin, o1) {
            if let Some(body_len) = crate::parser::spec_parse_uint(buf.subrange(vs, ve)) {
                let body_end = after_body_len + body_len;
                assert(ok_part(spec_read_field(buf, sep, body_end, o1)) == ok_part(
                    spec_read_field(buf, sep, body_end, o2),
                ));
                if let Ok((tag3, _, _, after_checksum)) = spec_read_field(buf, sep, body_end, o1) {
                    lemma_fields_offset_free(buf.take(after_checksum), sep, 0, o1, o2);
                }
            }
        }
    }
}

/// A stream read from `c` on in the tail `buf[c..]` is the stream of `buf`
/// from `c + x`, its offsets counted from `c`.
pub open spec fn shifted(ms: Seq<MessageView>, c: int) -> Seq<MessageView> {
    ms.map_values(|m: MessageView| (m.0, m.1 - c, m.2))
}

/// One step of the stream of a tail of a buffer is the step of the buffer
/// from where the tail starts, with positions counted from there.
proof fn lemma_tail_next(buf: Seq<u8>, c: int, x: int, sep: u8)
    requires
        0 <= c <= buf.len(),
        0 <= x,
    ensures
        match spec_next(buf.subrange(c, buf.len() as int), x, sep) {
            None => spec_next(buf, c + x, sep) is None,
            Some((v, y)) => spec_next(buf, c + x, sep) matches Some((w, z)) && z == c + y && match v {
                Ok((tags, off, len)) => w == Ok::<MessageView, ParseError>((tags, c + off, len)),
                Err(_) => w is Err,
            },
        },
{
    let t = buf.subrange(c, buf.len() as int);
    if x < t.len() {
        assert(t.subrange(x, t.len() as int) =~= buf.subrange(c + x, buf.len() as int));
    }
    match spec_find_begin(t, x) {
        None => {
            assert(spec_find_begin(buf, c + x) is None);
        },
        Some(p) => {
            assert(spec_find_begin(buf, c + x) == Some(c + p));
            assert(t.subrange(p, t.len() as int) =~= buf.subrange(c + p, buf.len() as int));
            lemma_parse_offset_free(buf.subrange(c + p, buf.len() as int), p, c + p, sep);
        },
    }
}

/// The messages of a tail of a buffer are those of the buffer from where
/// the tail starts, with offsets counted from there.
pub(crate) proof fn lemma_tail_stream(buf: Seq<u8>, c: int, x: int, sep: u8)
    requires
        0 <= c <= buf.len(),
        0 <= x,
    ensures
        messages_from(buf.subrange(c, buf.len() as int), x, sep) == shifted(messages_from(buf, c + x, sep), c),
    decreases buf.len() - c - x,
{
    let t = buf.subrange(c, buf.len() as int);
    lemma_messages_step(t, x, sep);
    lemma_messages_step(buf, c + x, sep);
    lemma_next_advances(t, x, sep);
    lemma_tail_next(buf, c, x, sep);
    match spec_next(t, x, sep) {
        None => {
            assert(shifted(Seq::<MessageView>::empty(), c) =~= Seq::<MessageView>::empty());
        },
        Some((v, y)) => {
            lemma_tail_stream(buf, c, y, sep);
            let rest = messages_from(buf, c + y, sep);
            match v {
                Ok(m) => {
                    assert(shifted(seq![(m.0, c + m.1, m.2)] + rest, c) =~= seq![m] + shifted(rest, c));
                },
                Err(_) => {},
            }
        },
    }
}


/// The end of a message, relative to where it was read from.
pub open spec fn end_of(m: MessageView) -> int {
    m.1 + m.2
}

/// After its first `j` messages, a stream goes on from the end of the
/// `j`-th.
pub(crate) proof fn lemma_stream_split(buf: Seq<u8>, x: int, sep: u8, j: int)
    requires
        0 <= x,
        1 <= j <= messages_from(buf, x, sep).len(),
    ensures
        messages_from(buf, x, sep) == messages_from(buf, x, sep).take(j) + messages_from(
            buf,
            end_of(messages_from(buf, x, sep)[j - 1]),
            sep,
        ),
    decreases buf.len() - x,
{
    lemma_messages_step(buf, x, sep);
    lemma_next_advances(buf, x, sep);
    let ms = messages_from(buf, x, sep);
    match spec_next(buf, x, sep) {
        None => {},
        Some((v, y)) => {
            let rest = messages_from(buf, y, sep);
            match v {
                Ok(m) => {
                    if j == 1 {
                        assert(ms.take(1) =~= seq![m]);
                    } else {
                        lemma_stream_split(buf, y, sep, j - 1);
                        assert(ms[j - 1] == rest[j - 2]);
                        assert(ms.take(j) =~= seq![m] + rest.take(j - 1));
                    }
                },
                Err(_) => {
                    lemma_stream_split(buf, y, sep, j);
                },
            }
        },
    }
}

/// Recording depends on the fields of the messages only.
pub(crate) proof fn lemma_record_same_fields(
    m: Map<(u32, Seq<u8>), Seq<u32>>,
    hot: Seq<u32>,
    a: Seq<MessageView>,
    b: Seq<MessageView>,
    first: int,
    n: int,
)
    requires
        0 <= n <= a.len(),
        n <= b.len(),
        forall|i: int| 0 <= i < n ==> #[trigger] a[i].0 == b[i].0,
    ensures
        record_messages(m, hot, a, first, n) == record_messages(m, hot, b, first, n),
    decreases n,
{
    if n > 0 {
        lemma_record_same_fields(m, hot, a, b, first, n - 1);
        assert(a[n - 1].0 == b[n - 1].0);
    }
}

/// Recording two runs of messages one after the other is recording their
/// concatenation.
proof fn lemma_record_concat(m: Map<(u32, Seq<u8>), Seq<u32>>, hot: Seq<u32>, a: Seq<MessageView>, b: Seq<MessageView>, first: int, n: int)
    requires
        0 <= n <= b.len(),
    ensures
        record_messages(record_messages(m, hot, a, first, a.len() as int), hot, b, first + a.len(), n)
            == record_messages(m, hot, a + b, first, a.len() + n),
    decreases n,
{
    let ab = a + b;
    if n == 0 {
        crate::index::builder::lemma_record_messages_prefix(m, hot, a, ab, first, a.len() as int);
    } else {
        lemma_record_concat(m, hot, a, b, first, n - 1);
        assert(ab[a.len() + n - 1] == b[n - 1]);
        assert(first + a.len() + n - 1 == first + (a.len() + n) - 1);
    }
}

/// The conditions of [`law_append_matches_single_build`].
pub open spec fn append_setting(
    pre: LogIndex,
    inc: LogIndex,
    full: LogIndex,
    buf: Seq<u8>,
    p: int,
    sep: u8,
    hot: Seq<u32>,
) -> bool {
    &&& 0 <= p <= buf.len()
    &&& extended_from(Seq::empty(), 0, Map::empty(), hot, pre, buf.take(p), 0, sep)
    &&& extended(pre, inc, buf, pre.consumed as int, sep)
    &&& extended_from(Seq::empty(), 0, Map::empty(), hot, full, buf, 0, sep)
    &&& messages_after(buf.take(p), 0, sep).len() <= messages_after(buf, 0, sep).len()
    &&& messages_after(buf.take(p), 0, sep) == messages_after(buf, 0, sep).take(
        messages_after(buf.take(p), 0, sep).len() as int,
    )
    &&& forall|i: int| 0 <= i < messages_after(buf, 0, sep).len() ==> #[trigger] messages_after(buf, 0, sep)[i].2 <= u32::MAX
}

/// The messages of the whole buffer are those of the prefix followed by
/// those the append reads, which it sees with offsets counted from where
/// the prefix's index stopped.
proof fn lemma_append_split(pre: LogIndex, buf: Seq<u8>, p: int, sep: u8)
    requires
        0 <= p <= buf.len(),
        messages_after(buf.take(p), 0, sep).len() <= messages_after(buf, 0, sep).len(),
        messages_after(buf.take(p), 0, sep) == messages_after(buf, 0, sep).take(
            messages_after(buf.take(p), 0, sep).len() as int,
        ),
        forall|i: int| 0 <= i < messages_after(buf, 0, sep).len() ==> #[trigger] messages_after(buf, 0, sep)[i].2 <= u32::MAX,
        pre.consumed == (if messages_after(buf.take(p), 0, sep).len() == 0 {
            0
        } else {
            0 + messages_after(buf.take(p), 0, sep).last().1 + sat_u32(messages_after(buf.take(p), 0, sep).last().2)
        }),
    ensures
        messages_after(buf, 0, sep) == messages_after(buf.take(p), 0, sep) + messages_from(buf, pre.consumed as int, sep),
        messages_after(buf, pre.consumed as int, sep) == shifted(messages_from(buf, pre.consumed as int, sep), pre.consumed as int),
        messages_after(buf.take(p), 0, sep).len() > 0 ==> pre.consumed == end_of(messages_after(buf.take(p), 0, sep).last()),
        messages_after(buf.take(p), 0, sep).len() == 0 ==> pre.consumed == 0,
        0 <= pre.consumed <= buf.len(),
{
    let mp = messages_after(buf.take(p), 0, sep);
    let ms = messages_after(buf, 0, sep);
    let k = mp.len() as int;
    let c = pre.consumed as int;
    if buf.len() > 0 {
        assert(buf.subrange(0, buf.len() as int) =~= buf);
    }
    if p > 0 {
        assert(buf.take(p).subrange(0, p) =~= buf.take(p));
    }
    crate::index::builder::lemma_messages_in_bounds(buf, 0, sep);
    if k == 0 {
        assert(mp =~= Seq::<MessageView>::empty());
        assert(c == 0);
        if buf.len() == 0 {
            assert(ms =~= Seq::<MessageView>::empty());
            lemma_messages_step(buf, 0, sep);
        }
        assert(ms =~= mp + messages_from(buf, 0, sep));
    } else {
        assert(mp[k - 1] == ms[k - 1]);
        assert(ms[k - 1].2 <= u32::MAX);
        assert(c == end_of(ms[k - 1]));
        lemma_stream_split(buf, 0, sep, k);
    }
    if c < buf.len() {
        lemma_tail_stream(buf, c, 0, sep);
    } else {
        lemma_messages_step(buf, c, sep);
        assert(messages_from(buf, c, sep) =~= Seq::<MessageView>::empty());
        assert(shifted(Seq::<MessageView>::empty(), c) =~= Seq::<MessageView>::empty());
    }
}

/// Extending the index of a prefix of a buffer from where it stopped gives
/// the index of the whole buffer, as long as the prefix's messages are the
/// first messages of the whole (a message cut short at the end of the
/// prefix is read again in full) and no message is longer than a `u32`
/// can count.
pub proof fn law_append_matches_single_build(
    pre: LogIndex,
    inc: LogIndex,
    full: LogIndex,
    buf: Seq<u8>,
    p: int,
    sep: u8,
    hot: Seq<u32>,
)
    requires
        append_setting(pre, inc, full, buf, p, sep, hot),
    ensures
        inc.messages@ == full.messages@,
        inc.consumed == full.consumed,
        inc.secondary@ == full.secondary@,
{
    lemma_append_split(pre, buf, p, sep);
    let mp = messages_after(buf.take(p), 0, sep);
    let ms = messages_after(buf, 0, sep);
    let c = pre.consumed as int;
    let rest = messages_from(buf, c, sep);
    let m2 = messages_after(buf, c, sep);
    assert(m2.len() == rest.len());
    assert(offsets_of(m2, c) =~= offsets_of(rest, 0));
    assert(offsets_of(ms, 0) =~= offsets_of(mp, 0) + offsets_of(rest, 0));
    assert(inc.messages@ =~= full.messages@);
    if rest.len() > 0 {
        assert(m2.last() == (rest.last().0, rest.last().1 - c, rest.last().2));
        assert(ms.last() == rest.last());
    } else if mp.len() > 0 {
        assert(ms =~= mp);
    } else {
        assert(ms.len() == 0);
    }
    lemma_record_same_fields(pre.secondary@, hot, m2, rest, mp.len() as int, m2.len() as int);
    lemma_record_concat(Map::empty(), hot, mp, rest, 0, rest.len() as int);
}

} // verus!
