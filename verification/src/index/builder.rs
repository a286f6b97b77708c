//! Index construction from a byte buffer: the single-threaded builder, the
//! incremental append for tailed files, and the per-chunk scan and stitching
//! that a parallel build is made of.
use vstd::prelude::*;

use crate::format::{LogFormat, separator_byte};
use crate::index::hot_tags::{HotTags, default_hot_tags};
use crate::index::secondary::{SecondaryIndex, merged_map, ordinals_of, record_fields};
use crate::index::{IndexError, LogIndex, MessageOffset};
use crate::parser::{
    ParseError, fields_of, lemma_messages_step, lemma_next_advances, messages_from,
    parse_all_with_format, spec_find_begin, spec_next,
};

verus! {

/// A parsed message seen as (fields, offset, length).
pub type MessageView = (Seq<(u32, Seq<u8>)>, int, int);

/// `n` clamped to the range of a `u32`.
pub open spec fn sat_u32(n: int) -> u32 {
    if n > u32::MAX {
        u32::MAX
    } else {
        n as u32
    }
}

/// The offset recorded for a message found at `m.1` in a slice starting at
/// `base`.
pub open spec fn offset_of(m: MessageView, base: int) -> MessageOffset {
    MessageOffset { start: (base + m.1) as u64, len: sat_u32(m.2) }
}

/// The offsets recorded for a run of messages.
pub open spec fn offsets_of(msgs: Seq<MessageView>, base: int) -> Seq<MessageOffset> {
    msgs.map_values(|m: MessageView| offset_of(m, base))
}

/// The secondary map after recording the first `n` messages of `msgs`, the
/// `i`-th under ordinal `first + i` (clamped to `u32`).
pub open spec fn record_messages(
    m: Map<(u32, Seq<u8>), Seq<u32>>,
    hot: Seq<u32>,
    msgs: Seq<MessageView>,
    first: int,
    n: int,
) -> Map<(u32, Seq<u8>), Seq<u32>>
    decreases n,
{
    if n <= 0 {
        m
    } else {
        record_fields(
            record_messages(m, hot, msgs, first, n - 1),
            hot,
            msgs[n - 1].0,
            sat_u32(first + n - 1),
            msgs[n - 1].0.len() as int,
        )
    }
}

/// Recording depends only on the messages recorded.
pub proof fn lemma_record_messages_prefix(
    m: Map<(u32, Seq<u8>), Seq<u32>>,
    hot: Seq<u32>,
    a: Seq<MessageView>,
    b: Seq<MessageView>,
    first: int,
    n: int,
)
    requires
        n <= a.len(),
        n <= b.len(),
        forall|i: int| 0 <= i < n ==> a[i] == b[i],
    ensures
        record_messages(m, hot, a, first, n) == record_messages(m, hot, b, first, n),
    decreases n,
{
    if n > 0 {
        lemma_record_messages_prefix(m, hot, a, b, first, n - 1);
    }
}

/// The well-formed messages of `buf` from `start` on, with offsets relative
/// to `start`.
pub open spec fn messages_after(buf: Seq<u8>, start: int, sep: u8) -> Seq<MessageView> {
    if start >= buf.len() {
        Seq::empty()
    } else {
        messages_from(buf.subrange(start, buf.len() as int), 0, sep)
    }
}

/// `after` is the index (`messages`, `consumed`, `secondary` over `hot`)
/// extended with the well-formed messages of `buf` from `start` on: their
/// offsets appended, their hot tags recorded under their new ordinals, and
/// `consumed` moved past the last of them.
pub open spec fn extended_from(
    messages: Seq<MessageOffset>,
    consumed: int,
    secondary: Map<(u32, Seq<u8>), Seq<u32>>,
    hot: Seq<u32>,
    after: LogIndex,
    buf: Seq<u8>,
    start: int,
    sep: u8,
) -> bool {
    let msgs = messages_after(buf, start, sep);
    &&& after.wf()
    &&& after.messages@ == messages + offsets_of(msgs, start)
    &&& after.consumed == (if msgs.len() == 0 {
        consumed
    } else {
        start + msgs.last().1 + sat_u32(msgs.last().2)
    })
    &&& after.secondary.hot() == hot
    &&& after.secondary@ == record_messages(secondary, hot, msgs, messages.len() as int, msgs.len() as int)
}

/// `after` is `before` extended with the well-formed messages of `buf` from
/// `start` on (see [`extended_from`]).
pub open spec fn extended(before: LogIndex, after: LogIndex, buf: Seq<u8>, start: int, sep: u8) -> bool {
    extended_from(
        before.messages@,
        before.consumed as int,
        before.secondary@,
        before.secondary.hot(),
        after,
        buf,
        start,
        sep,
    )
}

/// Every message of a stream lies within the buffer it was found in.
pub proof fn lemma_messages_in_bounds(buf: Seq<u8>, cursor: int, sep: u8)
    requires
        0 <= cursor,
    ensures
        forall|i: int|
            0 <= i < messages_from(buf, cursor, sep).len() ==> cursor <= (
            #[trigger] messages_from(buf, cursor, sep)[i]).1 && 0 < messages_from(buf, cursor, sep)[i].2
                && messages_from(buf, cursor, sep)[i].1 + messages_from(buf, cursor, sep)[i].2
                <= buf.len(),
    decreases buf.len() - cursor,
{
    lemma_messages_step(buf, cursor, sep);
    lemma_next_advances(buf, cursor, sep);
    match spec_next(buf, cursor, sep) {
        None => {},
        Some((v, c)) => {
            lemma_messages_in_bounds(buf, c, sep);
        },
    }
}

/// `s` is strictly increasing.
pub open spec fn strictly_increasing(s: Seq<u32>) -> bool {
    forall|i: int, j: int| 0 <= i < j < s.len() ==> s[i] < s[j]
}

/// The message's fields hold the pair `k`.
pub open spec fn holds_field(f: Seq<(u32, Seq<u8>)>, k: (u32, Seq<u8>)) -> bool {
    exists|i: int| 0 <= i < f.len() && f[i] == k
}

/// Recording the first `j` fields of a message under an ordinal beyond
/// every one already listed appends it once to the list of each hot pair
/// among them.
proof fn lemma_record_fields_once(
    m: Map<(u32, Seq<u8>), Seq<u32>>,
    hot: Seq<u32>,
    f: Seq<(u32, Seq<u8>)>,
    ord: u32,
    j: int,
    k: (u32, Seq<u8>),
)
    requires
        0 <= j <= f.len(),
        forall|i: int| 0 <= i < ordinals_of(m, k).len() ==> #[trigger] ordinals_of(m, k)[i] < ord,
    ensures
        ordinals_of(record_fields(m, hot, f, ord, j), k) == if hot.contains(k.0) && (exists|i: int|
            0 <= i < j && f[i] == k) {
            ordinals_of(m, k).push(ord)
        } else {
            ordinals_of(m, k)
        },
    decreases j,
{
    if j > 0 {
        lemma_record_fields_once(m, hot, f, ord, j - 1, k);
        let prev = record_fields(m, hot, f, ord, j - 1);
        if f[j - 1] == k && hot.contains(k.0) {
            if exists|i: int| 0 <= i < j - 1 && f[i] == k {
                assert(ordinals_of(prev, k).last() == ord);
            } else {
                let l = ordinals_of(prev, k);
                if l.len() > 0 {
                    assert(l.last() < ord);
                }
            }
        } else {
            if exists|i: int| 0 <= i < j && f[i] == k {
                let i = choose|i: int| 0 <= i < j && f[i] == k;
                assert(i < j - 1 || !hot.contains(k.0));
            }
        }
    }
}

/// What the secondary index records over the first `n` messages: each
/// hot pair lists, in increasing order, exactly the ordinals of the
/// messages that hold it.
pub(crate) proof fn lemma_record_messages_exact(hot: Seq<u32>, msgs: Seq<MessageView>, n: int, k: (u32, Seq<u8>))
    requires
        0 <= n <= msgs.len(),
        n <= u32::MAX,
    ensures
        strictly_increasing(ordinals_of(record_messages(Map::empty(), hot, msgs, 0, n), k)),
        forall|i: int|
            0 <= i < ordinals_of(record_messages(Map::empty(), hot, msgs, 0, n), k).len() ==> #[trigger] ordinals_of(
                record_messages(Map::empty(), hot, msgs, 0, n),
                k,
            )[i] < n,
        forall|o: int|
            #![trigger msgs[o]]
            0 <= o < n ==> (ordinals_of(record_messages(Map::empty(), hot, msgs, 0, n), k).contains(o as u32) <==> (
            hot.contains(k.0) && holds_field(msgs[o].0, k))),
    decreases n,
{
    if n > 0 {
        lemma_record_messages_exact(hot, msgs, n - 1, k);
        let prev = record_messages(Map::empty(), hot, msgs, 0, n - 1);
        assert forall|o: int| 0 <= o < n - 1 && #[trigger] ordinals_of(prev, k).contains(o as u32) implies hot.contains(k.0) by {
            assert(msgs[o] == msgs[o]);
        }
        let f = msgs[n - 1].0;
        lemma_record_fields_once(prev, hot, f, (n - 1) as u32, f.len() as int, k);
        let l = ordinals_of(prev, k);
        let nl = ordinals_of(record_messages(Map::empty(), hot, msgs, 0, n), k);
        assert(sat_u32(0 + n - 1) == (n - 1) as u32);
        let cond = hot.contains(k.0) && holds_field(f, k);
        assert(cond == (hot.contains(k.0) && (exists|i: int| 0 <= i < f.len() && f[i] == k)));
        assert(nl == if cond {
            l.push((n - 1) as u32)
        } else {
            l
        });
        assert forall|o: int| 0 <= o < n implies (nl.contains(o as u32) <==> (hot.contains(k.0) && holds_field(
            msgs[o].0,
            k,
        ))) by {
            if o < n - 1 {
                assert(l.contains(o as u32) <==> (hot.contains(k.0) && holds_field(msgs[o].0, k)));
                if nl.contains(o as u32) {
                    let q = choose|q: int| 0 <= q < nl.len() && nl[q] == o as u32;
                    if q < l.len() {
                        assert(l[q] == o as u32);
                        assert(l.contains(o as u32));
                    } else {
                        assert(cond);
                        assert(nl[q] == (n - 1) as u32);
                        assert(false);
                    }
                }
                if hot.contains(k.0) && holds_field(msgs[o].0, k) {
                    assert(l.contains(o as u32));
                    let q = choose|q: int| 0 <= q < l.len() && l[q] == o as u32;
                    assert(nl[q] == o as u32);
                }
            } else {
                assert(msgs[o].0 == f);
                if cond {
                    assert(nl[l.len() as int] == o as u32);
                } else if nl.contains(o as u32) {
                    let q = choose|q: int| 0 <= q < nl.len() && nl[q] == o as u32;
                    assert(l[q] < n - 1);
                }
            }
        }
    }
}

/// Message `o` is listed under `k` exactly when `k`'s tag is hot and the
/// message holds `k`.
pub open spec fn listed_iff_held(index: LogIndex, buf: Seq<u8>, sep: u8, hot: Seq<u32>, k: (u32, Seq<u8>), o: int) -> bool {
    ordinals_of(index.secondary@, k).contains(o as u32) <==> (hot.contains(k.0) && holds_field(
        messages_after(buf, 0, sep)[o].0,
        k,
    ))
}

/// The secondary index of an index built from a buffer lists, for each
/// pair `(tag, value)` of a hot tag, exactly the ordinals of the messages
/// that hold the pair, in increasing order and each once (when the number
/// of messages fits a `u32`, the type of ordinals).
pub proof fn law_secondary_lists_matching_messages(index: LogIndex, buf: Seq<u8>, sep: u8, hot: Seq<u32>, k: (u32, Seq<u8>))
    requires
        extended_from(Seq::empty(), 0, Map::empty(), hot, index, buf, 0, sep),
        index.messages@.len() <= u32::MAX,
    ensures
        strictly_increasing(ordinals_of(index.secondary@, k)),
        forall|o: int| 0 <= o < index.messages@.len() ==> #[trigger] listed_iff_held(index, buf, sep, hot, k, o),
{
    let msgs = messages_after(buf, 0, sep);
    assert(index.messages@.len() == msgs.len());
    lemma_record_messages_exact(hot, msgs, msgs.len() as int, k);
    assert(index.secondary@ == record_messages(Map::empty(), hot, msgs, 0, msgs.len() as int));
    assert forall|o: int| 0 <= o < index.messages@.len() implies #[trigger] listed_iff_held(index, buf, sep, hot, k, o) by {
        assert(msgs[o] == msgs[o]);
    }
}

/// An index built from a buffer agrees with the parser run over it: one
/// entry per well-formed message the parser yields, in order, holding its
/// offset and length; `consumed` at the end of the last of them (0 with
/// none); and for each pair `(tag, value)`, the secondary index lists, in
/// increasing order and each once, exactly the ordinals of the messages
/// that hold it when the tag is hot, and nothing else (when the number of
/// messages fits a `u32`, the type of ordinals).
pub proof fn law_build_matches_parser(index: LogIndex, buf: Seq<u8>, sep: u8, hot: Seq<u32>, k: (u32, Seq<u8>))
    requires
        extended_from(Seq::empty(), 0, Map::empty(), hot, index, buf, 0, sep),
        index.messages@.len() <= u32::MAX,
    ensures
        index.messages@.len() == messages_from(buf, 0, sep).len(),
        forall|i: int|
            0 <= i < index.messages@.len() ==> #[trigger] index.messages@[i] == (MessageOffset {
                start: messages_from(buf, 0, sep)[i].1 as u64,
                len: sat_u32(messages_from(buf, 0, sep)[i].2),
            }),
        messages_from(buf, 0, sep).len() == 0 ==> index.consumed == 0,
        messages_from(buf, 0, sep).len() > 0 ==> index.consumed == messages_from(buf, 0, sep).last().1 + sat_u32(
            messages_from(buf, 0, sep).last().2,
        ),
        strictly_increasing(ordinals_of(index.secondary@, k)),
        forall|i: int|
            0 <= i < ordinals_of(index.secondary@, k).len() ==> #[trigger] ordinals_of(index.secondary@, k)[i]
                < index.messages@.len(),
        messages_after(buf, 0, sep) == messages_from(buf, 0, sep),
        forall|o: int| 0 <= o < index.messages@.len() ==> #[trigger] listed_iff_held(index, buf, sep, hot, k, o),
{
    let msgs = messages_after(buf, 0, sep);
    if buf.len() > 0 {
        assert(buf.subrange(0, buf.len() as int) =~= buf);
    } else {
        lemma_messages_step(buf, 0, sep);
        assert(spec_find_begin(buf, 0) is None);
    }
    assert(msgs == messages_from(buf, 0, sep));
    assert(index.messages@.len() == msgs.len());
    lemma_record_messages_exact(hot, msgs, msgs.len() as int, k);
    assert(index.secondary@ == record_messages(Map::empty(), hot, msgs, 0, msgs.len() as int));
    assert forall|i: int| 0 <= i < index.messages@.len() implies #[trigger] index.messages@[i] == (MessageOffset {
        start: msgs[i].1 as u64,
        len: sat_u32(msgs[i].2),
    }) by {
        assert(index.messages@[i] == offsets_of(msgs, 0)[i]);
    }
    assert forall|o: int| 0 <= o < index.messages@.len() implies #[trigger] listed_iff_held(index, buf, sep, hot, k, o) by {
        assert(msgs[o] == msgs[o]);
    }
}

/// The offsets of an index built from a buffer are in bounds and in
/// order: each message lies inside the buffer and ends at or before the
/// next one starts.
pub proof fn law_offsets_monotonic_and_in_bounds(index: LogIndex, buf: Seq<u8>, sep: u8)
    requires
        buf.len() <= u64::MAX,
        extended_from(Seq::empty(), 0, Map::empty(), default_hot_tags(), index, buf, 0, sep),
    ensures
        forall|i: int|
            0 <= i < index.messages@.len() ==> #[trigger] index.messages@[i].start + index.messages@[i].len
                <= buf.len(),
        forall|i: int, j: int|
            0 <= i < j < index.messages@.len() ==> #[trigger] index.messages@[i].start + index.messages@[i].len
                <= #[trigger] index.messages@[j].start,
{
    if buf.len() > 0 {
        let ms = messages_after(buf, 0, sep);
        assert(buf.subrange(0, buf.len() as int) =~= buf);
        lemma_messages_in_bounds(buf, 0, sep);
        law_messages_in_order(buf, 0, sep);
        assert(index.messages@ =~= offsets_of(ms, 0));
        assert forall|i: int| 0 <= i < index.messages@.len() implies #[trigger] index.messages@[i].start
            + index.messages@[i].len <= buf.len() by {
            assert(index.messages@[i] == offset_of(ms[i], 0));
        }
        assert forall|i: int, j: int| 0 <= i < j < index.messages@.len() implies #[trigger] index.messages@[i].start
            + index.messages@[i].len <= #[trigger] index.messages@[j].start by {
            assert(index.messages@[i] == offset_of(ms[i], 0));
            assert(index.messages@[j] == offset_of(ms[j], 0));
            assert(ms[i].1 + ms[i].2 <= ms[j].1);
        }
    } else {
        assert(index.messages@ =~= Seq::<MessageOffset>::empty());
    }
}

/// The messages of a stream come in the order of the buffer and do not
/// overlap: each one ends at or before the next one starts (so no two share
/// an offset).
pub proof fn law_messages_in_order(buf: Seq<u8>, cursor: int, sep: u8)
    requires
        0 <= cursor,
    ensures
        forall|i: int, j: int|
            0 <= i < j < messages_from(buf, cursor, sep).len() ==> #[trigger] messages_from(buf, cursor, sep)[i].1
                + messages_from(buf, cursor, sep)[i].2 <= #[trigger] messages_from(buf, cursor, sep)[j].1,
    decreases buf.len() - cursor,
{
    lemma_messages_step(buf, cursor, sep);
    lemma_next_advances(buf, cursor, sep);
    match spec_next(buf, cursor, sep) {
        None => {},
        Some((v, c)) => {
            law_messages_in_order(buf, c, sep);
            lemma_messages_in_bounds(buf, c, sep);
            let ms = messages_from(buf, cursor, sep);
            let rest = messages_from(buf, c, sep);
            match v {
                Ok(m) => {
                    assert forall|i: int, j: int| 0 <= i < j < ms.len() implies #[trigger] ms[i].1 + ms[i].2
                        <= #[trigger] ms[j].1 by {
                        assert(ms[j] == rest[j - 1]);
                        if i > 0 {
                            assert(ms[i] == rest[i - 1]);
                        }
                    }
                },
                Err(_) => {},
            }
        },
    }
}

/// Walk the parser over `buf` from `start` and append every well-formed
/// message to `index`, re-basing offsets to `buf`.
fn extend_index(index: &mut LogIndex, buf: &[u8], format: &LogFormat, start: usize)
    requires
        old(index).wf(),
    ensures
        extended(*old(index), *final(index), buf@, start as int, separator_byte(format.separator)),
{
    let ghost sep = separator_byte(format.separator);
    if start >= buf.len() {
        assert(index.messages@ =~= index.messages@ + offsets_of(Seq::<MessageView>::empty(), start as int));
        return;
    }
    let tail = &buf[start..buf.len()];
    let ghost all = messages_from(tail@, 0, sep);
    let ghost before_len = index.messages@.len();
    let mut p = parse_all_with_format(tail, format);
    let ghost mut done: Seq<MessageView> = Seq::empty();
    proof {
        lemma_messages_in_bounds(tail@, 0, sep);
        assert(offsets_of(done, start as int) =~= Seq::<MessageOffset>::empty());
        assert(index.messages@ =~= old(index).messages@ + offsets_of(done, start as int));
    }
    loop
        invariant
            tail@ == buf@.subrange(start as int, buf@.len() as int),
            start < buf@.len(),
            p.source() == tail@,
            p.separator() == sep,
            0 <= p.position() <= tail@.len(),
            all == messages_from(tail@, 0, sep),
            done + messages_from(tail@, p.position(), sep) == all,
            forall|i: int|
                0 <= i < all.len() ==> 0 <= (#[trigger] all[i]).1 && 0 < all[i].2 && all[i].1 + all[i].2
                    <= tail@.len(),
            index.wf(),
            index.messages@ == old(index).messages@ + offsets_of(done, start as int),
            index.consumed == (if done.len() == 0 {
                old(index).consumed as int
            } else {
                start + done.last().1 + sat_u32(done.last().2)
            }),
            index.secondary.hot() == old(index).secondary.hot(),
            index.secondary@ == record_messages(
                old(index).secondary@,
                old(index).secondary.hot(),
                done,
                before_len as int,
                done.len() as int,
            ),
            before_len == old(index).messages@.len(),
        ensures
            done == all,
            index.wf(),
            index.messages@ == old(index).messages@ + offsets_of(done, start as int),
            index.consumed == (if done.len() == 0 {
                old(index).consumed as int
            } else {
                start + done.last().1 + sat_u32(done.last().2)
            }),
            index.secondary.hot() == old(index).secondary.hot(),
            index.secondary@ == record_messages(
                old(index).secondary@,
                old(index).secondary.hot(),
                done,
                before_len as int,
                done.len() as int,
            ),
        decreases tail@.len() - p.position(),
    {
        let ghost pos = p.position();
        proof {
            lemma_messages_step(tail@, pos, sep);
            lemma_next_advances(tail@, pos, sep);
        }
        match p.next() {
            None => {
                assert(done =~= all);
                break;
            },
            Some(Err(_)) => {},
            Some(Ok(msg)) => {
                let ghost m: MessageView = (fields_of(msg), msg.offset as int, msg.raw@.len() as int);
                assert(all[done.len() as int] == m) by {
                    assert((done + messages_from(tail@, pos, sep))[done.len() as int] == m);
                }
                assert(0 <= m.1 && 0 < m.2 && m.1 + m.2 <= tail@.len());
                assert(tail@.len() + start == buf@.len());
                assert(msg.offset as int == m.1);
                assert(msg.raw@.len() as int == m.2);
                assert(start + m.1 + m.2 <= buf@.len());
                assert(usize::MAX == u64::MAX || usize::MAX == u32::MAX);
                assert(buf@.len() == buf.len());
                assert(buf@.len() <= u64::MAX);
                let absolute_start = start as u64 + msg.offset;
                let raw_len = msg.raw.len();
                let len: u32 = if raw_len > 4294967295usize {
                    4294967295u32
                } else {
                    raw_len as u32
                };
                let offset = MessageOffset { start: absolute_start, len };
                index.consumed = offset.end();
                let count = index.messages.len();
                let ordinal: u32 = if count > 4294967295usize {
                    4294967295u32
                } else {
                    count as u32
                };
                index.secondary.record(&msg, ordinal);
                index.messages.push(offset);
                proof {
                    let done2 = done.push(m);
                    assert(offsets_of(done2, start as int) =~= offsets_of(done, start as int).push(
                        offset,
                    ));
                    assert(done2 + messages_from(tail@, p.position(), sep) =~= done + (seq![m]
                        + messages_from(tail@, p.position(), sep)));
                    assert(done2.drop_last() =~= done);
                    lemma_record_messages_prefix(
                        old(index).secondary@,
                        old(index).secondary.hot(),
                        done,
                        done2,
                        before_len as int,
                        done.len() as int,
                    );
                    done = done2;
                }
            },
        }
    }
    proof {
        assert(all =~= messages_after(buf@, start as int, sep));
    }
}

/// Build a fresh index over `buf` with the layout of `format` and the
/// default hot tags. Malformed messages are dropped; only well-formed
/// offsets end up in the index.
pub fn build_from_bytes(buf: &[u8], format: &LogFormat) -> (r: LogIndex)
    ensures
        extended_from(
            Seq::empty(),
            0,
            Map::empty(),
            default_hot_tags(),
            r,
            buf@,
            0,
            separator_byte(format.separator),
        ),
{
    build_from_bytes_with_hot_tags(buf, format, HotTags::default_set())
}

/// Like [`build_from_bytes`] with a caller-supplied hot-tag set; an empty
/// set skips the secondary index.
pub fn build_from_bytes_with_hot_tags(buf: &[u8], format: &LogFormat, tags: HotTags) -> (r: LogIndex)
    ensures
        extended_from(
            Seq::empty(),
            0,
            Map::empty(),
            tags.tags(),
            r,
            buf@,
            0,
            separator_byte(format.separator),
        ),
{
    let mut index = LogIndex::with_hot_tags(tags);
    extend_index(&mut index, buf, format, 0);
    index
}

impl LogIndex {
    /// Extend the index with the messages of `buf` from `from` on.
    ///
    /// `from` must equal the `consumed` watermark, otherwise
    /// [`IndexError::NonContiguousAppend`]; a buffer shorter than
    /// `consumed` gives [`IndexError::BufferShrank`]. On error the index is
    /// unchanged. On success returns the number of messages added.
    pub fn append_from_offset(&mut self, buf: &[u8], from: u64, format: &LogFormat) -> (r: Result<
        usize,
        IndexError,
    >)
        requires
            old(self).wf(),
        ensures
            from != old(self).consumed ==> r == Err::<usize, IndexError>(
                IndexError::NonContiguousAppend { consumed: old(self).consumed, from },
            ) && *final(self) == *old(self),
            from == old(self).consumed && buf@.len() < old(self).consumed ==> r == Err::<
                usize,
                IndexError,
            >(IndexError::BufferShrank { consumed: old(self).consumed, buf_len: buf@.len() as u64 })
                && *final(self) == *old(self),
            from == old(self).consumed && buf@.len() >= old(self).consumed ==> (r matches Ok(n)
                && extended(*old(self), *final(self), buf@, from as int, separator_byte(format.separator))
                && n == final(self).messages@.len() - old(self).messages@.len()),
    {
        if from != self.consumed {
            return Err(IndexError::NonContiguousAppend { consumed: self.consumed, from });
        }
        if (buf.len() as u64) < self.consumed {
            return Err(IndexError::BufferShrank { consumed: self.consumed, buf_len: buf.len() as u64 });
        }
        let before = self.messages.len();
        extend_index(self, buf, format, from as usize);
        Ok(self.messages.len() - before)
    }
}

} // verus!
