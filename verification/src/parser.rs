//! Zero-copy FIX tokenizer: splits a buffer into messages and each message
//! into its `tag=value` pairs, borrowing every value from the buffer.
use vstd::prelude::*;

use crate::bytes::{
    find_spec,
    find_byte_from, first_occurrence, is_digit, lemma_first_occurrence_unique,
    lemma_next_byte_bounds, memmem_find, next_byte, occurs_at,
};
use crate::format::{begin_marker, separator_byte, spec_find_subslice, LogFormat};
use crate::taglist::{tag_items, tags_new, tags_push, TagList};

verus! {

/// Tag `8` — BeginString (e.g. `FIX.4.4`, `FIXT.1.1`).
pub const TAG_BEGIN_STRING: u32 = 8;

/// Tag `9` — BodyLength (bytes between tag 9 and tag 10, exclusive).
pub const TAG_BODY_LENGTH: u32 = 9;

/// Tag `10` — CheckSum.
pub const TAG_CHECKSUM: u32 = 10;

/// Tag `34` — MsgSeqNum.
pub const TAG_MSG_SEQ_NUM: u32 = 34;

/// Tag `35` — MsgType (e.g. `D` = NewOrderSingle, `8` = ExecutionReport).
pub const TAG_MSG_TYPE: u32 = 35;

/// Tag `49` — SenderCompID.
pub const TAG_SENDER_COMP_ID: u32 = 49;

/// Tag `52` — SendingTime.
pub const TAG_SENDING_TIME: u32 = 52;

/// Tag `56` — TargetCompID.
pub const TAG_TARGET_COMP_ID: u32 = 56;

/// Standard FIX field separator.
pub const SOH: u8 = 0x01;

/// A single FIX message, still unresolved against any dictionary. It borrows
/// from the source buffer and exposes its tag/value pairs without copying.
#[derive(Debug)]
pub struct RawMessage<'a> {
    /// Byte offset of this message within the source buffer.
    pub offset: u64,
    /// Raw bytes of the full message, `BeginString` through `CheckSum<sep>`.
    pub raw: &'a [u8],
    /// Tag/value pairs in the order they appear in `raw`.
    pub tags: TagList<'a>,
}

/// The tag/value pairs of a message, values taken by their bytes.
pub open spec fn fields_of(m: RawMessage) -> Seq<(u32, Seq<u8>)> {
    tag_items(m.tags)
}

/// Errors produced by the tokenizer for a single message.
#[derive(Debug, Clone, Copy, PartialEq, Eq, Structural)]
pub enum ParseError {
    /// Buffer ended before a complete message could be read.
    UnexpectedEof,
    /// A tag component was not a valid ASCII unsigned integer.
    InvalidTag { offset: u64 },
    /// Found a `tag=` without a value segment before the next separator.
    MissingValue { tag: u32, offset: u64 },
    /// First field was not `8=...`.
    InvalidBeginString { offset: u64 },
    /// Tag `9` (BodyLength) missing, non-numeric, or inconsistent with message size.
    InvalidBodyLength { offset: u64 },
    /// Tag `10` (CheckSum) did not match the computed value.
    BadChecksum { offset: u64, expected: u8, got: u8 },
}

/// Value of the first field with tag `tag` at or after position `i`.
pub open spec fn value_from(fields: Seq<(u32, Seq<u8>)>, tag: u32, i: int) -> Option<Seq<u8>>
    decreases fields.len() - i,
{
    if i < 0 || i >= fields.len() {
        None
    } else if fields[i].0 == tag {
        Some(fields[i].1)
    } else {
        value_from(fields, tag, i + 1)
    }
}

/// Value of the first field with tag `tag`.
pub open spec fn first_value(fields: Seq<(u32, Seq<u8>)>, tag: u32) -> Option<Seq<u8>> {
    value_from(fields, tag, 0)
}

/// Linear scan of the tags of `msg` for `tag`: the value of its first
/// occurrence, borrowed from the source buffer.
pub fn find_tag<'a>(msg: &RawMessage<'a>, tag: u32) -> (r: Option<&'a [u8]>)
    ensures
        match first_value(fields_of(*msg), tag) {
            Some(v) => r matches Some(x) && x@ == v,
            None => r is None,
        },
{
    let n = msg.tags.len();
    let mut i: usize = 0;
    while i < n
        invariant
            i <= n,
            n == fields_of(*msg).len(),
            first_value(fields_of(*msg), tag) == value_from(fields_of(*msg), tag, i as int),
        decreases n - i,
    {
        let (t, v) = msg.tags.get(i);
        if t == tag {
            return Some(v);
        }
        i += 1;
    }
    None
}

// ---------------------------------------------------------------------------
// Unsigned decimal numbers
// ---------------------------------------------------------------------------
/// Every byte of `s` is an ASCII digit.
pub open spec fn all_digits(s: Seq<u8>) -> bool {
    forall|i: int| 0 <= i < s.len() ==> #[trigger] is_digit(s[i])
}

/// The decimal value of a sequence of ASCII digits.
pub open spec fn digits_value(s: Seq<u8>) -> nat
    decreases s.len(),
{
    if s.len() == 0 {
        0
    } else {
        digits_value(s.drop_last()) * 10 + (s.last() - 48) as nat
    }
}

/// The value of a non-empty run of ASCII digits that fits in a `u32`.
pub open spec fn spec_parse_uint(s: Seq<u8>) -> Option<u32> {
    if s.len() > 0 && all_digits(s) && digits_value(s) <= u32::MAX {
        Some(digits_value(s) as u32)
    } else {
        None
    }
}

/// The value of a digit run never decreases as digits are appended.
pub proof fn lemma_digits_value_prefix(s: Seq<u8>, j: int)
    requires
        0 <= j <= s.len(),
        all_digits(s),
    ensures
        digits_value(s.take(j)) <= digits_value(s),
    decreases s.len(),
{
    if j < s.len() {
        let d = s.drop_last();
        assert(all_digits(d)) by {
            assert forall|i: int| 0 <= i < d.len() implies #[trigger] is_digit(d[i]) by {
                assert(is_digit(s[i]));
            }
        }
        lemma_digits_value_prefix(d, j);
        assert(d.take(j) == s.take(j));
    } else {
        assert(s.take(j) == s);
    }
}

/// Parse an ASCII unsigned integer. `None` on empty input, a non-digit byte,
/// or overflow of `u32`.
pub fn parse_uint(bytes: &[u8]) -> (r: Option<u32>)
    ensures
        r == spec_parse_uint(bytes@),
{
    if bytes.len() == 0 {
        return None;
    }
    let mut n: u32 = 0;
    let mut k: usize = 0;
    while k < bytes.len()
        invariant
            k <= bytes@.len(),
            bytes@.len() > 0,
            all_digits(bytes@.take(k as int)),
            n as nat == digits_value(bytes@.take(k as int)),
        decreases bytes@.len() - k,
    {
        let b = bytes[k];
        assert(bytes@.take(k + 1).drop_last() == bytes@.take(k as int));
        if !(b >= 48u8 && b <= 57u8) {
            assert(!is_digit(bytes@[k as int]));
            return None;
        }
        assert(all_digits(bytes@.take(k + 1))) by {
            assert forall|i: int| 0 <= i < k + 1 implies #[trigger] is_digit(bytes@.take(k + 1)[i]) by {
                if i < k {
                    assert(bytes@.take(k + 1)[i] == bytes@.take(k as int)[i]);
                }
            }
        }
        let m = match n.checked_mul(10) {
            Some(m) => m,
            None => {
                proof {
                    lemma_overflow_is_final(bytes@, k as int);
                }
                return None;
            },
        };
        n = match m.checked_add((b - 48u8) as u32) {
            Some(v) => v,
            None => {
                proof {
                    lemma_overflow_is_final(bytes@, k as int);
                }
                return None;
            },
        };
        k += 1;
    }
    assert(bytes@.take(k as int) == bytes@);
    Some(n)
}

/// Once a prefix of a digit run exceeds `u32`, so does the whole run (or the
/// run holds a non-digit byte).
proof fn lemma_overflow_is_final(s: Seq<u8>, k: int)
    requires
        0 <= k < s.len(),
        digits_value(s.take(k + 1)) > u32::MAX,
    ensures
        spec_parse_uint(s) is None,
{
    if all_digits(s) {
        lemma_digits_value_prefix(s, k + 1);
    }
}

// ---------------------------------------------------------------------------
// Fields
// ---------------------------------------------------------------------------
/// Read one `tag=value<sep>` triple starting at `start`: the tag, the bounds
/// of the value and the index just past the trailing separator.
pub open spec fn spec_read_field(buf: Seq<u8>, sep: u8, start: int, moff: int) -> Result<
    (u32, int, int, int),
    ParseError,
> {
    let eq = next_byte(buf, 61u8, start);
    if eq >= buf.len() {
        Err(ParseError::UnexpectedEof)
    } else {
        match spec_parse_uint(buf.subrange(start, eq)) {
            None => Err(ParseError::InvalidTag { offset: (moff + start) as u64 }),
            Some(tag) => {
                let se = next_byte(buf, sep, eq + 1);
                if se >= buf.len() {
                    Err(ParseError::UnexpectedEof)
                } else {
                    Ok((tag, eq + 1, se, se + 1))
                }
            },
        }
    }
}

proof fn lemma_read_field_advances(buf: Seq<u8>, sep: u8, start: int, moff: int)
    requires
        0 <= start <= buf.len(),
    ensures
        spec_read_field(buf, sep, start, moff) matches Ok((t, vs, ve, next)) ==> start < vs <= ve
            < next <= buf.len(),
{
    lemma_next_byte_bounds(buf, 61u8, start);
    let eq = next_byte(buf, 61u8, start);
    if eq < buf.len() {
        lemma_next_byte_bounds(buf, sep, eq + 1);
    }
}

/// A field read moves forward and stays within the buffer.
pub proof fn lemma_read_field_advances_pub(buf: Seq<u8>, sep: u8, start: int, moff: int)
    requires
        0 <= start <= buf.len(),
    ensures
        spec_read_field(buf, sep, start, moff) matches Ok((t, vs, ve, next)) ==> start < vs <= ve
            < next <= buf.len(),
{
    lemma_read_field_advances(buf, sep, start, moff);
}

/// Exec counterpart of [`spec_read_field`] that borrows the value.
fn read_field<'a>(buf: &'a [u8], sep: u8, start: usize, msg_offset: u64) -> (r: Result<
    (u32, &'a [u8], usize),
    ParseError,
>)
    requires
        start <= buf@.len(),
        msg_offset + buf@.len() <= u64::MAX,
    ensures
        match r {
            Ok((tag, value, next)) => spec_read_field(buf@, sep, start as int, msg_offset as int)
                matches Ok((t, vs, ve, n)) && t == tag && n == next && value@ == buf@.subrange(
                vs,
                ve,
            ),
            Err(e) => spec_read_field(buf@, sep, start as int, msg_offset as int) == Err::<
                (u32, int, int, int),
                ParseError,
            >(e),
        },
{
    assert(buf@.len() == buf.len());
    let eq = match find_byte_from(buf, 61u8, start) {
        Some(i) => i,
        None => return Err(ParseError::UnexpectedEof),
    };
    let tag = match parse_uint(&buf[start..eq]) {
        Some(t) => t,
        None => return Err(ParseError::InvalidTag { offset: msg_offset + start as u64 }),
    };
    let value_start = eq + 1;
    let sep_idx = match find_byte_from(buf, sep, value_start) {
        Some(i) => i,
        None => return Err(ParseError::UnexpectedEof),
    };
    Ok((tag, &buf[value_start..sep_idx], sep_idx + 1))
}

/// Every field of `raw` from `cursor` on, or the first error met.
pub open spec fn fields_from(raw: Seq<u8>, sep: u8, cursor: int, moff: int) -> Result<
    Seq<(u32, Seq<u8>)>,
    ParseError,
>
    decreases raw.len() - cursor
    via fields_from_decreases
{
    if cursor < 0 || cursor >= raw.len() {
        Ok(seq![])
    } else {
        match spec_read_field(raw, sep, cursor, moff) {
            Err(e) => Err(e),
            Ok((tag, vs, ve, next)) => match fields_from(raw, sep, next, moff) {
                Err(e) => Err(e),
                Ok(rest) => Ok(seq![(tag, raw.subrange(vs, ve))] + rest),
            },
        }
    }
}

#[via_fn]
proof fn fields_from_decreases(raw: Seq<u8>, sep: u8, cursor: int, moff: int) {
    if 0 <= cursor < raw.len() {
        lemma_read_field_advances(raw, sep, cursor, moff);
    }
}

/// Prefix already-read fields to the result of reading the rest.
pub open spec fn prepend(done: Seq<(u32, Seq<u8>)>, rest: Result<Seq<(u32, Seq<u8>)>, ParseError>) -> Result<
    Seq<(u32, Seq<u8>)>,
    ParseError,
> {
    match rest {
        Ok(r) => Ok(done + r),
        Err(e) => Err(e),
    }
}

// ---------------------------------------------------------------------------
// One message
// ---------------------------------------------------------------------------
/// Parse one message at the start of `buf` (found at `offset` in the source):
/// `8=` BeginString, `9=` BodyLength, then the `10=` CheckSum field exactly
/// BodyLength bytes after the BodyLength field, then every field of the
/// message up to and including the CheckSum. Yields the fields and the
/// number of bytes consumed. A checksum that does not match the bytes is not
/// an error.
pub open spec fn spec_parse_one(buf: Seq<u8>, offset: int, sep: u8) -> Result<
    (Seq<(u32, Seq<u8>)>, int),
    ParseError,
> {
    match spec_read_field(buf, sep, 0, offset) {
        Err(e) => Err(e),
        Ok((tag, _, _, after_begin)) => if tag != TAG_BEGIN_STRING {
            Err(ParseError::InvalidBeginString { offset: offset as u64 })
        } else {
            match spec_read_field(buf, sep, after_begin, offset) {
                Err(e) => Err(e),
                Ok((tag2, vs, ve, after_body_len)) => if tag2 != TAG_BODY_LENGTH {
                    Err(ParseError::InvalidBodyLength { offset: offset as u64 })
                } else {
                    match spec_parse_uint(buf.subrange(vs, ve)) {
                        None => Err(ParseError::InvalidBodyLength { offset: offset as u64 }),
                        Some(body_len) => {
                            let body_end = after_body_len + body_len;
                            if body_end > usize::MAX {
                                Err(ParseError::InvalidBodyLength { offset: offset as u64 })
                            } else if body_end > buf.len() {
                                Err(ParseError::UnexpectedEof)
                            } else {
                                match spec_read_field(buf, sep, body_end, offset) {
                                    Err(e) => Err(e),
                                    Ok((tag3, _, _, after_checksum)) => if tag3 != TAG_CHECKSUM {
                                        Err(ParseError::InvalidBodyLength { offset: offset as u64 })
                                    } else {
                                        match fields_from(
                                            buf.take(after_checksum),
                                            sep,
                                            0,
                                            offset,
                                        ) {
                                            Err(e) => Err(e),
                                            Ok(tags) => Ok((tags, after_checksum)),
                                        }
                                    },
                                }
                            }
                        },
                    }
                },
            }
        },
    }
}

/// What a successful parse yields, seen through the message's fields.
pub open spec fn parse_result_view<'a>(r: Result<(RawMessage<'a>, usize), ParseError>) -> Result<
    (Seq<(u32, Seq<u8>)>, int),
    ParseError,
> {
    match r {
        Ok((m, n)) => Ok((fields_of(m), n as int)),
        Err(e) => Err(e),
    }
}

fn parse_one_inner<'a>(buf: &'a [u8], offset: u64, sep: u8) -> (r: Result<(RawMessage<'a>, usize), ParseError>)
    requires
        offset + buf@.len() <= u64::MAX,
    ensures
        parse_result_view(r) == spec_parse_one(buf@, offset as int, sep),
        r matches Ok((m, n)) ==> m.offset == offset && n <= buf@.len() && m.raw@ == buf@.take(
            n as int,
        ),
{
    let (tag, _begin_string, after_begin) = match read_field(buf, sep, 0, offset) {
        Ok(f) => f,
        Err(e) => return Err(e),
    };
    proof {
        lemma_read_field_advances(buf@, sep, 0, offset as int);
    }
    if tag != TAG_BEGIN_STRING {
        return Err(ParseError::InvalidBeginString { offset });
    }
    let (tag, body_len_bytes, after_body_len) = match read_field(buf, sep, after_begin, offset) {
        Ok(f) => f,
        Err(e) => return Err(e),
    };
    proof {
        lemma_read_field_advances(buf@, sep, after_begin as int, offset as int);
    }
    if tag != TAG_BODY_LENGTH {
        return Err(ParseError::InvalidBodyLength { offset });
    }
    let body_len = match parse_uint(body_len_bytes) {
        Some(v) => v as usize,
        None => return Err(ParseError::InvalidBodyLength { offset }),
    };
    let body_end = match after_body_len.checked_add(body_len) {
        Some(e) => e,
        None => return Err(ParseError::InvalidBodyLength { offset }),
    };
    if body_end > buf.len() {
        return Err(ParseError::UnexpectedEof);
    }
    let (tag, _checksum_bytes, after_checksum) = match read_field(buf, sep, body_end, offset) {
        Ok(f) => f,
        Err(e) => return Err(e),
    };
    proof {
        lemma_read_field_advances(buf@, sep, body_end as int, offset as int);
    }
    if tag != TAG_CHECKSUM {
        return Err(ParseError::InvalidBodyLength { offset });
    }
    let raw = &buf[0..after_checksum];
    let mut tags = tags_new();
    let mut cursor: usize = 0;
    assert(raw@ == buf@.take(after_checksum as int));
    assert(spec_parse_one(buf@, offset as int, sep) == match fields_from(raw@, sep, 0, offset as int) {
        Err(e) => Err(e),
        Ok(t) => Ok((t, after_checksum as int)),
    });
    assert(tag_items(tags) + Seq::<(u32, Seq<u8>)>::empty() == Seq::<(u32, Seq<u8>)>::empty());
    while cursor < after_checksum
        invariant
            spec_parse_one(buf@, offset as int, sep) == match fields_from(raw@, sep, 0, offset as int) {
                Err(e) => Err(e),
                Ok(t) => Ok((t, after_checksum as int)),
            },
            cursor <= after_checksum,
            raw@.len() == after_checksum,
            raw@ == buf@.take(after_checksum as int),
            offset + buf@.len() <= u64::MAX,
            after_checksum <= buf@.len(),
            fields_from(raw@, sep, 0, offset as int) == prepend(
                tag_items(tags),
                fields_from(raw@, sep, cursor as int, offset as int),
            ),
        decreases after_checksum - cursor,
    {
        let ghost before = tag_items(tags);
        proof {
            lemma_read_field_advances(raw@, sep, cursor as int, offset as int);
        }
        let (tag, value, next) = match read_field(raw, sep, cursor, offset) {
            Ok(f) => f,
            Err(e) => {
                return Err(e);
            },
        };
        tags_push(&mut tags, tag, value);
        proof {
            let rest = fields_from(raw@, sep, next as int, offset as int);
            match rest {
                Ok(r) => {
                    assert(before.push((tag, value@)) + r == before + (seq![(tag, value@)] + r));
                },
                Err(_) => {},
            }
        }
        cursor = next;
    }
    assert(tag_items(tags) + Seq::<(u32, Seq<u8>)>::empty() == tag_items(tags));
    Ok((RawMessage { offset, raw, tags }, after_checksum))
}

/// Parse a single FIX message from `buf`, assuming SOH (`\x01`) separators
/// and no line prefix. On success returns the message (with `offset = 0`)
/// and the number of bytes consumed.
pub fn parse_one<'a>(buf: &'a [u8]) -> (r: Result<(RawMessage<'a>, usize), ParseError>)
    ensures
        parse_result_view(r) == spec_parse_one(buf@, 0, SOH),
        r matches Ok((m, n)) ==> m.offset == 0 && n <= buf@.len() && m.raw@ == buf@.take(n as int),
{
    assert(buf@.len() == buf.len());
    parse_one_inner(buf, 0, SOH)
}

/// Parse a single FIX message from `buf` using the separator declared by
/// `format` (the line prefix is ignored: `buf` must start at `8=`).
pub fn parse_one_with_format<'a>(buf: &'a [u8], format: &LogFormat) -> (r: Result<
    (RawMessage<'a>, usize),
    ParseError,
>)
    ensures
        parse_result_view(r) == spec_parse_one(buf@, 0, separator_byte(format.separator)),
        r matches Ok((m, n)) ==> m.offset == 0 && n <= buf@.len() && m.raw@ == buf@.take(n as int),
{
    assert(buf@.len() == buf.len());
    parse_one_inner(buf, 0, format.separator.as_byte())
}

// ---------------------------------------------------------------------------
// Streams of messages
// ---------------------------------------------------------------------------
/// Position of the first `8=FIX` marker at or after `from`, if any.
pub open spec fn spec_find_begin(buf: Seq<u8>, from: int) -> Option<int> {
    if from < 0 || from >= buf.len() {
        None
    } else {
        match spec_find_subslice(buf.subrange(from, buf.len() as int), begin_marker()) {
            Some(p) => Some(from + p),
            None => None,
        }
    }
}

/// Find the next occurrence of the `8=FIX` BeginString marker at or after `from`.
pub fn find_begin_string(buf: &[u8], from: usize) -> (r: Option<usize>)
    ensures
        match r {
            Some(p) => spec_find_begin(buf@, from as int) == Some(p as int) && from <= p < buf@.len(),
            None => spec_find_begin(buf@, from as int) is None,
        },
{
    if from >= buf.len() {
        return None;
    }
    let marker: [u8; 5] = [56u8, 61u8, 70u8, 73u8, 88u8];
    let tail = &buf[from..buf.len()];
    let needle = marker.as_slice();
    assert(needle@ == begin_marker());
    match memmem_find(tail, needle) {
        Some(rel) => {
            proof {
                assert(exists|q: int| first_occurrence(tail@, needle@, q));
                let q = choose|q: int| first_occurrence(tail@, needle@, q);
                lemma_first_occurrence_unique(tail@, needle@, rel as int, q);
            }
            Some(from + rel)
        },
        None => {
            assert(!exists|q: int| first_occurrence(tail@, needle@, q));
            None
        },
    }
}

/// What the stream yields at `cursor`: `None` when no further marker exists;
/// otherwise the parse attempted at the marker (with the message's absolute
/// offset and length on success) and the cursor to resume from — past the
/// message on success, one byte past the marker on failure.
pub open spec fn spec_next(buf: Seq<u8>, cursor: int, sep: u8) -> Option<
    (Result<(Seq<(u32, Seq<u8>)>, int, int), ParseError>, int),
> {
    match spec_find_begin(buf, cursor) {
        None => None,
        Some(start) => match spec_parse_one(buf.subrange(start, buf.len() as int), start, sep) {
            Ok((tags, consumed)) => Some((Ok((tags, start, consumed)), start + consumed)),
            Err(e) => Some((Err(e), start + 1)),
        },
    }
}

/// Each step of the stream moves the cursor forward, and never past the end.
pub proof fn lemma_next_advances(buf: Seq<u8>, cursor: int, sep: u8)
    ensures
        spec_next(buf, cursor, sep) matches Some((v, c)) ==> cursor < c <= buf.len(),
        spec_next(buf, cursor, sep) matches Some((v, c)) ==> (v matches Ok((t, off, len)) ==> cursor
            <= off && 0 < len && c == off + len),
{
    match spec_find_begin(buf, cursor) {
        None => {},
        Some(start) => {
            let sub = buf.subrange(cursor, buf.len() as int);
            let p = start - cursor;
            assert(find_spec(sub, begin_marker()) == Some(p));
            assert(exists|q: int| first_occurrence(sub, begin_marker(), q));
            assert(first_occurrence(sub, begin_marker(), p));
            assert(0 <= p && p + 5 <= sub.len());
            let rest = buf.subrange(start, buf.len() as int);
            lemma_parse_one_consumed(rest, start, sep);
        },
    }
}

/// The marker found from `from` lies at or after `from`, within the buffer.
pub proof fn lemma_find_begin_bounds(buf: Seq<u8>, from: int)
    ensures
        spec_find_begin(buf, from) matches Some(p) ==> 0 <= from <= p && p + 5 <= buf.len(),
{
    match spec_find_begin(buf, from) {
        None => {},
        Some(start) => {
            let sub = buf.subrange(from, buf.len() as int);
            let p = start - from;
            assert(find_spec(sub, begin_marker()) == Some(p));
            assert(exists|q: int| first_occurrence(sub, begin_marker(), q));
            assert(first_occurrence(sub, begin_marker(), p));
        },
    }
}

/// A successful parse consumes at least one byte and no more than it was given.
pub proof fn lemma_parse_one_consumed(buf: Seq<u8>, offset: int, sep: u8)
    ensures
        spec_parse_one(buf, offset, sep) matches Ok((t, c)) ==> 0 < c <= buf.len(),
{
    lemma_read_field_advances(buf, sep, 0, offset);
    if let Ok((tag, _, _, after_begin)) = spec_read_field(buf, sep, 0, offset) {
        lemma_read_field_advances(buf, sep, after_begin, offset);
        if let Ok((tag2, vs, ve, after_body_len)) = spec_read_field(buf, sep, after_begin, offset) {
            if let Some(body_len) = spec_parse_uint(buf.subrange(vs, ve)) {
                let body_end = after_body_len + body_len;
                if 0 <= body_end <= buf.len() {
                    lemma_read_field_advances(buf, sep, body_end, offset);
                }
            }
        }
    }
}

/// Everything the stream yields from `cursor` on, in order.
pub open spec fn spec_stream(buf: Seq<u8>, cursor: int, sep: u8) -> Seq<
    Result<(Seq<(u32, Seq<u8>)>, int, int), ParseError>,
>
    decreases buf.len() - cursor,
{
    match spec_next(buf, cursor, sep) {
        None => Seq::empty(),
        Some((v, c)) => {
            proof {
                lemma_next_advances(buf, cursor, sep);
            }
            seq![v] + spec_stream(buf, c, sep)
        },
    }
}

/// The well-formed messages of a stream, as (fields, offset, length).
pub open spec fn ok_messages(s: Seq<Result<(Seq<(u32, Seq<u8>)>, int, int), ParseError>>) -> Seq<
    (Seq<(u32, Seq<u8>)>, int, int),
>
    decreases s.len(),
{
    if s.len() == 0 {
        Seq::empty()
    } else {
        match s[0] {
            Ok(m) => seq![m] + ok_messages(s.drop_first()),
            Err(_) => ok_messages(s.drop_first()),
        }
    }
}

/// The well-formed messages of `buf` from `cursor` on.
pub open spec fn messages_from(buf: Seq<u8>, cursor: int, sep: u8) -> Seq<(Seq<(u32, Seq<u8>)>, int, int)> {
    ok_messages(spec_stream(buf, cursor, sep))
}

/// One step of [`messages_from`]: what the stream yields at `cursor`, and
/// the rest.
pub proof fn lemma_messages_step(buf: Seq<u8>, cursor: int, sep: u8)
    ensures
        match spec_next(buf, cursor, sep) {
            None => messages_from(buf, cursor, sep) == Seq::<(Seq<(u32, Seq<u8>)>, int, int)>::empty(),
            Some((Ok(m), c)) => messages_from(buf, cursor, sep) == seq![m] + messages_from(buf, c, sep),
            Some((Err(_), c)) => messages_from(buf, cursor, sep) == messages_from(buf, c, sep),
        },
{
    match spec_next(buf, cursor, sep) {
        None => {},
        Some((v, c)) => {
            let s = spec_stream(buf, cursor, sep);
            assert(s == seq![v] + spec_stream(buf, c, sep));
            assert(s.drop_first() =~= spec_stream(buf, c, sep));
        },
    }
}

/// A message seen through its fields, its offset and its length.
pub open spec fn message_view<'a>(r: Result<RawMessage<'a>, ParseError>) -> Result<
    (Seq<(u32, Seq<u8>)>, int, int),
    ParseError,
> {
    match r {
        Ok(m) => Ok((fields_of(m), m.offset as int, m.raw@.len() as int)),
        Err(e) => Err(e),
    }
}

/// Stream of the messages of a buffer, returned by [`parse_all`] and
/// [`parse_all_with_format`]. It scans for the `8=FIX` marker, so anything
/// between messages (prefixes, noise, blank lines) is skipped.
pub struct Parser<'a> {
    buf: &'a [u8],
    cursor: usize,
    sep: u8,
}

impl<'a> Parser<'a> {
    /// The buffer being scanned.
    pub closed spec fn source(&self) -> Seq<u8> {
        self.buf@
    }

    /// The position from which the next message is searched.
    pub closed spec fn position(&self) -> int {
        self.cursor as int
    }

    /// The separator byte.
    pub closed spec fn separator(&self) -> u8 {
        self.sep
    }

    /// Yield the next message of the buffer (or the error met while parsing
    /// the candidate at the next `8=FIX` marker), or `None` at the end.
    pub fn next(&mut self) -> (r: Option<Result<RawMessage<'a>, ParseError>>)
        ensures
            final(self).source() == old(self).source(),
            final(self).separator() == old(self).separator(),
            match spec_next(old(self).source(), old(self).position(), old(self).separator()) {
                None => r is None && final(self).position() == old(self).position(),
                Some((v, c)) => r matches Some(m) && message_view(m) == v && final(self).position()
                    == c,
            },
            r matches Some(Ok(m)) ==> m.raw@ == old(self).source().subrange(
                m.offset as int,
                m.offset + m.raw@.len(),
            ),
    {
        let start = match find_begin_string(self.buf, self.cursor) {
            Some(s) => s,
            None => return None,
        };
        assert(self.buf@.len() == self.buf.len());
        let tail = &self.buf[start..self.buf.len()];
        match parse_one_inner(tail, start as u64, self.sep) {
            Ok((msg, consumed)) => {
                assert(msg.raw@ == self.buf@.subrange(start as int, start + consumed));
                self.cursor = start + consumed;
                Some(Ok(msg))
            },
            Err(err) => {
                self.cursor = start + 1;
                Some(Err(err))
            },
        }
    }
}

/// Iterate over all messages in `buf`, assuming SOH separators.
pub fn parse_all<'a>(buf: &'a [u8]) -> (p: Parser<'a>)
    ensures
        p.source() == buf@,
        p.position() == 0,
        p.separator() == SOH,
{
    Parser { buf, cursor: 0, sep: SOH }
}

/// Iterate over all messages in `buf` using the separator of `format` (the
/// line prefix is not needed: messages are located by their `8=FIX` marker).
pub fn parse_all_with_format<'a>(buf: &'a [u8], format: &LogFormat) -> (p: Parser<'a>)
    ensures
        p.source() == buf@,
        p.position() == 0,
        p.separator() == separator_byte(format.separator),
{
    Parser { buf, cursor: 0, sep: format.separator.as_byte() }
}

// ---------------------------------------------------------------------------
// Checksums
// ---------------------------------------------------------------------------
/// Sum of the bytes of `s` modulo 256.
pub open spec fn byte_sum(s: Seq<u8>) -> nat
    decreases s.len(),
{
    if s.len() == 0 {
        0
    } else {
        (byte_sum(s.drop_last()) + s.last()) as nat
    }
}

/// Sum every byte in `bytes` modulo 256.
pub fn compute_checksum(bytes: &[u8]) -> (c: u8)
    ensures
        c == byte_sum(bytes@) % 256,
{
    let mut acc: u8 = 0;
    let mut i: usize = 0;
    while i < bytes.len()
        invariant
            i <= bytes@.len(),
            acc == byte_sum(bytes@.take(i as int)) % 256,
        decreases bytes@.len() - i,
    {
        assert(bytes@.take(i + 1).drop_last() == bytes@.take(i as int));
        let b = bytes[i];
        let ghost prev = byte_sum(bytes@.take(i as int));
        acc = acc.wrapping_add(b);
        assert(acc == (prev + b) % 256) by {
            assert((acc as int) == (((prev % 256) + b as int) % 256));
            vstd::arithmetic::div_mod::lemma_add_mod_noop(prev as int, b as int, 256);
        }
        i += 1;
    }
    assert(bytes@.take(i as int) == bytes@);
    acc
}

/// Parse a 3-digit ASCII checksum (e.g. `b"161"`) into a `u8`. `None` unless
/// the bytes are exactly three ASCII digits with a value below 256.
pub fn parse_checksum(bytes: &[u8]) -> (r: Option<u8>)
    ensures
        r == (if bytes@.len() == 3 && all_digits(bytes@) && digits_value(bytes@) <= 255 {
            Some(digits_value(bytes@) as u8)
        } else {
            None
        }),
{
    if bytes.len() != 3 {
        return None;
    }
    let mut n: u16 = 0;
    let mut i: usize = 0;
    while i < 3
        invariant
            i <= 3,
            bytes@.len() == 3,
            all_digits(bytes@.take(i as int)),
            n as nat == digits_value(bytes@.take(i as int)),
            n < 1000,
            i == 0 ==> n == 0,
            i == 1 ==> n < 10,
            i == 2 ==> n < 100,
        decreases 3 - i,
    {
        assert(bytes@.take(i + 1).drop_last() == bytes@.take(i as int));
        let b = bytes[i];
        if !(b >= 48u8 && b <= 57u8) {
            assert(!is_digit(bytes@[i as int]));
            return None;
        }
        assert(all_digits(bytes@.take(i + 1))) by {
            assert forall|k: int| 0 <= k < i + 1 implies #[trigger] is_digit(bytes@.take(i + 1)[k]) by {
                if k < i {
                    assert(bytes@.take(i + 1)[k] == bytes@.take(i as int)[k]);
                }
            }
        }
        n = n * 10 + (b - 48u8) as u16;
        i += 1;
    }
    assert(bytes@.take(3) == bytes@);
    if n <= 255 {
        Some(n as u8)
    } else {
        None
    }
}

// ---------------------------------------------------------------------------
// Reading a prefix of a longer buffer
// ---------------------------------------------------------------------------
/// A byte found within `p` is found at the same place in any extension of `p`.
pub proof fn lemma_next_byte_prefix(p: Seq<u8>, q: Seq<u8>, b: u8, i: int)
    requires
        0 <= i,
        next_byte(p, b, i) < p.len(),
    ensures
        next_byte(p + q, b, i) == next_byte(p, b, i),
    decreases p.len() - i,
{
    if i < p.len() && (p + q)[i] != b {
        lemma_next_byte_prefix(p, q, b, i + 1);
    }
}

/// A field read within `p` that does not run off its end reads the same in
/// any extension of `p`.
pub proof fn lemma_read_field_prefix(p: Seq<u8>, q: Seq<u8>, sep: u8, start: int, moff: int)
    requires
        0 <= start <= p.len(),
        spec_read_field(p, sep, start, moff) != Err::<(u32, int, int, int), ParseError>(ParseError::UnexpectedEof),
    ensures
        spec_read_field(p + q, sep, start, moff) == spec_read_field(p, sep, start, moff),
{
    let eq = next_byte(p, 61u8, start);
    lemma_next_byte_bounds(p, 61u8, start);
    lemma_next_byte_prefix(p, q, 61u8, start);
    assert((p + q).subrange(start, eq) =~= p.subrange(start, eq));
    if spec_parse_uint(p.subrange(start, eq)) is Some {
        lemma_next_byte_bounds(p, sep, eq + 1);
        lemma_next_byte_prefix(p, q, sep, eq + 1);
    }
}

/// A parse of a message at the start of `p` that does not run off its end
/// gives the same result in any extension of `p`.
pub proof fn lemma_parse_one_prefix(p: Seq<u8>, q: Seq<u8>, offset: int, sep: u8)
    requires
        spec_parse_one(p, offset, sep) != Err::<(Seq<(u32, Seq<u8>)>, int), ParseError>(ParseError::UnexpectedEof),
    ensures
        spec_parse_one(p + q, offset, sep) == spec_parse_one(p, offset, sep),
{
    let pq = p + q;
    lemma_read_field_advances(p, sep, 0, offset);
    if spec_read_field(p, sep, 0, offset) != Err::<(u32, int, int, int), ParseError>(ParseError::UnexpectedEof) {
        lemma_read_field_prefix(p, q, sep, 0, offset);
    }
    if let Ok((tag, _, _, after_begin)) = spec_read_field(p, sep, 0, offset) {
        if tag == TAG_BEGIN_STRING {
            lemma_read_field_advances(p, sep, after_begin, offset);
            if spec_read_field(p, sep, after_begin, offset) != Err::<(u32, int, int, int), ParseError>(ParseError::UnexpectedEof) {
                lemma_read_field_prefix(p, q, sep, after_begin, offset);
            }
            if let Ok((tag2, vs, ve, after_body_len)) = spec_read_field(p, sep, after_begin, offset) {
                assert(pq.subrange(vs, ve) =~= p.subrange(vs, ve));
                if let Some(body_len) = spec_parse_uint(p.subrange(vs, ve)) {
                    let body_end = after_body_len + body_len;
                    if tag2 == TAG_BODY_LENGTH && body_end <= usize::MAX && body_end <= p.len() {
                        lemma_read_field_advances(p, sep, body_end, offset);
                        if spec_read_field(p, sep, body_end, offset) != Err::<(u32, int, int, int), ParseError>(ParseError::UnexpectedEof) {
                            lemma_read_field_prefix(p, q, sep, body_end, offset);
                        }
                        if let Ok((tag3, _, _, after_checksum)) = spec_read_field(p, sep, body_end, offset) {
                            assert(pq.take(after_checksum) =~= p.take(after_checksum));
                        }
                    }
                }
            }
        }
    }
}

/// Where `needle` occurs in `hay`, it has a first occurrence.
pub proof fn lemma_occurrence_has_first(hay: Seq<u8>, needle: Seq<u8>, j: int)
    requires
        occurs_at(hay, needle, j),
    ensures
        exists|p: int| first_occurrence(hay, needle, p),
    decreases j,
{
    if exists|q: int| 0 <= q < j && occurs_at(hay, needle, q) {
        let q = choose|q: int| 0 <= q < j && occurs_at(hay, needle, q);
        lemma_occurrence_has_first(hay, needle, q);
    } else {
        assert(first_occurrence(hay, needle, j));
    }
}

/// The marker found within `p` is found at the same place in any extension
/// of `p`.
pub proof fn lemma_find_begin_prefix(p: Seq<u8>, q: Seq<u8>, from: int)
    requires
        spec_find_begin(p, from) is Some,
    ensures
        spec_find_begin(p + q, from) == spec_find_begin(p, from),
{
    let s = spec_find_begin(p, from)->0;
    lemma_find_begin_bounds(p, from);
    let h = p.subrange(from, p.len() as int);
    let h2 = (p + q).subrange(from, (p + q).len() as int);
    let k = s - from;
    assert(first_occurrence(h, begin_marker(), k));
    assert(h2.subrange(k, k + 5) =~= h.subrange(k, k + 5));
    assert forall|j: int| 0 <= j < k implies !occurs_at(h2, begin_marker(), j) by {
        assert(h2.subrange(j, j + 5) =~= h.subrange(j, j + 5));
        assert(!occurs_at(h, begin_marker(), j));
    }
    assert(first_occurrence(h2, begin_marker(), k));
    let c = choose|c: int| first_occurrence(h2, begin_marker(), c);
    lemma_first_occurrence_unique(h2, begin_marker(), k, c);
}

/// With no marker in `buf` from `from` on, there is none in any tail of
/// `buf` that starts at or after `from`.
pub proof fn lemma_no_begin_tail(buf: Seq<u8>, from: int, k: int)
    requires
        0 <= from <= k <= buf.len(),
        spec_find_begin(buf, from) is None,
    ensures
        spec_find_begin(buf.subrange(k, buf.len() as int), 0) is None,
{
    let t = buf.subrange(k, buf.len() as int);
    if 0 < t.len() {
        let h = buf.subrange(from, buf.len() as int);
        assert(t.subrange(0, t.len() as int) =~= t);
        if exists|j: int| first_occurrence(t, begin_marker(), j) {
            let j = choose|j: int| first_occurrence(t, begin_marker(), j);
            assert(h.subrange(j + k - from, j + k - from + 5) =~= t.subrange(j, j + 5));
            lemma_occurrence_has_first(h, begin_marker(), j + k - from);
        }
    }
}

/// With no marker in `a` from `from` on, and `b` starting with one, the
/// first marker of `a + b` from `from` on is where `b` starts: no marker
/// straddles the two.
pub proof fn lemma_find_begin_at_join(a: Seq<u8>, b: Seq<u8>, from: int)
    requires
        0 <= from <= a.len(),
        spec_find_begin(a, from) is None,
        b.len() >= 5,
        b.take(5) == begin_marker(),
    ensures
        spec_find_begin(a + b, from) == Some(a.len() as int),
{
    let ab = a + b;
    let h = a.subrange(from, a.len() as int);
    let h2 = ab.subrange(from, ab.len() as int);
    let k = a.len() - from;
    assert(h2.subrange(k, k + 5) =~= b.take(5));
    assert forall|j: int| 0 <= j < k implies !occurs_at(h2, begin_marker(), j) by {
        if occurs_at(h2, begin_marker(), j) {
            if j + 5 <= k {
                assert(h.subrange(j, j + 5) =~= h2.subrange(j, j + 5));
                lemma_occurrence_has_first(h, begin_marker(), j);
            } else {
                let l = k - j;
                assert(h2.subrange(j, j + 5)[l] == h2[k]);
                assert(h2[k] == b[0]);
                assert(b[0] == b.take(5)[0]);
            }
        }
    }
    assert(first_occurrence(h2, begin_marker(), k));
    let c = choose|c: int| first_occurrence(h2, begin_marker(), c);
    lemma_first_occurrence_unique(h2, begin_marker(), k, c);
}

/// Parsers over the same buffer whose formats have the same separator byte
/// yield the same items, whatever else the formats hold; with the SOH
/// separator they yield what [`parse_all`] yields.
pub proof fn law_same_separator_same_items(buf: Seq<u8>, f: LogFormat, g: LogFormat)
    requires
        separator_byte(f.separator) == separator_byte(g.separator),
    ensures
        spec_stream(buf, 0, separator_byte(f.separator)) == spec_stream(buf, 0, separator_byte(g.separator)),
        f.separator == crate::format::Separator::Soh ==> spec_stream(buf, 0, separator_byte(f.separator))
            == spec_stream(buf, 0, SOH),
{
}

} // verus!
