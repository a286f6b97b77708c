//! Offset-based index over a FIX log buffer.
//!
//! The index records `(start, len)` for every well-formed message so that
//! callers can jump to any message by ordinal, count messages without
//! re-parsing, and grow the index incrementally as a tailed file extends.
//! A secondary lookup map over a configurable set of hot tags rides along
//! (see [`secondary`]).
use vstd::prelude::*;

pub mod builder;
pub mod hot_tags;
pub mod incremental;
pub mod parallel;
pub mod secondary;

use crate::index::hot_tags::HotTags;
use crate::index::secondary::SecondaryIndex;

verus! {

/// Position of a single message within the source buffer: `start` is the
/// offset of its `8=` BeginString, `len` its length up to and including the
/// separator after the CheckSum field.
#[derive(Debug, Clone, Copy, PartialEq, Eq, Structural)]
pub struct MessageOffset {
    pub start: u64,
    pub len: u32,
}

impl MessageOffset {
    /// Byte range `start..start+len`, for slicing the source buffer.
    pub fn range(&self) -> (r: std::ops::Range<usize>)
        requires
            self.start + self.len <= usize::MAX,
        ensures
            r.start == self.start,
            r.end == self.start + self.len,
    {
        let s = self.start as usize;
        s..s + self.len as usize
    }

    /// Offset of the byte after this message: the seed for
    /// [`LogIndex::append_from_offset`] when processing a delta of a tailed
    /// file.
    pub fn end(&self) -> (e: u64)
        requires
            self.start + self.len <= u64::MAX,
        ensures
            e == self.start + self.len,
    {
        self.start + self.len as u64
    }
}

/// Primary index over a FIX log, with a secondary lookup map.
#[derive(Debug)]
pub struct LogIndex {
    /// Offsets, one per successfully parsed message, in order.
    pub messages: Vec<MessageOffset>,
    /// Offset just past the last successfully indexed message. Trailing
    /// bytes after it (a partial message, padding) are not claimed and are
    /// re-scanned by the next [`LogIndex::append_from_offset`].
    pub consumed: u64,
    /// Reverse map `(tag, value) → ordinals`, limited to the hot tags.
    pub secondary: SecondaryIndex,
}

/// Errors produced by the index builder.
#[derive(Debug, Clone, Copy, PartialEq, Eq, Structural)]
pub enum IndexError {
    /// `append_from_offset` got a `from` that does not line up with `consumed`.
    NonContiguousAppend { consumed: u64, from: u64 },
    /// The buffer is shorter than what was already indexed (usually a
    /// logrotate or truncation that calls for a rebuild).
    BufferShrank { consumed: u64, buf_len: u64 },
}

/// The bytes of the message at ordinal `idx`, when it lies within `buf`.
pub open spec fn spec_message_bytes(messages: Seq<MessageOffset>, buf: Seq<u8>, idx: int) -> Option<
    Seq<u8>,
> {
    if 0 <= idx < messages.len() && messages[idx].start + messages[idx].len <= buf.len() {
        Some(buf.subrange(messages[idx].start as int, messages[idx].start + messages[idx].len))
    } else {
        None
    }
}

impl LogIndex {
    /// The index is well formed: its secondary map has one entry per key.
    pub open spec fn wf(&self) -> bool {
        self.secondary.wf()
    }

    /// An empty index with no hot tags.
    pub fn new() -> (r: Self)
        ensures
            r.wf(),
            r.messages@.len() == 0,
            r.consumed == 0,
            r.secondary.hot().len() == 0,
            r.secondary@ == Map::<(u32, Seq<u8>), Seq<u32>>::empty(),
    {
        Self::with_hot_tags(HotTags::empty())
    }

    /// An empty index whose secondary map records `tags`.
    pub fn with_hot_tags(tags: HotTags) -> (r: Self)
        ensures
            r.wf(),
            r.messages@.len() == 0,
            r.consumed == 0,
            r.secondary.hot() == tags.tags(),
            r.secondary@ == Map::<(u32, Seq<u8>), Seq<u32>>::empty(),
    {
        LogIndex { messages: Vec::new(), consumed: 0, secondary: SecondaryIndex::with_tags(tags) }
    }

    /// Number of indexed messages.
    pub fn len(&self) -> (n: usize)
        ensures
            n == self.messages@.len(),
    {
        self.messages.len()
    }

    /// Whether no message is indexed.
    pub fn is_empty(&self) -> (b: bool)
        ensures
            b == (self.messages@.len() == 0),
    {
        self.messages.len() == 0
    }

    /// The raw bytes of the message at ordinal `idx`; `None` when `idx` is
    /// out of range or the offset escapes `buf` (a buffer shorter than the
    /// one indexed).
    pub fn message_bytes<'a>(&self, buf: &'a [u8], idx: usize) -> (r: Option<&'a [u8]>)
        ensures
            match spec_message_bytes(self.messages@, buf@, idx as int) {
                Some(b) => r matches Some(x) && x@ == b,
                None => r is None,
            },
    {
        if idx >= self.messages.len() {
            return None;
        }
        let off = self.messages[idx];
        let len = off.len as u64;
        if off.start > buf.len() as u64 || len > buf.len() as u64 - off.start {
            return None;
        }
        let s = off.start as usize;
        Some(&buf[s..s + off.len as usize])
    }
}

} // verus!
