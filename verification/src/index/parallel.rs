//! The pieces of a parallel index build: splitting the buffer into chunks,
//! scanning one chunk, and stitching the chunk results in order.
//!
//! Each worker owns the messages whose start offset falls inside its chunk
//! `[start, end)`, even when the last one spills past `end`. The next worker
//! scans from `end` for the next `8=FIX` marker. When that marker is the
//! start of the next message of a scan from the beginning of the buffer,
//! the stitched index is the index of one pass
//! ([`law_parallel_matches_single_build`]); a boundary inside a message
//! whose bytes hold what reads as another message start is where the two
//! can differ.
use vstd::prelude::*;

use crate::format::{LogFormat, separator_byte};
use crate::index::builder::{
    MessageView, extended_from, holds_field, law_messages_in_order, lemma_messages_in_bounds,
    lemma_record_messages_exact, lemma_record_messages_prefix, messages_after, offset_of, offsets_of,
    record_messages, sat_u32, strictly_increasing,
};
use crate::index::incremental::{lemma_record_same_fields, shifted};
use crate::index::hot_tags::HotTags;
use crate::index::secondary::{
    SecondaryIndex, append_rebased, merged_map, ordinals_of, push_dedup, record_field, record_fields, sat_add,
};
use crate::index::{LogIndex, MessageOffset};
use crate::parser::{
    fields_of, lemma_messages_step, lemma_next_advances, messages_from, parse_all_with_format,
};

verus! {

/// Minimum chunk size: below this, too many short tasks hurt cache and
/// dispatch.
pub const MIN_CHUNK_SIZE: usize = 524288;

/// Below this many bytes a log is indexed by one worker.
pub const MIN_BUF_SIZE_FOR_PARALLEL: usize = 1048576;

/// Whether a log of `buf_len` bytes is worth splitting among `threads`
/// workers: more than one worker, and at least
/// [`MIN_BUF_SIZE_FOR_PARALLEL`] bytes.
pub fn use_parallel(threads: usize, buf_len: usize) -> (r: bool)
    ensures
        r == (threads > 1 && buf_len >= MIN_BUF_SIZE_FOR_PARALLEL),
{
    threads > 1 && buf_len >= MIN_BUF_SIZE_FOR_PARALLEL
}

/// Output of a single worker: the messages that started in its chunk, with
/// absolute offsets, and a secondary index whose ordinals are local to the
/// chunk.
#[derive(Debug)]
pub struct ChunkResult {
    pub offsets: Vec<MessageOffset>,
    pub secondary: SecondaryIndex,
}

/// Number of leading messages (found in a slice starting at `base`) that
/// start before `end`, counting from `i`.
pub open spec fn cut(msgs: Seq<MessageView>, base: int, end: int, i: int) -> int
    decreases msgs.len() - i,
{
    if i < 0 || i >= msgs.len() || base + msgs[i].1 >= end {
        i
    } else {
        cut(msgs, base, end, i + 1)
    }
}

proof fn lemma_cut_skip(msgs: Seq<MessageView>, base: int, end: int, i: int)
    requires
        0 <= i < msgs.len(),
    ensures
        base + msgs[i].1 < end ==> cut(msgs, base, end, i) == cut(msgs, base, end, i + 1),
        base + msgs[i].1 >= end ==> cut(msgs, base, end, i) == i,
{
}

/// `r` holds the messages of `buf` found scanning from `start` whose start
/// is before `end`: their offsets, and the hot pairs they hold under
/// ordinals counted from zero.
pub open spec fn scanned(buf: Seq<u8>, sep: u8, hot: Seq<u32>, start: int, end: int, r: ChunkResult) -> bool {
    let msgs = messages_after(buf, start, sep);
    let n = cut(msgs, start, end, 0);
    &&& r.secondary.wf()
    &&& r.secondary.hot() == hot
    &&& r.offsets@ == offsets_of(msgs.take(n), start)
    &&& r.secondary@ == record_messages(Map::empty(), hot, msgs, 0, n)
}

/// Scan the region of `buf` owned by a worker: the messages whose start is
/// in `[start, end)`. The scan stops at the first message that starts at or
/// past `end`.
pub fn scan_chunk(buf: &[u8], start: usize, end: usize, format: &LogFormat, tags: HotTags) -> (r:
    ChunkResult)
    ensures
        scanned(buf@, separator_byte(format.separator), tags.tags(), start as int, end as int, r),
{
    let ghost sep = separator_byte(format.separator);
    let ghost hot = tags.tags();
    let mut offsets: Vec<MessageOffset> = Vec::new();
    let mut secondary = SecondaryIndex::with_tags(tags);
    if start >= buf.len() {
        assert(offsets@ =~= offsets_of(Seq::<MessageView>::empty().take(0), start as int));
        return ChunkResult { offsets, secondary };
    }
    let tail = &buf[start..buf.len()];
    let ghost all = messages_from(tail@, 0, sep);
    let mut p = parse_all_with_format(tail, format);
    let ghost mut done: Seq<MessageView> = Seq::empty();
    proof {
        lemma_messages_in_bounds(tail@, 0, sep);
        assert(offsets@ =~= offsets_of(done, start as int));
        assert(all =~= messages_after(buf@, start as int, sep));
    }
    loop
        invariant_except_break
            0 <= p.position() <= tail@.len(),
            done + messages_from(tail@, p.position(), sep) == all,
            forall|i: int| 0 <= i < done.len() ==> start + (#[trigger] all[i]).1 < end,
        invariant
            tail@ == buf@.subrange(start as int, buf@.len() as int),
            start < buf@.len(),
            p.source() == tail@,
            p.separator() == sep,
            all == messages_from(tail@, 0, sep),
            forall|i: int|
                0 <= i < all.len() ==> 0 <= (#[trigger] all[i]).1 && 0 < all[i].2 && all[i].1 + all[i].2
                    <= tail@.len(),
            done.len() <= all.len(),
            forall|i: int| 0 <= i < done.len() ==> done[i] == all[i],
            cut(all, start as int, end as int, 0) == cut(all, start as int, end as int, done.len() as int),
            secondary.wf(),
            secondary.hot() == hot,
            offsets@ == offsets_of(done, start as int),
            secondary@ == record_messages(Map::empty(), hot, done, 0, done.len() as int),
        ensures
            done.len() == cut(all, start as int, end as int, 0),
            done == all.take(done.len() as int),
            secondary.wf(),
            secondary.hot() == hot,
            offsets@ == offsets_of(done, start as int),
            secondary@ == record_messages(Map::empty(), hot, done, 0, done.len() as int),
        decreases tail@.len() - p.position(),
    {
        let ghost pos = p.position();
        proof {
            lemma_messages_step(tail@, pos, sep);
            lemma_next_advances(tail@, pos, sep);
            assert(done =~= all.take(done.len() as int));
        }
        match p.next() {
            None => {
                assert(done =~= all);
                break;
            },
            Some(Err(_)) => {},
            Some(Ok(msg)) => {
                let ghost m: MessageView = (fields_of(msg), msg.offset as int, msg.raw@.len() as int);
                assert(all[done.len() as int] == m) by {
                    assert((done + messages_from(tail@, pos, sep))[done.len() as int] == m);
                }
                proof {
                    lemma_cut_skip(all, start as int, end as int, done.len() as int);
                }
                assert(usize::MAX == u64::MAX || usize::MAX == u32::MAX);
                assert(buf@.len() == buf.len());
                assert(tail@.len() + start == buf@.len());
                let abs_start = start as u64 + msg.offset;
                if abs_start >= end as u64 {
                    assert(done =~= all.take(done.len() as int));
                    break;
                }
                let raw_len = msg.raw.len();
                let len: u32 = if raw_len > 4294967295usize {
                    4294967295u32
                } else {
                    raw_len as u32
                };
                let count = offsets.len();
                let ordinal: u32 = if count > 4294967295usize {
                    4294967295u32
                } else {
                    count as u32
                };
                secondary.record(&msg, ordinal);
                let offset = MessageOffset { start: abs_start, len };
                offsets.push(offset);
                proof {
                    let done2 = done.push(m);
                    assert(offsets_of(done2, start as int) =~= offsets_of(done, start as int).push(
                        offset,
                    ));
                    assert(done2 + messages_from(tail@, p.position(), sep) =~= done + (seq![m]
                        + messages_from(tail@, p.position(), sep)));
                    lemma_record_messages_prefix(Map::empty(), hot, done, done2, 0, done.len() as int);
                    done = done2;
                }
            },
        }
    }
    proof {
        assert(done =~= all.take(done.len() as int));
        lemma_record_messages_prefix(Map::empty(), hot, done, all, 0, done.len() as int);
    }
    ChunkResult { offsets, secondary }
}

/// All offsets of the first `n` chunk results, in order.
pub open spec fn concat_offsets(ps: Seq<ChunkResult>, n: int) -> Seq<MessageOffset>
    decreases n,
{
    if n <= 0 {
        Seq::empty()
    } else {
        concat_offsets(ps, n - 1) + ps[n - 1].offsets@
    }
}

/// The ordinal base of chunk `n`: the number of messages before it
/// (saturating at `u32::MAX`).
pub open spec fn chunk_base(ps: Seq<ChunkResult>, n: int) -> u32
    decreases n,
{
    if n <= 0 {
        0
    } else {
        let b = chunk_base(ps, n - 1) + sat_u32(ps[n - 1].offsets@.len() as int);
        if b > u32::MAX {
            u32::MAX
        } else {
            b as u32
        }
    }
}

/// The secondary map after merging the first `n` chunk results, each
/// rebased by its [`chunk_base`].
pub open spec fn stitched_secondary(ps: Seq<ChunkResult>, n: int) -> Map<(u32, Seq<u8>), Seq<u32>>
    decreases n,
{
    if n <= 0 {
        Map::empty()
    } else {
        merged_map(stitched_secondary(ps, n - 1), ps[n - 1].secondary@, chunk_base(ps, n - 1))
    }
}

/// Merge chunk results in order; per-chunk ordinals are rebased by the
/// number of messages before the chunk.
pub fn stitch(partials: Vec<ChunkResult>, tags: HotTags) -> (r: LogIndex)
    requires
        forall|i: int| 0 <= i < partials@.len() ==> (#[trigger] partials@[i]).secondary.wf(),
        forall|i: int, j: int|
            0 <= i < partials@.len() && 0 <= j < partials@[i].offsets@.len() ==> #[trigger] partials@[i].offsets@[j].start
                + partials@[i].offsets@[j].len <= u64::MAX,
    ensures
        r.wf(),
        r.secondary.hot() == tags.tags(),
        r.messages@ == concat_offsets(partials@, partials@.len() as int),
        r.secondary@ == stitched_secondary(partials@, partials@.len() as int),
        r.consumed == (if r.messages@.len() == 0 {
            0
        } else {
            r.messages@.last().start + r.messages@.last().len
        }),
{
    let ghost ps = partials@;
    let mut messages: Vec<MessageOffset> = Vec::new();
    let mut secondary = SecondaryIndex::with_tags(tags);
    let mut base: u32 = 0;
    let mut parts = partials;
    let mut rev: Vec<ChunkResult> = Vec::new();
    let mut k: usize = parts.len();
    while k > 0
        invariant
            k == parts@.len(),
            k <= ps.len(),
            parts@ == ps.take(k as int),
            rev@.len() == ps.len() - k,
            forall|i: int| 0 <= i < rev@.len() ==> #[trigger] rev@[i] == ps[ps.len() - 1 - i],
        decreases k,
    {
        let part = parts.pop().unwrap();
        rev.push(part);
        k -= 1;
        assert(parts@ =~= ps.take(k as int));
    }
    let mut n: usize = 0;
    let total = rev.len();
    while rev.len() > 0
        invariant
            total == ps.len(),
            n + rev@.len() == total,
            forall|i: int| 0 <= i < rev@.len() ==> #[trigger] rev@[i] == ps[ps.len() - 1 - i],
            forall|i: int| 0 <= i < ps.len() ==> (#[trigger] ps[i]).secondary.wf(),
            secondary.wf(),
            secondary.hot() == tags.tags(),
            messages@ == concat_offsets(ps, n as int),
            secondary@ == stitched_secondary(ps, n as int),
            base == chunk_base(ps, n as int),
        decreases rev@.len(),
    {
        let part = rev.pop().unwrap();
        assert(part == ps[n as int]);
        let added = part.offsets.len();
        secondary.merge_rebased(part.secondary, base);
        let mut j: usize = 0;
        let ghost before = messages@;
        while j < part.offsets.len()
            invariant
                j <= part.offsets@.len(),
                messages@ == before + part.offsets@.take(j as int),
            decreases part.offsets.len() - j,
        {
            messages.push(part.offsets[j]);
            assert(part.offsets@.take(j + 1) =~= part.offsets@.take(j as int).push(part.offsets@[j as int]));
            j += 1;
        }
        assert(part.offsets@.take(j as int) =~= part.offsets@);
        let add32: u32 = if added > 4294967295usize {
            4294967295u32
        } else {
            added as u32
        };
        base = base.saturating_add(add32);
        n += 1;
    }
    let consumed: u64 = if messages.len() == 0 {
        0
    } else {
        proof {
            lemma_concat_bounds(ps, n as int);
        }
        messages[messages.len() - 1].end()
    };
    LogIndex { messages, consumed, secondary }
}

proof fn lemma_concat_bounds(ps: Seq<ChunkResult>, n: int)
    requires
        0 <= n <= ps.len(),
        forall|i: int, j: int|
            0 <= i < ps.len() && 0 <= j < ps[i].offsets@.len() ==> #[trigger] ps[i].offsets@[j].start
                + ps[i].offsets@[j].len <= u64::MAX,
    ensures
        forall|j: int|
            0 <= j < concat_offsets(ps, n).len() ==> #[trigger] concat_offsets(ps, n)[j].start
                + concat_offsets(ps, n)[j].len <= u64::MAX,
    decreases n,
{
    if n > 0 {
        lemma_concat_bounds(ps, n - 1);
        let a = concat_offsets(ps, n - 1);
        let b = ps[n - 1].offsets@;
        assert forall|j: int| 0 <= j < (a + b).len() implies #[trigger] (a + b)[j].start + (a + b)[j].len
            <= u64::MAX by {
            if j >= a.len() {
                assert((a + b)[j] == b[j - a.len()]);
                assert(ps[n - 1].offsets@[j - a.len()].start + ps[n - 1].offsets@[j - a.len()].len <= u64::MAX);
            }
        }
    }
}

/// The chunk size: the buffer split evenly over the threads, but never
/// below [`MIN_CHUNK_SIZE`].
pub open spec fn chunk_target(buf_len: int, threads: int) -> int {
    if buf_len / threads > MIN_CHUNK_SIZE {
        buf_len / threads
    } else {
        MIN_CHUNK_SIZE as int
    }
}

/// Divide `[0, buf_len)` into contiguous half-open ranges of
/// [`chunk_target`] bytes each, the last one possibly shorter.
pub fn chunk_ranges(buf_len: usize, threads: usize) -> (r: Vec<(usize, usize)>)
    requires
        threads >= 1,
    ensures
        buf_len == 0 ==> r@.len() == 0,
        buf_len > 0 ==> r@.len() > 0 && r@[0].0 == 0 && r@.last().1 == buf_len,
        forall|i: int| 0 <= i < r@.len() ==> (#[trigger] r@[i]).0 < r@[i].1 <= buf_len,
        forall|i: int|
            0 <= i < r@.len() - 1 ==> (#[trigger] r@[i]).1 == r@[i + 1].0 && r@[i].1 - r@[i].0
                == chunk_target(buf_len as int, threads as int),
        r@.len() > 0 ==> r@.last().1 - r@.last().0 <= chunk_target(buf_len as int, threads as int),
{
    let mut ranges: Vec<(usize, usize)> = Vec::new();
    if buf_len == 0 {
        return ranges;
    }
    let per = buf_len / threads;
    let target = if per > MIN_CHUNK_SIZE {
        per
    } else {
        MIN_CHUNK_SIZE
    };
    let ghost t = chunk_target(buf_len as int, threads as int);
    let mut cursor: usize = 0;
    while cursor < buf_len
        invariant
            target == t,
            t > 0,
            cursor <= buf_len,
            ranges@.len() == 0 ==> cursor == 0,
            ranges@.len() > 0 ==> ranges@[0].0 == 0 && ranges@.last().1 == cursor,
            forall|i: int| 0 <= i < ranges@.len() ==> (#[trigger] ranges@[i]).0 < ranges@[i].1 <= buf_len,
            forall|i: int|
                0 <= i < ranges@.len() - 1 ==> (#[trigger] ranges@[i]).1 == ranges@[i + 1].0
                    && ranges@[i].1 - ranges@[i].0 == t,
            ranges@.len() > 0 && cursor < buf_len ==> ranges@.last().1 - ranges@.last().0 == t,
            ranges@.len() > 0 ==> ranges@.last().1 - ranges@.last().0 <= t,
        decreases buf_len - cursor,
    {
        let next = cursor.saturating_add(target);
        let end = if next < buf_len {
            next
        } else {
            buf_len
        };
        ranges.push((cursor, end));
        cursor = end;
    }
    ranges
}


// ---------------------------------------------------------------------------
// A parallel build gives the index of a single pass
// ---------------------------------------------------------------------------
/// Two strictly increasing lists with the same elements are equal.
proof fn lemma_increasing_unique(a: Seq<u32>, b: Seq<u32>)
    requires
        strictly_increasing(a),
        strictly_increasing(b),
        forall|x: u32| a.contains(x) <==> b.contains(x),
    ensures
        a == b,
    decreases a.len() + b.len(),
{
    if a.len() == 0 {
        if b.len() > 0 {
            assert(b.contains(b[0]));
        }
        assert(a =~= b);
    } else if b.len() == 0 {
        assert(a.contains(a[0]));
    } else {
        let x = a.last();
        let y = b.last();
        assert(a.contains(x));
        assert(b.contains(y));
        assert(x <= y) by {
            let i = choose|i: int| 0 <= i < b.len() && b[i] == x;
            if i < b.len() - 1 {
                assert(b[i] < b[b.len() - 1]);
            }
        }
        assert(y <= x) by {
            let i = choose|i: int| 0 <= i < a.len() && a[i] == y;
            if i < a.len() - 1 {
                assert(a[i] < a[a.len() - 1]);
            }
        }
        let a2 = a.drop_last();
        let b2 = b.drop_last();
        assert forall|z: u32| a2.contains(z) <==> b2.contains(z) by {
            if a2.contains(z) {
                let i = choose|i: int| 0 <= i < a2.len() && a2[i] == z;
                assert(a[i] < x);
                assert(a.contains(z));
                let q = choose|q: int| 0 <= q < b.len() && b[q] == z;
                assert(q != b.len() - 1);
                assert(b2[q] == z);
            }
            if b2.contains(z) {
                let i = choose|i: int| 0 <= i < b2.len() && b2[i] == z;
                assert(b[i] < y);
                assert(b.contains(z));
                let q = choose|q: int| 0 <= q < a.len() && a[q] == z;
                assert(q != a.len() - 1);
                assert(a2[q] == z);
            }
        }
        lemma_increasing_unique(a2, b2);
        assert(a =~= a2.push(x));
        assert(b =~= b2.push(y));
    }
}

/// `xs` with `base` added to each element.
pub open spec fn rebased(xs: Seq<u32>, base: u32) -> Seq<u32> {
    Seq::new(xs.len(), |t: int| (xs[t] + base) as u32)
}

/// Appending a rebased increasing list whose first element lies past the
/// last of `cur` is concatenation: nothing saturates, nothing is skipped.
proof fn lemma_append_rebased_plain(cur: Seq<u32>, xs: Seq<u32>, base: u32)
    requires
        strictly_increasing(xs),
        forall|t: int| 0 <= t < xs.len() ==> xs[t] + base <= u32::MAX,
        cur.len() > 0 && xs.len() > 0 ==> cur.last() < xs[0] + base,
    ensures
        append_rebased(cur, xs, base) == cur + rebased(xs, base),
    decreases xs.len(),
{
    if xs.len() == 0 {
        assert(cur + rebased(xs, base) =~= cur);
    } else {
        let x = (xs[0] + base) as u32;
        assert(sat_add(xs[0], base) == x);
        assert(push_dedup(cur, x) == cur.push(x));
        let rest = xs.drop_first();
        assert forall|i: int, j: int| 0 <= i < j < rest.len() implies rest[i] < rest[j] by {
            assert(xs[i + 1] < xs[j + 1]);
        }
        if rest.len() > 0 {
            assert(xs[0] < xs[1]);
        }
        lemma_append_rebased_plain(cur.push(x), rest, base);
        assert(cur.push(x) + rebased(rest, base) =~= cur + rebased(xs, base));
    }
}

/// Every list of a map holds at least one ordinal.
pub open spec fn lists_nonempty(m: Map<(u32, Seq<u8>), Seq<u32>>) -> bool {
    forall|k: (u32, Seq<u8>)| #[trigger] m.dom().contains(k) ==> m[k].len() > 0
}

proof fn lemma_fields_nonempty(
    m: Map<(u32, Seq<u8>), Seq<u32>>,
    hot: Seq<u32>,
    f: Seq<(u32, Seq<u8>)>,
    ord: u32,
    j: int,
)
    requires
        lists_nonempty(m),
    ensures
        lists_nonempty(record_fields(m, hot, f, ord, j)),
    decreases j,
{
    if j > 0 {
        lemma_fields_nonempty(m, hot, f, ord, j - 1);
        let p = record_fields(m, hot, f, ord, j - 1);
        let r = record_field(p, hot, f[j - 1], ord);
        assert forall|k: (u32, Seq<u8>)| #[trigger] r.dom().contains(k) implies r[k].len() > 0 by {
            if hot.contains(f[j - 1].0) && k == f[j - 1] {
                assert(r[k] == push_dedup(ordinals_of(p, k), ord));
            } else {
                assert(p.dom().contains(k));
            }
        }
    }
}

/// Recording leaves no empty list.
proof fn lemma_record_nonempty(hot: Seq<u32>, msgs: Seq<MessageView>, first: int, n: int)
    ensures
        lists_nonempty(record_messages(Map::empty(), hot, msgs, first, n)),
    decreases n,
{
    if n > 0 {
        lemma_record_nonempty(hot, msgs, first, n - 1);
        lemma_fields_nonempty(
            record_messages(Map::empty(), hot, msgs, first, n - 1),
            hot,
            msgs[n - 1].0,
            sat_u32(first + n - 1),
            msgs[n - 1].0.len() as int,
        );
    }
}

/// One key of [`lemma_merge_record`].
proof fn lemma_merge_key(
    hot: Seq<u32>,
    am: Seq<MessageView>,
    bm: Seq<MessageView>,
    a: int,
    n: int,
    k: (u32, Seq<u8>),
)
    requires
        0 <= a,
        0 <= n,
        a + n <= am.len(),
        n <= bm.len(),
        a + n <= u32::MAX,
        forall|t: int| 0 <= t < n ==> #[trigger] bm[t].0 == am[a + t].0,
    ensures
        ordinals_of(
            merged_map(
                record_messages(Map::empty(), hot, am, 0, a),
                record_messages(Map::empty(), hot, bm, 0, n),
                a as u32,
            ),
            k,
        ) == ordinals_of(record_messages(Map::empty(), hot, am, 0, a + n), k),
{
    let ra = record_messages(Map::empty(), hot, am, 0, a);
    let rb = record_messages(Map::empty(), hot, bm, 0, n);
    let rt = record_messages(Map::empty(), hot, am, 0, a + n);
    let mg = merged_map(ra, rb, a as u32);
    lemma_record_messages_exact(hot, am, a, k);
    lemma_record_messages_exact(hot, bm, n, k);
    lemma_record_messages_exact(hot, am, a + n, k);
    let l1 = ordinals_of(ra, k);
    let l2 = ordinals_of(rb, k);
    let t = ordinals_of(rt, k);
    let b = a as u32;
    assert forall|q: int| 0 <= q < l2.len() implies l2[q] + b <= u32::MAX by {
        assert(l2[q] < n);
    }
    if l1.len() > 0 && l2.len() > 0 {
        assert(l1[l1.len() - 1] < a);
    }
    lemma_append_rebased_plain(l1, l2, b);
    let c = l1 + rebased(l2, b);
    if rb.dom().contains(k) {
        assert(ordinals_of(mg, k) == append_rebased(ordinals_of(ra, k), rb[k], b));
    } else if ra.dom().contains(k) {
        assert(l2.len() == 0);
        assert(c =~= l1);
    } else {
        assert(!mg.dom().contains(k));
        assert(c =~= Seq::<u32>::empty());
    }
    assert(ordinals_of(mg, k) == c);
    assert forall|i: int, j: int| 0 <= i < j < c.len() implies c[i] < c[j] by {
        if j < l1.len() {
        } else if i < l1.len() {
            assert(l1[i] < a);
            assert(c[j] == l2[j - l1.len()] + b);
        } else {
            assert(l2[i - l1.len()] < l2[j - l1.len()]);
        }
    }
    assert forall|x: u32| c.contains(x) <==> t.contains(x) by {
        if c.contains(x) {
            let i = choose|i: int| 0 <= i < c.len() && c[i] == x;
            if i < l1.len() {
                assert(l1[i] < a);
                assert(l1.contains(x));
                assert(am[x as int] == am[x as int]);
                assert(hot.contains(k.0) && holds_field(am[x as int].0, k));
            } else {
                let y = l2[i - l1.len()];
                assert(y < n);
                assert(l2.contains(y));
                assert(bm[y as int] == bm[y as int]);
                assert(hot.contains(k.0) && holds_field(bm[y as int].0, k));
                assert(bm[y as int].0 == am[a + y].0);
                assert(x == a + y);
                assert(am[x as int] == am[x as int]);
            }
            assert(t.contains(x));
        }
        if t.contains(x) {
            let i = choose|i: int| 0 <= i < t.len() && t[i] == x;
            assert(x < a + n);
            assert(am[x as int] == am[x as int]);
            assert(hot.contains(k.0) && holds_field(am[x as int].0, k));
            if x < a {
                assert(l1.contains(x));
                let q = choose|q: int| 0 <= q < l1.len() && l1[q] == x;
                assert(c[q] == x);
            } else {
                let y = (x - a) as u32;
                assert(bm[y as int] == bm[y as int]);
                assert(bm[y as int].0 == am[a + y].0);
                assert(l2.contains(y));
                let q = choose|q: int| 0 <= q < l2.len() && l2[q] == y;
                assert(c[l1.len() + q] == x);
            }
            assert(c.contains(x));
        }
    }
    lemma_increasing_unique(c, t);
}

/// Merging the record of `n` further messages, rebased by the `a`
/// recorded before them, is recording all `a + n`.
proof fn lemma_merge_record(hot: Seq<u32>, am: Seq<MessageView>, bm: Seq<MessageView>, a: int, n: int)
    requires
        0 <= a,
        0 <= n,
        a + n <= am.len(),
        n <= bm.len(),
        a + n <= u32::MAX,
        forall|t: int| 0 <= t < n ==> #[trigger] bm[t].0 == am[a + t].0,
    ensures
        merged_map(
            record_messages(Map::empty(), hot, am, 0, a),
            record_messages(Map::empty(), hot, bm, 0, n),
            a as u32,
        ) == record_messages(Map::empty(), hot, am, 0, a + n),
{
    let ra = record_messages(Map::empty(), hot, am, 0, a);
    let rb = record_messages(Map::empty(), hot, bm, 0, n);
    let rt = record_messages(Map::empty(), hot, am, 0, a + n);
    let mg = merged_map(ra, rb, a as u32);
    lemma_record_nonempty(hot, am, 0, a);
    lemma_record_nonempty(hot, bm, 0, n);
    lemma_record_nonempty(hot, am, 0, a + n);
    assert forall|k: (u32, Seq<u8>)| mg.dom().contains(k) <==> rt.dom().contains(k) by {
        lemma_merge_key(hot, am, bm, a, n, k);
        if mg.dom().contains(k) {
            if rb.dom().contains(k) {
                assert(rb[k].len() > 0);
                lemma_record_messages_exact(hot, bm, n, k);
                let l2 = rb[k];
                assert forall|q: int| 0 <= q < l2.len() implies l2[q] + (a as u32) <= u32::MAX by {
                    assert(l2[q] < n);
                }
                lemma_record_messages_exact(hot, am, a, k);
                let l1 = ordinals_of(ra, k);
                if l1.len() > 0 {
                    assert(l1[l1.len() - 1] < a);
                }
                lemma_append_rebased_plain(l1, l2, a as u32);
                assert(ordinals_of(mg, k).len() > 0);
            } else {
                assert(ra[k].len() > 0);
                assert(ordinals_of(mg, k).len() > 0);
            }
            assert(ordinals_of(rt, k).len() > 0);
        }
        if rt.dom().contains(k) {
            assert(rt[k].len() > 0);
            assert(ordinals_of(mg, k).len() > 0);
        }
    }
    assert forall|k: (u32, Seq<u8>)| mg.dom().contains(k) implies mg[k] == rt[k] by {
        lemma_merge_key(hot, am, bm, a, n, k);
    }
    assert(mg =~= rt);
}

/// `j` splits the messages `all` at offset `s`: those before `j` start
/// before `s`, the others at or after it.
pub open spec fn splits_at(all: Seq<MessageView>, s: int, j: int) -> bool {
    &&& 0 <= j <= all.len()
    &&& forall|i: int| 0 <= i < j ==> #[trigger] all[i].1 < s
    &&& forall|i: int| j <= i < all.len() ==> #[trigger] all[i].1 >= s
}

/// Scanning `buf` from `s` finds exactly the messages of a scan from the
/// start of `buf` that start at or after `s`: `s` does not fall inside a
/// message whose bytes hold what reads as the start of another.
pub open spec fn resyncs_at(buf: Seq<u8>, sep: u8, s: int) -> bool {
    exists|j: int|
        #[trigger] splits_at(messages_after(buf, 0, sep), s, j) && messages_after(buf, s, sep) == shifted(
            messages_after(buf, 0, sep).skip(j),
            s,
        )
}

/// Where a scan from `s` joins the scan from the start (see [`resyncs_at`]).
pub open spec fn resync_index(buf: Seq<u8>, sep: u8, s: int) -> int {
    choose|j: int|
        #[trigger] splits_at(messages_after(buf, 0, sep), s, j) && messages_after(buf, s, sep) == shifted(
            messages_after(buf, 0, sep).skip(j),
            s,
        )
}

/// The conditions of [`law_parallel_matches_single_build`]: `ranges` tile
/// the buffer, `parts[i]` is the scan of `ranges[i]`, every range starts
/// where a scan joins the scan from the start, `full` is the index of one
/// pass over the buffer, and there are no more messages than ordinals.
pub open spec fn parallel_setting(
    buf: Seq<u8>,
    sep: u8,
    hot: Seq<u32>,
    ranges: Seq<(usize, usize)>,
    parts: Seq<ChunkResult>,
    full: LogIndex,
) -> bool {
    &&& ranges.len() == parts.len()
    &&& buf.len() == 0 ==> ranges.len() == 0
    &&& buf.len() > 0 ==> ranges.len() > 0 && ranges[0].0 == 0 && ranges.last().1 == buf.len()
    &&& forall|i: int| 0 <= i < ranges.len() ==> (#[trigger] ranges[i]).0 < ranges[i].1 <= buf.len()
    &&& forall|i: int| 0 <= i < ranges.len() - 1 ==> (#[trigger] ranges[i]).1 == ranges[i + 1].0
    &&& forall|i: int|
        0 <= i < parts.len() ==> scanned(buf, sep, hot, ranges[i].0 as int, ranges[i].1 as int, #[trigger] parts[i])
    &&& forall|i: int| 0 <= i < ranges.len() ==> resyncs_at(buf, sep, (#[trigger] ranges[i]).0 as int)
    &&& extended_from(Seq::empty(), 0, Map::empty(), hot, full, buf, 0, sep)
    &&& full.messages@.len() <= u32::MAX
}

/// How many messages of the scan from the start come before chunk `i`.
pub open spec fn chunk_bound(buf: Seq<u8>, sep: u8, ranges: Seq<(usize, usize)>, i: int) -> int {
    if i < ranges.len() {
        resync_index(buf, sep, ranges[i].0 as int)
    } else {
        messages_after(buf, 0, sep).len() as int
    }
}

proof fn lemma_cut_at(all: Seq<MessageView>, s: int, e: int, j: int, j2: int, t: int)
    requires
        0 <= j <= j2 <= all.len(),
        0 <= t <= j2 - j,
        splits_at(all, e, j2),
    ensures
        cut(shifted(all.skip(j), s), s, e, t) == j2 - j,
    decreases j2 - j - t,
{
    let msgs = shifted(all.skip(j), s);
    if t < j2 - j {
        assert(msgs[t] == (all[j + t].0, all[j + t].1 - s, all[j + t].2));
        assert(all[j + t].1 < e);
        lemma_cut_at(all, s, e, j, j2, t + 1);
    } else if t < msgs.len() {
        assert(msgs[t] == (all[j + t].0, all[j + t].1 - s, all[j + t].2));
        assert(all[j + t].1 >= e);
    }
}

/// The scan of one chunk holds the messages `[j, j2)` of the scan from the
/// start.
proof fn lemma_chunk(buf: Seq<u8>, sep: u8, hot: Seq<u32>, s: int, e: int, j: int, j2: int, r: ChunkResult)
    requires
        0 <= s < e,
        scanned(buf, sep, hot, s, e, r),
        splits_at(messages_after(buf, 0, sep), s, j),
        messages_after(buf, s, sep) == shifted(messages_after(buf, 0, sep).skip(j), s),
        splits_at(messages_after(buf, 0, sep), e, j2),
    ensures
        j <= j2,
        r.offsets@ == offsets_of(messages_after(buf, 0, sep).subrange(j, j2), 0),
        r.secondary@ == record_messages(Map::empty(), hot, messages_after(buf, 0, sep).subrange(j, j2), 0, j2 - j),
{
    let all = messages_after(buf, 0, sep);
    if j > j2 {
        assert(all[j2].1 < s);
        assert(all[j2].1 >= e);
    }
    let msgs = messages_after(buf, s, sep);
    lemma_cut_at(all, s, e, j, j2, 0);
    let n = j2 - j;
    let sub = all.subrange(j, j2);
    assert forall|t: int| 0 <= t < n implies #[trigger] msgs[t] == (sub[t].0, sub[t].1 - s, sub[t].2) by {
        assert(msgs[t] == (all[j + t].0, all[j + t].1 - s, all[j + t].2));
    }
    assert(offsets_of(msgs.take(n), s) =~= offsets_of(sub, 0)) by {
        assert forall|t: int| 0 <= t < n implies #[trigger] offsets_of(msgs.take(n), s)[t] == offsets_of(sub, 0)[t] by {
            assert(msgs.take(n)[t] == msgs[t]);
            assert(offset_of(msgs[t], s) == offset_of(sub[t], 0));
        }
    }
    assert forall|t: int| 0 <= t < n implies #[trigger] msgs[t].0 == sub[t].0 by {
        assert(msgs[t] == (sub[t].0, sub[t].1 - s, sub[t].2));
    }
    lemma_record_same_fields(Map::empty(), hot, msgs, sub, 0, n);
}

/// The messages of a scan from the start all begin inside the buffer.
proof fn lemma_all_start_before_end(buf: Seq<u8>, sep: u8)
    ensures
        splits_at(messages_after(buf, 0, sep), buf.len() as int, messages_after(buf, 0, sep).len() as int),
        forall|i: int, j: int|
            0 <= i < j < messages_after(buf, 0, sep).len() ==> #[trigger] messages_after(buf, 0, sep)[i].1
                < #[trigger] messages_after(buf, 0, sep)[j].1,
        forall|i: int| 0 <= i < messages_after(buf, 0, sep).len() ==> #[trigger] messages_after(buf, 0, sep)[i].1 >= 0,
{
    let all = messages_after(buf, 0, sep);
    if buf.len() > 0 {
        let t = buf.subrange(0, buf.len() as int);
        lemma_messages_in_bounds(t, 0, sep);
        law_messages_in_order(t, 0, sep);
        assert forall|i: int, j: int| 0 <= i < j < all.len() implies #[trigger] all[i].1 < #[trigger] all[j].1 by {
            assert(all[i].1 + all[i].2 <= all[j].1);
        }
    }
}

/// A scan from offset zero joins the scan from the start at once.
proof fn lemma_first_bound(buf: Seq<u8>, sep: u8)
    requires
        resyncs_at(buf, sep, 0),
    ensures
        resync_index(buf, sep, 0) == 0,
{
    let all = messages_after(buf, 0, sep);
    let j = resync_index(buf, sep, 0);
    lemma_all_start_before_end(buf, sep);
    if j > 0 {
        assert(all[0].1 < 0);
    }
}

/// One more chunk: its scan extends what the chunks before it hold.
proof fn lemma_stitch_step(
    buf: Seq<u8>,
    sep: u8,
    hot: Seq<u32>,
    s: int,
    e: int,
    j: int,
    j2: int,
    part: ChunkResult,
    co: Seq<MessageOffset>,
    ss: Map<(u32, Seq<u8>), Seq<u32>>,
)
    requires
        0 <= s < e,
        scanned(buf, sep, hot, s, e, part),
        splits_at(messages_after(buf, 0, sep), s, j),
        messages_after(buf, s, sep) == shifted(messages_after(buf, 0, sep).skip(j), s),
        splits_at(messages_after(buf, 0, sep), e, j2),
        messages_after(buf, 0, sep).len() <= u32::MAX,
        co == offsets_of(messages_after(buf, 0, sep).take(j), 0),
        ss == record_messages(Map::empty(), hot, messages_after(buf, 0, sep), 0, j),
    ensures
        j <= j2,
        part.offsets@.len() == j2 - j,
        co + part.offsets@ == offsets_of(messages_after(buf, 0, sep).take(j2), 0),
        merged_map(ss, part.secondary@, j as u32) == record_messages(
            Map::empty(),
            hot,
            messages_after(buf, 0, sep),
            0,
            j2,
        ),
{
    let all = messages_after(buf, 0, sep);
    lemma_chunk(buf, sep, hot, s, e, j, j2, part);
    let sub = all.subrange(j, j2);
    assert(offsets_of(all.take(j), 0) + offsets_of(sub, 0) =~= offsets_of(all.take(j2), 0));
    assert forall|t: int| 0 <= t < j2 - j implies #[trigger] sub[t].0 == all[j + t].0 by {}
    lemma_merge_record(hot, all, sub, j, j2 - j);
}

/// After the first `i` chunks, the stitched index holds the first
/// `chunk_bound(i)` messages of the scan from the start.
#[verifier::rlimit(40)]
proof fn lemma_stitch_prefix(
    buf: Seq<u8>,
    sep: u8,
    hot: Seq<u32>,
    ranges: Seq<(usize, usize)>,
    parts: Seq<ChunkResult>,
    full: LogIndex,
    i: int,
)
    requires
        parallel_setting(buf, sep, hot, ranges, parts, full),
        0 <= i <= parts.len(),
    ensures
        0 <= chunk_bound(buf, sep, ranges, i) <= messages_after(buf, 0, sep).len(),
        i < ranges.len() ==> splits_at(messages_after(buf, 0, sep), ranges[i].0 as int, chunk_bound(buf, sep, ranges, i)),
        i < ranges.len() ==> messages_after(buf, ranges[i].0 as int, sep) == shifted(
            messages_after(buf, 0, sep).skip(chunk_bound(buf, sep, ranges, i)),
            ranges[i].0 as int,
        ),
        concat_offsets(parts, i) == offsets_of(messages_after(buf, 0, sep).take(chunk_bound(buf, sep, ranges, i)), 0),
        stitched_secondary(parts, i) == record_messages(
            Map::empty(),
            hot,
            messages_after(buf, 0, sep),
            0,
            chunk_bound(buf, sep, ranges, i),
        ),
        chunk_base(parts, i) == chunk_bound(buf, sep, ranges, i),
    decreases i,
{
    let all = messages_after(buf, 0, sep);
    assert(all.len() == full.messages@.len());
    if i < ranges.len() {
        assert(resyncs_at(buf, sep, ranges[i].0 as int));
    }
    if i == 0 {
        if ranges.len() > 0 {
            lemma_first_bound(buf, sep);
        } else {
            assert(buf.len() == 0);
            assert(all.len() == 0);
        }
        assert(all.take(0) =~= Seq::<MessageView>::empty());
        assert(offsets_of(all.take(0), 0) =~= Seq::<MessageOffset>::empty());
    } else {
        lemma_stitch_prefix(buf, sep, hot, ranges, parts, full, i - 1);
        let k = i - 1;
        let s = ranges[k].0 as int;
        let e = ranges[k].1 as int;
        let j = chunk_bound(buf, sep, ranges, k);
        let j2 = chunk_bound(buf, sep, ranges, i);
        if i < ranges.len() {
            assert(ranges[k].1 == ranges[i].0);
        } else {
            assert(ranges.last() == ranges[k]);
            lemma_all_start_before_end(buf, sep);
        }
        assert(scanned(buf, sep, hot, s, e, parts[k]));
        lemma_stitch_step(
            buf,
            sep,
            hot,
            s,
            e,
            j,
            j2,
            parts[k],
            concat_offsets(parts, k),
            stitched_secondary(parts, k),
        );
    }
}

/// Stitching the scans of chunks that tile a buffer gives the index of a
/// single pass over the buffer: the same offsets in the same order and the
/// same hot-pair lists, whenever every chunk starts where a scan joins the
/// scan from the start (a chunk boundary never falls inside a message
/// whose bytes hold what reads as the start of another) and the messages
/// can all be numbered by a `u32`.
pub proof fn law_parallel_matches_single_build(
    buf: Seq<u8>,
    sep: u8,
    hot: Seq<u32>,
    ranges: Seq<(usize, usize)>,
    parts: Seq<ChunkResult>,
    full: LogIndex,
)
    requires
        parallel_setting(buf, sep, hot, ranges, parts, full),
    ensures
        concat_offsets(parts, parts.len() as int) == full.messages@,
        stitched_secondary(parts, parts.len() as int) == full.secondary@,
{
    lemma_stitch_prefix(buf, sep, hot, ranges, parts, full, parts.len() as int);
    let all = messages_after(buf, 0, sep);
    assert(all.take(all.len() as int) =~= all);
    assert(full.messages@ =~= offsets_of(all, 0));
}

} // verus!
