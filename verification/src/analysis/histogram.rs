//! Temporal histogram over SendingTime (tag 52).
//!
//! Buckets are uniform width (`bucket_ns`) and span `[t_min, t_max]`
//! rounded down/up to whole buckets. Messages without a parseable tag 52
//! are dropped and counted in [`Histogram::dropped_no_time`].
use vstd::prelude::*;

use crate::analysis::orders::{load_message, msg_fields, sending_nanos};
use crate::bytes::string_from_utf8;
use crate::analysis::util::{MAX_TIME_NANOS, sending_time_nanos, spec_sending_time_nanos};
use crate::format::{LogFormat, separator_byte};
use crate::index::LogIndex;
use crate::parser::{TAG_SENDING_TIME, find_tag};

verus! {

/// One uniform-width time bucket `[start_ns, end_ns)`.
#[derive(Debug, Clone, Copy, PartialEq, Eq, Structural)]
pub struct Bin {
    pub start_ns: u128,
    pub end_ns: u128,
    pub count: u32,
}

/// Uniform-width histogram of message timestamps.
#[derive(Debug, Clone)]
pub struct Histogram {
    pub bucket_ns: u64,
    pub bins: Vec<Bin>,
    /// How many messages lacked a parseable tag 52 and were dropped.
    pub dropped_no_time: u32,
}

/// The timestamp (nanoseconds) of the message at ordinal `o`.
pub open spec fn msg_time(index: LogIndex, buf: Seq<u8>, sep: u8, o: int) -> Option<u128> {
    match msg_fields(index, buf, sep, o) {
        Some(f) => sending_nanos(f),
        None => None,
    }
}

/// The timestamps of the first `k` messages, in order, skipping those
/// without one.
pub open spec fn times_upto(index: LogIndex, buf: Seq<u8>, sep: u8, k: int) -> Seq<u128>
    decreases k,
{
    if k <= 0 {
        Seq::empty()
    } else {
        match msg_time(index, buf, sep, k - 1) {
            Some(t) => times_upto(index, buf, sep, k - 1).push(t),
            None => times_upto(index, buf, sep, k - 1),
        }
    }
}

/// How many of the first `k` messages have no timestamp (saturating).
pub open spec fn dropped_upto(index: LogIndex, buf: Seq<u8>, sep: u8, k: int) -> u32
    decreases k,
{
    if k <= 0 {
        0
    } else {
        let d = dropped_upto(index, buf, sep, k - 1);
        match msg_time(index, buf, sep, k - 1) {
            Some(_) => d,
            None => if d == u32::MAX {
                d
            } else {
                (d + 1) as u32
            },
        }
    }
}

/// The smallest element of a non-empty sequence.
pub open spec fn seq_min(s: Seq<u128>) -> u128
    decreases s.len(),
{
    if s.len() <= 1 {
        s[0]
    } else {
        let m = seq_min(s.drop_last());
        if s.last() < m {
            s.last()
        } else {
            m
        }
    }
}

/// The largest element of a non-empty sequence.
pub open spec fn seq_max(s: Seq<u128>) -> u128
    decreases s.len(),
{
    if s.len() <= 1 {
        s[0]
    } else {
        let m = seq_max(s.drop_last());
        if s.last() > m {
            s.last()
        } else {
            m
        }
    }
}

/// How many of the first `n` timestamps fall in bucket `i`, buckets being
/// counted from the one that holds `lo` (saturating).
pub open spec fn bucket_count(times: Seq<u128>, b: int, lo: int, i: int, n: int) -> u32
    decreases n,
{
    if n <= 0 {
        0
    } else {
        let c = bucket_count(times, b, lo, i, n - 1);
        if (times[n - 1] as int) / b - lo / b == i {
            if c == u32::MAX {
                c
            } else {
                (c + 1) as u32
            }
        } else {
            c
        }
    }
}

/// The bucket width actually used: at least one nanosecond, at most
/// `u64::MAX`.
pub open spec fn bucket_width(bucket_ns: u128) -> u64 {
    if bucket_ns < 1 {
        1
    } else if bucket_ns > u64::MAX {
        u64::MAX
    } else {
        bucket_ns as u64
    }
}

/// `h` is the histogram of `times` with bucket width `b`.
pub open spec fn histogram_of(h: Histogram, times: Seq<u128>, b: u64) -> bool {
    &&& h.bucket_ns == b
    &&& times.len() == 0 ==> h.bins@.len() == 0
    &&& times.len() > 0 ==> {
        let lo = seq_min(times) as int;
        let hi = seq_max(times) as int;
        let start = (lo / b as int) * b;
        &&& h.bins@.len() == hi / b as int - lo / b as int + 1
        &&& forall|i: int|
            0 <= i < h.bins@.len() ==> (#[trigger] h.bins@[i]).start_ns == start + i * b && h.bins@[i].end_ns
                == start + (i + 1) * b && h.bins@[i].count == bucket_count(
                times,
                b as int,
                lo,
                i,
                times.len() as int,
            )
    }
}

/// The extremes of a non-empty sequence bound all its elements.
proof fn lemma_min_max_bounds(s: Seq<u128>)
    requires
        s.len() > 0,
    ensures
        forall|j: int| 0 <= j < s.len() ==> seq_min(s) <= #[trigger] s[j] <= seq_max(s),
        exists|j: int| 0 <= j < s.len() && s[j] == seq_max(s),
    decreases s.len(),
{
    if s.len() > 1 {
        lemma_min_max_bounds(s.drop_last());
        assert forall|j: int| 0 <= j < s.len() implies seq_min(s) <= #[trigger] s[j] <= seq_max(s) by {
            if j < s.len() - 1 {
                assert(s[j] == s.drop_last()[j]);
            }
        }
        if s.last() > seq_max(s.drop_last()) {
            assert(s[s.len() - 1] == seq_max(s));
        } else {
            let j = choose|j: int| 0 <= j < s.drop_last().len() && s.drop_last()[j] == seq_max(s.drop_last());
            assert(s[j] == seq_max(s));
        }
    } else {
        assert(s[0] == seq_max(s));
    }
}

/// Dividing after removing whole buckets.
proof fn lemma_bucket_index(t: int, lo: int, b: int)
    requires
        0 <= lo <= t,
        b > 0,
    ensures
        0 <= (lo / b) * b <= lo,
        (t - (lo / b) * b) / b == t / b - lo / b,
        lo / b <= t / b,
{
    let q = lo / b;
    vstd::arithmetic::div_mod::lemma_fundamental_div_mod(lo, b);
    vstd::arithmetic::div_mod::lemma_mod_pos_bound(lo, b);
    vstd::arithmetic::div_mod::lemma_fundamental_div_mod(t, b);
    vstd::arithmetic::div_mod::lemma_mod_pos_bound(t, b);
    vstd::arithmetic::div_mod::lemma_div_pos_is_pos(lo, b);
    assert(q * b == b * q) by (nonlinear_arith);
    assert(0 <= q * b) by (nonlinear_arith)
        requires
            q >= 0,
            b > 0,
    ;
    let r = t % b;
    let qt = t / b;
    assert(t - q * b == (qt - q) * b + r) by (nonlinear_arith)
        requires
            t == b * qt + r,
    ;
    vstd::arithmetic::div_mod::lemma_fundamental_div_mod_converse(t - q * b, b, qt - q, r);
    vstd::arithmetic::div_mod::lemma_div_is_ordered(lo, t, b);
}

/// The timestamp of the message at ordinal `o`, if it has one.
fn message_time(index: &LogIndex, buf: &[u8], format: &LogFormat, o: usize) -> (r: Option<u128>)
    ensures
        r == msg_time(*index, buf@, separator_byte(format.separator), o as int),
        r matches Some(t) ==> t < MAX_TIME_NANOS,
{
    match load_message(index, buf, format, o) {
        Some(msg) => match find_tag(&msg, TAG_SENDING_TIME) {
            Some(v) => sending_time_nanos(v),
            None => None,
        },
        None => None,
    }
}

impl Histogram {
    /// Build a histogram over the messages of `index`, with buckets of
    /// `bucket_ns` nanoseconds (clamped to `[1, u64::MAX]`). Without any
    /// timestamp the histogram has no bins.
    pub fn build(index: &LogIndex, buf: &[u8], format: &LogFormat, bucket_ns: u128) -> (h: Self)
        ensures
            histogram_of(
                h,
                times_upto(*index, buf@, separator_byte(format.separator), index.messages@.len() as int),
                bucket_width(bucket_ns),
            ),
            h.dropped_no_time == dropped_upto(
                *index,
                buf@,
                separator_byte(format.separator),
                index.messages@.len() as int,
            ),
    {
        let ghost sep = separator_byte(format.separator);
        let b64: u64 = if bucket_ns < 1 {
            1
        } else if bucket_ns > 18446744073709551615u128 {
            18446744073709551615u64
        } else {
            bucket_ns as u64
        };
        let b = b64 as u128;
        let n = index.messages.len();
        let mut times: Vec<u128> = Vec::new();
        let mut dropped: u32 = 0;
        let mut t_min: u128 = 0;
        let mut t_max: u128 = 0;
        let mut o: usize = 0;
        while o < n
            invariant
                o <= n,
                n == index.messages@.len(),
                sep == separator_byte(format.separator),
                times@ == times_upto(*index, buf@, sep, o as int),
                dropped == dropped_upto(*index, buf@, sep, o as int),
                forall|j: int| 0 <= j < times@.len() ==> #[trigger] times@[j] < MAX_TIME_NANOS,
                times@.len() > 0 ==> t_min == seq_min(times@) && t_max == seq_max(times@),
            decreases n - o,
        {
            let ghost before = times@;
            match message_time(index, buf, format, o) {
                Some(t) => {
                    if times.len() == 0 || t < t_min {
                        t_min = t;
                    }
                    if times.len() == 0 || t > t_max {
                        t_max = t;
                    }
                    times.push(t);
                    proof {
                        assert(times@.drop_last() == before);
                    }
                },
                None => {
                    dropped = dropped.saturating_add(1);
                },
            }
            o += 1;
        }
        if times.len() == 0 {
            return Histogram { bucket_ns: b64, bins: Vec::new(), dropped_no_time: dropped };
        }
        let ghost ts = times@;
        proof {
            lemma_min_max_bounds(ts);
            lemma_bucket_index(t_max as int, t_min as int, b as int);
            vstd::arithmetic::div_mod::lemma_div_is_ordered(t_max as int, MAX_TIME_NANOS as int, b as int);
            vstd::arithmetic::div_mod::lemma_fundamental_div_mod(t_max as int, b as int);
            vstd::arithmetic::div_mod::lemma_mod_pos_bound(t_max as int, b as int);
            assert((t_max as int / b as int + 1) * (b as int) <= t_max + b) by (nonlinear_arith)
                requires
                    t_max as int == (b as int) * (t_max as int / b as int) + (t_max as int % b as int),
                    t_max as int % b as int >= 0,
            ;
        }
        let lo_q = t_min / b;
        let hi_q = t_max / b;
        let start = lo_q * b;
        let n_bins: u128 = hi_q - lo_q + 1;
        assert(start + n_bins * b == (hi_q + 1) * b) by (nonlinear_arith)
            requires
                start == lo_q * b,
                n_bins == hi_q - lo_q + 1,
        ;
        let mut bins: Vec<Bin> = Vec::new();
        let mut i: u128 = 0;
        while i < n_bins
            invariant
                i <= n_bins,
                b >= 1,
                n_bins == hi_q - lo_q + 1,
                start + n_bins * b <= t_max + b,
                t_max + b <= MAX_TIME_NANOS + u64::MAX,
                bins@.len() == i,
                forall|j: int|
                    0 <= j < i ==> (#[trigger] bins@[j]).start_ns == start + j * b && bins@[j].end_ns == start + (
                    j + 1) * b && bins@[j].count == 0,
            decreases n_bins - i,
        {
            assert(start + (i + 1) * b <= start + n_bins * b) by (nonlinear_arith)
                requires
                    i + 1 <= n_bins,
                    b >= 1,
            ;
            assert(i * b + b == (i + 1) * b) by (nonlinear_arith);
            let bs = start + i * b;
            bins.push(Bin { start_ns: bs, end_ns: bs + b, count: 0 });
            i += 1;
        }
        let mut k: usize = 0;
        while k < times.len()
            invariant
                k <= times@.len(),
                times@ == ts,
                ts.len() > 0,
                t_min == seq_min(ts),
                t_max == seq_max(ts),
                b >= 1,
                start == (t_min as int / b as int) * b,
                n_bins == t_max as int / b as int - t_min as int / b as int + 1,
                bins@.len() == n_bins,
                forall|j: int|
                    0 <= j < bins@.len() ==> (#[trigger] bins@[j]).start_ns == start + j * b && bins@[j].end_ns
                        == start + (j + 1) * b && bins@[j].count == bucket_count(
                        ts,
                        b as int,
                        t_min as int,
                        j,
                        k as int,
                    ),
                forall|j: int| 0 <= j < ts.len() ==> t_min <= #[trigger] ts[j] <= t_max,
            decreases times.len() - k,
        {
            let t = times[k];
            proof {
                lemma_bucket_index(t as int, t_min as int, b as int);
                vstd::arithmetic::div_mod::lemma_div_is_ordered(t as int, t_max as int, b as int);
            }
            let idx = ((t - start) / b) as usize;
            let idx = if idx > bins.len() - 1 {
                bins.len() - 1
            } else {
                idx
            };
            let c = bins[idx].count;
            let c2 = c.saturating_add(1);
            let ghost old_bins = bins@;
            bins.set(idx, Bin { start_ns: bins[idx].start_ns, end_ns: bins[idx].end_ns, count: c2 });
            proof {
                assert forall|j: int| 0 <= j < bins@.len() implies (#[trigger] bins@[j]).count == bucket_count(
                    ts,
                    b as int,
                    t_min as int,
                    j,
                    k + 1,
                ) by {
                    assert(old_bins[j].count == bucket_count(ts, b as int, t_min as int, j, k as int));
                }
            }
            k += 1;
        }
        Histogram { bucket_ns: b64, bins, dropped_no_time: dropped }
    }
}

/// Sum of the counts of `bins[lo..hi]`.
pub open spec fn count_sum(bins: Seq<Bin>, lo: int, hi: int) -> int
    decreases hi - lo,
{
    if hi <= lo {
        0
    } else {
        count_sum(bins, lo, hi - 1) + bins[hi - 1].count
    }
}

/// The bins merged into column `i` of a `width`-column sparkline over `n`
/// bins: `[i*n/width, max((i+1)*n/width, lo+1))`, capped at `n`.
pub open spec fn spark_range(n: int, width: int, i: int) -> (int, int) {
    let lo = i * n / width;
    let hi0 = (i + 1) * n / width;
    let hi1 = if hi0 > lo + 1 {
        hi0
    } else {
        lo + 1
    };
    (lo, if hi1 < n {
        hi1
    } else {
        n
    })
}

/// The merged counts of a sparkline of `width` columns.
pub open spec fn spark_counts(bins: Seq<Bin>, width: int) -> Seq<u32> {
    Seq::new(
        width as nat,
        |i: int|
            count_sum(bins, spark_range(bins.len() as int, width, i).0, spark_range(bins.len() as int, width, i).1)
                as u32,
    )
}

/// Insert `x` into a sorted sequence before its first larger element.
pub open spec fn insert_ordered(s: Seq<u32>, x: u32) -> Seq<u32>
    decreases s.len(),
{
    if s.len() == 0 {
        seq![x]
    } else if x < s[0] {
        seq![x] + s
    } else {
        seq![s[0]] + insert_ordered(s.drop_first(), x)
    }
}

/// `s` sorted in increasing order (insertion sort, stable).
pub open spec fn sort_counts(s: Seq<u32>) -> Seq<u32>
    decreases s.len(),
{
    if s.len() == 0 {
        s
    } else {
        insert_ordered(sort_counts(s.drop_last()), s.last())
    }
}

/// The sparkline level (0 to 8) of a merged count under `scale`.
pub open spec fn spark_level(c: u32, scale: u32) -> int {
    let l = (c * 8) / (scale as int);
    if l > 8 {
        8
    } else {
        l
    }
}

/// The scale of a sparkline: the 95th-percentile merged count, or 1 when
/// that is 0.
pub open spec fn spark_scale(merged: Seq<u32>) -> u32 {
    let sorted = sort_counts(merged);
    let p = sorted[(if merged.len() * 95 >= 1 {
        merged.len() * 95 - 1
    } else {
        0
    }) / 100];
    if p == 0 {
        1
    } else {
        p
    }
}

/// The UTF-8 bytes of sparkline level `l`: a space, or the block character
/// U+2580 + `l`.
pub open spec fn level_bytes(l: int) -> Seq<u8> {
    if l == 0 {
        seq![32u8]
    } else {
        seq![226u8, 150u8, (128 + l) as u8]
    }
}

/// The bytes of the first `n` columns of a sparkline.
pub open spec fn spark_bytes(merged: Seq<u32>, scale: u32, n: int) -> Seq<u8>
    decreases n,
{
    if n <= 0 {
        Seq::empty()
    } else {
        spark_bytes(merged, scale, n - 1) + level_bytes(spark_level(merged[n - 1], scale))
    }
}

/// The bytes of the sparkline of a histogram (empty for no bins or no
/// width).
pub open spec fn sparkline_bytes(bins: Seq<Bin>, width: int) -> Seq<u8> {
    if bins.len() == 0 || width == 0 {
        Seq::empty()
    } else {
        let merged = spark_counts(bins, width);
        spark_bytes(merged, spark_scale(merged), width)
    }
}

/// A space is valid UTF-8.
proof fn lemma_space_valid()
    ensures
        vstd::utf8::valid_utf8(seq![32u8]),
{
    let s = seq![32u8];
    let b: u8 = 32;
    assert(((b & 0x7Fu8) as u32) <= 0x7Fu32) by (bit_vector);
    assert(s.subrange(1, 1) =~= Seq::<u8>::empty());
    reveal_with_fuel(vstd::utf8::valid_utf8, 2);
}

/// A block character U+2581..U+2588 is valid UTF-8.
proof fn lemma_block_valid(b3: u8)
    requires
        129 <= b3 <= 136,
    ensures
        vstd::utf8::valid_utf8(seq![226u8, 150u8, b3]),
{
    let s = seq![226u8, 150u8, b3];
    let b1: u8 = 226;
    let b2: u8 = 150;
    assert(0x2581u32 <= ((((b1 & 0x0Fu8) as u32) << 12u32) | (((b2 & 0x3Fu8) as u32) << 6u32) | ((b3 & 0x3Fu8)
        as u32)) <= 0x2588u32) by (bit_vector)
        requires
            b1 == 226u8,
            b2 == 150u8,
            129u8 <= b3 <= 136u8,
    ;
    assert(s.subrange(3, 3) =~= Seq::<u8>::empty());
    reveal_with_fuel(vstd::utf8::valid_utf8, 2);
}

/// Every sparkline level is valid UTF-8.
proof fn lemma_level_valid(l: int)
    requires
        0 <= l <= 8,
    ensures
        vstd::utf8::valid_utf8(level_bytes(l)),
{
    if l == 0 {
        lemma_space_valid();
    } else {
        lemma_block_valid((128 + l) as u8);
    }
}

/// The first `n` columns of a sparkline are valid UTF-8.
proof fn lemma_spark_valid(merged: Seq<u32>, scale: u32, n: int)
    requires
        scale >= 1,
    ensures
        vstd::utf8::valid_utf8(spark_bytes(merged, scale, n)),
    decreases n,
{
    if n <= 0 {
        assert(vstd::utf8::valid_utf8(Seq::<u8>::empty()));
    } else {
        lemma_spark_valid(merged, scale, n - 1);
        let c = merged[n - 1];
        assert((c * 8) / (scale as int) >= 0) by (nonlinear_arith)
            requires
                scale >= 1,
        ;
        lemma_level_valid(spark_level(c, scale));
        vstd::utf8::valid_utf8_concat(
            spark_bytes(merged, scale, n - 1),
            level_bytes(spark_level(c, scale)),
        );
    }
}

/// The character a sparkline draws for level `l`: a space for 0, else the
/// lower block U+2580 + `l` (`▁` for 1 up to the full block `█` for 8).
pub open spec fn block_code(l: int) -> u32 {
    if l == 0 {
        0x20
    } else {
        (0x2580 + l) as u32
    }
}

/// The bytes of a level decode to its one character.
proof fn lemma_level_decode(l: int)
    requires
        0 <= l <= 8,
    ensures
        vstd::utf8::decode_utf8(level_bytes(l)) == seq![block_code(l) as char],
{
    let b = level_bytes(l);
    lemma_level_valid(l);
    if l == 0 {
        let b1: u8 = 32;
        assert(((b1 & 0x7Fu8) as u32) == 0x20u32) by (bit_vector)
            requires
                b1 == 32u8,
        ;
        assert(b.subrange(1, 1) =~= Seq::<u8>::empty());
    } else {
        let b1: u8 = 226;
        let b2: u8 = 150;
        let b3: u8 = (128 + l) as u8;
        assert(((((b1 & 0x0Fu8) as u32) << 12u32) | (((b2 & 0x3Fu8) as u32) << 6u32) | ((b3 & 0x3Fu8) as u32))
            == 0x2500u32 + (b3 as u32)) by (bit_vector)
            requires
                b1 == 226u8,
                b2 == 150u8,
                129u8 <= b3 <= 136u8,
        ;
        assert(b.subrange(3, 3) =~= Seq::<u8>::empty());
    }
    reveal_with_fuel(vstd::utf8::decode_utf8, 2);
    assert(vstd::utf8::decode_utf8(b) =~= seq![block_code(l) as char]);
}

/// A level never exceeds 8, and a larger count never gets a lower level.
proof fn lemma_level_mono(c1: u32, c2: u32, scale: u32)
    requires
        scale >= 1,
        c1 <= c2,
    ensures
        0 <= spark_level(c1, scale) <= spark_level(c2, scale) <= 8,
{
    assert((c1 * 8) / (scale as int) <= (c2 * 8) / (scale as int)) by (nonlinear_arith)
        requires
            scale >= 1,
            c1 <= c2,
    ;
    assert((c1 * 8) / (scale as int) >= 0) by (nonlinear_arith)
        requires
            scale >= 1,
    ;
}

/// The first `n` columns decode to one character per column.
proof fn lemma_spark_decode(merged: Seq<u32>, scale: u32, n: int)
    requires
        scale >= 1,
        0 <= n <= merged.len(),
    ensures
        vstd::utf8::decode_utf8(spark_bytes(merged, scale, n)) == Seq::new(
            n as nat,
            |i: int| block_code(spark_level(merged[i], scale)) as char,
        ),
    decreases n,
{
    let target = Seq::new(n as nat, |i: int| block_code(spark_level(merged[i], scale)) as char);
    if n == 0 {
        assert(vstd::utf8::decode_utf8(Seq::<u8>::empty()) =~= target);
    } else {
        lemma_spark_decode(merged, scale, n - 1);
        lemma_spark_valid(merged, scale, n - 1);
        lemma_spark_valid(merged, scale, n);
        let l = spark_level(merged[n - 1], scale);
        lemma_level_mono(merged[n - 1], merged[n - 1], scale);
        lemma_level_decode(l);
        let a = spark_bytes(merged, scale, n - 1);
        let b = level_bytes(l);
        let ab = spark_bytes(merged, scale, n);
        assert(ab == a + b);
        assert(ab.subrange(0, a.len() as int) =~= a);
        assert(ab.subrange(a.len() as int, ab.len() as int) =~= b);
        assert(ab[a.len() as int] == b[0]);
        vstd::utf8::is_char_boundary_iff_is_leading_byte(ab, a.len() as int);
        vstd::utf8::decode_utf8_split(ab, a.len() as int);
        assert(vstd::utf8::decode_utf8(ab) =~= target);
    }
}

/// Column `i` of a sparkline is the block of its level, the level being
/// the column's merged count times 8 over the scale (at most 8), so a
/// column with a larger merged count never gets a lower block, an empty
/// column is a space and a column at or above the scale is the full block
/// `█`.
pub proof fn law_sparkline_blocks(bins: Seq<Bin>, width: int)
    requires
        bins.len() > 0,
        width > 0,
    ensures
        ({
            let s = vstd::utf8::decode_utf8(sparkline_bytes(bins, width));
            let merged = spark_counts(bins, width);
            let scale = spark_scale(merged);
            &&& s.len() == width
            &&& forall|i: int|
                0 <= i < width ==> #[trigger] s[i] == block_code(spark_level(merged[i], scale)) as char
            &&& forall|i: int, j: int|
                0 <= i < width && 0 <= j < width && merged[i] <= merged[j] ==> block_code(
                    spark_level(#[trigger] merged[i], scale),
                ) <= block_code(spark_level(#[trigger] merged[j], scale))
            &&& forall|i: int| 0 <= i < width && #[trigger] merged[i] == 0 ==> s[i] == ' '
            &&& forall|i: int| 0 <= i < width && #[trigger] merged[i] >= scale ==> s[i] == '\u{2588}'
        }),
{
    let merged = spark_counts(bins, width);
    let scale = spark_scale(merged);
    assert(scale >= 1);
    lemma_spark_decode(merged, scale, width);
    assert forall|i: int, j: int|
        0 <= i < width && 0 <= j < width && merged[i] <= merged[j] implies block_code(
        spark_level(#[trigger] merged[i], scale),
    ) <= block_code(spark_level(#[trigger] merged[j], scale)) by {
        lemma_level_mono(merged[i], merged[j], scale);
        lemma_level_mono(0, merged[i], scale);
    }
    assert forall|i: int| 0 <= i < width && #[trigger] merged[i] >= scale implies spark_level(merged[i], scale) == 8 by {
        assert((merged[i] * 8) / (scale as int) >= 8) by (nonlinear_arith)
            requires
                merged[i] >= scale,
                scale >= 1,
        ;
    }
}

/// A sparkline is valid UTF-8.
pub proof fn lemma_sparkline_valid(bins: Seq<Bin>, width: int)
    ensures
        vstd::utf8::valid_utf8(sparkline_bytes(bins, width)),
{
    if bins.len() == 0 || width == 0 {
        assert(vstd::utf8::valid_utf8(Seq::<u8>::empty()));
    } else {
        let merged = spark_counts(bins, width);
        lemma_spark_valid(merged, spark_scale(merged), width);
    }
}

proof fn lemma_count_sum_mono(bins: Seq<Bin>, lo: int, hi: int, lo2: int, hi2: int)
    requires
        lo <= lo2,
        hi2 <= hi,
    ensures
        count_sum(bins, lo2, hi2) <= count_sum(bins, lo, hi),
        count_sum(bins, lo, hi) >= 0,
    decreases hi - lo,
{
    if hi > lo {
        if hi2 == hi && hi2 > lo2 {
            lemma_count_sum_mono(bins, lo, hi - 1, lo2, hi2 - 1);
        } else if hi2 < hi {
            lemma_count_sum_mono(bins, lo, hi - 1, lo2, hi2);
        } else {
            lemma_count_sum_mono(bins, lo, hi - 1, lo2, hi2 - 1);
        }
    }
}

impl Histogram {
    /// Sum of counts across all bins: the number of messages that
    /// contributed a timestamp (when no bin saturated).
    pub fn total(&self) -> (t: u64)
        requires
            count_sum(self.bins@, 0, self.bins@.len() as int) <= u64::MAX,
        ensures
            t == count_sum(self.bins@, 0, self.bins@.len() as int),
    {
        let mut t: u64 = 0;
        let mut i: usize = 0;
        while i < self.bins.len()
            invariant
                i <= self.bins@.len(),
                t == count_sum(self.bins@, 0, i as int),
                count_sum(self.bins@, 0, self.bins@.len() as int) <= u64::MAX,
            decreases self.bins.len() - i,
        {
            proof {
                lemma_count_sum_mono(self.bins@, 0, self.bins@.len() as int, 0, i + 1);
            }
            t = t + self.bins[i].count as u64;
            i += 1;
        }
        t
    }

    /// Render a block-character sparkline (`" ▁▂▃▄▅▆▇█"`) of `width`
    /// characters. Bins are merged into `width` columns by summing counts;
    /// heights are scaled by the 95th-percentile column, so that a single
    /// peak does not flatten the rest.
    pub fn render_sparkline(&self, width: usize) -> (s: String)
        requires
            width * (self.bins@.len() + 1) <= usize::MAX,
            width * 100 <= usize::MAX,
            count_sum(self.bins@, 0, self.bins@.len() as int) <= u32::MAX,
        ensures
            s@ == vstd::utf8::decode_utf8(sparkline_bytes(self.bins@, width as int)),
            vstd::utf8::encode_utf8(s@) == sparkline_bytes(self.bins@, width as int),
    {
        proof {
            lemma_sparkline_valid(self.bins@, width as int);
            vstd::utf8::decode_utf8_encode_utf8(sparkline_bytes(self.bins@, width as int));
        }
        let ghost bins = self.bins@;
        if self.bins.len() == 0 || width == 0 {
            let e: Vec<u8> = Vec::new();
            assert(e@ =~= sparkline_bytes(bins, width as int));
            return string_from_utf8(e);
        }
        let n = self.bins.len();
        let mut merged: Vec<u32> = Vec::new();
        let mut i: usize = 0;
        while i < width
            invariant
                i <= width,
                n == bins.len(),
                n > 0,
                width > 0,
                bins == self.bins@,
                width * (n + 1) <= usize::MAX,
                count_sum(bins, 0, n as int) <= u32::MAX,
                merged@.len() == i,
                forall|j: int| 0 <= j < i ==> #[trigger] merged@[j] == spark_counts(bins, width as int)[j],
            decreases width - i,
        {
            assert(i * n <= usize::MAX && (i + 1) * n <= usize::MAX) by (nonlinear_arith)
                requires
                    i < width,
                    width * (n + 1) <= usize::MAX,
            ;
            let lo = (i * n) / width;
            let hi0 = ((i + 1) * n) / width;
            assert(lo < n) by (nonlinear_arith)
                requires
                    lo as int == (i as int * n as int) / (width as int),
                    i < width,
                    n > 0,
                    width > 0,
            ;
            let hi1 = if hi0 > lo + 1 {
                hi0
            } else {
                lo + 1
            };
            let hi = if hi1 < n {
                hi1
            } else {
                n
            };
            let mut sum: u32 = 0;
            let mut j: usize = lo;
            while j < hi
                invariant
                    lo <= j <= hi,
                    hi <= n,
                    n == bins.len(),
                    bins == self.bins@,
                    count_sum(bins, 0, n as int) <= u32::MAX,
                    sum == count_sum(bins, lo as int, j as int),
                decreases hi - j,
            {
                proof {
                    lemma_count_sum_mono(bins, 0, n as int, lo as int, j + 1);
                }
                sum = sum + self.bins[j].count;
                j += 1;
            }
            merged.push(sum);
            i += 1;
        }
        // The 95th-percentile column, by sorting a copy.
        let mut sorted: Vec<u32> = Vec::new();
        let mut k: usize = 0;
        while k < merged.len()
            invariant
                k <= merged@.len(),
                sorted@ == sort_counts(merged@.take(k as int)),
            decreases merged.len() - k,
        {
            let x = merged[k];
            let mut p: usize = 0;
            let ghost s0 = sorted@;
            assert(s0.skip(0) =~= s0);
            assert(s0.take(0) + insert_ordered(s0, x) =~= insert_ordered(s0, x));
            while p < sorted.len() && sorted[p] <= x
                invariant
                    p <= sorted@.len(),
                    sorted@ == s0,
                    insert_ordered(s0, x) == s0.take(p as int) + insert_ordered(s0.skip(p as int), x),
                decreases sorted.len() - p,
            {
                proof {
                    let t = s0.skip(p as int);
                    assert(t.drop_first() =~= s0.skip(p + 1));
                    assert(s0.take(p + 1) =~= s0.take(p as int) + seq![s0[p as int]]);
                    assert(insert_ordered(t, x) == seq![t[0]] + insert_ordered(t.drop_first(), x));
                    assert(s0.take(p as int) + (seq![s0[p as int]] + insert_ordered(s0.skip(p + 1), x))
                        =~= s0.take(p + 1) + insert_ordered(s0.skip(p + 1), x));
                }
                p += 1;
            }
            sorted.insert(p, x);
            proof {
                let t = s0.skip(p as int);
                if p < s0.len() {
                    assert(insert_ordered(t, x) == seq![x] + t);
                } else {
                    assert(t.len() == 0);
                }
                assert(sorted@ =~= s0.take(p as int) + insert_ordered(t, x));
                assert(merged@.take(k + 1).drop_last() =~= merged@.take(k as int));
            }
            k += 1;
        }
        assert(merged@.take(merged@.len() as int) =~= merged@);
        assert(merged@ =~= spark_counts(bins, width as int));
        proof {
            lemma_sort_len(merged@);
        }
        let r = (sorted.len() * 95).saturating_sub(1) / 100;
        let p95 = sorted[r];
        let scale: u32 = if p95 == 0 {
            1
        } else {
            p95
        };
        let mut out: Vec<u8> = Vec::new();
        let mut c: usize = 0;
        while c < width
            invariant
                c <= width,
                merged@.len() == width,
                scale >= 1,
                scale == spark_scale(merged@),
                out@ == spark_bytes(merged@, scale, c as int),
            decreases width - c,
        {
            let v = merged[c] as u64;
            let l0 = (v * 8) / scale as u64;
            let l = if l0 > 8 {
                8
            } else {
                l0
            };
            if l == 0 {
                out.push(32u8);
            } else {
                out.push(226u8);
                out.push(150u8);
                out.push((128 + l) as u8);
            }
            proof {
                assert(out@ =~= spark_bytes(merged@, scale, c as int) + level_bytes(spark_level(merged@[c as int], scale)));
            }
            c += 1;
        }
        string_from_utf8(out)
    }
}

/// Sorting keeps the length.
proof fn lemma_sort_len(s: Seq<u32>)
    ensures
        sort_counts(s).len() == s.len(),
    decreases s.len(),
{
    if s.len() > 0 {
        lemma_sort_len(s.drop_last());
        lemma_insert_len(sort_counts(s.drop_last()), s.last());
    }
}

proof fn lemma_insert_len(s: Seq<u32>, x: u32)
    ensures
        insert_ordered(s, x).len() == s.len() + 1,
    decreases s.len(),
{
    if s.len() > 0 && x >= s[0] {
        lemma_insert_len(s.drop_first(), x);
    }
}

/// `a` ranks before `b` among peaks: a higher count, or the same count
/// and an earlier start.
pub open spec fn ranks_before(a: Bin, b: Bin) -> bool {
    a.count > b.count || (a.count == b.count && a.start_ns < b.start_ns)
}

/// Insert `x` into a ranked sequence before the first bin it ranks before
/// (so equal bins keep their order).
pub open spec fn insert_ranked(s: Seq<Bin>, x: Bin) -> Seq<Bin>
    decreases s.len(),
{
    if s.len() == 0 {
        seq![x]
    } else if ranks_before(x, s[0]) {
        seq![x] + s
    } else {
        seq![s[0]] + insert_ranked(s.drop_first(), x)
    }
}

/// The non-empty bins among the first `n`, ranked (stable insertion sort).
pub open spec fn ranked_bins(bins: Seq<Bin>, n: int) -> Seq<Bin>
    decreases n,
{
    if n <= 0 {
        Seq::empty()
    } else if bins[n - 1].count > 0 {
        insert_ranked(ranked_bins(bins, n - 1), bins[n - 1])
    } else {
        ranked_bins(bins, n - 1)
    }
}

impl Histogram {
    /// The top `k` non-empty bins by count, descending; ties go to the
    /// earlier `start_ns`.
    pub fn peaks(&self, k: usize) -> (r: Vec<&Bin>)
        ensures
            r@.len() == (if k < ranked_bins(self.bins@, self.bins@.len() as int).len() {
                k as int
            } else {
                ranked_bins(self.bins@, self.bins@.len() as int).len() as int
            }),
            forall|i: int| 0 <= i < r@.len() ==> *(#[trigger] r@[i]) == ranked_bins(self.bins@, self.bins@.len() as int)[i],
    {
        let ghost bins = self.bins@;
        let mut refs: Vec<&Bin> = Vec::new();
        let mut j: usize = 0;
        while j < self.bins.len()
            invariant
                j <= bins.len(),
                bins == self.bins@,
                refs@.len() == ranked_bins(bins, j as int).len(),
                forall|i: int| 0 <= i < refs@.len() ==> *(#[trigger] refs@[i]) == ranked_bins(bins, j as int)[i],
            decreases self.bins.len() - j,
        {
            let b = &self.bins[j];
            if b.count > 0 {
                let ghost s0 = ranked_bins(bins, j as int);
                let mut p: usize = 0;
                proof {
                    assert(s0.skip(0) =~= s0);
                    assert(s0.take(0) + insert_ranked(s0, *b) =~= insert_ranked(s0, *b));
                }
                while p < refs.len() && !(b.count > refs[p].count || (b.count == refs[p].count && b.start_ns < refs[p].start_ns))
                    invariant
                        p <= refs@.len(),
                        refs@.len() == s0.len(),
                        forall|i: int| 0 <= i < refs@.len() ==> *(#[trigger] refs@[i]) == s0[i],
                        insert_ranked(s0, *b) == s0.take(p as int) + insert_ranked(s0.skip(p as int), *b),
                    decreases refs.len() - p,
                {
                    proof {
                        let t = s0.skip(p as int);
                        assert(t[0] == s0[p as int]);
                        assert(t.drop_first() =~= s0.skip(p + 1));
                        assert(insert_ranked(t, *b) == seq![t[0]] + insert_ranked(t.drop_first(), *b));
                        assert(s0.take(p as int) + (seq![s0[p as int]] + insert_ranked(s0.skip(p + 1), *b))
                            =~= s0.take(p + 1) + insert_ranked(s0.skip(p + 1), *b));
                    }
                    p += 1;
                }
                let ghost r0 = refs@;
                refs.insert(p, b);
                proof {
                    let t = s0.skip(p as int);
                    if p < s0.len() {
                        assert(t[0] == s0[p as int]);
                        assert(insert_ranked(t, *b) == seq![*b] + t);
                    }
                    let target = s0.take(p as int) + insert_ranked(t, *b);
                    assert(ranked_bins(bins, j + 1) == insert_ranked(s0, *b));
                    assert forall|i: int| 0 <= i < refs@.len() implies *(#[trigger] refs@[i]) == target[i] by {
                        if i < p {
                            assert(refs@[i] == r0[i]);
                        } else if i > p {
                            assert(refs@[i] == r0[i - 1]);
                        }
                    }
                }
            }
            j += 1;
        }
        let ghost all = ranked_bins(bins, bins.len() as int);
        if k < refs.len() {
            refs.truncate(k);
        }
        refs
    }
}


// ---------------------------------------------------------------------------
// Every message is binned or dropped
// ---------------------------------------------------------------------------
/// The bucket of a timestamp, counted from the one that holds `lo`.
pub open spec fn bucket_of(t: u128, b: int, lo: int) -> int {
    (t as int) / b - lo / b
}

/// The counts of buckets `0..nb` over the first `n` timestamps, added up.
pub open spec fn bucket_total(times: Seq<u128>, b: int, lo: int, nb: int, n: int) -> int
    decreases nb,
{
    if nb <= 0 {
        0
    } else {
        bucket_total(times, b, lo, nb - 1, n) + bucket_count(times, b, lo, nb - 1, n)
    }
}

proof fn lemma_bucket_count_bound(times: Seq<u128>, b: int, lo: int, i: int, n: int)
    ensures
        n >= 0 ==> bucket_count(times, b, lo, i, n) <= n,
    decreases n,
{
    if n > 0 {
        lemma_bucket_count_bound(times, b, lo, i, n - 1);
    }
}

/// Buckets below `nb` gain nothing from a timestamp that falls at or above.
proof fn lemma_bucket_total_other(times: Seq<u128>, b: int, lo: int, nb: int, n: int)
    requires
        1 <= n <= u32::MAX,
        bucket_of(times[n - 1], b, lo) >= nb || bucket_of(times[n - 1], b, lo) < 0,
    ensures
        bucket_total(times, b, lo, nb, n) == bucket_total(times, b, lo, nb, n - 1),
    decreases nb,
{
    if nb > 0 {
        lemma_bucket_total_other(times, b, lo, nb - 1, n);
    }
}

/// A timestamp that falls in one of buckets `0..nb` adds one to their total.
proof fn lemma_bucket_total_step(times: Seq<u128>, b: int, lo: int, nb: int, n: int)
    requires
        1 <= n <= u32::MAX,
        0 <= bucket_of(times[n - 1], b, lo) < nb,
    ensures
        bucket_total(times, b, lo, nb, n) == bucket_total(times, b, lo, nb, n - 1) + 1,
    decreases nb,
{
    lemma_bucket_count_bound(times, b, lo, nb - 1, n - 1);
    if bucket_of(times[n - 1], b, lo) == nb - 1 {
        lemma_bucket_total_other(times, b, lo, nb - 1, n);
    } else {
        lemma_bucket_total_step(times, b, lo, nb - 1, n);
    }
}

/// When every one of the first `n` timestamps falls in buckets `0..nb`,
/// those buckets count `n` in all.
proof fn lemma_bucket_total_all(times: Seq<u128>, b: int, lo: int, nb: int, n: int)
    requires
        0 <= n <= times.len(),
        n <= u32::MAX,
        forall|k: int| 0 <= k < n ==> 0 <= #[trigger] bucket_of(times[k], b, lo) < nb,
    ensures
        bucket_total(times, b, lo, nb, n) == n,
    decreases n,
{
    if n == 0 {
        lemma_bucket_total_zero(times, b, lo, nb);
    } else {
        assert(0 <= bucket_of(times[n - 1], b, lo) < nb);
        lemma_bucket_total_all(times, b, lo, nb, n - 1);
        lemma_bucket_total_step(times, b, lo, nb, n);
    }
}

proof fn lemma_bucket_total_zero(times: Seq<u128>, b: int, lo: int, nb: int)
    ensures
        bucket_total(times, b, lo, nb, 0) == 0,
    decreases nb,
{
    if nb > 0 {
        lemma_bucket_total_zero(times, b, lo, nb - 1);
    }
}

/// The bin counts of a histogram add up to the bucket total.
proof fn lemma_bins_total(h: Histogram, times: Seq<u128>, b: u64, k: int)
    requires
        histogram_of(h, times, b),
        times.len() > 0,
        0 <= k <= h.bins@.len(),
    ensures
        count_sum(h.bins@, 0, k) == bucket_total(times, b as int, seq_min(times) as int, k, times.len() as int),
    decreases k,
{
    if k > 0 {
        lemma_bins_total(h, times, b, k - 1);
        assert(h.bins@[k - 1].count == bucket_count(times, b as int, seq_min(times) as int, k - 1, times.len() as int));
    }
}

/// Each of the first `k` messages has a timestamp or is counted as dropped.
proof fn lemma_times_or_dropped(index: LogIndex, buf: Seq<u8>, sep: u8, k: int)
    requires
        0 <= k <= u32::MAX,
    ensures
        times_upto(index, buf, sep, k).len() + dropped_upto(index, buf, sep, k) == k,
    decreases k,
{
    if k > 0 {
        lemma_times_or_dropped(index, buf, sep, k - 1);
    }
}

/// Every indexed message is binned or dropped for want of a timestamp:
/// the bin counts and the dropped count of the histogram of an index add
/// up to its number of messages (as long as that number fits a `u32`, the
/// type of the counts).
pub proof fn law_every_message_binned_or_dropped(h: Histogram, index: LogIndex, buf: Seq<u8>, sep: u8, bucket_ns: u128)
    requires
        index.messages@.len() <= u32::MAX,
        histogram_of(h, times_upto(index, buf, sep, index.messages@.len() as int), bucket_width(bucket_ns)),
        h.dropped_no_time == dropped_upto(index, buf, sep, index.messages@.len() as int),
    ensures
        count_sum(h.bins@, 0, h.bins@.len() as int) + h.dropped_no_time == index.messages@.len(),
{
    let n = index.messages@.len() as int;
    let times = times_upto(index, buf, sep, n);
    let b = bucket_width(bucket_ns);
    lemma_times_or_dropped(index, buf, sep, n);
    if times.len() == 0 {
        assert(count_sum(h.bins@, 0, h.bins@.len() as int) == 0);
    } else {
        let lo = seq_min(times) as int;
        let hi = seq_max(times) as int;
        let nb = h.bins@.len() as int;
        lemma_min_max_bounds(times);
        assert forall|k: int| 0 <= k < times.len() implies 0 <= #[trigger] bucket_of(times[k], b as int, lo) < nb by {
            lemma_bucket_index(times[k] as int, lo, b as int);
            lemma_bucket_index(hi, lo, b as int);
            vstd::arithmetic::div_mod::lemma_div_is_ordered(times[k] as int, hi, b as int);
        }
        lemma_bucket_total_all(times, b as int, lo, nb, times.len() as int);
        lemma_bins_total(h, times, b, nb);
    }
}

} // verus!
