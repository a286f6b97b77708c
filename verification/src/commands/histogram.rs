//! Bucket widths of the `histogram` command: `<N>ms`, `<N>us`, `<N>ns`,
//! `<N>s` or `<N>m`, read from the command line and shown back; and the
//! report of a histogram.
use vstd::prelude::*;
use vstd::string::StrSliceExecFns;

use crate::analysis::histogram::{Bin, Histogram, count_sum, ranked_bins, sparkline_bytes};
use crate::render::{decimal, pad_left, push_bytes, push_decimal, push_spaces, str_bytes};

verus! {

/// Unicode `White_Space`, the characters `str::trim` removes.
pub open spec fn is_white_space(c: char) -> bool {
    let n = c as u32;
    (9 <= n <= 13) || n == 32 || n == 0x85 || n == 0xA0 || n == 0x1680 || (0x2000 <= n <= 0x200A) || n == 0x2028
        || n == 0x2029 || n == 0x202F || n == 0x205F || n == 0x3000
}

/// `c` is Unicode `White_Space`.
pub fn white_space(c: char) -> (r: bool)
    ensures
        r == is_white_space(c),
{
    let n = c as u32;
    (9 <= n && n <= 13) || n == 32 || n == 0x85 || n == 0xA0 || n == 0x1680 || (0x2000 <= n && n <= 0x200A)
        || n == 0x2028 || n == 0x2029 || n == 0x202F || n == 0x205F || n == 0x3000
}

/// `s` without its leading and trailing white space.
pub open spec fn trim_chars(s: Seq<char>) -> Seq<char>
    decreases s.len(),
{
    if s.len() == 0 {
        s
    } else if is_white_space(s[0]) {
        trim_chars(s.drop_first())
    } else if is_white_space(s.last()) {
        trim_chars(s.drop_last())
    } else {
        s
    }
}

/// The trimmed text is the part between the white space at both ends.
proof fn lemma_trim(s: Seq<char>, a: int, b: int)
    requires
        0 <= a <= b <= s.len(),
        forall|i: int| 0 <= i < a ==> is_white_space(#[trigger] s[i]),
        forall|i: int| b <= i < s.len() ==> is_white_space(#[trigger] s[i]),
        a < b ==> !is_white_space(s[a]) && !is_white_space(s[b - 1]),
    ensures
        trim_chars(s) == s.subrange(a, b),
    decreases s.len(),
{
    if s.len() == 0 {
        assert(s.subrange(a, b) =~= s);
    } else if is_white_space(s[0]) {
        if a == 0 {
            assert(b == 0);
        }
        let t = s.drop_first();
        let na = if a > 0 { a - 1 } else { 0 };
        let nb = if b > 0 { b - 1 } else { 0 };
        assert forall|i: int| 0 <= i < na implies is_white_space(#[trigger] t[i]) by {
            assert(t[i] == s[i + 1]);
        }
        assert forall|i: int| nb <= i < t.len() implies is_white_space(#[trigger] t[i]) by {
            assert(t[i] == s[i + 1]);
        }
        if na < nb {
            assert(t[na] == s[a]);
            assert(t[nb - 1] == s[b - 1]);
        }
        lemma_trim(t, na, nb);
        assert(t.subrange(na, nb) =~= s.subrange(a, b));
    } else if is_white_space(s.last()) {
        assert(b < s.len()) by {
            if b == s.len() {
                assert(a < b);
            }
        }
        let t = s.drop_last();
        assert forall|i: int| 0 <= i < a implies is_white_space(#[trigger] t[i]) by {
            assert(t[i] == s[i]);
        }
        assert forall|i: int| b <= i < t.len() implies is_white_space(#[trigger] t[i]) by {
            assert(t[i] == s[i]);
        }
        lemma_trim(t, a, b);
        assert(t.subrange(a, b) =~= s.subrange(a, b));
    } else {
        assert(a == 0);
        assert(b == s.len());
        assert(s.subrange(a, b) =~= s);
    }
}

/// The ends of the trimmed part of `s[lo..hi]`.
fn trim_range(s: &str, lo: usize, hi: usize) -> (r: (usize, usize))
    requires
        lo <= hi <= s@.len(),
    ensures
        lo <= r.0 <= r.1 <= hi,
        trim_chars(s@.subrange(lo as int, hi as int)) == s@.subrange(r.0 as int, r.1 as int),
{
    let mut a = lo;
    while a < hi && white_space(s.get_char(a))
        invariant
            lo <= a <= hi,
            hi <= s@.len(),
            forall|i: int| lo <= i < a ==> is_white_space(#[trigger] s@[i]),
        decreases hi - a,
    {
        a += 1;
    }
    let mut b = hi;
    while b > a && white_space(s.get_char(b - 1))
        invariant
            a <= b <= hi,
            hi <= s@.len(),
            forall|i: int| b <= i < hi ==> is_white_space(#[trigger] s@[i]),
        decreases b - a,
    {
        b -= 1;
    }
    proof {
        let t = s@.subrange(lo as int, hi as int);
        assert forall|i: int| 0 <= i < a - lo implies is_white_space(#[trigger] t[i]) by {
            assert(t[i] == s@[lo + i]);
        }
        assert forall|i: int| b - lo <= i < t.len() implies is_white_space(#[trigger] t[i]) by {
            assert(t[i] == s@[lo + i]);
        }
        if a < b {
            assert(t[a - lo] == s@[a as int]);
            assert(t[b - lo - 1] == s@[b - 1]);
        }
        lemma_trim(t, a - lo, b - lo);
        assert(t.subrange(a - lo, b - lo) =~= s@.subrange(a as int, b as int));
    }
    (a, b)
}

/// The number part and the nanoseconds per unit of a bucket width, by its
/// suffix: `ms`, `us`, `ns`, `s` or `m`, tried in that order.
pub open spec fn duration_unit(t: Seq<char>) -> Option<(Seq<char>, nat)> {
    let n = t.len();
    if n >= 2 && t[n - 2] == 'm' && t[n - 1] == 's' {
        Some((t.take(n - 2), 1_000_000))
    } else if n >= 2 && t[n - 2] == 'u' && t[n - 1] == 's' {
        Some((t.take(n - 2), 1_000))
    } else if n >= 2 && t[n - 2] == 'n' && t[n - 1] == 's' {
        Some((t.take(n - 2), 1))
    } else if n >= 1 && t[n - 1] == 's' {
        Some((t.take(n - 1), 1_000_000_000))
    } else if n >= 1 && t[n - 1] == 'm' {
        Some((t.take(n - 1), 60_000_000_000))
    } else {
        None
    }
}

/// `c` is an ASCII digit.
pub open spec fn is_digit_char(c: char) -> bool {
    48 <= (c as u32) <= 57
}

/// The value of a run of ASCII digits.
pub open spec fn char_digits_value(d: Seq<char>) -> nat
    decreases d.len(),
{
    if d.len() == 0 {
        0
    } else {
        char_digits_value(d.drop_last()) * 10 + ((d.last() as u32) - 48) as nat
    }
}

/// `t` without a leading `+`.
pub open spec fn unsigned_digits(t: Seq<char>) -> Seq<char> {
    if t.len() > 0 && t[0] == '+' {
        t.drop_first()
    } else {
        t
    }
}

/// Every character of `d` is an ASCII digit.
pub open spec fn all_digit_chars(d: Seq<char>) -> bool {
    forall|i: int| 0 <= i < d.len() ==> is_digit_char(#[trigger] d[i])
}

/// A `u64` as `str::parse` reads it: an optional `+`, then one or more ASCII
/// digits whose value fits.
pub open spec fn spec_parse_u64(t: Seq<char>) -> Option<u64> {
    let d = unsigned_digits(t);
    if d.len() > 0 && all_digit_chars(d) && char_digits_value(d) <= u64::MAX {
        Some(char_digits_value(d) as u64)
    } else {
        None
    }
}

/// A number of nanoseconds held as whole seconds in a `u64` (kept modulo
/// 2^64) and the nanoseconds below a second.
pub open spec fn secs_wrapped(total: nat) -> nat {
    ((total / 1_000_000_000) % 0x1_0000_0000_0000_0000) * 1_000_000_000 + total % 1_000_000_000
}

/// The nanoseconds of a bucket width: the text trimmed, its unit suffix
/// taken off, the rest trimmed again and read as a `u64`, times the unit,
/// with the whole seconds kept in a `u64` (see [`secs_wrapped`]).
pub open spec fn spec_parse_duration(s: Seq<char>) -> Option<u128> {
    match duration_unit(trim_chars(s)) {
        Some((num, mult)) => match spec_parse_u64(trim_chars(num)) {
            Some(n) => Some(secs_wrapped((n * mult) as nat) as u128),
            None => None,
        },
        None => None,
    }
}

/// A longer run of digits is worth at least as much.
proof fn lemma_digits_grow(d: Seq<char>, i: int, j: int)
    requires
        0 <= i <= j <= d.len(),
        forall|k: int| 0 <= k < d.len() ==> is_digit_char(#[trigger] d[k]),
    ensures
        char_digits_value(d.take(i)) <= char_digits_value(d.take(j)),
    decreases j - i,
{
    if i < j {
        lemma_digits_grow(d, i, j - 1);
        assert(d.take(j).drop_last() =~= d.take(j - 1));
    }
}

/// Read `s[lo..hi]` as a `u64` (see [`spec_parse_u64`]).
fn parse_u64_chars(s: &str, lo: usize, hi: usize) -> (r: Option<u64>)
    requires
        lo <= hi <= s@.len(),
    ensures
        r == spec_parse_u64(s@.subrange(lo as int, hi as int)),
{
    let ghost t = s@.subrange(lo as int, hi as int);
    let mut start = lo;
    if lo < hi && s.get_char(lo) == '+' {
        start = lo + 1;
    }
    let ghost d = s@.subrange(start as int, hi as int);
    assert(d =~= unsigned_digits(t));
    if start == hi {
        return None;
    }
    let mut v: u64 = 0;
    let mut i = start;
    while i < hi
        invariant
            start <= i <= hi,
            hi <= s@.len(),
            d == s@.subrange(start as int, hi as int),
            t == s@.subrange(lo as int, hi as int),
            d == unsigned_digits(t),
            d.len() > 0,
            forall|k: int| 0 <= k < i - start ==> is_digit_char(#[trigger] d[k]),
            v == char_digits_value(d.take(i - start)),
        decreases hi - i,
    {
        let c = s.get_char(i);
        let n = c as u32;
        if n < 48 || n > 57 {
            assert(!is_digit_char(d[i - start]));
            assert(!(forall|k: int| 0 <= k < d.len() ==> is_digit_char(#[trigger] d[k])));
            assert(spec_parse_u64(t) is None);
            return None;
        }
        assert(d.take(i - start + 1).drop_last() =~= d.take(i - start));
        assert(d.take(i - start + 1).last() == c);
        let digit = (n - 48) as u64;
        let next = match v.checked_mul(10) {
            Some(m) => m.checked_add(digit),
            None => None,
        };
        match next {
            Some(x) => {
                v = x;
            },
            None => {
                proof {
                    if forall|k: int| 0 <= k < d.len() ==> is_digit_char(#[trigger] d[k]) {
                        lemma_digits_grow(d, i - start + 1, d.len() as int);
                        assert(d.take(d.len() as int) =~= d);
                        assert(char_digits_value(d) > u64::MAX) by (nonlinear_arith)
                            requires
                                char_digits_value(d.take(i - start + 1)) == v * 10 + digit,
                                v * 10 + digit > u64::MAX,
                                char_digits_value(d.take(i - start + 1)) <= char_digits_value(d),
                        ;
                    }
                    assert(spec_parse_u64(t) is None);
                }
                return None;
            },
        }
        i += 1;
    }
    assert(d.take(d.len() as int) =~= d);
    Some(v)
}

/// Parse a bucket width `<N>(ms|us|ns|s|m)`, surrounding white space
/// allowed, into nanoseconds (a width past `u64::MAX` seconds keeps its
/// seconds modulo 2^64). `None` on anything else.
pub fn parse_duration(s: &str) -> (r: Option<u128>)
    ensures
        r == spec_parse_duration(s@),
{
    let n = s.unicode_len();
    assert(s@.subrange(0, n as int) =~= s@);
    let (a, b) = trim_range(s, 0, n);
    let ghost t = s@.subrange(a as int, b as int);
    let len = b - a;
    let (end, mult): (usize, u128) = if len >= 2 && s.get_char(b - 2) == 'm' && s.get_char(b - 1) == 's' {
        (b - 2, 1_000_000)
    } else if len >= 2 && s.get_char(b - 2) == 'u' && s.get_char(b - 1) == 's' {
        (b - 2, 1_000)
    } else if len >= 2 && s.get_char(b - 2) == 'n' && s.get_char(b - 1) == 's' {
        (b - 2, 1)
    } else if len >= 1 && s.get_char(b - 1) == 's' {
        (b - 1, 1_000_000_000)
    } else if len >= 1 && s.get_char(b - 1) == 'm' {
        (b - 1, 60_000_000_000)
    } else {
        return None;
    };
    proof {
        if len >= 2 {
            assert(t[len - 2] == s@[b - 2]);
        }
        if len >= 1 {
            assert(t[len - 1] == s@[b - 1]);
        }
        let (num, m) = duration_unit(t).unwrap();
        assert(duration_unit(t) is Some);
        assert(num =~= s@.subrange(a as int, end as int));
        assert(m == mult);
    }
    let (na, nb) = trim_range(s, a, end);
    match parse_u64_chars(s, na, nb) {
        Some(v) => {
            assert(v * mult <= u64::MAX * 60_000_000_000) by (nonlinear_arith)
                requires
                    mult <= 60_000_000_000,
            ;
            let total = (v as u128) * mult;
            let secs = (total / 1_000_000_000) % 0x1_0000_0000_0000_0000u128;
            assert(secs * 1_000_000_000 < 0x1_0000_0000_0000_0000 * 1_000_000_000) by (nonlinear_arith)
                requires
                    secs < 0x1_0000_0000_0000_0000,
            ;
            Some(secs * 1_000_000_000 + total % 1_000_000_000)
        },
        None => None,
    }
}

/// The unit a bucket width is shown in: the largest of minutes, seconds,
/// milliseconds and microseconds that divides it, else nanoseconds.
pub open spec fn human_duration_spec(ns: u128) -> Seq<u8> {
    if ns % 60_000_000_000 == 0 {
        decimal((ns / 60_000_000_000) as nat) + str_bytes("m")
    } else if ns % 1_000_000_000 == 0 {
        decimal((ns / 1_000_000_000) as nat) + str_bytes("s")
    } else if ns % 1_000_000 == 0 {
        decimal((ns / 1_000_000) as nat) + str_bytes("ms")
    } else if ns % 1_000 == 0 {
        decimal((ns / 1_000) as nat) + str_bytes("us")
    } else {
        decimal(ns as nat) + str_bytes("ns")
    }
}

/// Append the decimal digits of a `u128`.
pub fn push_decimal_wide(out: &mut Vec<u8>, n: u128)
    ensures
        final(out)@ == old(out)@ + decimal(n as nat),
    decreases n,
{
    if n < 10 {
        out.push((48 + n) as u8);
        assert(decimal(n as nat) =~= seq![(48 + n) as u8]);
    } else {
        push_decimal_wide(out, n / 10);
        out.push((48 + n % 10) as u8);
        assert(old(out)@ + decimal(n as nat) =~= old(out)@ + decimal((n / 10) as nat) + seq![
            (48 + n % 10) as u8,
        ]);
    }
}

/// A bucket width of `ns` nanoseconds as text, in the unit of
/// [`human_duration_spec`].
pub fn human_duration(ns: u128) -> (r: Vec<u8>)
    ensures
        r@ == human_duration_spec(ns),
{
    let mut out: Vec<u8> = Vec::new();
    if ns % 60_000_000_000 == 0 {
        push_decimal_wide(&mut out, ns / 60_000_000_000);
        push_bytes(&mut out, "m".as_bytes());
    } else if ns % 1_000_000_000 == 0 {
        push_decimal_wide(&mut out, ns / 1_000_000_000);
        push_bytes(&mut out, "s".as_bytes());
    } else if ns % 1_000_000 == 0 {
        push_decimal_wide(&mut out, ns / 1_000_000);
        push_bytes(&mut out, "ms".as_bytes());
    } else if ns % 1_000 == 0 {
        push_decimal_wide(&mut out, ns / 1_000);
        push_bytes(&mut out, "us".as_bytes());
    } else {
        push_decimal_wide(&mut out, ns);
        push_bytes(&mut out, "ns".as_bytes());
    }
    assert(out@ =~= human_duration_spec(ns));
    out
}


/// The report line of a peak: its count right-aligned in 8 columns and its
/// start.
pub open spec fn peak_line(b: Bin) -> Seq<u8> {
    str_bytes("  ") + pad_left(decimal(b.count as nat), 8) + str_bytes("  ") + decimal(b.start_ns as nat) + str_bytes(
        "\n",
    )
}

/// The report lines of peaks, in order.
pub open spec fn peak_lines(bs: Seq<Bin>) -> Seq<u8>
    decreases bs.len(),
{
    if bs.len() == 0 {
        Seq::empty()
    } else {
        peak_lines(bs.drop_last()) + peak_line(bs.last())
    }
}

/// The head of a histogram report: message counts and bucket width.
pub open spec fn report_counts(h: Histogram, bucket_ns: u128) -> Seq<u8> {
    str_bytes("total messages: ") + decimal((count_sum(h.bins@, 0, h.bins@.len() as int) + h.dropped_no_time) as nat)
        + str_bytes("   binned: ") + decimal(count_sum(h.bins@, 0, h.bins@.len() as int) as nat) + str_bytes(
        "   no-time: ",
    ) + decimal(h.dropped_no_time as nat) + str_bytes("\nbucket: ") + human_duration_spec(bucket_ns) + str_bytes(
        "\n",
    )
}

/// The range line of a histogram with bins.
pub open spec fn range_line(h: Histogram) -> Seq<u8> {
    str_bytes("range:  ") + decimal(h.bins@[0].start_ns as nat) + str_bytes(" \u{2192} ") + decimal(
        h.bins@.last().end_ns as nat,
    ) + str_bytes("\n")
}

/// The `peaks` busiest bins of a histogram, busiest first.
pub open spec fn top_bins(h: Histogram, peaks: nat) -> Seq<Bin> {
    let ranked = ranked_bins(h.bins@, h.bins@.len() as int);
    ranked.take(if peaks < ranked.len() { peaks as int } else { ranked.len() as int })
}

/// The part of a report about the bins of a histogram that has some.
pub open spec fn report_bins(h: Histogram, width: nat, peaks: nat) -> Seq<u8> {
    range_line(h) + sparkline_bytes(h.bins@, width as int) + str_bytes("\n\ntop ") + decimal(peaks) + str_bytes(
        " peaks (count \u{b7} start_ns):\n",
    ) + peak_lines(top_bins(h, peaks))
}

/// The report of a histogram built with buckets of `bucket_ns`: its
/// counts, its bucket width, and, when it has bins, their time range, its
/// sparkline `width` columns wide and its `peaks` busiest bins.
pub open spec fn histogram_report(h: Histogram, bucket_ns: u128, width: nat, peaks: nat) -> Seq<u8> {
    report_counts(h, bucket_ns) + if h.bins@.len() == 0 {
        str_bytes("(no timestamped messages)\n")
    } else {
        report_bins(h, width, peaks)
    }
}

/// Append the head of a histogram report.
#[verifier::rlimit(40)]
fn write_report_counts(out: &mut Vec<u8>, h: &Histogram, bucket_ns: u128)
    requires
        count_sum(h.bins@, 0, h.bins@.len() as int) <= u32::MAX,
    ensures
        final(out)@ == old(out)@ + report_counts(*h, bucket_ns),
{
    let binned = h.total();
    push_bytes(out, "total messages: ".as_bytes());
    push_decimal(out, binned + h.dropped_no_time as u64);
    push_bytes(out, "   binned: ".as_bytes());
    push_decimal(out, binned);
    push_bytes(out, "   no-time: ".as_bytes());
    push_decimal(out, h.dropped_no_time as u64);
    push_bytes(out, "\nbucket: ".as_bytes());
    let d = human_duration(bucket_ns);
    push_bytes(out, d.as_slice());
    push_bytes(out, "\n".as_bytes());
    assert(out@ =~= old(out)@ + report_counts(*h, bucket_ns));
}

/// Append the report lines of peaks.
#[verifier::rlimit(40)]
fn write_peak_lines(out: &mut Vec<u8>, v: &Vec<&Bin>)
    ensures
        final(out)@ == old(out)@ + peak_lines(Seq::new(v@.len(), |i: int| *v@[i])),
{
    let ghost bs = Seq::new(v@.len(), |i: int| *v@[i]);
    let ghost h = out@;
    let mut i: usize = 0;
    while i < v.len()
        invariant
            i <= v@.len(),
            bs == Seq::new(v@.len(), |i: int| *v@[i]),
            out@ == h + peak_lines(bs.take(i as int)),
        decreases v@.len() - i,
    {
        let ghost before = out@;
        let b = v[i];
        push_bytes(out, "  ".as_bytes());
        let mut d: Vec<u8> = Vec::new();
        push_decimal(&mut d, b.count as u64);
        if d.len() < 8 {
            push_spaces(out, 8 - d.len());
        } else {
            push_spaces(out, 0);
        }
        push_bytes(out, d.as_slice());
        push_bytes(out, "  ".as_bytes());
        push_decimal_wide(out, b.start_ns);
        push_bytes(out, "\n".as_bytes());
        proof {
            assert(bs[i as int] == *b);
            assert(out@ =~= before + peak_line(bs[i as int]));
            assert(bs.take(i + 1).drop_last() =~= bs.take(i as int));
        }
        i += 1;
    }
    assert(bs.take(bs.len() as int) =~= bs);
}

/// Append the part of a report about the bins.
#[verifier::rlimit(40)]
fn write_report_bins(out: &mut Vec<u8>, h: &Histogram, width: usize, peaks: usize)
    requires
        h.bins@.len() > 0,
        count_sum(h.bins@, 0, h.bins@.len() as int) <= u32::MAX,
        width * (h.bins@.len() + 1) <= usize::MAX,
        width * 100 <= usize::MAX,
    ensures
        final(out)@ == old(out)@ + report_bins(*h, width as nat, peaks as nat),
{
    push_bytes(out, "range:  ".as_bytes());
    push_decimal_wide(out, h.bins[0].start_ns);
    push_bytes(out, " \u{2192} ".as_bytes());
    push_decimal_wide(out, h.bins[h.bins.len() - 1].end_ns);
    push_bytes(out, "\n".as_bytes());
    assert(out@ =~= old(out)@ + range_line(*h));
    let ghost p = out@;
    let spark = h.render_sparkline(width);
    push_bytes(out, spark.as_str().as_bytes());
    push_bytes(out, "\n\ntop ".as_bytes());
    push_decimal(out, peaks as u64);
    push_bytes(out, " peaks (count \u{b7} start_ns):\n".as_bytes());
    let top = h.peaks(peaks);
    let ghost q = out@;
    write_peak_lines(out, &top);
    assert(Seq::new(top@.len(), |i: int| *top@[i]) =~= top_bins(*h, peaks as nat));
    assert(out@ =~= old(out)@ + report_bins(*h, width as nat, peaks as nat));
}

/// The report of a histogram built with buckets of `bucket_ns` (see
/// [`histogram_report`]).
#[verifier::rlimit(40)]
pub fn write_histogram_report(out: &mut Vec<u8>, h: &Histogram, bucket_ns: u128, width: usize, peaks: usize)
    requires
        count_sum(h.bins@, 0, h.bins@.len() as int) <= u32::MAX,
        width * (h.bins@.len() + 1) <= usize::MAX,
        width * 100 <= usize::MAX,
    ensures
        final(out)@ == old(out)@ + histogram_report(*h, bucket_ns, width as nat, peaks as nat),
{
    write_report_counts(out, h, bucket_ns);
    if h.bins.len() == 0 {
        push_bytes(out, "(no timestamped messages)\n".as_bytes());
    } else {
        write_report_bins(out, h, width, peaks);
    }
    assert(out@ =~= old(out)@ + histogram_report(*h, bucket_ns, width as nat, peaks as nat));
}
} // verus!
