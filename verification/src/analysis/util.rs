//! Small helpers shared across analysis modules: ASCII integers and FIX
//! `SendingTime` (tag 52) timestamps.
use vstd::prelude::*;


use crate::parser::{parse_uint, spec_parse_uint, digits_value, all_digits};
pub use crate::parser::find_tag;

verus! {

/// Parse an ASCII u32 without allocating. `None` on empty input, a non-digit
/// byte, or overflow.
pub fn parse_u32_ascii(bytes: &[u8]) -> (r: Option<u32>)
    ensures
        r == spec_parse_uint(bytes@),
{
    parse_uint(bytes)
}

/// Days since 1970-01-01 of a proleptic Gregorian date, by the civil-to-days
/// formula (March-based years grouped in 400-year eras). `None` for a month
/// outside 1..=12, a day outside 1..=31, or a date before 1970. A day past
/// the end of its month counts on into the next month.
pub open spec fn spec_days_from_civil(y: int, m: int, d: int) -> Option<int> {
    if !(1 <= m <= 12) || !(1 <= d <= 31) {
        None
    } else {
        let y2 = if m <= 2 { y - 1 } else { y };
        let era = if y2 >= 0 { y2 / 400 } else { (y2 - 399) / 400 };
        let yoe = y2 - era * 400;
        let mp = if m > 2 { m - 3 } else { m + 9 };
        let doy = (153 * mp + 2) / 5 + d - 1;
        let doe = yoe * 365 + yoe / 4 - yoe / 100 + doy;
        let days = era * 146097 + doe - 719468;
        if days < 0 {
            None
        } else {
            Some(days)
        }
    }
}

/// Days since 1970-01-01 for a proleptic Gregorian calendar date.
fn days_from_civil(y: i32, m: u32, d: u32) -> (r: Option<u64>)
    requires
        0 <= y,
    ensures
        match spec_days_from_civil(y as int, m as int, d as int) {
            Some(days) => r == Some(days as u64),
            None => r is None,
        },
{
    if !(1 <= m && m <= 12) || !(1 <= d && d <= 31) {
        return None;
    }
    let y = if m <= 2 { y - 1 } else { y };
    let era = if y >= 0 { y } else { y - 399 } / 400;
    assert(era == (if y >= 0 { y / 400 } else { (y - 399) / 400 }));
    assert(0 <= y - era * 400 < 400) by (nonlinear_arith)
        requires
            era == (if y >= 0 { y / 400 } else { (y - 399) / 400 }),
            y >= -1,
    ;
    let yoe = (y - era * 400) as u32;
    let doy = (153 * (if m > 2 { m - 3 } else { m + 9 }) + 2) / 5 + d - 1;
    let doe = yoe * 365 + yoe / 4 - yoe / 100 + doy;
    assert(era <= 6000000) by (nonlinear_arith)
        requires
            era == (if y >= 0 { y / 400 } else { (y - 399) / 400 }),
            y >= -1,
    ;
    let days = (era as i64) * 146_097 + doe as i64 - 719_468;
    if days < 0 {
        None
    } else {
        Some(days as u64)
    }
}

/// Ten to the power `n`.
pub open spec fn pow10(n: nat) -> nat
    decreases n,
{
    if n == 0 {
        1
    } else {
        10 * pow10((n - 1) as nat)
    }
}

/// A run of `k` digits is worth less than `10^k`.
pub proof fn lemma_digits_below_pow10(s: Seq<u8>)
    requires
        all_digits(s),
    ensures
        digits_value(s) < pow10(s.len()),
    decreases s.len(),
{
    if s.len() > 0 {
        let d = s.drop_last();
        assert(all_digits(d)) by {
            assert forall|i: int| 0 <= i < d.len() implies #[trigger] crate::bytes::is_digit(d[i]) by {
                assert(crate::bytes::is_digit(s[i]));
            }
        }
        lemma_digits_below_pow10(d);
        assert(crate::bytes::is_digit(s[s.len() - 1]));
    }
}

/// Nanoseconds denoted by the fractional digits of a timestamp (one to nine
/// digits, missing trailing digits read as zeros).
pub open spec fn spec_frac_nanos(frac: Seq<u8>) -> Option<int> {
    if frac.len() == 0 || frac.len() > 9 {
        None
    } else {
        match spec_parse_uint(frac) {
            None => None,
            Some(n) => Some(n * pow10((9 - frac.len()) as nat)),
        }
    }
}

/// Whole seconds and nanoseconds since the Unix epoch of a FIX
/// `SendingTime`: `YYYYMMDD-HH:MM:SS` with an optional `.` and one to nine
/// fractional digits. `None` on any malformed input or a date before 1970.
pub open spec fn spec_sending_time(s: Seq<u8>) -> Option<(int, int)> {
    if s.len() < 17 || s[8] != 45u8 || s[11] != 58u8 || s[14] != 58u8 {
        None
    } else {
        match (
            spec_parse_uint(s.subrange(0, 4)),
            spec_parse_uint(s.subrange(4, 6)),
            spec_parse_uint(s.subrange(6, 8)),
            spec_parse_uint(s.subrange(9, 11)),
            spec_parse_uint(s.subrange(12, 14)),
            spec_parse_uint(s.subrange(15, 17)),
        ) {
            (Some(y), Some(mo), Some(d), Some(h), Some(mi), Some(se)) => {
                let nanos = if s.len() > 17 {
                    if s[17] != 46u8 {
                        None
                    } else {
                        spec_frac_nanos(s.subrange(18, s.len() as int))
                    }
                } else {
                    Some(0int)
                };
                match nanos {
                    None => None,
                    Some(ns) => match spec_days_from_civil(y as int, mo as int, d as int) {
                        None => None,
                        Some(days) => {
                            let total = days * 86400 + h * 3600 + mi * 60 + se;
                            if total > u64::MAX {
                                None
                            } else {
                                Some((total, ns))
                            }
                        },
                    },
                }
            },
            _ => None,
        }
    }
}

/// Nanoseconds since the Unix epoch of a FIX `SendingTime`.
pub open spec fn spec_sending_time_nanos(s: Seq<u8>) -> Option<int> {
    match spec_sending_time(s) {
        Some((secs, ns)) => Some(secs * 1_000_000_000 + ns),
        None => None,
    }
}

/// Whole seconds and nanoseconds since the Unix epoch of a FIX
/// `SendingTime` value (see [`spec_sending_time`]).
pub fn sending_time_parts(bytes: &[u8]) -> (r: Option<(u64, u32)>)
    ensures
        match spec_sending_time(bytes@) {
            Some((secs, ns)) => r == Some((secs as u64, ns as u32)) && ns < 1_000_000_000,
            None => r is None,
        },
{
    if bytes.len() < 17 {
        return None;
    }
    if bytes[8] != 45u8 || bytes[11] != 58u8 || bytes[14] != 58u8 {
        return None;
    }
    let year = match parse_u32_ascii(&bytes[0..4]) {
        Some(v) => v,
        None => return None,
    };
    let month = match parse_u32_ascii(&bytes[4..6]) {
        Some(v) => v,
        None => return None,
    };
    let day = match parse_u32_ascii(&bytes[6..8]) {
        Some(v) => v,
        None => return None,
    };
    let hour = match parse_u32_ascii(&bytes[9..11]) {
        Some(v) => v,
        None => return None,
    };
    let minute = match parse_u32_ascii(&bytes[12..14]) {
        Some(v) => v,
        None => return None,
    };
    let second = match parse_u32_ascii(&bytes[15..17]) {
        Some(v) => v,
        None => return None,
    };
    proof {
        lemma_digits_below_pow10(bytes@.subrange(0, 4));
        lemma_digits_below_pow10(bytes@.subrange(9, 11));
        lemma_digits_below_pow10(bytes@.subrange(12, 14));
        lemma_digits_below_pow10(bytes@.subrange(15, 17));
        reveal_with_fuel(pow10, 5);
        assert(pow10(4) == 10000);
        assert(pow10(2) == 100);
    }
    let nanos: u64 = if bytes.len() > 17 {
        if bytes[17] != 46u8 {
            return None;
        }
        let frac = &bytes[18..bytes.len()];
        if frac.len() == 0 || frac.len() > 9 {
            return None;
        }
        let mut n: u64 = match parse_u32_ascii(frac) {
            Some(v) => v as u64,
            None => return None,
        };
        proof {
            lemma_digits_below_pow10(frac@);
            assert(pow10(0nat) == 1);
            assert((frac@.len() - frac@.len()) as nat == 0nat);
        }
        let mut k: usize = frac.len();
        while k < 9
            invariant
                frac@.len() <= k <= 9,
                1 <= frac@.len() <= 9,
                spec_parse_uint(frac@) is Some,
                n == spec_parse_uint(frac@).unwrap() * pow10((k - frac@.len()) as nat),
                n < pow10(k as nat),
            decreases 9 - k,
        {
            proof {
                lemma_pow10_nine();
                lemma_pow10_mono(k as nat, 9);
                assert(pow10((k + 1 - frac@.len()) as nat) == 10 * pow10((k - frac@.len()) as nat));
                assert(pow10((k + 1) as nat) == 10 * pow10(k as nat));
                let v = spec_parse_uint(frac@).unwrap() as int;
                assert(v * (10 * pow10((k - frac@.len()) as nat)) == 10 * (v * pow10((k - frac@.len()) as nat))) by (nonlinear_arith);
            }
            n = n * 10;
            k += 1;
        }
        proof {
            lemma_pow10_nine();
        }
        n
    } else {
        0
    };
    let days = match days_from_civil(year as i32, month, day) {
        Some(v) => v,
        None => return None,
    };
    let secs_of_day = (hour as u64) * 3600 + (minute as u64) * 60 + (second as u64);
    let total_secs = match days.checked_mul(86_400) {
        Some(v) => match v.checked_add(secs_of_day) {
            Some(t) => t,
            None => return None,
        },
        None => return None,
    };
    Some((total_secs, nanos as u32))
}

proof fn lemma_pow10_nine()
    ensures
        pow10(9) == 1_000_000_000,
{
    reveal_with_fuel(pow10, 10);
}

proof fn lemma_pow10_mono(a: nat, b: nat)
    requires
        a <= b,
    ensures
        pow10(a) <= pow10(b),
    decreases b - a,
{
    if a < b {
        lemma_pow10_mono(a, (b - 1) as nat);
    }
}

/// An upper bound on any timestamp this module produces: `u64::MAX + 1`
/// seconds, in nanoseconds.
pub const MAX_TIME_NANOS: u128 = 18446744073709551616000000000u128;

/// Nanoseconds since the Unix epoch of a FIX `SendingTime` value.
pub fn sending_time_nanos(bytes: &[u8]) -> (r: Option<u128>)
    ensures
        match spec_sending_time_nanos(bytes@) {
            Some(n) => r == Some(n as u128),
            None => r is None,
        },
        spec_sending_time_nanos(bytes@) matches Some(n) ==> 0 <= n < MAX_TIME_NANOS,
{
    match sending_time_parts(bytes) {
        Some((secs, ns)) => Some((secs as u128) * 1_000_000_000 + ns as u128),
        None => None,
    }
}

/// An instant, as whole seconds and nanoseconds after the Unix epoch.
#[derive(Debug, Clone, Copy, PartialEq, Eq)]
pub struct Timestamp {
    pub secs: u64,
    pub nanos: u32,
}

/// A span of time, in nanoseconds.
#[derive(Debug, Clone, Copy, PartialEq, Eq)]
pub struct Elapsed {
    pub nanos: u128,
}

impl Elapsed {
    /// The whole span in nanoseconds.
    pub fn as_nanos(&self) -> (n: u128)
        ensures
            n == self.nanos,
    {
        self.nanos
    }
}

/// Nanoseconds since the Unix epoch of an instant.
pub open spec fn timestamp_nanos(t: Timestamp) -> int {
    t.secs * 1_000_000_000 + t.nanos
}

impl Timestamp {
    /// The span from `earlier` to `self`; `None` when `earlier` is later.
    pub fn duration_since(&self, earlier: Timestamp) -> (r: Option<Elapsed>)
        ensures
            timestamp_nanos(earlier) <= timestamp_nanos(*self) ==> r == Some(
                Elapsed { nanos: (timestamp_nanos(*self) - timestamp_nanos(earlier)) as u128 },
            ),
            timestamp_nanos(earlier) > timestamp_nanos(*self) ==> r is None,
    {
        let a = system_time_to_nanos(*self).unwrap();
        let b = system_time_to_nanos(earlier).unwrap();
        if b <= a {
            Some(Elapsed { nanos: a - b })
        } else {
            None
        }
    }
}

/// Parse a FIX `SendingTime` (tag 52) value into the instant it names.
///
/// Accepted formats: `YYYYMMDD-HH:MM:SS` followed optionally by `.` and one
/// to nine fractional digits (missing digits read as zeros). `None` on any
/// parse failure; callers treat a missing timestamp as unknown.
pub fn parse_sending_time(bytes: &[u8]) -> (r: Option<Timestamp>)
    ensures
        match spec_sending_time(bytes@) {
            Some((secs, ns)) => r == Some(Timestamp { secs: secs as u64, nanos: ns as u32 })
                && ns < 1_000_000_000,
            None => r is None,
        },
{
    match sending_time_parts(bytes) {
        Some((secs, nanos)) => Some(Timestamp { secs, nanos }),
        None => None,
    }
}

/// Nanoseconds since the Unix epoch of an instant. A [`Timestamp`] never
/// lies before the epoch, so this is always `Some`.
pub fn system_time_to_nanos(t: Timestamp) -> (r: Option<u128>)
    ensures
        r == Some(timestamp_nanos(t) as u128),
        0 <= timestamp_nanos(t) <= u128::MAX,
{
    assert(t.secs * 1_000_000_000 <= u64::MAX * 1_000_000_000) by (nonlinear_arith);
    Some((t.secs as u128) * 1_000_000_000 + t.nanos as u128)
}

} // verus!
