use fixlog::analysis::util::{parse_sending_time, parse_u32_ascii, sending_time_nanos, system_time_to_nanos, Timestamp};

#[test]
fn parse_u32_ascii_basics() {
    assert_eq!(parse_u32_ascii(b"0"), Some(0));
    assert_eq!(parse_u32_ascii(b"1"), Some(1));
    assert_eq!(parse_u32_ascii(b"12345"), Some(12345));
    assert_eq!(parse_u32_ascii(b""), None);
    assert_eq!(parse_u32_ascii(b"12a"), None);
    assert_eq!(parse_u32_ascii(b"4294967295"), Some(u32::MAX));
    assert_eq!(parse_u32_ascii(b"4294967296"), None);
}

#[test]
fn sending_time_second_precision() {
    let t = parse_sending_time(b"20260417-12:34:56").unwrap();
    let nanos = system_time_to_nanos(t).unwrap();
    // 2026-04-17 = 20560 days since 1970-01-01; 12:34:56 = 45296 seconds of day.
    let expected_secs: u64 = 20_560 * 86_400 + 45_296;
    assert_eq!(nanos, (expected_secs as u128) * 1_000_000_000);
}

#[test]
fn sending_time_ms_precision() {
    let t = parse_sending_time(b"20260417-12:34:56.123").unwrap();
    let nanos = system_time_to_nanos(t).unwrap();
    let base = parse_sending_time(b"20260417-12:34:56").unwrap();
    let base_nanos = system_time_to_nanos(base).unwrap();
    assert_eq!(nanos - base_nanos, 123_000_000);
}

#[test]
fn sending_time_ns_precision() {
    let t = parse_sending_time(b"20260417-12:34:56.123456789").unwrap();
    let base = parse_sending_time(b"20260417-12:34:56").unwrap();
    let d = t.duration_since(base).unwrap();
    assert_eq!(d.as_nanos(), 123_456_789);
}

#[test]
fn sending_time_rejects_malformed() {
    assert!(parse_sending_time(b"too-short").is_none());
    assert!(parse_sending_time(b"20260417T12:34:56").is_none());
    assert!(parse_sending_time(b"20260417-12:34:56.").is_none());
    assert!(parse_sending_time(b"20260217-12:34:56.1234567890").is_none());
}

#[test]
fn sending_time_nanos_of_epoch_and_leap_day() {
    assert_eq!(sending_time_nanos(b"19700101-00:00:00"), Some(0));
    // 2024-02-29 is day 19782 since the epoch.
    assert_eq!(sending_time_nanos(b"20240229-00:00:01.5"), Some((19_782u128 * 86_400 + 1) * 1_000_000_000 + 500_000_000));
    // Day numbers are only range-checked (1..=31): Feb 29 of a common year rolls over to Mar 1.
    assert_eq!(sending_time_nanos(b"20230229-00:00:00"), sending_time_nanos(b"20230301-00:00:00"));
    assert_eq!(sending_time_nanos(b"20230301-00:00:00"), Some(1_677_628_800_000_000_000));
    assert_eq!(sending_time_nanos(b"20230132-00:00:00"), None);
}

#[test]
fn sending_time_parts_of_the_instant() {
    let t = parse_sending_time(b"19700102-00:00:01.5").unwrap();
    assert_eq!(t, Timestamp { secs: 86_401, nanos: 500_000_000 });
    assert_eq!(system_time_to_nanos(t), Some(86_401_500_000_000));
    let earlier = parse_sending_time(b"19700101-00:00:00").unwrap();
    assert_eq!(t.duration_since(earlier).unwrap().as_nanos(), 86_401_500_000_000);
    assert!(earlier.duration_since(t).is_none());
}
