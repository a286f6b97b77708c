use std::time::Duration;

use fixlog::commands::histogram::{human_duration, parse_duration};

#[test]
fn parses_common_durations() {
    assert_eq!(parse_duration("1s"), Some(Duration::from_secs(1).as_nanos()));
    assert_eq!(parse_duration("500ms"), Some(Duration::from_millis(500).as_nanos()));
    assert_eq!(parse_duration("2m"), Some(Duration::from_secs(120).as_nanos()));
    assert_eq!(parse_duration("100us"), Some(Duration::from_micros(100).as_nanos()));
    assert_eq!(parse_duration("  1s  "), Some(Duration::from_secs(1).as_nanos()));
}

#[test]
fn rejects_bad_input() {
    assert!(parse_duration("nope").is_none());
    assert!(parse_duration("1").is_none());
    assert!(parse_duration("").is_none());
}

#[test]
fn parse_duration_edge_forms() {
    assert_eq!(parse_duration("7ns"), Some(7));
    assert_eq!(parse_duration("+3s"), Some(3_000_000_000));
    assert_eq!(parse_duration(" 4 ms"), Some(4_000_000));
    assert_eq!(parse_duration("\u{3000}5s"), Some(5_000_000_000));
    assert!(parse_duration("-3s").is_none());
    assert!(parse_duration("ms").is_none());
    assert!(parse_duration("18446744073709551616ns").is_none());
    // Whole seconds are kept in a u64, modulo 2^64.
    assert_eq!(parse_duration("18446744073709551615m"), Some(18446744073709551556_000_000_000));
    assert_eq!(parse_duration("307445734561825861m"), Some(44_000_000_000));
    assert_eq!(parse_duration("307445734561825860m"), Some(18446744073709551600_000_000_000));
}

#[test]
fn human_duration_picks_largest_unit() {
    assert_eq!(human_duration(120_000_000_000), b"2m".to_vec());
    assert_eq!(human_duration(1_000_000_000), b"1s".to_vec());
    assert_eq!(human_duration(500_000_000), b"500ms".to_vec());
    assert_eq!(human_duration(100_000), b"100us".to_vec());
    assert_eq!(human_duration(7), b"7ns".to_vec());
    assert_eq!(human_duration(0), b"0m".to_vec());
}
