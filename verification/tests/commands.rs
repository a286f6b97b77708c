use fixlog::analysis::orders::OrderTimeline;
use fixlog::commands::grep::{follow_step, stream_matches, FollowStep, ParseFormat};
use fixlog::commands::input::{head, InputSource};
use fixlog::commands::orders::{collect_clordid_counts, top_clordids, write_timeline_json};
use fixlog::commands::rank::rank;
use fixlog::commands::sniff::{describe_boundary, describe_line_ending, describe_prefix, describe_separator, print_format};
use fixlog::commands::stats::Stats;
use fixlog::commands::text::{family_display, fmt_int, side_label, status_label, truncate};
use fixlog::format::{sniff, LinePrefix, LineEnding, MessageBoundary, Separator};
use fixlog::index::builder::build_from_bytes;
use fixlog::parser::{parse_all_with_format, parse_one};
use fixlog::query::parser::parse;

fn build_msg(body_fields: &str) -> Vec<u8> {
    let body_len = body_fields.len();
    let head = format!("8=FIX.4.4\x019={body_len}\x01");
    let payload: Vec<u8> = head.bytes().chain(body_fields.bytes()).collect();
    let sum: u8 = payload.iter().fold(0u8, |a, b| a.wrapping_add(*b));
    let trailer = format!("10={sum:03}\x01");
    payload.into_iter().chain(trailer.bytes()).collect()
}

fn order_log() -> Vec<u8> {
    let mut out = Vec::new();
    out.extend(build_msg("35=D\x0134=1\x0149=A\x0156=B\x0152=20260417-12:00:01\x0111=ABC\x01"));
    out.extend(build_msg("35=8\x0134=2\x0149=B\x0156=A\x0152=20260417-12:00:02\x0111=ABC\x0137=o1\x01150=0\x0139=0\x01"));
    out.extend(build_msg("35=D\x0134=3\x0149=A\x0156=B\x0152=20260417-12:00:03\x0111=XYZ\x01"));
    out.extend(build_msg("35=0\x0134=4\x0149=A\x0156=B\x0152=20260417-12:00:04\x01"));
    out
}

#[test]
fn stream_matches_counts_and_advances_consumed() {
    let buf = order_log();
    let fmt = sniff(&buf).unwrap();
    let expr = parse("35=D").unwrap();
    let mut out = Vec::new();
    let (matched, consumed) = stream_matches(&buf, 0, &expr, &fmt, ParseFormat::Json, &mut out);
    assert_eq!(matched, 2);
    assert_eq!(consumed, buf.len() as u64);
    assert_eq!(String::from_utf8(out).unwrap().lines().count(), 2);
}

#[test]
fn stream_matches_respects_from_offset() {
    let buf = order_log();
    let fmt = sniff(&buf).unwrap();
    let expr = parse("35=D").unwrap();
    let mut full = Vec::new();
    let (n, end) = stream_matches(&buf, 0, &expr, &fmt, ParseFormat::Pretty, &mut full);
    let mut empty = Vec::new();
    assert_eq!(stream_matches(&buf, end, &expr, &fmt, ParseFormat::Json, &mut empty), (0, end));
    assert!(empty.is_empty());
    assert!(n > 0);
    assert!(String::from_utf8(full).unwrap().starts_with("Message @ offset 0 ("));
}

#[test]
fn follow_steps() {
    assert_eq!(follow_step(10, 20, 30), FollowStep::Restart);
    assert_eq!(follow_step(40, 20, 30), FollowStep::Remap);
    assert_eq!(follow_step(30, 20, 30), FollowStep::Resume);
}

#[test]
fn clordid_counts_and_ranking() {
    let buf = order_log();
    let fmt = sniff(&buf).unwrap();
    let index = build_from_bytes(&buf, &fmt);
    let counts = collect_clordid_counts(&buf, &index, &fmt);
    let mut sorted: Vec<(Vec<u8>, u32)> = counts.clone();
    sorted.sort();
    assert_eq!(sorted, vec![(b"ABC".to_vec(), 2), (b"XYZ".to_vec(), 1)]);
    let top = top_clordids(&counts, 1);
    assert_eq!(top.len(), 1);
    assert_eq!(top[0].0, b"ABC");
    assert_eq!(top[0].2, 2);
}

#[test]
fn timeline_json_line() {
    let buf = order_log();
    let fmt = sniff(&buf).unwrap();
    let index = build_from_bytes(&buf, &fmt);
    let tl = OrderTimeline::build(&index, &buf, &fmt, b"ABC").unwrap();
    let mut out = Vec::new();
    write_timeline_json(&mut out, &tl);
    assert_eq!(
        String::from_utf8(out).unwrap(),
        "{\"clordid\":\"ABC\",\"order_ids\":[\"o1\"],\"events\":[{\"ordinal\":0,\"msg_type\":\"D\"},{\"ordinal\":1,\"msg_type\":\"8\",\"exec_type\":\"0\",\"ord_status\":\"0\"}]}\n"
    );
}

#[test]
fn stats_summary() {
    let buf = order_log();
    let fmt = sniff(&buf).unwrap();
    let mut stats = Stats::new();
    let mut p = parse_all_with_format(&buf, &fmt);
    while let Some(r) = p.next() {
        match r {
            Ok(m) => stats.record(&m),
            Err(_) => stats.record_error(),
        }
    }
    assert_eq!(stats.total, 4);
    assert_eq!(stats.errors, 0);
    assert_eq!(stats.min_time.as_deref(), Some(&b"20260417-12:00:01"[..]));
    assert_eq!(stats.max_time.as_deref(), Some(&b"20260417-12:00:04"[..]));
    assert_eq!(stats.last_begin_string.as_deref(), Some(&b"FIX.4.4"[..]));
    let sessions = stats.ranked_sessions();
    assert_eq!(sessions.len(), 2);
    assert_eq!((sessions[0].0.as_slice(), sessions[0].1.as_slice(), sessions[0].2), (&b"A"[..], &b"B"[..], 3));
    assert_eq!((sessions[1].0.as_slice(), sessions[1].1.as_slice(), sessions[1].2), (&b"B"[..], &b"A"[..], 1));
    let types = stats.top_msg_types();
    let t: Vec<(&[u8], u64)> = types.iter().map(|e| (e.0.as_slice(), e.2)).collect();
    assert_eq!(t, vec![(&b"D"[..], 2), (b"0", 1), (b"8", 1)]);
}

#[test]
fn stats_time_range_compares_bytes() {
    let mut stats = Stats::new();
    stats.update_time_range(b"20260101-00:00:02");
    stats.update_time_range(b"20250101-00:00:00");
    stats.update_time_range(b"20270101-00:00:00");
    assert_eq!(stats.min_time.as_deref(), Some(&b"20250101-00:00:00"[..]));
    assert_eq!(stats.max_time.as_deref(), Some(&b"20270101-00:00:00"[..]));
}

#[test]
fn stats_counts_every_msg_type_field() {
    let raw = build_msg("35=D\x0135=D\x0149=S\x01");
    let (m, _) = parse_one(&raw).unwrap();
    let mut stats = Stats::new();
    stats.record(&m);
    let types = stats.top_msg_types();
    assert_eq!(types[0].2, 2);
    assert!(stats.ranked_sessions().is_empty());
}

#[test]
fn ranking_orders_by_count_then_key() {
    let r = rank(vec![
        (b"b".to_vec(), Vec::new(), 1),
        (b"a".to_vec(), Vec::new(), 1),
        (b"z".to_vec(), Vec::new(), 5),
        (b"a".to_vec(), b"x".to_vec(), 1),
    ]);
    let keys: Vec<(&[u8], &[u8], u64)> = r.iter().map(|e| (e.0.as_slice(), e.1.as_slice(), e.2)).collect();
    assert_eq!(keys, vec![(&b"z"[..], &b""[..], 5), (b"a", b"", 1), (b"a", b"x", 1), (b"b", b"", 1)]);
}

#[test]
fn text_forms() {
    assert_eq!(fmt_int(0), b"0".to_vec());
    assert_eq!(fmt_int(999), b"999".to_vec());
    assert_eq!(fmt_int(1000), b"1,000".to_vec());
    assert_eq!(fmt_int(1234567), b"1,234,567".to_vec());
    assert_eq!(fmt_int(u64::MAX), b"18,446,744,073,709,551,615".to_vec());
    assert_eq!(side_label(b'1'), "BUY");
    assert_eq!(side_label(b'9'), "CROSSS");
    assert_eq!(side_label(b'x'), "?");
    assert_eq!(status_label(b"2"), b"FILLED".to_vec());
    assert_eq!(status_label(b"zz"), b"zz".to_vec());
    assert_eq!(truncate("short", 10), "short");
    assert_eq!(truncate("abcdefgh", 4), "abc\u{2026}");
    assert_eq!(truncate("h\u{e9}llo w\u{f6}rld", 5), "h\u{e9}ll\u{2026}");
    assert_eq!(truncate("abc", 0), "\u{2026}");
}

#[test]
fn family_display_sorts_members() {
    assert_eq!(family_display(b"ROOT", &vec![b"ROOT".to_vec()]), b"ROOT".to_vec());
    assert_eq!(family_display(b"ROOT", &vec![]), b"ROOT".to_vec());
    let fam = vec![b"GHI".to_vec(), b"DEF".to_vec(), b"ABC".to_vec()];
    assert_eq!(String::from_utf8(family_display(b"GHI", &fam)).unwrap(), "ABC\u{2192}DEF\u{2192}GHI");
}

#[test]
fn sniff_report_lines() {
    let fmt = sniff(b"8=FIX.4.4|9=12|35=A|10=001|\n").unwrap();
    assert_eq!(describe_separator(Separator::Soh), "SOH (0x01)");
    assert_eq!(describe_separator(Separator::Custom(3)), "custom");
    assert_eq!(describe_prefix(LinePrefix::Fixed(24)), b"fixed 24 bytes".to_vec());
    assert_eq!(describe_prefix(LinePrefix::NoPrefix), b"none".to_vec());
    assert_eq!(describe_line_ending(LineEnding::CrLf), "CRLF (\\r\\n)");
    assert_eq!(describe_boundary(MessageBoundary::Checksum), "checksum");
    let report = String::from_utf8(print_format(&fmt, b"a.log")).unwrap();
    assert_eq!(
        report,
        "File:           a.log\nSeparator:      | (0x7C)\nLine prefix:    none\nLine ending:    LF (\\n)\nEncoding:       UTF-8 / ASCII\nMsg boundary:   line\n"
    );
}

#[test]
fn from_arg_distinguishes_stdin_from_path() {
    assert!(matches!(InputSource::from_arg("-"), InputSource::Stdin));
    match InputSource::from_arg("a.log.gz") {
        InputSource::File(p) => assert_eq!(p, "a.log.gz"),
        InputSource::Stdin => panic!("a path is not stdin"),
    }
    assert!(matches!(InputSource::from_arg("--"), InputSource::File(_)));
}

#[test]
fn head_takes_a_prefix() {
    assert_eq!(head(b"abcdef", 3), b"abc");
    assert_eq!(head(b"ab", 3), b"ab");
    assert_eq!(head(b"", 0), b"");
}
