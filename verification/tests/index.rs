use fixlog::format::sniff;
use fixlog::index::builder::{build_from_bytes, build_from_bytes_with_hot_tags};
use fixlog::index::hot_tags::{HotTags, TAG_CL_ORD_ID};
use fixlog::index::parallel::{chunk_ranges, scan_chunk, stitch};
use fixlog::index::secondary::SecondaryIndex;
use fixlog::index::{IndexError, LogIndex};
use fixlog::parser::{compute_checksum, parse_all_with_format, parse_one, TAG_MSG_TYPE, TAG_SENDER_COMP_ID, TAG_TARGET_COMP_ID};

fn make_msg(msg_type: &str, extra: &[u8]) -> Vec<u8> {
    let mut body = format!("35={msg_type}\x0149=S\x0156=T\x01").into_bytes();
    body.extend_from_slice(extra);
    let prefix = format!("8=FIX.4.4\x019={}\x01", body.len());
    let mut msg: Vec<u8> = prefix.into_bytes();
    msg.extend_from_slice(&body);
    let cs = compute_checksum(&msg);
    msg.extend_from_slice(format!("10={cs:03}\x01").as_bytes());
    msg
}

/// A small log: Logon, two orders, an execution report, a heartbeat, one
/// corrupt block and a logout, one per line.
fn small_log() -> Vec<u8> {
    let mut buf = Vec::new();
    for (mt, extra) in [
        ("A", &b""[..]),
        ("D", b"11=ORD1\x01"),
        ("D", b"11=ORD2\x01"),
        ("8", b"11=ORD1\x0137=X1\x01"),
        ("0", b""),
    ] {
        buf.extend_from_slice(&make_msg(mt, extra));
        buf.push(b'\n');
    }
    buf.extend_from_slice(b"8=FIX.4.4\x019=999\x0135=A\x0110=000\x01\n");
    buf.extend_from_slice(&make_msg("5", b""));
    buf.push(b'\n');
    buf
}

fn parser_count(buf: &[u8]) -> usize {
    let fmt = sniff(buf).unwrap();
    let mut p = parse_all_with_format(buf, &fmt);
    let mut n = 0;
    while let Some(r) = p.next() {
        if r.is_ok() {
            n += 1;
        }
    }
    n
}

#[test]
fn default_set_includes_msg_type_and_compids() {
    let tags = HotTags::default_set();
    assert!(tags.contains(TAG_MSG_TYPE));
    assert!(tags.contains(TAG_SENDER_COMP_ID));
    assert!(tags.contains(TAG_TARGET_COMP_ID));
}

#[test]
fn empty_set_skips_recording() {
    let bytes = make_msg("D", b"");
    let (msg, _) = parse_one(&bytes).unwrap();
    let mut idx = SecondaryIndex::with_tags(HotTags::empty());
    idx.record(&msg, 0);
    assert_eq!(idx.key_count(), 0);
}

#[test]
fn lookup_returns_ordinals_for_hot_tag() {
    let bytes = make_msg("D", b"");
    let (msg, _) = parse_one(&bytes).unwrap();
    let mut idx = SecondaryIndex::with_tags(HotTags::default_set());
    idx.record(&msg, 7);
    assert_eq!(idx.lookup(TAG_MSG_TYPE, b"D"), &[7]);
    assert_eq!(idx.lookup(TAG_SENDER_COMP_ID, b"S"), &[7]);
    assert_eq!(idx.lookup(TAG_MSG_TYPE, b"A"), &[] as &[u32]);
}

#[test]
fn ordinals_are_appended_monotonically_across_messages() {
    let m1 = make_msg("D", b"");
    let m2 = make_msg("D", b"");
    let m3 = make_msg("8", b"");
    let mut idx = SecondaryIndex::with_tags(HotTags::default_set());
    idx.record(&parse_one(&m1).unwrap().0, 0);
    idx.record(&parse_one(&m2).unwrap().0, 1);
    idx.record(&parse_one(&m3).unwrap().0, 2);
    assert_eq!(idx.lookup(TAG_MSG_TYPE, b"D"), &[0, 1]);
    assert_eq!(idx.lookup(TAG_MSG_TYPE, b"8"), &[2]);
}

#[test]
fn repeating_same_value_within_a_message_records_once() {
    let bytes = make_msg("D", b"11=ORD1\x0111=ORD1\x01");
    let (msg, _) = parse_one(&bytes).unwrap();
    let mut idx = SecondaryIndex::with_tags(HotTags::default_set());
    idx.record(&msg, 5);
    assert_eq!(idx.lookup(TAG_CL_ORD_ID, b"ORD1"), &[5]);
}

#[test]
fn non_hot_tags_are_ignored() {
    let bytes = make_msg("D", b"55=AAPL\x01");
    let (msg, _) = parse_one(&bytes).unwrap();
    let mut idx = SecondaryIndex::with_tags(HotTags::default_set());
    idx.record(&msg, 0);
    assert_eq!(idx.lookup(55, b"AAPL"), &[] as &[u32]);
}

#[test]
fn with_adds_and_deduplicates_tags() {
    let tags = HotTags::empty().with(55).with(55).with(1128);
    assert_eq!(tags.len(), 2);
    assert!(tags.contains(55));
    assert!(tags.contains(1128));
}

#[test]
fn build_matches_parser_count_for_small_log() {
    let buf = small_log();
    let fmt = sniff(&buf).unwrap();
    let index = build_from_bytes(&buf, &fmt);
    assert_eq!(index.len(), parser_count(&buf));
    assert_eq!(index.len(), 6);
    assert!(!index.is_empty());
    assert_eq!(index.consumed, index.messages.last().unwrap().end());
}

#[test]
fn offsets_are_monotonic_and_in_bounds_on_small_log() {
    let buf = small_log();
    let fmt = sniff(&buf).unwrap();
    let index = build_from_bytes(&buf, &fmt);
    let mut last = 0u64;
    for off in &index.messages {
        assert!(off.start >= last);
        assert!(off.end() <= buf.len() as u64);
        last = off.end();
    }
}

#[test]
fn message_bytes_round_trips_through_parser_on_small_log() {
    let buf = small_log();
    let fmt = sniff(&buf).unwrap();
    let index = build_from_bytes(&buf, &fmt);
    for i in 0..index.len() {
        let slice = index.message_bytes(&buf, i).expect("in range");
        assert!(slice.starts_with(b"8=FIX"));
        assert_eq!(parser_count(slice), 1);
    }
    assert!(index.message_bytes(&buf, index.len()).is_none());
}

#[test]
fn append_from_offset_rejects_non_contiguous_from_on_small_log() {
    let buf = small_log();
    let fmt = sniff(&buf).unwrap();
    let mut index = build_from_bytes(&buf, &fmt);
    let err = index.append_from_offset(&buf, index.consumed + 1, &fmt).unwrap_err();
    assert_eq!(err, IndexError::NonContiguousAppend { consumed: index.consumed, from: index.consumed + 1 });
}

#[test]
fn append_from_offset_rejects_shrunken_buffer_on_small_log() {
    let buf = small_log();
    let fmt = sniff(&buf).unwrap();
    let mut index = build_from_bytes(&buf, &fmt);
    let consumed = index.consumed;
    let shorter = &buf[..(consumed as usize / 2)];
    let err = index.append_from_offset(shorter, consumed, &fmt).unwrap_err();
    assert_eq!(err, IndexError::BufferShrank { consumed, buf_len: shorter.len() as u64 });
}

#[test]
fn append_from_offset_produces_same_index_as_single_build_on_small_log() {
    let buf = small_log();
    let fmt = sniff(&buf).unwrap();
    let full = build_from_bytes(&buf, &fmt);
    let split = full.messages[2].start as usize + 5;
    let prefix = &buf[..split];
    let mut incremental = build_from_bytes(prefix, &fmt);
    assert!(incremental.consumed < split as u64);
    let appended = incremental.append_from_offset(&buf, incremental.consumed, &fmt).unwrap();
    assert_eq!(incremental.messages, full.messages);
    assert_eq!(incremental.consumed, full.consumed);
    assert_eq!(appended, full.len() - parser_count(prefix));
    for tag in [TAG_MSG_TYPE, TAG_SENDER_COMP_ID, TAG_TARGET_COMP_ID, TAG_CL_ORD_ID] {
        for value in [&b"D"[..], b"A", b"8", b"S", b"T", b"ORD1", b"ORD2"] {
            assert_eq!(incremental.secondary.lookup(tag, value), full.secondary.lookup(tag, value));
        }
    }
}

#[test]
fn secondary_ordinals_match_primary_scan_on_small_log() {
    let buf = small_log();
    let fmt = sniff(&buf).unwrap();
    let index = build_from_bytes(&buf, &fmt);
    assert_eq!(index.secondary.lookup(TAG_MSG_TYPE, b"D"), &[1, 2]);
    assert_eq!(index.secondary.lookup(TAG_CL_ORD_ID, b"ORD1"), &[1, 3]);
    assert_eq!(index.secondary.lookup(TAG_SENDER_COMP_ID, b"S"), &[0, 1, 2, 3, 4, 5]);
}

#[test]
fn secondary_index_disabled_when_tags_empty_on_small_log() {
    let buf = small_log();
    let fmt = sniff(&buf).unwrap();
    let index = build_from_bytes_with_hot_tags(&buf, &fmt, HotTags::empty());
    assert_eq!(index.secondary.key_count(), 0);
    assert!(!index.is_empty());
}

#[test]
fn empty_index_is_empty() {
    let index = LogIndex::new();
    assert_eq!(index.len(), 0);
    assert!(index.is_empty());
    assert_eq!(index.consumed, 0);
}

#[test]
fn chunk_ranges_cover_buffer_exactly() {
    let ranges = chunk_ranges(10_000_000, 4);
    assert!(!ranges.is_empty());
    assert_eq!(ranges[0].0, 0);
    assert_eq!(ranges.last().unwrap().1, 10_000_000);
    for w in ranges.windows(2) {
        assert_eq!(w[0].1, w[1].0, "ranges must be contiguous");
    }
    assert!(chunk_ranges(0, 4).is_empty());
}

#[test]
fn chunked_scan_matches_single_build_on_small_log() {
    let buf = small_log();
    let fmt = sniff(&buf).unwrap();
    let single = build_from_bytes(&buf, &fmt);
    let mid = single.messages[3].start as usize;
    let parts = vec![
        scan_chunk(&buf, 0, mid, &fmt, HotTags::default_set()),
        scan_chunk(&buf, mid, buf.len(), &fmt, HotTags::default_set()),
    ];
    let stitched = stitch(parts, HotTags::default_set());
    assert_eq!(stitched.messages, single.messages);
    assert_eq!(stitched.consumed, single.consumed);
    assert_eq!(stitched.secondary.lookup(TAG_MSG_TYPE, b"D"), single.secondary.lookup(TAG_MSG_TYPE, b"D"));
    assert_eq!(stitched.secondary.key_count(), single.secondary.key_count());
}

#[test]
fn chunk_boundary_inside_a_message_still_matches() {
    let buf = small_log();
    let fmt = sniff(&buf).unwrap();
    let single = build_from_bytes(&buf, &fmt);
    let mid = single.messages[3].start as usize + 5;
    let parts = vec![
        scan_chunk(&buf, 0, mid, &fmt, HotTags::default_set()),
        scan_chunk(&buf, mid, buf.len(), &fmt, HotTags::default_set()),
    ];
    let stitched = stitch(parts, HotTags::default_set());
    assert_eq!(stitched.messages, single.messages);
    assert_eq!(stitched.consumed, single.consumed);
    assert_eq!(stitched.secondary.key_count(), single.secondary.key_count());
}
