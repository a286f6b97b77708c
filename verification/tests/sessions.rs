use fixlog::analysis::sessions::{SeqGap, SessionKey, SessionMap};
use fixlog::commands::sessions::{format_msg_types, ranked_session_keys, write_session_json};
use fixlog::format::sniff;
use fixlog::index::builder::build_from_bytes;

fn build_msg(body_fields: &str) -> Vec<u8> {
    let body_len = body_fields.len();
    let head = format!("8=FIX.4.4\x019={body_len}\x01");
    let payload: Vec<u8> = head.bytes().chain(body_fields.bytes()).collect();
    let sum: u8 = payload.iter().fold(0u8, |a, b| a.wrapping_add(*b));
    let trailer = format!("10={sum:03}\x01");
    payload.into_iter().chain(trailer.bytes()).collect()
}

/// Two directions of one session (KALDMA1TRI ↔ BVLORSG), a second session,
/// and a message without a TargetCompID.
fn session_log() -> Vec<u8> {
    let mut out = Vec::new();
    for (mt, seq, s, t) in [
        ("A", 1, "KALDMA1TRI", "BVLORSG"),
        ("A", 1, "BVLORSG", "KALDMA1TRI"),
        ("D", 2, "KALDMA1TRI", "BVLORSG"),
        ("8", 2, "BVLORSG", "KALDMA1TRI"),
        ("D", 5, "KALDMA1TRI", "BVLORSG"),
        ("8", 3, "BVLORSG", "KALDMA1TRI"),
        ("0", 1, "X", "Y"),
    ] {
        out.extend(build_msg(&format!("35={mt}\x0134={seq}\x0149={s}\x0156={t}\x01")));
    }
    out.extend(build_msg("35=0\x0134=9\x0149=LONELY\x01"));
    out
}

#[test]
fn canonical_key_orders_the_pair() {
    let k = SessionKey::canonical(b"KALDMA1TRI", b"BVLORSG");
    assert_eq!(k.sender, b"BVLORSG");
    assert_eq!(k.target, b"KALDMA1TRI");
    assert_eq!(SessionKey::canonical(b"BVLORSG", b"KALDMA1TRI"), k);
    assert_eq!(SessionKey::canonical(b"SENDER", b"TARGET").sender, b"SENDER");
}

#[test]
fn sessions_build_over_small_log() {
    let buf = session_log();
    let fmt = sniff(&buf).unwrap();
    let index = build_from_bytes(&buf, &fmt);
    let map = SessionMap::build(&index, &buf, &fmt);
    assert_eq!(map.by_key.len(), 2);
    let (key, stats) = &map.by_key[0];
    assert_eq!(key, &SessionKey::canonical(b"KALDMA1TRI", b"BVLORSG"));
    // Outbound: sent by the canonical sender, BVLORSG.
    assert_eq!(stats.out_count, 3);
    assert_eq!(stats.in_count, 3);
    assert_eq!(stats.ordinals, vec![0, 1, 2, 3, 4, 5]);
    assert_eq!(stats.seq_min, Some(1));
    assert_eq!(stats.seq_max, Some(5));
    assert_eq!(stats.gaps, vec![SeqGap { from_seq: 2, to_seq: 5, ordinal_before: 2, ordinal_after: 4 }]);
    let counts: Vec<(&[u8], u32)> = stats.by_msg_type.iter().map(|(t, c)| (t.as_slice(), *c)).collect();
    assert_eq!(counts, vec![(&b"A"[..], 2), (b"D", 2), (b"8", 2)]);
    assert_eq!(map.by_ordinal.len(), 8);
    assert_eq!(map.by_ordinal[6], Some(SessionKey::canonical(b"X", b"Y")));
    assert_eq!(map.by_ordinal[7], None);
}

#[test]
fn append_from_continues_a_map() {
    let buf = session_log();
    let fmt = sniff(&buf).unwrap();
    let index = build_from_bytes(&buf, &fmt);
    let whole = SessionMap::build(&index, &buf, &fmt);
    let mut map = SessionMap::new();
    map.append_from(&index, &buf, &fmt, 0);
    assert_eq!(map.by_key.len(), whole.by_key.len());
    assert_eq!(map.by_ordinal, whole.by_ordinal);
}

#[test]
fn session_report_forms() {
    let buf = session_log();
    let fmt = sniff(&buf).unwrap();
    let index = build_from_bytes(&buf, &fmt);
    let map = SessionMap::build(&index, &buf, &fmt);
    let keys = ranked_session_keys(&map);
    let names: Vec<(&[u8], &[u8])> = keys.iter().map(|k| (k.0.as_slice(), k.1.as_slice())).collect();
    assert_eq!(names, vec![(&b"BVLORSG"[..], &b"KALDMA1TRI"[..]), (b"X", b"Y")]);
    let stats = &map.by_key[0].1;
    assert_eq!(format_msg_types(stats, 2), b"8=2 A=2".to_vec());
    let mut out = Vec::new();
    write_session_json(&mut out, &map.by_key[0].0, stats);
    assert_eq!(
        String::from_utf8(out).unwrap(),
        "{\"sender\":\"BVLORSG\",\"target\":\"KALDMA1TRI\",\"in_count\":3,\"out_count\":3,\"by_msg_type\":{\"8\":2,\"A\":2,\"D\":2},\"seq_min\":1,\"seq_max\":5,\"gaps\":[{\"from_seq\":2,\"to_seq\":5,\"ordinal_before\":2,\"ordinal_after\":4}]}\n"
    );
}
