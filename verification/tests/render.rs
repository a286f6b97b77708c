use fixlog::dict::resolver::{ResolvedField, ResolvedMessage};
use fixlog::dict::CHAIN_FIX44;
use fixlog::parser::parse_one;
use fixlog::render::{write_csv_header, write_csv_row, write_fix, write_jsonl, write_pretty};

fn sample_resolved<'a>() -> ResolvedMessage<'a> {
    ResolvedMessage {
        offset: 0,
        msg_type_name: Some("Logon"),
        chain: &CHAIN_FIX44,
        fields: vec![
            ResolvedField { tag: 35, name: Some("MsgType"), value: b"A", value_label: Some("Logon"), depth: 0 },
            ResolvedField { tag: 49, name: Some("SenderCompID"), value: b"SENDER", value_label: None, depth: 0 },
        ],
    }
}

#[test]
fn pretty_emits_aligned_block_with_header_and_trailing_blank_line() {
    let msg = sample_resolved();
    let mut buf = Vec::new();
    write_pretty(&mut buf, &msg, 42);
    let out = String::from_utf8(buf).unwrap();
    assert!(out.starts_with("Message @ offset 0 (42 bytes) Logon\n"));
    assert!(out.contains("   35  MsgType      = A (Logon)\n"));
    assert!(out.contains("   49  SenderCompID = SENDER\n"));
    assert!(out.ends_with("\n\n"), "trailing blank line separates blocks");
}

#[test]
fn jsonl_emits_one_line_with_expected_keys() {
    let msg = sample_resolved();
    let mut buf = Vec::new();
    write_jsonl(&mut buf, &msg, 42);
    let out = String::from_utf8(buf).unwrap();
    assert_eq!(out.matches('\n').count(), 1, "exactly one trailing newline");
    assert!(out.contains(r#""offset":0"#));
    assert!(out.contains(r#""raw_len":42"#));
    assert!(out.contains(r#""msg_type_name":"Logon""#));
    assert!(out.contains(r#""tag":35"#));
    assert!(out.contains(r#""name":"MsgType""#));
    assert!(out.contains(r#""value":"A""#));
    assert!(out.contains(r#""value_label":"Logon""#));
}

#[test]
fn jsonl_exact_line_and_escapes() {
    let msg = ResolvedMessage {
        offset: 7,
        msg_type_name: None,
        chain: &CHAIN_FIX44,
        fields: vec![
            ResolvedField { tag: 58, name: None, value: b"a\"b\\c\n\x01\xff", value_label: None, depth: 0 },
            ResolvedField { tag: 54, name: Some("Side"), value: b"1", value_label: Some("BUY"), depth: 0 },
        ],
    };
    let mut buf = Vec::new();
    write_jsonl(&mut buf, &msg, 3);
    let out = String::from_utf8(buf).unwrap();
    assert_eq!(
        out,
        "{\"offset\":7,\"raw_len\":3,\"tags\":[{\"tag\":58,\"name\":null,\"value\":\"a\\\"b\\\\c\\n\\u0001\u{fffd}\"},{\"tag\":54,\"name\":\"Side\",\"value\":\"1\",\"value_label\":\"BUY\"}]}\n"
    );
}

#[test]
fn pretty_unknown_name_shows_question_mark() {
    let msg = ResolvedMessage {
        offset: 12,
        msg_type_name: None,
        chain: &CHAIN_FIX44,
        fields: vec![ResolvedField { tag: 99999, name: None, value: b"x", value_label: None, depth: 0 }],
    };
    let mut buf = Vec::new();
    write_pretty(&mut buf, &msg, 5);
    assert_eq!(String::from_utf8(buf).unwrap(), "Message @ offset 12 (5 bytes)\n  99999  ? = x\n\n");
}

#[test]
fn fix_emits_bytes_plus_newline() {
    let raw: &[u8] = b"8=FIX.4.4\x019=5\x0135=A\x0110=000\x01";
    let mut buf = Vec::new();
    write_fix(&mut buf, raw);
    assert_eq!(buf.last(), Some(&b'\n'));
    assert_eq!(buf.len(), raw.len() + 1);
    assert_eq!(&buf[..raw.len()], raw);
}

#[test]
fn csv_header_and_row_shape() {
    let raw = b"8=FIX.4.4\x019=55\x0135=A\x0134=2\x0149=SENDER\x0156=TARGET\x0152=20260416-13:30:00.000\x0110=000\x01";
    let (msg, _) = parse_one(raw).unwrap();
    let mut buf = Vec::new();
    write_csv_header(&mut buf);
    write_csv_row(&mut buf, 7, 128, &msg);
    let out = String::from_utf8(buf).unwrap();
    let mut lines = out.lines();
    assert_eq!(lines.next().unwrap(), "ordinal,offset,msg_type,sender,target,seq_num,sending_time");
    assert_eq!(lines.next().unwrap(), "7,128,A,SENDER,TARGET,2,20260416-13:30:00.000");
    assert!(lines.next().is_none());
}

#[test]
fn csv_row_escapes_embedded_commas_and_quotes() {
    let body = b"35=A\x0134=1\x0149=EVIL,CORP\x0156=T\x0152=X\x01";
    let mut raw: Vec<u8> = format!("8=FIX.4.4\x019={}\x01", body.len()).into_bytes();
    raw.extend_from_slice(body);
    raw.extend_from_slice(b"10=000\x01");
    let (msg, _) = parse_one(&raw).unwrap();
    let mut buf = Vec::new();
    write_csv_row(&mut buf, 0, 0, &msg);
    let line = String::from_utf8(buf).unwrap();
    assert!(line.contains("\"EVIL,CORP\""), "comma-bearing field must be quoted: {line}");
}

#[test]
fn csv_row_doubles_quotes_and_leaves_absent_columns_empty() {
    let body = b"35=A\x0149=SAY\"HI\"\x01";
    let mut raw: Vec<u8> = format!("8=FIX.4.4\x019={}\x01", body.len()).into_bytes();
    raw.extend_from_slice(body);
    raw.extend_from_slice(b"10=000\x01");
    let (msg, _) = parse_one(&raw).unwrap();
    let mut buf = Vec::new();
    write_csv_row(&mut buf, 3, 9, &msg);
    assert_eq!(String::from_utf8(buf).unwrap(), "3,9,A,\"SAY\"\"HI\"\"\",,,\n");
}
