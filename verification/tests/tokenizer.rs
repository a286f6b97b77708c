use fixlog::format::{sniff, Encoding, LineEnding, LinePrefix, LogFormat, MessageBoundary, Separator};
use fixlog::parser::{
    compute_checksum, parse_all, parse_all_with_format, parse_one, ParseError, RawMessage, TAG_BEGIN_STRING,
    TAG_CHECKSUM, TAG_MSG_TYPE,
};

/// A Logon (35=A) message with a correct BodyLength and CheckSum.
fn logon_message() -> Vec<u8> {
    let body = b"35=A\x0149=SENDER\x0156=TARGET\x01";
    let body_len = body.len();
    let prefix = format!("8=FIX.4.4\x019={body_len}\x01");
    let mut msg: Vec<u8> = prefix.into_bytes();
    msg.extend_from_slice(body);
    let checksum = compute_checksum(&msg);
    msg.extend_from_slice(format!("10={checksum:03}\x01").as_bytes());
    msg
}

fn collect_all<'a>(mut p: fixlog::parser::Parser<'a>) -> Vec<Result<RawMessage<'a>, ParseError>> {
    let mut out = Vec::new();
    while let Some(r) = p.next() {
        out.push(r);
    }
    out
}

#[test]
fn parse_one_round_trips_a_well_formed_message() {
    let msg = logon_message();
    let (parsed, consumed) = parse_one(&msg).expect("must parse");
    assert_eq!(consumed, msg.len());
    assert_eq!(parsed.offset, 0);
    assert_eq!(parsed.raw, &msg[..]);
    assert_eq!(parsed.tags.len(), 6);
    assert_eq!(parsed.tags.get(0).0, TAG_BEGIN_STRING);
    assert_eq!(parsed.tags.get(0).1, b"FIX.4.4");
    assert_eq!(parsed.tags.get(2), (TAG_MSG_TYPE, &b"A"[..]));
}

#[test]
fn parse_one_accepts_empty_value() {
    let body = b"35=D\x0138=\x0155=AAPL\x01";
    let prefix = format!("8=FIX.4.4\x019={}\x01", body.len());
    let mut msg = prefix.into_bytes();
    msg.extend_from_slice(body);
    let cs = compute_checksum(&msg);
    msg.extend_from_slice(format!("10={cs:03}\x01").as_bytes());

    let (parsed, _) = parse_one(&msg).expect("must parse");
    let qty = parsed.tags.as_slice().iter().find(|(t, _)| *t == 38).expect("38 present");
    assert!(qty.1.is_empty(), "OrderQty value should be empty");
}

#[test]
fn parse_one_emits_message_on_checksum_mismatch() {
    let mut msg = logon_message();
    let len = msg.len();
    msg[len - 4] = b'0';
    msg[len - 3] = b'0';
    msg[len - 2] = b'1';
    let (parsed, consumed) = parse_one(&msg).expect("must still emit the message");
    assert_eq!(consumed, msg.len());
    assert_eq!(parsed.tags.as_slice().last().map(|(t, _)| *t), Some(TAG_CHECKSUM));
}

#[test]
fn parse_one_rejects_inconsistent_body_length() {
    let body = b"35=A\x0149=S\x0156=T\x01";
    let prefix = b"8=FIX.4.4\x019=999\x01";
    let mut msg = prefix.to_vec();
    msg.extend_from_slice(body);
    let cs = compute_checksum(&msg);
    msg.extend_from_slice(format!("10={cs:03}\x01").as_bytes());
    assert!(matches!(parse_one(&msg), Err(ParseError::UnexpectedEof)));
}

#[test]
fn parse_one_rejects_missing_begin_string() {
    let buf = b"35=A\x019=10\x0110=001\x01";
    assert!(matches!(parse_one(buf), Err(ParseError::InvalidBeginString { .. })));
}

#[test]
fn parse_all_iterates_back_to_back_messages() {
    let mut combined = logon_message();
    combined.push(b'\n');
    combined.extend_from_slice(&logon_message());
    combined.push(b'\n');

    let results = collect_all(parse_all(&combined));
    assert_eq!(results.len(), 2);
    for r in &results {
        assert!(r.is_ok());
    }
    let second = results[1].as_ref().unwrap();
    assert!(second.offset > 0);
}

#[test]
fn parse_all_skips_blank_lines_between_messages() {
    let mut combined = logon_message();
    combined.extend_from_slice(b"\n\n\n");
    combined.extend_from_slice(&logon_message());
    let results: Vec<_> = collect_all(parse_all(&combined)).into_iter().filter_map(Result::ok).collect();
    assert_eq!(results.len(), 2);
}

#[test]
fn parse_all_skips_variable_length_prefixes_and_noise() {
    let m1 = logon_message();
    let m2 = logon_message();
    let mut combined = Vec::new();
    combined.extend_from_slice(b"2026-04-16 13:00:06.385  INFO 120615 [main] boot: starting\n");
    combined.extend_from_slice(b"2026-04-16 13:00:07.120  INFO 120615 [main] sess -> MME: ");
    combined.extend_from_slice(&m1);
    combined.extend_from_slice(b"\n2026-04-16 13:00:07.300  WARN 120615 [main] cron fired\n");
    combined.extend_from_slice(b"2026-04-16 13:00:08.001 DEBUG 120615 [io-1] sess <- MME: ");
    combined.extend_from_slice(&m2);
    combined.extend_from_slice(b"\n");

    let results: Vec<_> = collect_all(parse_all(&combined)).into_iter().filter_map(Result::ok).collect();
    assert_eq!(results.len(), 2, "both embedded messages must be recovered");
    assert!(results[0].offset > 0);
    assert!(results[1].offset > results[0].offset);
}

#[test]
fn parse_all_recovers_after_a_corrupt_message() {
    let good1 = logon_message();
    let corrupt = b"8=FIX.4.4\x019=99\x0135=A\x0110=000\x01\n";
    let good2 = logon_message();
    let mut combined = good1.clone();
    combined.push(b'\n');
    combined.extend_from_slice(corrupt);
    combined.extend_from_slice(&good2);
    combined.push(b'\n');

    let results = collect_all(parse_all(&combined));
    assert_eq!(results.len(), 3);
    assert!(results[0].is_ok());
    assert!(results[1].is_err());
    assert!(results[2].is_ok());
}

#[test]
fn parse_all_yields_strictly_increasing_offsets() {
    let mut combined = Vec::new();
    for _ in 0..4 {
        combined.extend_from_slice(&logon_message());
        combined.extend_from_slice(b"\n");
    }
    let offsets: Vec<u64> = collect_all(parse_all(&combined)).into_iter().filter_map(Result::ok).map(|m| m.offset).collect();
    assert_eq!(offsets.len(), 4);
    for w in offsets.windows(2) {
        assert!(w[0] < w[1]);
    }
}

#[test]
fn sniff_then_parse_pipe_separated_sample() {
    let mut bytes = Vec::new();
    for mt in ["A", "0", "D"] {
        let body = format!("35={mt}|49=SENDER|56=TARGET|");
        bytes.extend_from_slice(format!("8=FIX.4.4|9={}|{}10=000|\n", body.len(), body).as_bytes());
    }
    let format = sniff(&bytes).expect("sniffer must recognize the layout");
    assert_eq!(format.separator, Separator::Pipe);
    assert_eq!(format.line_prefix, LinePrefix::NoPrefix);
    let results = collect_all(parse_all_with_format(&bytes, &format));
    let oks: Vec<_> = results.iter().filter_map(|r| r.as_ref().ok()).collect();
    assert_eq!(oks.len(), 3);
    assert_eq!(fixlog::parser::find_tag(oks[0], TAG_MSG_TYPE), Some(&b"A"[..]));
}

fn items(p: fixlog::parser::Parser<'_>) -> Vec<Result<(u64, Vec<u8>), ParseError>> {
    collect_all(p).into_iter().map(|r| r.map(|m| (m.offset, m.raw.to_vec()))).collect()
}

#[test]
fn same_separator_byte_gives_same_items() {
    let buf = b"noise 8=FIX.4.4|9=5|35=A|10=000|\n8=FIX.4.4|9=5|35=0|10=000|".to_vec();
    let pipe = LogFormat {
        separator: Separator::Pipe,
        line_prefix: LinePrefix::Fixed(6),
        encoding: Encoding::Utf8,
        line_ending: LineEnding::Lf,
        message_boundary: MessageBoundary::Line,
    };
    let mut custom = pipe;
    custom.separator = Separator::Custom(b'|');
    custom.line_prefix = LinePrefix::NoPrefix;
    custom.message_boundary = MessageBoundary::Checksum;
    let a = items(parse_all_with_format(&buf, &pipe));
    let b = items(parse_all_with_format(&buf, &custom));
    assert_eq!(a, vec![Ok((6, b"8=FIX.4.4|9=5|35=A|10=000|".to_vec())), Ok((33, b"8=FIX.4.4|9=5|35=0|10=000|".to_vec()))]);
    assert_eq!(a, b);

    let soh = logon_message();
    let mut soh_fmt = pipe;
    soh_fmt.separator = Separator::Soh;
    let c = items(parse_all_with_format(&soh, &soh_fmt));
    assert_eq!(c.len(), 1);
    assert_eq!(c, items(parse_all(&soh)));
}
