use fixlog::analysis::consolidated::{ConsolidatedBuilder, FillLeg, OrderConsolidated};
use fixlog::analysis::histogram::Histogram;
use fixlog::analysis::orders::{render_gantt, OrderEvent, OrderTimeline};
use fixlog::analysis::sessions::SessionMap;
use fixlog::commands::consolidate::{write_csv, write_json, write_pretty};
use fixlog::commands::grep::{event_is_relevant, WatchEventKind};
use fixlog::commands::histogram::write_histogram_report;
use fixlog::commands::grep::ParseFormat;
use fixlog::commands::parse::write_messages;
use fixlog::commands::orders::{top_clordids, write_index_json, write_index_pretty, write_timeline_pretty};
use fixlog::commands::sessions::{session_order, write_sessions_jsonl, write_sessions_pretty};
use fixlog::commands::stats::Stats;
use fixlog::commands::text::{lossy_string, push_left_col, push_right_col};
use fixlog::format::sniff;
use fixlog::index::builder::build_from_bytes;
use fixlog::index::hot_tags::HotTags;
use fixlog::parser::parse_all_with_format;

fn build_msg(body_fields: &str) -> Vec<u8> {
    let body_len = body_fields.len();
    let head = format!("8=FIX.4.4\x019={body_len}\x01");
    let payload: Vec<u8> = head.bytes().chain(body_fields.bytes()).collect();
    let sum: u8 = payload.iter().fold(0u8, |a, b| a.wrapping_add(*b));
    let trailer = format!("10={sum:03}\x01");
    payload.into_iter().chain(trailer.bytes()).collect()
}

fn text(v: Vec<u8>) -> String {
    String::from_utf8(v).unwrap()
}

fn event(ordinal: u32, msg_type: &[u8], exec: Option<&[u8]>, status: Option<&[u8]>, cum: Option<&[u8]>, t: Option<u128>) -> OrderEvent {
    OrderEvent {
        ordinal,
        msg_type: msg_type.to_vec(),
        sending_time: t,
        exec_type: exec.map(|v| v.to_vec()),
        ord_status: status.map(|v| v.to_vec()),
        last_qty: None,
        last_px: None,
        cum_qty: cum.map(|v| v.to_vec()),
        avg_px: None,
    }
}

#[test]
fn columns_pad_by_characters() {
    let mut out = Vec::new();
    push_right_col(&mut out, "é", 3);
    push_left_col(&mut out, "ab", 4);
    push_right_col(&mut out, "toolong", 3);
    assert_eq!(text(out), "  éab  toolong");
    assert_eq!(lossy_string(b"a\xffb"), "a\u{fffd}b");
}

#[test]
fn timeline_table_layout() {
    let tl = OrderTimeline {
        clordid: b"ABC".to_vec(),
        order_ids: vec![b"o1".to_vec(), b"o2".to_vec()],
        events: vec![
            event(0, b"D", None, None, None, Some(1_000)),
            event(1, b"8", Some(b"F"), Some(b"2"), Some(b"100"), Some(2_000)),
        ],
    };
    let mut out = Vec::new();
    write_timeline_pretty(&mut out, &tl);
    let gantt = render_gantt(&tl, 60);
    let mut expected = String::new();
    expected.push_str("ClOrdID: ABC   OrderID(s): [o1, o2]   events: 2\n\n");
    expected.push_str(&format!("{:>8}  {:>6}  {:>8}  {:>8}  {:>8}\n", "ordinal", "type", "exec", "status", "cum-qty"));
    expected.push_str(&format!("{}\n", "-".repeat(46)));
    expected.push_str(&format!("{:>8}  {:>6}  {:>8}  {:>8}  {:>8}\n", 0, "D", "-", "-", "-"));
    expected.push_str(&format!("{:>8}  {:>6}  {:>8}  {:>8}  {:>8}\n", 1, "8", "F", "2", "100"));
    expected.push_str("\nGantt (60 cols, N=D X=8 C=F R=G !=3/j ?=other):\n");
    expected.push_str(&format!("  {}\n", gantt));
    assert_eq!(text(out), expected);
    assert!(gantt.starts_with('N') && gantt.ends_with('X'));
}

#[test]
fn clordid_index_pretty_and_json() {
    let counts = vec![(b"ABC".to_vec(), 2u32), (b"XYZ\"1".to_vec(), 5u32)];
    let top = top_clordids(&counts, 10);
    let mut pretty = Vec::new();
    write_index_pretty(&mut pretty, &top);
    let mut expected = format!("{:<40} {:>8}\n{}\n", "clordid", "events", "-".repeat(49));
    expected.push_str(&format!("{:<40} {:>8}\n", "XYZ\"1", 5));
    expected.push_str(&format!("{:<40} {:>8}\n", "ABC", 2));
    assert_eq!(text(pretty), expected);

    let mut json = Vec::new();
    write_index_json(&mut json, &top);
    assert_eq!(text(json), "{\"clordid\":\"XYZ\\\"1\",\"events\":5}\n{\"clordid\":\"ABC\",\"events\":2}\n");

    let mut none = Vec::new();
    write_index_pretty(&mut none, &Vec::new());
    assert_eq!(text(none), "(no orders)\n");
}

#[test]
fn clordid_index_cuts_long_ids() {
    let long = "L".repeat(45);
    let counts = vec![(long.as_bytes().to_vec(), 1u32)];
    let top = top_clordids(&counts, 10);
    let mut out = Vec::new();
    write_index_pretty(&mut out, &top);
    let line = text(out).lines().nth(2).unwrap().to_string();
    assert_eq!(line, format!("{}\u{2026} {:>8}", "L".repeat(39), 1));
}

fn row(root: &str, family: &[&str], side: Option<u8>, symbol: Option<&str>, order_qty: Option<u64>, cum: u64, fills: usize, status: Option<&str>) -> OrderConsolidated {
    OrderConsolidated {
        root_clordid: root.as_bytes().to_vec(),
        family: family.iter().map(|f| f.as_bytes().to_vec()).collect(),
        symbol: symbol.map(|s| s.as_bytes().to_vec()),
        side,
        order_qty,
        cum_qty: cum,
        fills: (0..fills).map(|_| FillLeg { last_qty: b"1".to_vec(), last_px: b"2".to_vec() }).collect(),
        final_ord_status: status.map(|s| s.as_bytes().to_vec()),
        first_seen: None,
        last_seen: None,
    }
}

#[test]
fn consolidated_table_csv_and_json() {
    let rows = vec![
        row("B", &["B", "A"], Some(b'1'), Some("AAPL"), Some(1500), 1200, 2, Some("2")),
        row("C,1", &["C,1"], None, None, None, 0, 0, None),
    ];
    let figures = vec![("12,000.00".to_string(), "10.0000".to_string()), ("0.00".to_string(), "-".to_string())];

    let mut pretty = Vec::new();
    write_pretty(&mut pretty, &rows, &figures);
    let mut expected = format!(
        "{:<18} {:<5} {:<8} {:>10} {:>10} {:>15} {:>10} {:<14} {:>5}\n{}\n",
        "ClOrdID", "Side", "Symbol", "OrderQty", "CumQty", "Notional", "AvgPx", "Status", "Fills",
        "-".repeat(103)
    );
    expected.push_str(&format!(
        "{:<18} {:<5} {:<8} {:>10} {:>10} {:>15} {:>10} {:<14} {:>5}\n",
        "A\u{2192}B", "BUY", "AAPL", "1,500", "1,200", "12,000.00", "10.0000", "FILLED", 2
    ));
    expected.push_str(&format!(
        "{:<18} {:<5} {:<8} {:>10} {:>10} {:>15} {:>10} {:<14} {:>5}\n",
        "C,1", "-", "-", "-", "0", "0.00", "-", "-", 0
    ));
    assert_eq!(text(pretty), expected);

    let numeric = vec![("12000.0000".to_string(), "10.0000".to_string()), ("0.0000".to_string(), "0.0000".to_string())];
    let mut csv = Vec::new();
    write_csv(&mut csv, &rows, &numeric);
    assert_eq!(
        text(csv),
        "root_clordid,family,side,symbol,order_qty,cum_qty,notional,avg_px,fills,final_ord_status\n\
         B,B|A,BUY,AAPL,1500,1200,12000.0000,10.0000,2,FILLED\n\
         \"C,1\",\"C,1\",,,,0,0.0000,0.0000,0,\n"
    );

    let mut json = Vec::new();
    write_json(&mut json, &rows, &numeric);
    assert_eq!(
        text(json),
        "[{\"root_clordid\":\"B\",\"family\":[\"B\",\"A\"],\"symbol\":\"AAPL\",\"side\":\"BUY\",\"order_qty\":1500,\
         \"cum_qty\":1200,\"notional\":12000.0000,\"avg_px\":10.0000,\"fills\":2,\"final_ord_status\":\"FILLED\"},\
         {\"root_clordid\":\"C,1\",\"family\":[\"C,1\"],\"cum_qty\":0,\"notional\":0.0000,\"avg_px\":0.0000,\"fills\":0}]\n"
    );

    let mut empty = Vec::new();
    write_pretty(&mut empty, &Vec::new(), &Vec::new());
    assert_eq!(text(empty), "(no orders)\n");
    let mut empty_json = Vec::new();
    write_json(&mut empty_json, &Vec::new(), &Vec::new());
    assert_eq!(text(empty_json), "[]\n");
}

#[test]
fn stats_report_lists_sessions_and_types() {
    let mut buf = Vec::new();
    buf.extend(build_msg("35=D\x0149=A\x0156=B\x0134=1\x0152=20260417-12:00:01\x01"));
    buf.extend(build_msg("35=D\x0149=A\x0156=B\x0134=2\x0152=20260417-12:00:03\x01"));
    buf.extend(build_msg("35=8\x0149=B\x0156=A\x0134=1\x0152=20260417-12:00:02\x01"));
    buf.extend(b"garbage 8=FIX.4.4\x019=5\x01".iter());
    let fmt = sniff(&buf).unwrap();
    let mut stats = Stats::new();
    let mut p = parse_all_with_format(&buf, &fmt);
    while let Some(r) = p.next() {
        match r {
            Ok(m) => stats.record(&m),
            Err(_) => stats.record_error(),
        }
    }
    let report = text(stats.report(b"x.log"));
    let mut expected = String::new();
    expected.push_str("File:            x.log\n");
    expected.push_str(&format!("Messages parsed: {}\n", stats.total));
    expected.push_str(&format!("Parse errors:    {}\n", stats.errors));
    expected.push_str("Time range:      20260417-12:00:01 .. 20260417-12:00:03\n");
    expected.push_str("Sessions:        2\n");
    expected.push_str(&format!("  {:>10}  A \u{2192} B\n", 2));
    expected.push_str(&format!("  {:>10}  B \u{2192} A\n", 1));
    expected.push_str("Message types:   2 (2 shown)\n");
    expected.push_str(&format!("  {:>10}  {:<4} {}\n", 2, "D", "NewOrderSingle"));
    expected.push_str(&format!("  {:>10}  {:<4} {}\n", 1, "8", "ExecutionReport"));
    assert_eq!(stats.total, 3);
    assert_eq!(report, expected);
}

fn session_log() -> Vec<u8> {
    let mut out = Vec::new();
    out.extend(build_msg("35=A\x0134=1\x0149=ZED\x0156=AMY\x01"));
    out.extend(build_msg("35=A\x0134=1\x0149=AMY\x0156=ZED\x01"));
    out.extend(build_msg("35=D\x0134=3\x0149=ZED\x0156=AMY\x01"));
    out.extend(build_msg("35=D\x0134=1\x0149=BOB\x0156=CAT\x01"));
    out
}

#[test]
fn sessions_table_and_lines_in_key_order() {
    let buf = session_log();
    let fmt = sniff(&buf).unwrap();
    let index = build_from_bytes(&buf, &fmt);
    let map = SessionMap::build(&index, &buf, &fmt);
    let order = session_order(&map);
    let keys: Vec<(Vec<u8>, Vec<u8>)> = order.iter().map(|&j| (map.by_key[j].0.sender.clone(), map.by_key[j].0.target.clone())).collect();
    let mut sorted = keys.clone();
    sorted.sort();
    assert_eq!(keys, sorted);
    assert_eq!(keys.len(), 2);

    let mut pretty = Vec::new();
    write_sessions_pretty(&mut pretty, &map);
    let pretty = text(pretty);
    let lines: Vec<&str> = pretty.lines().collect();
    assert_eq!(lines.len(), 4);
    assert_eq!(lines[0], format!("{:<32} {:>8} {:>18} {:>16} {:>6}", "session", "msgs", "by-msg-type", "seq-range", "gaps"));
    assert_eq!(lines[1], "-".repeat(84));
    let first = &map.by_key[order[0]];
    let session = format!("{} \u{2194} {}", String::from_utf8_lossy(&first.0.sender), String::from_utf8_lossy(&first.0.target));
    assert!(lines[2].starts_with(&format!("{:<32} ", session)));

    let mut jsonl = Vec::new();
    write_sessions_jsonl(&mut jsonl, &map);
    let jsonl = text(jsonl);
    assert_eq!(jsonl.lines().count(), 2);
    for l in jsonl.lines() {
        assert!(l.starts_with("{\"sender\":\"") && l.ends_with("]}"));
    }

    let empty = SessionMap::new();
    let mut none = Vec::new();
    write_sessions_pretty(&mut none, &empty);
    assert_eq!(text(none), "(no sessions)\n");
    let mut nothing = Vec::new();
    write_sessions_jsonl(&mut nothing, &empty);
    assert!(nothing.is_empty());
}

#[test]
fn histogram_report_layout() {
    let mut buf = Vec::new();
    for s in [1u32, 1, 2, 5] {
        buf.extend(build_msg(&format!("35=0\x0152=20260417-12:00:{s:02}\x01")));
    }
    buf.extend(build_msg("35=0\x01"));
    let fmt = sniff(&buf).unwrap();
    let index = build_from_bytes(&buf, &fmt);
    let h = Histogram::build(&index, &buf, &fmt, 1_000_000_000);
    let mut out = Vec::new();
    write_histogram_report(&mut out, &h, 1_000_000_000, 20, 2);
    let out = text(out);
    let lines: Vec<&str> = out.lines().collect();
    assert_eq!(lines[0], "total messages: 5   binned: 4   no-time: 1");
    assert_eq!(lines[1], "bucket: 1s");
    let first = h.bins.first().unwrap().start_ns;
    let last = h.bins.last().unwrap().end_ns;
    assert_eq!(lines[2], format!("range:  {first} \u{2192} {last}"));
    assert_eq!(lines[3], h.render_sparkline(20));
    assert_eq!(lines[4], "");
    assert_eq!(lines[5], "top 2 peaks (count \u{b7} start_ns):");
    assert_eq!(lines[6], format!("  {:>8}  {}", 2, first));
    assert_eq!(lines.len(), 8);

    let empty_buf = build_msg("35=0\x01");
    let fmt2 = sniff(&empty_buf).unwrap();
    let idx2 = build_from_bytes(&empty_buf, &fmt2);
    let h2 = Histogram::build(&idx2, &empty_buf, &fmt2, 60_000_000_000);
    let mut out2 = Vec::new();
    write_histogram_report(&mut out2, &h2, 60_000_000_000, 20, 2);
    assert_eq!(text(out2), "total messages: 1   binned: 0   no-time: 1\nbucket: 1m\n(no timestamped messages)\n");
}

#[test]
fn watcher_events_that_matter() {
    assert!(event_is_relevant(true, WatchEventKind::ModifyData));
    assert!(event_is_relevant(true, WatchEventKind::ModifyName));
    assert!(event_is_relevant(true, WatchEventKind::ModifyAny));
    assert!(event_is_relevant(true, WatchEventKind::Create));
    assert!(event_is_relevant(true, WatchEventKind::Remove));
    assert!(!event_is_relevant(true, WatchEventKind::ModifyOther));
    assert!(!event_is_relevant(true, WatchEventKind::Other));
    assert!(!event_is_relevant(false, WatchEventKind::ModifyData));
}

#[test]
fn defaults_match_constructors() {
    let h: HotTags = Default::default();
    assert_eq!(h.len(), HotTags::default_set().len());
    let b: ConsolidatedBuilder = Default::default();
    assert!(b.finish().is_empty());
}

#[test]
fn parse_output_respects_limit() {
    let buf = session_log();
    let fmt = sniff(&buf).unwrap();
    let mut all = Vec::new();
    write_messages(&buf, &fmt, None, ParseFormat::Json, &mut all);
    let all = text(all);
    assert_eq!(all.lines().count(), 4);
    let mut one = Vec::new();
    write_messages(&buf, &fmt, Some(1), ParseFormat::Json, &mut one);
    assert_eq!(text(one), format!("{}\n", all.lines().next().unwrap()));
    let mut none = Vec::new();
    write_messages(&buf, &fmt, Some(0), ParseFormat::Pretty, &mut none);
    assert!(none.is_empty());
    let mut pretty = Vec::new();
    write_messages(&buf, &fmt, Some(2), ParseFormat::Pretty, &mut pretty);
    assert_eq!(text(pretty).matches("Message @ offset ").count(), 2);
}
