use fixlog::analysis::consolidated::{ConsolidatedBuilder, OrderConsolidated, SourceStats, READ_CHUNK};
use fixlog::commands::consolidate::{sort_rows, ConsolidateSort};
use fixlog::format::{sniff, LogFormat};

fn build_msg(body_fields: &str) -> Vec<u8> {
    let body_len = body_fields.len();
    let head = format!("8=FIX.4.4\x019={body_len}\x01");
    let payload: Vec<u8> = head.bytes().chain(body_fields.bytes()).collect();
    let sum: u8 = payload.iter().fold(0u8, |a, b| a.wrapping_add(*b));
    let trailer = format!("10={sum:03}\x01");
    payload.into_iter().chain(trailer.bytes()).collect()
}

/// Feed a whole source the way the reader does: fixed-size chunks, then
/// the end of the source.
fn push_source(b: &mut ConsolidatedBuilder, src: &[u8], fmt: &LogFormat) -> SourceStats {
    let mut stats = SourceStats::new();
    let mut pending: Vec<u8> = Vec::new();
    for chunk in src.chunks(READ_CHUNK) {
        b.push_chunk(&mut pending, chunk, fmt, &mut stats);
    }
    b.finish_source(&pending, fmt, &mut stats);
    stats
}

fn num(v: &[u8]) -> f64 {
    std::str::from_utf8(v).unwrap().parse().unwrap()
}

fn notional(row: &OrderConsolidated) -> f64 {
    row.fills.iter().map(|f| num(&f.last_qty) * num(&f.last_px)).sum()
}

fn avg_px(row: &OrderConsolidated) -> f64 {
    if row.cum_qty > 0 {
        notional(row) / row.cum_qty as f64
    } else {
        0.0
    }
}

fn synthetic_log() -> Vec<u8> {
    let tail = "49=A\x0156=B\x01";
    let t = |sec| format!("52=20260417-12:34:{sec:02}\x01");
    let mut out = Vec::new();
    out.extend(build_msg(&format!("35=D\x0134=1\x01{tail}{}11=ABC\x0155=AAPL\x0154=1\x0138=100\x01", t(1))));
    out.extend(build_msg(&format!(
        "35=8\x0134=2\x01{tail}{}11=ABC\x0137=ord1\x0117=E0\x01150=A\x0139=A\x0114=0\x01",
        t(2)
    )));
    out.extend(build_msg(&format!(
        "35=8\x0134=3\x01{tail}{}11=ABC\x0137=ord1\x0117=E1\x01150=F\x0139=1\x0114=60\x0131=10.5\x0132=60\x01",
        t(3)
    )));
    out.extend(build_msg(&format!(
        "35=8\x0134=4\x01{tail}{}11=ABC\x0137=ord1\x0117=E2\x01150=F\x0139=2\x0114=100\x0131=11.0\x0132=40\x01",
        t(4)
    )));
    out.extend(build_msg(&format!("35=D\x0134=5\x01{tail}{}11=DEF\x0155=MSFT\x0154=2\x0138=50\x01", t(5))));
    out.extend(build_msg(&format!("35=G\x0134=6\x01{tail}{}11=GHI\x0141=DEF\x01", t(6))));
    out.extend(build_msg(&format!(
        "35=8\x0134=7\x01{tail}{}11=GHI\x0137=ord2\x0117=E3\x01150=5\x0139=5\x0114=0\x01",
        t(7)
    )));
    out.extend(build_msg(&format!(
        "35=8\x0134=8\x01{tail}{}11=GHI\x0137=ord2\x0117=E4\x01150=F\x0139=2\x0114=50\x0131=100\x0132=50\x01",
        t(8)
    )));
    out
}

#[test]
fn dedup_repeated_execid_counts_once() {
    let mut log = synthetic_log();
    let tail = "49=A\x0156=B\x01";
    let t = |sec: i32| format!("52=20260417-12:34:{sec:02}\x01");
    log.extend(build_msg(&format!(
        "35=8\x0134=99\x01{tail}{}11=ABC\x0137=ord1\x0117=E1\x01150=F\x0139=1\x0114=60\x0131=10.5\x0132=60\x01",
        t(3)
    )));
    let fmt = sniff(&log).unwrap();
    let mut b = ConsolidatedBuilder::new();
    let stats = push_source(&mut b, log.as_slice(), &fmt);
    assert_eq!(stats.fills_deduped, 1, "one duplicate fill must be dropped");
    let rows = b.finish();
    let abc = rows.iter().find(|r| r.root_clordid == b"ABC").expect("ABC row");
    assert_eq!(abc.fills.len(), 2, "ABC has 2 unique fills (E1, E2)");
    assert!((notional(abc) - 1070.0).abs() < 1e-9);
}

#[test]
fn replace_chain_unifies_family() {
    let log = synthetic_log();
    let fmt = sniff(&log).unwrap();
    let mut b = ConsolidatedBuilder::new();
    push_source(&mut b, log.as_slice(), &fmt);
    let rows = b.finish();
    let row = rows.iter().find(|r| r.family.iter().any(|c| c == b"DEF")).expect("DEF family row");
    let mut fam: Vec<&[u8]> = row.family.iter().map(|v| v.as_slice()).collect();
    fam.sort();
    assert_eq!(fam, vec![b"DEF".as_slice(), b"GHI".as_slice()]);
    assert_eq!(row.root_clordid, b"DEF", "first-seen ClOrdID is the root");
    assert_eq!(row.cum_qty, 50);
    assert!((notional(row) - 5000.0).abs() < 1e-9);
    assert_eq!(row.fills.len(), 1);
}

#[test]
fn notional_is_sum_lastqty_lastpx() {
    let tail = "49=A\x0156=B\x01";
    let t = |sec| format!("52=20260417-12:34:{sec:02}\x01");
    let mut log = Vec::new();
    log.extend(build_msg(&format!("35=D\x0134=1\x01{tail}{}11=ZZZ\x0155=AAPL\x01", t(1))));
    log.extend(build_msg(&format!(
        "35=8\x0134=2\x01{tail}{}11=ZZZ\x0117=X1\x01150=F\x0139=1\x016=999.99\x0114=10\x0131=10\x0132=10\x01",
        t(2)
    )));
    let fmt = sniff(&log).unwrap();
    let mut b = ConsolidatedBuilder::new();
    push_source(&mut b, log.as_slice(), &fmt);
    let rows = b.finish();
    let row = &rows[0];
    assert!((notional(row) - 100.0).abs() < 1e-9);
    assert!((avg_px(row) - 10.0).abs() < 1e-9);
}

#[test]
fn fill_without_execid_still_counts() {
    let tail = "49=A\x0156=B\x01";
    let t = |sec| format!("52=20260417-12:34:{sec:02}\x01");
    let mut log = Vec::new();
    log.extend(build_msg(&format!("35=D\x0134=1\x01{tail}{}11=NOID\x0155=AAPL\x01", t(1))));
    log.extend(build_msg(&format!(
        "35=8\x0134=2\x01{tail}{}11=NOID\x01150=F\x0139=1\x0114=5\x0131=20\x0132=5\x01",
        t(2)
    )));
    let fmt = sniff(&log).unwrap();
    let mut b = ConsolidatedBuilder::new();
    let stats = push_source(&mut b, log.as_slice(), &fmt);
    assert_eq!(stats.fills_seen, 1);
    assert_eq!(stats.fills_deduped, 0);
    let rows = b.finish();
    assert_eq!(rows[0].fills.len(), 1);
    assert!((notional(&rows[0]) - 100.0).abs() < 1e-9);
}

#[test]
fn multi_source_concatenated_streams() {
    let log = synthetic_log();
    let mid = log.len() / 2;
    let split = (mid..log.len()).find(|i| log[*i..].starts_with(b"8=FIX")).expect("must find boundary");
    let (a, b) = log.split_at(split);

    let fmt = sniff(&log).unwrap();
    let mut whole = ConsolidatedBuilder::new();
    push_source(&mut whole, log.as_slice(), &fmt);
    let mut split_b = ConsolidatedBuilder::new();
    push_source(&mut split_b, a, &fmt);
    push_source(&mut split_b, b, &fmt);

    let mut lhs = whole.finish();
    let mut rhs = split_b.finish();
    lhs.sort_by(|x, y| x.root_clordid.cmp(&y.root_clordid));
    rhs.sort_by(|x, y| x.root_clordid.cmp(&y.root_clordid));
    assert_eq!(lhs.len(), rhs.len());
    for (l, r) in lhs.iter().zip(rhs.iter()) {
        assert_eq!(l.root_clordid, r.root_clordid);
        assert_eq!(l.cum_qty, r.cum_qty);
        assert!((notional(l) - notional(r)).abs() < 1e-9);
        assert_eq!(l.fills.len(), r.fills.len());
        assert_eq!(l.final_ord_status, r.final_ord_status);
    }
}

#[test]
fn small_chunks_give_the_same_rows() {
    let log = synthetic_log();
    let fmt = sniff(&log).unwrap();
    let mut whole = ConsolidatedBuilder::new();
    push_source(&mut whole, &log, &fmt);
    let mut chunked = ConsolidatedBuilder::new();
    let mut stats = SourceStats::new();
    let mut pending = Vec::new();
    for chunk in log.chunks(7) {
        chunked.push_chunk(&mut pending, chunk, &fmt, &mut stats);
    }
    chunked.finish_source(&pending, &fmt, &mut stats);
    assert_eq!(stats.messages, 8);
    let mut a = whole.finish();
    let mut b = chunked.finish();
    a.sort_by(|x, y| x.root_clordid.cmp(&y.root_clordid));
    b.sort_by(|x, y| x.root_clordid.cmp(&y.root_clordid));
    assert_eq!(a.len(), b.len());
    for (x, y) in a.iter().zip(b.iter()) {
        assert_eq!(x.root_clordid, y.root_clordid);
        assert_eq!(x.cum_qty, y.cum_qty);
        assert_eq!(x.fills.len(), y.fills.len());
    }
}

#[test]
fn rows_sorted_by_integer_criteria() {
    let log = synthetic_log();
    let fmt = sniff(&log).unwrap();
    let mut b = ConsolidatedBuilder::new();
    push_source(&mut b, &log, &fmt);
    let rows = b.finish();
    let by_qty = sort_rows(rows, ConsolidateSort::CumQty);
    let roots: Vec<&[u8]> = by_qty.iter().map(|r| r.root_clordid.as_slice()).collect();
    assert_eq!(roots, vec![&b"ABC"[..], b"DEF"]);
    let by_recent = sort_rows(by_qty, ConsolidateSort::Recent);
    let roots: Vec<&[u8]> = by_recent.iter().map(|r| r.root_clordid.as_slice()).collect();
    assert_eq!(roots, vec![&b"DEF"[..], b"ABC"]);
    let by_fills = sort_rows(by_recent, ConsolidateSort::Fills);
    assert_eq!(by_fills[0].root_clordid, b"ABC");
    assert_eq!(by_fills[0].side, Some(b'1'));
    assert_eq!(by_fills[0].order_qty, Some(100));
    assert_eq!(by_fills[0].symbol.as_deref(), Some(&b"AAPL"[..]));
    assert_eq!(by_fills[0].final_ord_status.as_deref(), Some(&b"2"[..]));
}

#[test]
fn fill_with_non_numeric_price_adds_no_leg() {
    let tail = "49=A\x0156=B\x01";
    let t = |sec| format!("52=20260417-12:34:{sec:02}\x01");
    let mut log = Vec::new();
    log.extend(build_msg(&format!("35=D\x0134=1\x01{tail}{}11=BAD\x0155=AAPL\x01", t(1))));
    log.extend(build_msg(&format!(
        "35=8\x0134=2\x01{tail}{}11=BAD\x0117=B1\x01150=F\x0139=1\x0114=5\x0131=N/A\x0132=5\x01",
        t(2)
    )));
    log.extend(build_msg(&format!(
        "35=8\x0134=3\x01{tail}{}11=BAD\x0117=B2\x01150=F\x0139=2\x0114=10\x0131=2.5e1\x0132=5\x01",
        t(3)
    )));
    let fmt = sniff(&log).unwrap();
    let mut b = ConsolidatedBuilder::new();
    let stats = push_source(&mut b, log.as_slice(), &fmt);
    assert_eq!(stats.fills_seen, 2);
    let rows = b.finish();
    assert_eq!(rows[0].cum_qty, 10);
    assert_eq!(rows[0].fills.len(), 1);
    assert_eq!(rows[0].fills[0].last_px, b"2.5e1");
    assert!((notional(&rows[0]) - 125.0).abs() < 1e-9);
}
