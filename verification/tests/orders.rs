use fixlog::analysis::orders::{render_gantt, OrderTimeline};
use fixlog::format::sniff;
use fixlog::index::builder::build_from_bytes;

/// Build a FIX message with a well-formed checksum. `body_fields` must
/// already be separator-joined (SOH between fields, trailing SOH).
fn build_msg(body_fields: &str) -> Vec<u8> {
    let body_len = body_fields.len();
    let head = format!("8=FIX.4.4\x019={body_len}\x01");
    let payload: Vec<u8> = head.bytes().chain(body_fields.bytes()).collect();
    let sum: u8 = payload.iter().fold(0u8, |a, b| a.wrapping_add(*b));
    let trailer = format!("10={sum:03}\x01");
    payload.into_iter().chain(trailer.bytes()).collect()
}

/// Generate a synthetic log with two order lifecycles:
///
/// - `ABC` → `XYZ` (cancel flow): D, 8(PendingNew), 8(New), F, 8(PendingCancel), 8(Cancelled)
/// - `DEF` → `GHI` (replace flow): D, 8(New), G, 8(Replaced), 8(PartialFill), 8(Fill)
fn synthetic_order_lifecycle() -> Vec<u8> {
    // All messages share one session (A→B).
    let tail = "49=A\x0156=B\x01";
    let t = |sec| format!("52=20260417-12:34:{sec:02}\x01");
    let mut out = Vec::new();

    // Lifecycle 1 — cancel.
    out.extend(build_msg(&format!(
        "35=D\x0134=1\x01{tail}{}11=ABC\x0155=AAPL\x01",
        t(1)
    )));
    out.extend(build_msg(&format!(
        "35=8\x0134=2\x01{tail}{}11=ABC\x0137=ord1\x01150=A\x0139=A\x0114=0\x01",
        t(2)
    )));
    out.extend(build_msg(&format!(
        "35=8\x0134=3\x01{tail}{}11=ABC\x0137=ord1\x01150=0\x0139=0\x0114=0\x01",
        t(3)
    )));
    out.extend(build_msg(&format!(
        "35=F\x0134=4\x01{tail}{}11=XYZ\x0141=ABC\x0137=ord1\x01",
        t(4)
    )));
    out.extend(build_msg(&format!(
        "35=8\x0134=5\x01{tail}{}11=XYZ\x0137=ord1\x01150=6\x0139=6\x0114=0\x01",
        t(5)
    )));
    out.extend(build_msg(&format!(
        "35=8\x0134=6\x01{tail}{}11=XYZ\x0137=ord1\x01150=4\x0139=4\x0114=0\x01",
        t(6)
    )));

    // Lifecycle 2 — replace.
    out.extend(build_msg(&format!(
        "35=D\x0134=7\x01{tail}{}11=DEF\x0155=MSFT\x01",
        t(7)
    )));
    out.extend(build_msg(&format!(
        "35=8\x0134=8\x01{tail}{}11=DEF\x0137=ord2\x01150=0\x0139=0\x0114=0\x01",
        t(8)
    )));
    out.extend(build_msg(&format!(
        "35=G\x0134=9\x01{tail}{}11=GHI\x0141=DEF\x0137=ord2\x01",
        t(9)
    )));
    out.extend(build_msg(&format!(
        "35=8\x0134=10\x01{tail}{}11=GHI\x0137=ord2\x01150=5\x0139=5\x0114=0\x01",
        t(10)
    )));
    out.extend(build_msg(&format!(
        "35=8\x0134=11\x01{tail}{}11=GHI\x0137=ord2\x01150=F\x0139=1\x0114=50\x01",
        t(11)
    )));
    out.extend(build_msg(&format!(
        "35=8\x0134=12\x01{tail}{}11=GHI\x0137=ord2\x01150=F\x0139=2\x0114=100\x01",
        t(12)
    )));
    out
}

#[test]
fn cancel_flow_reconstructs_six_events() {
    let buf = synthetic_order_lifecycle();
    let fmt = sniff(&buf).expect("sniff");
    let index = build_from_bytes(&buf, &fmt);
    let tl = OrderTimeline::build(&index, &buf, &fmt, b"ABC").expect("ABC timeline");
    assert_eq!(tl.events.len(), 6, "cancel flow: 6 events via OrderID link");
    assert_eq!(tl.events[0].msg_type.as_slice(), b"D");
    assert_eq!(tl.events[1].msg_type.as_slice(), b"8");
    assert_eq!(tl.events[3].msg_type.as_slice(), b"F");
    assert_eq!(tl.events[5].msg_type.as_slice(), b"8");
    assert_eq!(tl.events[5].exec_type.as_ref().unwrap().as_slice(), b"4");
    assert_eq!(tl.order_ids.len(), 1);
    assert_eq!(tl.order_ids[0].as_slice(), b"ord1");
}

#[test]
fn replace_flow_reconstructs_six_events() {
    let buf = synthetic_order_lifecycle();
    let fmt = sniff(&buf).expect("sniff");
    let index = build_from_bytes(&buf, &fmt);
    let tl = OrderTimeline::build(&index, &buf, &fmt, b"DEF").expect("DEF timeline");
    assert_eq!(tl.events.len(), 6, "replace flow: 6 events");
    assert_eq!(tl.events[2].msg_type.as_slice(), b"G");
    assert_eq!(tl.events[5].cum_qty.as_ref().unwrap().as_slice(), b"100");
}

#[test]
fn unknown_clordid_returns_none() {
    let buf = synthetic_order_lifecycle();
    let fmt = sniff(&buf).expect("sniff");
    let index = build_from_bytes(&buf, &fmt);
    assert!(OrderTimeline::build(&index, &buf, &fmt, b"no-such-id").is_none());
}

#[test]
fn gantt_has_correct_width_and_chars() {
    let buf = synthetic_order_lifecycle();
    let fmt = sniff(&buf).expect("sniff");
    let index = build_from_bytes(&buf, &fmt);
    let tl = OrderTimeline::build(&index, &buf, &fmt, b"ABC").unwrap();
    let row = render_gantt(&tl, 60);
    assert_eq!(row.len(), 60);
    // Must contain at least one N (for D) and one X (for 8).
    assert!(row.contains('N'));
    assert!(row.contains('X'));
    assert!(row.contains('C')); // F = Cancel
}

#[test]
fn gantt_clamps_width() {
    let buf = synthetic_order_lifecycle();
    let fmt = sniff(&buf).expect("sniff");
    let index = build_from_bytes(&buf, &fmt);
    let tl = OrderTimeline::build(&index, &buf, &fmt, b"ABC").unwrap();
    assert_eq!(render_gantt(&tl, 2).len(), 10);
    assert_eq!(render_gantt(&tl, 9999).len(), 500);
}

/// A cancel request issued before the exchange has assigned an
/// `OrderID` carries only `11=<new>` and `41=<orig>`; following
/// OrigClOrdID makes it part of the first order's timeline.
#[test]
fn cancel_request_without_order_id_is_included() {
    let tail = "49=A\x0156=B\x01";
    let t = |sec| format!("52=20260417-12:34:{sec:02}\x01");
    let mut out = Vec::new();
    // 1. NewOrderSingle: 11=NEW1, no OrderID yet.
    out.extend(build_msg(&format!(
        "35=D\x0134=1\x01{tail}{}11=NEW1\x0155=AAPL\x01",
        t(1)
    )));
    // 2. OrderCancelRequest before ack: 11=CXL1, 41=NEW1, no 37.
    out.extend(build_msg(&format!(
        "35=F\x0134=2\x01{tail}{}11=CXL1\x0141=NEW1\x01",
        t(2)
    )));
    let fmt = sniff(&out).expect("sniff");
    let index = build_from_bytes(&out, &fmt);
    let tl = OrderTimeline::build(&index, &out, &fmt, b"NEW1").expect("NEW1 timeline");
    assert_eq!(
        tl.events.len(),
        2,
        "cancel without OrderID must be included"
    );
    assert_eq!(tl.events[0].msg_type.as_slice(), b"D");
    assert_eq!(tl.events[1].msg_type.as_slice(), b"F");
}

/// A replace chain `A → B → C` (two consecutive OrderCancelReplace
/// requests) must be followed to fixed point — querying `A` has to
/// surface the entries for `B` and `C` too, even if they only share
/// the `41` back-pointer (no shared OrderID).
#[test]
fn replace_chain_is_followed_transitively() {
    let tail = "49=A\x0156=B\x01";
    let t = |sec| format!("52=20260417-12:34:{sec:02}\x01");
    let mut out = Vec::new();
    // Chain: A → B → C via OrigClOrdID, no OrderID available yet.
    out.extend(build_msg(&format!(
        "35=D\x0134=1\x01{tail}{}11=A\x0155=AAPL\x01",
        t(1)
    )));
    out.extend(build_msg(&format!(
        "35=G\x0134=2\x01{tail}{}11=B\x0141=A\x01",
        t(2)
    )));
    out.extend(build_msg(&format!(
        "35=G\x0134=3\x01{tail}{}11=C\x0141=B\x01",
        t(3)
    )));
    let fmt = sniff(&out).expect("sniff");
    let index = build_from_bytes(&out, &fmt);
    let tl = OrderTimeline::build(&index, &out, &fmt, b"A").expect("A timeline");
    assert_eq!(
        tl.events.len(),
        3,
        "transitive chain A→B→C must reach 3 events"
    );
    assert_eq!(tl.events[0].msg_type.as_slice(), b"D");
    assert_eq!(tl.events[1].msg_type.as_slice(), b"G");
    assert_eq!(tl.events[2].msg_type.as_slice(), b"G");
}
