//! The `orders` command: the ClOrdIDs of a log ranked by how many messages
//! carry them, and an order timeline as JSON.
use vstd::prelude::*;

use crate::analysis::assoc::{afind, ainsert, akeys_unique, amap};
use crate::analysis::orders::{OrderEvent, OrderTimeline, gantt_bytes, load_message, msg_value, render_gantt};
use crate::bytes::copy_bytes;
use crate::commands::rank::{Counted, counted_view, counted_views, rank, ranked, take_first};
use crate::commands::stats::count_in;
use crate::commands::text::{
    join, left_col, lossy_string, push_left_col, push_right_col, right_col, text_of, truncate, truncated,
};
use crate::format::{LogFormat, separator_byte};
use crate::index::LogIndex;
use crate::index::hot_tags::TAG_CL_ORD_ID;
use crate::parser::find_tag;
use crate::render::{
    decimal, json_escape, lossy, pad_left, push_bytes, push_decimal, push_spaces, spaces, str_bytes, utf8_lossy,
    write_json_string,
};

verus! {

/// `x + 1`, held at `u32::MAX`.
pub open spec fn sat_inc32(x: u32) -> u32 {
    if x == u32::MAX {
        x
    } else {
        (x + 1) as u32
    }
}

/// Messages per ClOrdID among the first `k` messages: each message that
/// parses counts once for the value of its first ClOrdID field.
pub open spec fn clordid_counts_upto(index: LogIndex, buf: Seq<u8>, sep: u8, k: int) -> Map<Seq<u8>, u32>
    decreases k,
{
    if k <= 0 {
        Map::empty()
    } else {
        let m = clordid_counts_upto(index, buf, sep, k - 1);
        match msg_value(index, buf, sep, k - 1, TAG_CL_ORD_ID) {
            Some(c) => m.insert(c, sat_inc32(count_in32(m, c))),
            None => m,
        }
    }
}

/// The count of `k` in `m`, zero when absent.
pub open spec fn count_in32(m: Map<Seq<u8>, u32>, k: Seq<u8>) -> u32 {
    if m.dom().contains(k) {
        m[k]
    } else {
        0
    }
}

/// Count the messages of each ClOrdID (tag 11), in one pass over the
/// index.
pub fn collect_clordid_counts(buf: &[u8], index: &LogIndex, format: &LogFormat) -> (r: Vec<(Vec<u8>, u32)>)
    ensures
        akeys_unique(r@),
        amap(r@) == clordid_counts_upto(*index, buf@, separator_byte(format.separator), index.messages@.len() as int),
{
    let ghost sep = separator_byte(format.separator);
    let mut counts: Vec<(Vec<u8>, u32)> = Vec::new();
    assert(amap(counts@) =~= Map::<Seq<u8>, u32>::empty());
    let n = index.messages.len();
    let mut o: usize = 0;
    while o < n
        invariant
            o <= n,
            n == index.messages@.len(),
            sep == separator_byte(format.separator),
            akeys_unique(counts@),
            amap(counts@) == clordid_counts_upto(*index, buf@, sep, o as int),
        decreases n - o,
    {
        if let Some(msg) = load_message(index, buf, format, o) {
            if let Some(c) = find_tag(&msg, TAG_CL_ORD_ID) {
                let cur: u32 = match afind(&counts, c) {
                    Some(i) => counts[i].1,
                    None => 0,
                };
                ainsert(&mut counts, c, cur.saturating_add(1));
            }
        }
        o += 1;
    }
    counts
}

/// The counted ClOrdIDs as counted keys.
pub open spec fn clordid_entries(v: Seq<(Vec<u8>, u32)>) -> Seq<(Seq<u8>, Seq<u8>, u64)> {
    Seq::new(v.len(), |i: int| (v[i].0@, Seq::<u8>::empty(), v[i].1 as u64))
}

/// The `limit` most frequent ClOrdIDs, ties by value.
pub fn top_clordids(counts: &Vec<(Vec<u8>, u32)>, limit: usize) -> (r: Vec<Counted>)
    ensures
        exists|all: Seq<(Seq<u8>, Seq<u8>, u64)>|
            ranked(all) && all.to_multiset() == clordid_entries(counts@).to_multiset() && counted_views(r@)
                == all.take(if all.len() < limit { all.len() as int } else { limit as int }),
{
    let mut v: Vec<Counted> = Vec::new();
    let mut i: usize = 0;
    while i < counts.len()
        invariant
            i <= counts@.len(),
            v@.len() == i,
            counted_views(v@) == clordid_entries(counts@).take(i as int),
        decreases counts@.len() - i,
    {
        let ghost before = v@;
        v.push((copy_bytes(counts[i].0.as_slice()), Vec::new(), counts[i].1 as u64));
        proof {
            assert forall|q: int| 0 <= q < v@.len() implies counted_views(v@)[q] == clordid_entries(counts@).take(
                i + 1,
            )[q] by {
                if q < i {
                    assert(v@[q] == before[q]);
                    assert(counted_views(before)[q] == crate::commands::rank::counted_view(before[q]));
                } else {
                    assert(counted_views(v@)[q] == crate::commands::rank::counted_view(v@[q]));
                }
            }
            assert(counted_views(v@) =~= clordid_entries(counts@).take(i + 1));
        }
        i += 1;
    }
    assert(clordid_entries(counts@).take(counts@.len() as int) =~= clordid_entries(counts@));
    let all = rank(v);
    let ghost av = counted_views(all@);
    let r = take_first(all, limit);
    assert(counted_views(r@) =~= av.take(if av.len() < limit { av.len() as int } else { limit as int }));
    r
}

/// A byte string as a JSON string (read as text, escaped, quoted).
pub open spec fn json_str(b: Seq<u8>) -> Seq<u8> {
    str_bytes("\"") + json_escape(utf8_lossy(b)) + str_bytes("\"")
}

/// Items joined by commas.
pub open spec fn comma_list(items: Seq<Seq<u8>>) -> Seq<u8>
    decreases items.len(),
{
    if items.len() == 0 {
        Seq::empty()
    } else if items.len() == 1 {
        items[0]
    } else {
        comma_list(items.drop_last()) + str_bytes(",") + items.last()
    }
}

/// An optional member `,"<key>":"<value>"`, nothing when absent.
pub open spec fn opt_member(key: &str, v: Option<Vec<u8>>) -> Seq<u8> {
    match v {
        Some(b) => str_bytes(",\"") + str_bytes(key) + str_bytes("\":") + json_str(b@),
        None => Seq::empty(),
    }
}

/// The JSON object of one event.
pub open spec fn event_json(e: OrderEvent) -> Seq<u8> {
    str_bytes("{\"ordinal\":") + decimal(e.ordinal as nat) + str_bytes(",\"msg_type\":") + json_str(e.msg_type@)
        + opt_member("exec_type", e.exec_type) + opt_member("ord_status", e.ord_status) + opt_member(
        "cum_qty",
        e.cum_qty,
    ) + str_bytes("}")
}

/// The JSON line of a timeline: its ClOrdID, OrderIDs and events.
pub open spec fn timeline_json(tl: OrderTimeline) -> Seq<u8> {
    str_bytes("{\"clordid\":") + json_str(tl.clordid@) + str_bytes(",\"order_ids\":[") + comma_list(
        Seq::new(tl.order_ids@.len(), |i: int| json_str(tl.order_ids@[i]@)),
    ) + str_bytes("],\"events\":[") + comma_list(Seq::new(tl.events@.len(), |i: int| event_json(tl.events@[i])))
        + str_bytes("]}\n")
}

/// Append a byte string as a JSON string.
pub(crate) fn write_json_str(out: &mut Vec<u8>, b: &[u8])
    ensures
        final(out)@ == old(out)@ + json_str(b@),
{
    push_bytes(out, "\"".as_bytes());
    write_json_string(out, b);
    push_bytes(out, "\"".as_bytes());
    assert(out@ =~= old(out)@ + json_str(b@));
}

/// Append an optional member.
fn write_opt_member(out: &mut Vec<u8>, key: &str, v: &Option<Vec<u8>>)
    ensures
        final(out)@ == old(out)@ + opt_member(key, *v),
{
    match v {
        Some(b) => {
            push_bytes(out, ",\"".as_bytes());
            push_bytes(out, key.as_bytes());
            push_bytes(out, "\":".as_bytes());
            write_json_str(out, b.as_slice());
        },
        None => {},
    }
    assert(out@ =~= old(out)@ + opt_member(key, *v));
}

/// Append the JSON object of one event.
#[verifier::rlimit(30)]
fn write_event_json(out: &mut Vec<u8>, e: &OrderEvent)
    ensures
        final(out)@ == old(out)@ + event_json(*e),
{
    push_bytes(out, "{\"ordinal\":".as_bytes());
    push_decimal(out, e.ordinal as u64);
    push_bytes(out, ",\"msg_type\":".as_bytes());
    write_json_str(out, e.msg_type.as_slice());
    write_opt_member(out, "exec_type", &e.exec_type);
    write_opt_member(out, "ord_status", &e.ord_status);
    write_opt_member(out, "cum_qty", &e.cum_qty);
    push_bytes(out, "}".as_bytes());
    assert(out@ =~= old(out)@ + event_json(*e));
}

/// Write a timeline as one JSON line.
#[verifier::rlimit(30)]
pub fn write_timeline_json(out: &mut Vec<u8>, tl: &OrderTimeline)
    ensures
        final(out)@ == old(out)@ + timeline_json(*tl),
{
    push_bytes(out, "{\"clordid\":".as_bytes());
    write_json_str(out, tl.clordid.as_slice());
    push_bytes(out, ",\"order_ids\":[".as_bytes());
    let ghost h1 = out@;
    let ghost ids = Seq::new(tl.order_ids@.len(), |i: int| json_str(tl.order_ids@[i]@));
    let mut i: usize = 0;
    while i < tl.order_ids.len()
        invariant
            i <= tl.order_ids@.len(),
            ids == Seq::new(tl.order_ids@.len(), |i: int| json_str(tl.order_ids@[i]@)),
            out@ == h1 + comma_list(ids.take(i as int)),
        decreases tl.order_ids@.len() - i,
    {
        if i > 0 {
            push_bytes(out, ",".as_bytes());
        }
        write_json_str(out, tl.order_ids[i].as_slice());
        proof {
            assert(ids.take(i + 1).drop_last() =~= ids.take(i as int));
            if i == 0 {
                assert(comma_list(ids.take(0)) =~= Seq::<u8>::empty());
                assert(comma_list(ids.take(1)) == ids.take(1)[0]);
            }
        }
        i += 1;
    }
    assert(ids.take(ids.len() as int) =~= ids);
    push_bytes(out, "],\"events\":[".as_bytes());
    let ghost h2 = out@;
    let ghost evs = Seq::new(tl.events@.len(), |i: int| event_json(tl.events@[i]));
    let mut j: usize = 0;
    while j < tl.events.len()
        invariant
            j <= tl.events@.len(),
            evs == Seq::new(tl.events@.len(), |i: int| event_json(tl.events@[i])),
            out@ == h2 + comma_list(evs.take(j as int)),
        decreases tl.events@.len() - j,
    {
        if j > 0 {
            push_bytes(out, ",".as_bytes());
        }
        write_event_json(out, &tl.events[j]);
        proof {
            assert(evs.take(j + 1).drop_last() =~= evs.take(j as int));
            if j == 0 {
                assert(comma_list(evs.take(0)) =~= Seq::<u8>::empty());
                assert(comma_list(evs.take(1)) == evs.take(1)[0]);
            }
        }
        j += 1;
    }
    assert(evs.take(evs.len() as int) =~= evs);
    push_bytes(out, "]}\n".as_bytes());
    assert(out@ =~= old(out)@ + timeline_json(*tl));
}


/// Columns of the Gantt row under a timeline.
pub const GANTT_WIDTH: usize = 60;

/// An optional field as text, `-` when absent.
pub open spec fn opt_text(v: Option<Vec<u8>>) -> Seq<char> {
    match v {
        Some(b) => text_of(b@),
        None => seq!['-'],
    }
}

/// One row of the event table: ordinal, MsgType, ExecType, OrdStatus and
/// CumQty, right-aligned in columns of 8, 6, 8, 8 and 8 characters.
pub open spec fn event_row(e: OrderEvent) -> Seq<u8> {
    pad_left(decimal(e.ordinal as nat), 8) + str_bytes("  ") + right_col(text_of(e.msg_type@), 6) + str_bytes("  ")
        + right_col(opt_text(e.exec_type), 8) + str_bytes("  ") + right_col(opt_text(e.ord_status), 8) + str_bytes(
        "  ",
    ) + right_col(opt_text(e.cum_qty), 8) + str_bytes("\n")
}

/// The rows of the event table, in order.
pub open spec fn event_rows(es: Seq<OrderEvent>) -> Seq<u8>
    decreases es.len(),
{
    if es.len() == 0 {
        Seq::empty()
    } else {
        event_rows(es.drop_last()) + event_row(es.last())
    }
}

/// The OrderIDs of a timeline as text joined by `, `.
pub open spec fn order_ids_text(tl: OrderTimeline) -> Seq<u8> {
    join(Seq::new(tl.order_ids@.len(), |i: int| utf8_lossy(tl.order_ids@[i]@)), str_bytes(", "))
}

/// The table of a timeline: a summary line, the event table under a
/// header and a rule, and the Gantt row of [`GANTT_WIDTH`] columns.
pub open spec fn timeline_pretty(tl: OrderTimeline) -> Seq<u8> {
    timeline_head(tl) + str_bytes(
        " ordinal    type      exec    status   cum-qty\n",
    ) + str_bytes("----------------------------------------------\n") + event_rows(tl.events@) + str_bytes(
        "\nGantt (60 cols, N=D X=8 C=F R=G !=3/j ?=other):\n  ",
    ) + gantt_bytes(tl.events@, GANTT_WIDTH as int) + str_bytes("\n")
}

/// Append an optional field right-aligned in a column of `w` characters,
/// `-` when absent.
#[verifier::rlimit(40)]
fn push_opt_col(out: &mut Vec<u8>, v: &Option<Vec<u8>>, w: usize)
    ensures
        final(out)@ == old(out)@ + right_col(opt_text(*v), w as nat),
{
    match v {
        Some(b) => {
            let t = lossy_string(b.as_slice());
            assert(t@ == opt_text(*v));
            push_right_col(out, t.as_str(), w);
        },
        None => {
            let dash = "-";
            proof {
                reveal_strlit("-");
            }
            assert(dash@ == opt_text(*v));
            push_right_col(out, dash, w);
        },
    }
}

/// Append one row of the event table.
#[verifier::rlimit(50)]
fn write_event_row(out: &mut Vec<u8>, e: &OrderEvent)
    ensures
        final(out)@ == old(out)@ + event_row(*e),
{
    let digits = {
        let mut d: Vec<u8> = Vec::new();
        push_decimal(&mut d, e.ordinal as u64);
        d
    };
    if digits.len() < 8 {
        push_spaces(out, 8 - digits.len());
    } else {
        push_spaces(out, 0);
    }
    push_bytes(out, digits.as_slice());
    push_bytes(out, "  ".as_bytes());
    let mt = lossy_string(e.msg_type.as_slice());
    push_right_col(out, mt.as_str(), 6);
    push_bytes(out, "  ".as_bytes());
    push_opt_col(out, &e.exec_type, 8);
    push_bytes(out, "  ".as_bytes());
    push_opt_col(out, &e.ord_status, 8);
    push_bytes(out, "  ".as_bytes());
    push_opt_col(out, &e.cum_qty, 8);
    push_bytes(out, "\n".as_bytes());
    assert(out@ =~= old(out)@ + event_row(*e));
}

/// The summary line of a timeline and the blank line after it.
pub open spec fn timeline_head(tl: OrderTimeline) -> Seq<u8> {
    str_bytes("ClOrdID: ") + utf8_lossy(tl.clordid@) + str_bytes("   OrderID(s): [") + order_ids_text(tl)
        + str_bytes("]   events: ") + decimal(tl.events@.len()) + str_bytes("\n\n")
}

/// Append the summary line of a timeline and a blank line.
#[verifier::rlimit(40)]
fn write_timeline_head(out: &mut Vec<u8>, tl: &OrderTimeline)
    ensures
        final(out)@ == old(out)@ + timeline_head(*tl),
{
    push_bytes(out, "ClOrdID: ".as_bytes());
    let c = lossy(tl.clordid.as_slice());
    push_bytes(out, c.as_slice());
    push_bytes(out, "   OrderID(s): [".as_bytes());
    let ghost h1 = out@;
    let ghost ids = Seq::new(tl.order_ids@.len(), |i: int| utf8_lossy(tl.order_ids@[i]@));
    let mut i: usize = 0;
    while i < tl.order_ids.len()
        invariant
            i <= tl.order_ids@.len(),
            ids == Seq::new(tl.order_ids@.len(), |i: int| utf8_lossy(tl.order_ids@[i]@)),
            out@ == h1 + join(ids.take(i as int), str_bytes(", ")),
        decreases tl.order_ids@.len() - i,
    {
        if i > 0 {
            push_bytes(out, ", ".as_bytes());
        }
        let t = lossy(tl.order_ids[i].as_slice());
        push_bytes(out, t.as_slice());
        proof {
            assert(ids.take(i + 1).drop_last() =~= ids.take(i as int));
            if i == 0 {
                assert(join(ids.take(0), str_bytes(", ")) =~= Seq::<u8>::empty());
            }
        }
        i += 1;
    }
    assert(ids.take(ids.len() as int) =~= ids);
    push_bytes(out, "]   events: ".as_bytes());
    push_decimal(out, tl.events.len() as u64);
    push_bytes(out, "\n\n".as_bytes());
    assert(out@ =~= old(out)@ + timeline_head(*tl));
}

/// Write a timeline as a table: the ClOrdID, its OrderIDs and event count,
/// one row per event, and its Gantt row.
#[verifier::rlimit(40)]
pub fn write_timeline_pretty(out: &mut Vec<u8>, tl: &OrderTimeline)
    requires
        forall|i: int|
            0 <= i < tl.events@.len() ==> ((#[trigger] tl.events@[i]).sending_time matches Some(t) ==> t * 500
                <= u128::MAX),
    ensures
        final(out)@ == old(out)@ + timeline_pretty(*tl),
{
    write_timeline_head(out, tl);
    push_bytes(out, " ordinal    type      exec    status   cum-qty\n".as_bytes());
    push_bytes(out, "----------------------------------------------\n".as_bytes());
    let ghost h2 = out@;
    let mut k: usize = 0;
    while k < tl.events.len()
        invariant
            k <= tl.events@.len(),
            out@ == h2 + event_rows(tl.events@.take(k as int)),
        decreases tl.events@.len() - k,
    {
        write_event_row(out, &tl.events[k]);
        assert(tl.events@.take(k + 1).drop_last() =~= tl.events@.take(k as int));
        k += 1;
    }
    assert(tl.events@.take(tl.events@.len() as int) =~= tl.events@);
    push_bytes(out, "\nGantt (60 cols, N=D X=8 C=F R=G !=3/j ?=other):\n  ".as_bytes());
    let g = render_gantt(tl, GANTT_WIDTH);
    push_bytes(out, g.as_str().as_bytes());
    push_bytes(out, "\n".as_bytes());
    assert(out@ =~= old(out)@ + timeline_pretty(*tl));
}

/// The table line of one ClOrdID: the ClOrdID cut to 40 characters and
/// left-aligned in 40, a space, and its count right-aligned in 8.
pub open spec fn index_row(e: (Seq<u8>, Seq<u8>, u64)) -> Seq<u8> {
    left_col(truncated(text_of(e.0), 40), 40) + str_bytes(" ") + pad_left(decimal(e.2 as nat), 8) + str_bytes("\n")
}

/// The table lines of ClOrdIDs, in order.
pub open spec fn index_rows(es: Seq<(Seq<u8>, Seq<u8>, u64)>) -> Seq<u8>
    decreases es.len(),
{
    if es.len() == 0 {
        Seq::empty()
    } else {
        index_rows(es.drop_last()) + index_row(es.last())
    }
}

/// The ClOrdID table: `(no orders)` when there is none, else a header, a
/// rule and one line per ClOrdID.
pub open spec fn index_pretty(es: Seq<(Seq<u8>, Seq<u8>, u64)>) -> Seq<u8> {
    if es.len() == 0 {
        str_bytes("(no orders)\n")
    } else {
        str_bytes("clordid                                    events\n") + str_bytes("-------------------------------------------------\n")
            + index_rows(es)
    }
}

/// Write ClOrdIDs and their message counts as a table.
#[verifier::rlimit(40)]
pub fn write_index_pretty(out: &mut Vec<u8>, entries: &Vec<Counted>)
    ensures
        final(out)@ == old(out)@ + index_pretty(counted_views(entries@)),
{
    if entries.len() == 0 {
        push_bytes(out, "(no orders)\n".as_bytes());
        return;
    }
    push_bytes(out, "clordid                                    events\n".as_bytes());
    push_bytes(out, "-------------------------------------------------\n".as_bytes());
    let ghost h = out@;
    let ghost es = counted_views(entries@);
    let mut i: usize = 0;
    while i < entries.len()
        invariant
            i <= entries@.len(),
            es == counted_views(entries@),
            out@ == h + index_rows(es.take(i as int)),
        decreases entries@.len() - i,
    {
        let ghost before = out@;
        let t = lossy_string(entries[i].0.as_slice());
        let cut = truncate(t.as_str(), 40);
        push_left_col(out, cut.as_str(), 40);
        push_bytes(out, " ".as_bytes());
        let mut d: Vec<u8> = Vec::new();
        push_decimal(&mut d, entries[i].2);
        if d.len() < 8 {
            push_spaces(out, 8 - d.len());
        } else {
            push_spaces(out, 0);
        }
        push_bytes(out, d.as_slice());
        push_bytes(out, "\n".as_bytes());
        proof {
            assert(es[i as int] == counted_view(entries@[i as int]));
            assert(out@ =~= before + index_row(es[i as int]));
            assert(es.take(i + 1).drop_last() =~= es.take(i as int));
        }
        i += 1;
    }
    assert(es.take(es.len() as int) =~= es);
}

/// The JSON line of one ClOrdID and its message count.
pub open spec fn index_json_line(e: (Seq<u8>, Seq<u8>, u64)) -> Seq<u8> {
    str_bytes("{\"clordid\":") + json_str(e.0) + str_bytes(",\"events\":") + decimal(e.2 as nat) + str_bytes(
        "}\n",
    )
}

/// The JSON lines of ClOrdIDs, in order.
pub open spec fn index_json(es: Seq<(Seq<u8>, Seq<u8>, u64)>) -> Seq<u8>
    decreases es.len(),
{
    if es.len() == 0 {
        Seq::empty()
    } else {
        index_json(es.drop_last()) + index_json_line(es.last())
    }
}

/// Write ClOrdIDs and their message counts, one JSON object per line.
#[verifier::rlimit(40)]
pub fn write_index_json(out: &mut Vec<u8>, entries: &Vec<Counted>)
    ensures
        final(out)@ == old(out)@ + index_json(counted_views(entries@)),
{
    let ghost h = out@;
    let ghost es = counted_views(entries@);
    let mut i: usize = 0;
    while i < entries.len()
        invariant
            i <= entries@.len(),
            es == counted_views(entries@),
            out@ == h + index_json(es.take(i as int)),
        decreases entries@.len() - i,
    {
        let ghost before = out@;
        push_bytes(out, "{\"clordid\":".as_bytes());
        write_json_str(out, entries[i].0.as_slice());
        push_bytes(out, ",\"events\":".as_bytes());
        push_decimal(out, entries[i].2);
        push_bytes(out, "}\n".as_bytes());
        proof {
            assert(es[i as int] == counted_view(entries@[i as int]));
            assert(out@ =~= before + index_json_line(es[i as int]));
            assert(es.take(i + 1).drop_last() =~= es.take(i as int));
        }
        i += 1;
    }
    assert(es.take(es.len() as int) =~= es);
}

} // verus!
