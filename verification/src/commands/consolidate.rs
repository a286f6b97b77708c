//! The `orders consolidate` command: its output formats, its sort orders,
//! and the ordering of the consolidated rows by the integer criteria.
use vstd::prelude::*;

use crate::analysis::consolidated::OrderConsolidated;
use crate::analysis::sets::{bytes_lt, lemma_lex_trans, lemma_lex_total, lex_lt};
use crate::commands::orders::{comma_list, json_str, write_json_str};
use crate::commands::text::{
    as_text, family_display, family_shown, family_texts, fmt_int, grouped_int, join, left_col, lossy_string,
    push_left_col, push_right_col, right_col, side_label, side_name, status_label, status_text, text_of,
    text_string, truncate, truncated,
};
use crate::render::{
    csv_escape, csv_escape_spec, decimal, lossy, pad_left, push_bytes, push_decimal, push_spaces, str_bytes,
    utf8_lossy,
};

verus! {

/// Output format of the consolidated summary.
#[derive(Clone, Copy, Debug, PartialEq, Eq, Structural)]
pub enum ConsolidatedFormat {
    Pretty,
    Csv,
    Json,
}

/// Sort criterion of the consolidated summary; every criterion lists the
/// largest first and breaks ties by root ClOrdID.
#[derive(Clone, Copy, Debug, PartialEq, Eq, Structural)]
pub enum ConsolidateSort {
    /// Traded value, the sum of LastQty × LastPx over the fills.
    Notional,
    /// Cumulative filled quantity.
    CumQty,
    /// Number of fills.
    Fills,
    /// Time of the last message of the order.
    Recent,
}

/// The integer a row is sorted by under `sort` (an order without any
/// timestamp ranks below every timestamp). Not used for
/// [`ConsolidateSort::Notional`], which is a decimal product.
pub open spec fn row_key(r: OrderConsolidated, sort: ConsolidateSort) -> int {
    match sort {
        ConsolidateSort::CumQty => r.cum_qty as int,
        ConsolidateSort::Fills => r.fills@.len() as int,
        ConsolidateSort::Recent => match r.last_seen {
            Some(t) => t as int,
            None => -1,
        },
        ConsolidateSort::Notional => 0,
    }
}

/// `a` is listed before `b`: a larger key, or the same key and a smaller
/// root ClOrdID.
pub open spec fn row_before(a: OrderConsolidated, b: OrderConsolidated, sort: ConsolidateSort) -> bool {
    row_key(a, sort) > row_key(b, sort) || (row_key(a, sort) == row_key(b, sort) && lex_lt(
        a.root_clordid@,
        b.root_clordid@,
    ))
}

/// No row should come before one listed ahead of it.
pub open spec fn rows_sorted(rows: Seq<OrderConsolidated>, sort: ConsolidateSort) -> bool {
    forall|i: int, j: int| 0 <= i < j < rows.len() ==> !row_before(rows[j], rows[i], sort)
}

/// Rows sorted by a criterion list the larger figure first: a larger
/// cumulative quantity, more fills, or a later last message (an order
/// with no timestamp comes after every order with one).
pub proof fn law_sorted_rows_largest_first(rows: Seq<OrderConsolidated>, sort: ConsolidateSort)
    requires
        rows_sorted(rows, sort),
    ensures
        forall|i: int, j: int|
            0 <= i < j < rows.len() ==> {
                &&& (sort == ConsolidateSort::CumQty ==> #[trigger] rows[i].cum_qty >= #[trigger] rows[j].cum_qty)
                &&& (sort == ConsolidateSort::Fills ==> rows[i].fills@.len() >= rows[j].fills@.len())
                &&& (sort == ConsolidateSort::Recent ==> match (rows[i].last_seen, rows[j].last_seen) {
                    (Some(x), Some(y)) => x >= y,
                    (None, Some(_)) => false,
                    _ => true,
                })
            },
{
    assert forall|i: int, j: int| 0 <= i < j < rows.len() implies {
        &&& (sort == ConsolidateSort::CumQty ==> #[trigger] rows[i].cum_qty >= #[trigger] rows[j].cum_qty)
        &&& (sort == ConsolidateSort::Fills ==> rows[i].fills@.len() >= rows[j].fills@.len())
        &&& (sort == ConsolidateSort::Recent ==> match (rows[i].last_seen, rows[j].last_seen) {
            (Some(x), Some(y)) => x >= y,
            (None, Some(_)) => false,
            _ => true,
        })
    } by {
        assert(!row_before(rows[j], rows[i], sort));
    }
}

proof fn lemma_row_before_trans(a: OrderConsolidated, b: OrderConsolidated, c: OrderConsolidated, sort: ConsolidateSort)
    requires
        row_before(a, b, sort),
        row_before(b, c, sort),
    ensures
        row_before(a, c, sort),
{
    if row_key(a, sort) == row_key(b, sort) && row_key(b, sort) == row_key(c, sort) {
        lemma_lex_trans(a.root_clordid@, b.root_clordid@, c.root_clordid@);
    }
}

/// Whether `a` is listed before `b`.
fn row_before_exec(a: &OrderConsolidated, b: &OrderConsolidated, sort: ConsolidateSort) -> (r: bool)
    requires
        sort != ConsolidateSort::Notional,
    ensures
        r == row_before(*a, *b, sort),
{
    let (gt, eq) = match sort {
        ConsolidateSort::CumQty => (a.cum_qty > b.cum_qty, a.cum_qty == b.cum_qty),
        ConsolidateSort::Fills => (a.fills.len() > b.fills.len(), a.fills.len() == b.fills.len()),
        _ => match (a.last_seen, b.last_seen) {
            (Some(x), Some(y)) => (x > y, x == y),
            (Some(_), None) => (true, false),
            (None, Some(_)) => (false, false),
            (None, None) => (false, true),
        },
    };
    gt || (eq && bytes_lt(a.root_clordid.as_slice(), b.root_clordid.as_slice()))
}

/// The rows ordered by `sort`, largest first, ties by root ClOrdID. The
/// decimal criterion [`ConsolidateSort::Notional`] is ordered by the caller.
pub fn sort_rows(rows: Vec<OrderConsolidated>, sort: ConsolidateSort) -> (r: Vec<OrderConsolidated>)
    requires
        sort != ConsolidateSort::Notional,
    ensures
        rows_sorted(r@, sort),
        r@.to_multiset() == rows@.to_multiset(),
        forall|i: int, j: int|
            0 <= i < j < r@.len() ==> {
                &&& (sort == ConsolidateSort::CumQty ==> #[trigger] r@[i].cum_qty >= #[trigger] r@[j].cum_qty)
                &&& (sort == ConsolidateSort::Fills ==> r@[i].fills@.len() >= r@[j].fills@.len())
                &&& (sort == ConsolidateSort::Recent ==> match (r@[i].last_seen, r@[j].last_seen) {
                    (Some(x), Some(y)) => x >= y,
                    (None, Some(_)) => false,
                    _ => true,
                })
            },
{
    let mut out: Vec<OrderConsolidated> = Vec::new();
    let mut rest = rows;
    let ghost all = rest@;
    let n = rest.len();
    assert(all.take(0) =~= Seq::<OrderConsolidated>::empty());
    assert(out@ =~= Seq::<OrderConsolidated>::empty());
    while rest.len() > 0
        invariant
            rest@.len() <= n,
            n == all.len(),
            sort != ConsolidateSort::Notional,
            rest@ == all.skip(n - rest@.len()),
            rows_sorted(out@, sort),
            out@.to_multiset() == all.take(n - rest@.len()).to_multiset(),
        decreases rest@.len(),
    {
        let ghost k = n - rest@.len();
        let ghost before_rest = rest@;
        let x = rest.remove(0);
        proof {
            assert(x == all[k]);
            assert(rest@ =~= all.skip(k + 1));
        }
        let mut i: usize = 0;
        while i < out.len() && !row_before_exec(&x, &out[i], sort)
            invariant
                i <= out@.len(),
                sort != ConsolidateSort::Notional,
                forall|j: int| 0 <= j < i ==> !row_before(x, #[trigger] out@[j], sort),
            decreases out@.len() - i,
        {
            i += 1;
        }
        let ghost before = out@;
        let ghost xv = x;
        out.insert(i, x);
        proof {
            vstd::seq_lib::to_multiset_insert(before, i as int, xv);
            assert(all.take(k + 1) =~= all.take(k).push(xv));
            vstd::seq_lib::to_multiset_build(all.take(k), xv);
            let ov = out@;
            assert forall|a: int, b: int| 0 <= a < b < ov.len() implies !row_before(ov[b], ov[a], sort) by {
                if a < i && b == i {
                    assert(ov[a] == before[a]);
                } else if a == i {
                    assert(ov[b] == before[b - 1]);
                    if row_before(before[b - 1], xv, sort) {
                        if i < before.len() {
                            lemma_row_before_trans(before[b - 1], xv, before[i as int], sort);
                            if b - 1 == i {
                                lemma_lex_total(before[i as int].root_clordid@, before[i as int].root_clordid@);
                            } else {
                                assert(!row_before(before[b - 1], before[i as int], sort));
                            }
                        }
                    }
                } else if b < i {
                    assert(ov[a] == before[a] && ov[b] == before[b]);
                } else if a < i {
                    assert(ov[a] == before[a] && ov[b] == before[b - 1]);
                } else {
                    assert(ov[a] == before[a - 1] && ov[b] == before[b - 1]);
                }
            }
        }
    }
    assert(all.take(n as int) =~= all);
    proof {
        law_sorted_rows_largest_first(out@, sort);
    }
    out
}


/// The two decimal figures of a row as the caller formatted them: the
/// notional and the average price.
pub open spec fn figure_view(f: (String, String)) -> (Seq<char>, Seq<char>) {
    (f.0@, f.1@)
}

/// An optional byte string as text, `none` when absent.
pub open spec fn opt_chars(v: Option<Vec<u8>>, none: Seq<char>) -> Seq<char> {
    match v {
        Some(b) => text_of(b@),
        None => none,
    }
}

/// The table line of one row, its family shown as `fam`: family (cut to
/// 18), side, symbol (cut to 8), order quantity and cumulative quantity
/// (digits grouped by commas), notional, average price, status (cut to 14)
/// and number of fills, in columns of 18, 5, 8, 10, 10, 15, 10, 14 and 5
/// characters separated by spaces; `-` for what is absent.
pub open spec fn pretty_row(r: OrderConsolidated, fam: Seq<u8>, fig: (Seq<char>, Seq<char>)) -> Seq<u8> {
    row_names(r, fam) + row_figures(r, fig)
}

/// The family, side and symbol columns of a table line, each followed by a
/// space.
pub open spec fn row_names(r: OrderConsolidated, fam: Seq<u8>) -> Seq<u8> {
    left_col(truncated(as_text(fam), 18), 18) + str_bytes(" ") + left_col(
        match r.side {
            Some(b) => side_name(b)@,
            None => seq!['-'],
        },
        5,
    ) + str_bytes(" ") + left_col(truncated(opt_chars(r.symbol, seq!['-']), 8), 8) + str_bytes(" ")
}

/// The quantity, figure, status and fill columns of a table line, and its
/// end.
pub open spec fn row_figures(r: OrderConsolidated, fig: (Seq<char>, Seq<char>)) -> Seq<u8> {
    qty_cols(r) + right_col(fig.0, 15) + str_bytes(" ") + right_col(fig.1, 10) + str_bytes(" ") + tail_cols(r)
}

/// The order quantity and cumulative quantity columns, digits grouped by
/// commas, each followed by a space.
pub open spec fn qty_cols(r: OrderConsolidated) -> Seq<u8> {
    pad_left(
        match r.order_qty {
            Some(q) => grouped_int(q as nat),
            None => str_bytes("-"),
        },
        10,
    ) + str_bytes(" ") + pad_left(grouped_int(r.cum_qty as nat), 10) + str_bytes(" ")
}

/// The status and fill columns and the end of the line.
pub open spec fn tail_cols(r: OrderConsolidated) -> Seq<u8> {
    left_col(
        truncated(
            match r.final_ord_status {
                Some(v) => as_text(status_text(v@)),
                None => seq!['-'],
            },
            14,
        ),
        14,
    ) + str_bytes(" ") + pad_left(decimal(r.fills@.len()), 5) + str_bytes("\n")
}

/// The table lines of the first `k` rows.
pub open spec fn pretty_rows(
    rows: Seq<OrderConsolidated>,
    fams: Seq<Seq<u8>>,
    figs: Seq<(String, String)>,
    k: int,
) -> Seq<u8>
    decreases k,
{
    if k <= 0 {
        Seq::empty()
    } else {
        pretty_rows(rows, fams, figs, k - 1) + pretty_row(rows[k - 1], fams[k - 1], figure_view(figs[k - 1]))
    }
}

/// The consolidated table: `(no orders)` when there is no row, else a
/// header, a rule and one line per row.
pub open spec fn consolidated_pretty(
    rows: Seq<OrderConsolidated>,
    fams: Seq<Seq<u8>>,
    figs: Seq<(String, String)>,
) -> Seq<u8> {
    if rows.len() == 0 {
        str_bytes("(no orders)\n")
    } else {
        str_bytes("ClOrdID            Side  Symbol     OrderQty     CumQty        Notional      AvgPx Status         Fills\n") + str_bytes("-------------------------------------------------------------------------------------------------------\n") + pretty_rows(rows, fams, figs, rows.len() as int)
    }
}

/// Each of `fams` shows the family of the row at its place.
pub open spec fn families_shown(rows: Seq<OrderConsolidated>, fams: Seq<Seq<u8>>) -> bool {
    &&& fams.len() == rows.len()
    &&& forall|i: int|
        0 <= i < rows.len() ==> family_shown(rows[i].root_clordid@, rows[i].family@, #[trigger] fams[i])
}

/// Append `s` right-aligned in a column of `w` bytes.
fn push_right_bytes(out: &mut Vec<u8>, s: &[u8], w: usize)
    ensures
        final(out)@ == old(out)@ + pad_left(s@, w as nat),
{
    if s.len() < w {
        push_spaces(out, w - s.len());
    } else {
        push_spaces(out, 0);
    }
    push_bytes(out, s);
    assert(out@ =~= old(out)@ + pad_left(s@, w as nat));
}

/// Append the family, side and symbol columns of a table line.
#[verifier::rlimit(40)]
fn write_row_names(out: &mut Vec<u8>, r: &OrderConsolidated, fam: Vec<u8>)
    ensures
        final(out)@ == old(out)@ + row_names(*r, fam@),
{
    let ghost famv = fam@;
    let ft = text_string(fam);
    assert(ft@ == as_text(famv));
    let fc = truncate(ft.as_str(), 18);
    push_left_col(out, fc.as_str(), 18);
    push_bytes(out, " ".as_bytes());
    let ghost p1 = out@;
    assert(p1 =~= old(out)@ + left_col(truncated(as_text(famv), 18), 18) + str_bytes(" "));
    match r.side {
        Some(b) => {
            let name = side_label(b);
            push_left_col(out, name, 5);
            assert(out@ == p1 + left_col(side_name(b)@, 5));
        },
        None => {
            let dash = "-";
            proof {
                reveal_strlit("-");
            }
            push_left_col(out, dash, 5);
            assert(dash@ =~= seq!['-']);
        },
    }
    let ghost side_col = left_col(
        match r.side {
            Some(b) => side_name(b)@,
            None => seq!['-'],
        },
        5,
    );
    assert(out@ == p1 + side_col);
    push_bytes(out, " ".as_bytes());
    let ghost p2 = out@;
    let sym = match &r.symbol {
        Some(b) => lossy_string(b.as_slice()),
        None => {
            let dash = "-";
            proof {
                reveal_strlit("-");
            }
            String::from_str(dash)
        },
    };
    assert(sym@ == opt_chars(r.symbol, seq!['-']));
    let sc = truncate(sym.as_str(), 8);
    push_left_col(out, sc.as_str(), 8);
    push_bytes(out, " ".as_bytes());
    assert(out@ =~= p2 + left_col(truncated(opt_chars(r.symbol, seq!['-']), 8), 8) + str_bytes(" "));
    assert(out@ =~= old(out)@ + row_names(*r, famv));
}

/// Append the quantity columns of a table line.
#[verifier::rlimit(40)]
fn write_qty_cols(out: &mut Vec<u8>, r: &OrderConsolidated)
    ensures
        final(out)@ == old(out)@ + qty_cols(*r),
{
    let oq = match r.order_qty {
        Some(q) => fmt_int(q),
        None => {
            let mut d: Vec<u8> = Vec::new();
            push_bytes(&mut d, "-".as_bytes());
            d
        },
    };
    assert(oq@ =~= match r.order_qty {
        Some(q) => grouped_int(q as nat),
        None => str_bytes("-"),
    });
    push_right_bytes(out, oq.as_slice(), 10);
    push_bytes(out, " ".as_bytes());
    let cq = fmt_int(r.cum_qty);
    push_right_bytes(out, cq.as_slice(), 10);
    push_bytes(out, " ".as_bytes());
    assert(out@ =~= old(out)@ + qty_cols(*r));
}

/// Append the status and fill columns and end the line.
#[verifier::rlimit(40)]
fn write_tail_cols(out: &mut Vec<u8>, r: &OrderConsolidated)
    ensures
        final(out)@ == old(out)@ + tail_cols(*r),
{
    let st = match &r.final_ord_status {
        Some(v) => text_string(status_label(v.as_slice())),
        None => {
            let dash = "-";
            proof {
                reveal_strlit("-");
            }
            String::from_str(dash)
        },
    };
    assert(st@ =~= match r.final_ord_status {
        Some(v) => as_text(status_text(v@)),
        None => seq!['-'],
    });
    let stc = truncate(st.as_str(), 14);
    push_left_col(out, stc.as_str(), 14);
    push_bytes(out, " ".as_bytes());
    let mut d: Vec<u8> = Vec::new();
    push_decimal(&mut d, r.fills.len() as u64);
    push_right_bytes(out, d.as_slice(), 5);
    push_bytes(out, "\n".as_bytes());
    assert(out@ =~= old(out)@ + tail_cols(*r));
}

/// Append the quantity, figure, status and fill columns of a table line.
#[verifier::rlimit(40)]
fn write_row_figures(out: &mut Vec<u8>, r: &OrderConsolidated, fig: &(String, String))
    ensures
        final(out)@ == old(out)@ + row_figures(*r, figure_view(*fig)),
{
    write_qty_cols(out, r);
    push_right_col(out, fig.0.as_str(), 15);
    push_bytes(out, " ".as_bytes());
    push_right_col(out, fig.1.as_str(), 10);
    push_bytes(out, " ".as_bytes());
    write_tail_cols(out, r);
    assert(out@ =~= old(out)@ + row_figures(*r, figure_view(*fig)));
}

/// Append the table line of one row.
#[verifier::rlimit(40)]
fn write_pretty_row(out: &mut Vec<u8>, r: &OrderConsolidated, fam: Vec<u8>, fig: &(String, String))
    ensures
        final(out)@ == old(out)@ + pretty_row(*r, fam@, figure_view(*fig)),
{
    let ghost famv = fam@;
    write_row_names(out, r, fam);
    write_row_figures(out, r, fig);
    assert(out@ =~= old(out)@ + pretty_row(*r, famv, figure_view(*fig)));
}

/// Write the consolidated rows as a table; `figures` holds, row by row,
/// the notional and the average price as the caller formatted them.
#[verifier::rlimit(40)]
pub fn write_pretty(out: &mut Vec<u8>, rows: &Vec<OrderConsolidated>, figures: &Vec<(String, String)>)
    requires
        figures@.len() == rows@.len(),
    ensures
        exists|fams: Seq<Seq<u8>>|
            families_shown(rows@, fams) && final(out)@ == old(out)@ + consolidated_pretty(rows@, fams, figures@),
{
    if rows.len() == 0 {
        push_bytes(out, "(no orders)\n".as_bytes());
        assert(families_shown(rows@, Seq::<Seq<u8>>::empty()));
        return;
    }
    push_bytes(out, "ClOrdID            Side  Symbol     OrderQty     CumQty        Notional      AvgPx Status         Fills\n".as_bytes());
    push_bytes(out, "-------------------------------------------------------------------------------------------------------\n".as_bytes());
    let ghost h = out@;
    let ghost mut fams: Seq<Seq<u8>> = Seq::empty();
    let mut i: usize = 0;
    while i < rows.len()
        invariant
            i <= rows@.len(),
            figures@.len() == rows@.len(),
            fams.len() == i,
            forall|j: int|
                0 <= j < i ==> family_shown(rows@[j].root_clordid@, rows@[j].family@, #[trigger] fams[j]),
            out@ == h + pretty_rows(rows@, fams, figures@, i as int),
        decreases rows@.len() - i,
    {
        let r = &rows[i];
        let fam = family_display(r.root_clordid.as_slice(), &r.family);
        let ghost fv = fam@;
        write_pretty_row(out, r, fam, &figures[i]);
        proof {
            let f2 = fams.push(fv);
            lemma_pretty_rows_prefix(rows@, fams, f2, figures@, i as int);
            fams = f2;
        }
        i += 1;
    }
    assert(families_shown(rows@, fams));
}

/// The table lines of the first `k` rows depend on the first `k` shown
/// families only.
proof fn lemma_pretty_rows_prefix(
    rows: Seq<OrderConsolidated>,
    f1: Seq<Seq<u8>>,
    f2: Seq<Seq<u8>>,
    figs: Seq<(String, String)>,
    k: int,
)
    requires
        0 <= k <= f1.len(),
        k <= f2.len(),
        forall|j: int| 0 <= j < k ==> f1[j] == f2[j],
    ensures
        pretty_rows(rows, f1, figs, k) == pretty_rows(rows, f2, figs, k),
    decreases k,
{
    if k > 0 {
        lemma_pretty_rows_prefix(rows, f1, f2, figs, k - 1);
    }
}

/// An optional byte string read as text, nothing when absent.
pub open spec fn opt_lossy(v: Option<Vec<u8>>) -> Seq<u8> {
    match v {
        Some(b) => utf8_lossy(b@),
        None => Seq::empty(),
    }
}

/// The CSV fields of a row that name it: root ClOrdID, family (joined by
/// `|`), side, symbol; each followed by a comma.
pub open spec fn csv_names(r: OrderConsolidated) -> Seq<u8> {
    csv_escape_spec(utf8_lossy(r.root_clordid@)) + str_bytes(",") + csv_escape_spec(
        join(family_texts(r.family@), str_bytes("|")),
    ) + str_bytes(",") + match r.side {
        Some(b) => str_bytes(side_name(b)),
        None => Seq::empty(),
    } + str_bytes(",") + csv_escape_spec(opt_lossy(r.symbol)) + str_bytes(",")
}

/// The CSV fields of a row that measure it: order quantity, cumulative
/// quantity, notional, average price, fills and final status.
pub open spec fn csv_figures(r: OrderConsolidated, fig: (Seq<char>, Seq<char>)) -> Seq<u8> {
    csv_amounts(r, fig) + csv_escape_spec(
        match r.final_ord_status {
            Some(v) => status_text(v@),
            None => Seq::empty(),
        },
    ) + str_bytes("\n")
}

/// The quantity, amount and fill fields of a CSV line, each followed by a
/// comma.
pub open spec fn csv_amounts(r: OrderConsolidated, fig: (Seq<char>, Seq<char>)) -> Seq<u8> {
    (match r.order_qty {
        Some(q) => decimal(q as nat),
        None => Seq::empty(),
    }) + str_bytes(",") + decimal(r.cum_qty as nat) + str_bytes(",") + vstd::utf8::encode_utf8(fig.0) + str_bytes(
        ",",
    ) + vstd::utf8::encode_utf8(fig.1) + str_bytes(",") + decimal(r.fills@.len()) + str_bytes(",")
}

/// The CSV line of a row.
pub open spec fn csv_line(r: OrderConsolidated, fig: (Seq<char>, Seq<char>)) -> Seq<u8> {
    csv_names(r) + csv_figures(r, fig)
}

/// The CSV lines of the first `k` rows.
pub open spec fn csv_lines(rows: Seq<OrderConsolidated>, figs: Seq<(String, String)>, k: int) -> Seq<u8>
    decreases k,
{
    if k <= 0 {
        Seq::empty()
    } else {
        csv_lines(rows, figs, k - 1) + csv_line(rows[k - 1], figure_view(figs[k - 1]))
    }
}

/// The consolidated rows as CSV: a header line and one line per row.
pub open spec fn consolidated_csv(rows: Seq<OrderConsolidated>, figs: Seq<(String, String)>) -> Seq<u8> {
    str_bytes("root_clordid,family,side,symbol,order_qty,cum_qty,notional,avg_px,fills,final_ord_status\n")
        + csv_lines(rows, figs, rows.len() as int)
}

/// Append the family texts joined by `sep`.
#[verifier::rlimit(40)]
fn write_joined_family(out: &mut Vec<u8>, family: &Vec<Vec<u8>>, sep: &str)
    ensures
        final(out)@ == old(out)@ + join(family_texts(family@), str_bytes(sep)),
{
    let ghost h = out@;
    let ghost ts = family_texts(family@);
    let mut i: usize = 0;
    while i < family.len()
        invariant
            i <= family@.len(),
            ts == family_texts(family@),
            out@ == h + join(ts.take(i as int), str_bytes(sep)),
        decreases family@.len() - i,
    {
        if i > 0 {
            push_bytes(out, sep.as_bytes());
        }
        let t = lossy(family[i].as_slice());
        push_bytes(out, t.as_slice());
        proof {
            assert(ts.take(i + 1).drop_last() =~= ts.take(i as int));
            if i == 0 {
                assert(join(ts.take(0), str_bytes(sep)) =~= Seq::<u8>::empty());
            }
        }
        i += 1;
    }
    assert(ts.take(ts.len() as int) =~= ts);
}

/// Append the naming fields of a CSV line.
#[verifier::rlimit(40)]
fn write_csv_names(out: &mut Vec<u8>, r: &OrderConsolidated)
    ensures
        final(out)@ == old(out)@ + csv_names(*r),
{
    let root = lossy(r.root_clordid.as_slice());
    csv_escape(out, root.as_slice());
    push_bytes(out, ",".as_bytes());
    let mut fam: Vec<u8> = Vec::new();
    write_joined_family(&mut fam, &r.family, "|");
    csv_escape(out, fam.as_slice());
    push_bytes(out, ",".as_bytes());
    match r.side {
        Some(b) => push_bytes(out, side_label(b).as_bytes()),
        None => {},
    }
    push_bytes(out, ",".as_bytes());
    let sym: Vec<u8> = match &r.symbol {
        Some(b) => lossy(b.as_slice()),
        None => Vec::new(),
    };
    assert(sym@ =~= opt_lossy(r.symbol));
    csv_escape(out, sym.as_slice());
    push_bytes(out, ",".as_bytes());
    assert(out@ =~= old(out)@ + csv_names(*r));
}

/// Append the quantity, amount and fill fields of a CSV line.
#[verifier::rlimit(40)]
fn write_csv_amounts(out: &mut Vec<u8>, r: &OrderConsolidated, fig: &(String, String))
    ensures
        final(out)@ == old(out)@ + csv_amounts(*r, figure_view(*fig)),
{
    match r.order_qty {
        Some(q) => push_decimal(out, q),
        None => {},
    }
    assert(out@ =~= old(out)@ + match r.order_qty {
        Some(q) => decimal(q as nat),
        None => Seq::<u8>::empty(),
    });
    push_bytes(out, ",".as_bytes());
    push_decimal(out, r.cum_qty);
    push_bytes(out, ",".as_bytes());
    push_bytes(out, fig.0.as_str().as_bytes());
    push_bytes(out, ",".as_bytes());
    push_bytes(out, fig.1.as_str().as_bytes());
    push_bytes(out, ",".as_bytes());
    push_decimal(out, r.fills.len() as u64);
    push_bytes(out, ",".as_bytes());
    assert(out@ =~= old(out)@ + csv_amounts(*r, figure_view(*fig)));
}

/// Append the measuring fields of a CSV line and end it.
#[verifier::rlimit(40)]
fn write_csv_figures(out: &mut Vec<u8>, r: &OrderConsolidated, fig: &(String, String))
    ensures
        final(out)@ == old(out)@ + csv_figures(*r, figure_view(*fig)),
{
    write_csv_amounts(out, r, fig);
    let st: Vec<u8> = match &r.final_ord_status {
        Some(v) => status_label(v.as_slice()),
        None => Vec::new(),
    };
    assert(st@ =~= match r.final_ord_status {
        Some(v) => status_text(v@),
        None => Seq::<u8>::empty(),
    });
    csv_escape(out, st.as_slice());
    push_bytes(out, "\n".as_bytes());
    assert(out@ =~= old(out)@ + csv_figures(*r, figure_view(*fig)));
}

/// Write the consolidated rows as CSV; `figures` holds, row by row, the
/// notional and the average price as the caller formatted them.
#[verifier::rlimit(40)]
pub fn write_csv(out: &mut Vec<u8>, rows: &Vec<OrderConsolidated>, figures: &Vec<(String, String)>)
    requires
        figures@.len() == rows@.len(),
    ensures
        final(out)@ == old(out)@ + consolidated_csv(rows@, figures@),
{
    push_bytes(
        out,
        "root_clordid,family,side,symbol,order_qty,cum_qty,notional,avg_px,fills,final_ord_status\n".as_bytes(),
    );
    let ghost h = out@;
    let mut i: usize = 0;
    while i < rows.len()
        invariant
            i <= rows@.len(),
            figures@.len() == rows@.len(),
            out@ == h + csv_lines(rows@, figures@, i as int),
        decreases rows@.len() - i,
    {
        write_csv_names(out, &rows[i]);
        write_csv_figures(out, &rows[i], &figures[i]);
        i += 1;
    }
    assert(out@ =~= old(out)@ + consolidated_csv(rows@, figures@));
}

/// The JSON members of a row that name it: root ClOrdID, family, and the
/// symbol and side when known.
pub open spec fn json_names(r: OrderConsolidated) -> Seq<u8> {
    str_bytes("{\"root_clordid\":") + json_str(r.root_clordid@) + str_bytes(",\"family\":[") + comma_list(
        Seq::new(r.family@.len(), |i: int| json_str(r.family@[i]@)),
    ) + str_bytes("]") + match r.symbol {
        Some(b) => str_bytes(",\"symbol\":") + json_str(b@),
        None => Seq::empty(),
    } + match r.side {
        Some(b) => str_bytes(",\"side\":\"") + str_bytes(side_name(b)) + str_bytes("\""),
        None => Seq::empty(),
    }
}

/// The JSON members of a row that measure it, and the end of the object.
pub open spec fn json_figures(r: OrderConsolidated, fig: (Seq<char>, Seq<char>)) -> Seq<u8> {
    json_qty(r) + json_amounts(r, fig) + json_status(r) + str_bytes("}")
}

/// The order quantity member, when known.
pub open spec fn json_qty(r: OrderConsolidated) -> Seq<u8> {
    match r.order_qty {
        Some(q) => str_bytes(",\"order_qty\":") + decimal(q as nat),
        None => Seq::empty(),
    }
}

/// The cumulative quantity, notional, average price and fill members.
pub open spec fn json_amounts(r: OrderConsolidated, fig: (Seq<char>, Seq<char>)) -> Seq<u8> {
    str_bytes(",\"cum_qty\":") + decimal(r.cum_qty as nat) + str_bytes(",\"notional\":") + vstd::utf8::encode_utf8(
        fig.0,
    ) + str_bytes(",\"avg_px\":") + vstd::utf8::encode_utf8(fig.1) + str_bytes(",\"fills\":") + decimal(
        r.fills@.len(),
    )
}

/// The final status member, when known.
pub open spec fn json_status(r: OrderConsolidated) -> Seq<u8> {
    match r.final_ord_status {
        Some(v) => str_bytes(",\"final_ord_status\":\"") + status_text(v@) + str_bytes("\""),
        None => Seq::empty(),
    }
}

/// The JSON object of a row.
pub open spec fn row_json(r: OrderConsolidated, fig: (Seq<char>, Seq<char>)) -> Seq<u8> {
    json_names(r) + json_figures(r, fig)
}

/// The consolidated rows as one JSON array on a line.
pub open spec fn consolidated_json(rows: Seq<OrderConsolidated>, figs: Seq<(String, String)>) -> Seq<u8> {
    str_bytes("[") + comma_list(Seq::new(rows.len(), |i: int| row_json(rows[i], figure_view(figs[i]))))
        + str_bytes("]\n")
}

/// Append the members of a family as JSON strings separated by commas.
#[verifier::rlimit(40)]
fn write_json_family(out: &mut Vec<u8>, family: &Vec<Vec<u8>>)
    ensures
        final(out)@ == old(out)@ + comma_list(Seq::new(family@.len(), |i: int| json_str(family@[i]@))),
{
    let ghost h = out@;
    let ghost fs = Seq::new(family@.len(), |i: int| json_str(family@[i]@));
    let mut i: usize = 0;
    while i < family.len()
        invariant
            i <= family@.len(),
            fs == Seq::new(family@.len(), |i: int| json_str(family@[i]@)),
            out@ == h + comma_list(fs.take(i as int)),
        decreases family@.len() - i,
    {
        if i > 0 {
            push_bytes(out, ",".as_bytes());
        }
        write_json_str(out, family[i].as_slice());
        proof {
            assert(fs.take(i + 1).drop_last() =~= fs.take(i as int));
            if i == 0 {
                assert(comma_list(fs.take(0)) =~= Seq::<u8>::empty());
            }
        }
        i += 1;
    }
    assert(fs.take(fs.len() as int) =~= fs);
}

/// Append the naming members of a row.
#[verifier::rlimit(60)]
fn write_json_names(out: &mut Vec<u8>, r: &OrderConsolidated)
    ensures
        final(out)@ == old(out)@ + json_names(*r),
{
    push_bytes(out, "{\"root_clordid\":".as_bytes());
    write_json_str(out, r.root_clordid.as_slice());
    push_bytes(out, ",\"family\":[".as_bytes());
    write_json_family(out, &r.family);
    push_bytes(out, "]".as_bytes());
    let ghost p1 = out@;
    assert(p1 =~= old(out)@ + str_bytes("{\"root_clordid\":") + json_str(r.root_clordid@) + str_bytes(",\"family\":[")
        + comma_list(Seq::new(r.family@.len(), |i: int| json_str(r.family@[i]@))) + str_bytes("]"));
    match &r.symbol {
        Some(b) => {
            push_bytes(out, ",\"symbol\":".as_bytes());
            write_json_str(out, b.as_slice());
        },
        None => {},
    }
    let ghost p2 = out@;
    assert(p2 =~= p1 + match r.symbol {
        Some(b) => str_bytes(",\"symbol\":") + json_str(b@),
        None => Seq::<u8>::empty(),
    });
    match r.side {
        Some(b) => {
            push_bytes(out, ",\"side\":\"".as_bytes());
            push_bytes(out, side_label(b).as_bytes());
            push_bytes(out, "\"".as_bytes());
        },
        None => {},
    }
    assert(out@ =~= p2 + match r.side {
        Some(b) => str_bytes(",\"side\":\"") + str_bytes(side_name(b)) + str_bytes("\""),
        None => Seq::<u8>::empty(),
    });
    assert(out@ =~= old(out)@ + json_names(*r));
}

/// Append the cumulative quantity, notional, average price and fill
/// members.
#[verifier::rlimit(40)]
fn write_json_amounts(out: &mut Vec<u8>, r: &OrderConsolidated, fig: &(String, String))
    ensures
        final(out)@ == old(out)@ + json_amounts(*r, figure_view(*fig)),
{
    push_bytes(out, ",\"cum_qty\":".as_bytes());
    push_decimal(out, r.cum_qty);
    push_bytes(out, ",\"notional\":".as_bytes());
    push_bytes(out, fig.0.as_str().as_bytes());
    push_bytes(out, ",\"avg_px\":".as_bytes());
    push_bytes(out, fig.1.as_str().as_bytes());
    push_bytes(out, ",\"fills\":".as_bytes());
    push_decimal(out, r.fills.len() as u64);
    assert(out@ =~= old(out)@ + json_amounts(*r, figure_view(*fig)));
}

/// Append the measuring members of a row and end the object.
#[verifier::rlimit(40)]
fn write_json_figures(out: &mut Vec<u8>, r: &OrderConsolidated, fig: &(String, String))
    ensures
        final(out)@ == old(out)@ + json_figures(*r, figure_view(*fig)),
{
    match r.order_qty {
        Some(q) => {
            push_bytes(out, ",\"order_qty\":".as_bytes());
            push_decimal(out, q);
        },
        None => {},
    }
    let ghost p1 = out@;
    assert(p1 =~= old(out)@ + json_qty(*r));
    write_json_amounts(out, r, fig);
    let ghost p2 = out@;
    match &r.final_ord_status {
        Some(v) => {
            push_bytes(out, ",\"final_ord_status\":\"".as_bytes());
            let st = status_label(v.as_slice());
            push_bytes(out, st.as_slice());
            push_bytes(out, "\"".as_bytes());
        },
        None => {},
    }
    assert(out@ =~= p2 + json_status(*r));
    push_bytes(out, "}".as_bytes());
    assert(out@ =~= old(out)@ + json_figures(*r, figure_view(*fig)));
}

/// Write the consolidated rows as one JSON array; `figures` holds, row by
/// row, the notional and the average price as the caller formatted them.
#[verifier::rlimit(60)]
pub fn write_json(out: &mut Vec<u8>, rows: &Vec<OrderConsolidated>, figures: &Vec<(String, String)>)
    requires
        figures@.len() == rows@.len(),
    ensures
        final(out)@ == old(out)@ + consolidated_json(rows@, figures@),
{
    push_bytes(out, "[".as_bytes());
    let ghost h = out@;
    let ghost items = Seq::new(rows@.len(), |i: int| row_json(rows@[i], figure_view(figures@[i])));
    let mut i: usize = 0;
    while i < rows.len()
        invariant
            i <= rows@.len(),
            figures@.len() == rows@.len(),
            items == Seq::new(rows@.len(), |i: int| row_json(rows@[i], figure_view(figures@[i]))),
            out@ == h + comma_list(items.take(i as int)),
        decreases rows@.len() - i,
    {
        if i > 0 {
            push_bytes(out, ",".as_bytes());
        }
        let ghost before = out@;
        write_json_names(out, &rows[i]);
        write_json_figures(out, &rows[i], &figures[i]);
        proof {
            assert(out@ =~= before + items[i as int]);
            assert(items.take(i + 1).drop_last() =~= items.take(i as int));
            assert(items.take(i + 1).last() == items[i as int]);
            if i == 0 {
                assert(comma_list(items.take(0)) =~= Seq::<u8>::empty());
            }
        }
        i += 1;
    }
    assert(items.take(items.len() as int) =~= items);
    push_bytes(out, "]\n".as_bytes());
    assert(out@ =~= old(out)@ + consolidated_json(rows@, figures@));
}

} // verus!
