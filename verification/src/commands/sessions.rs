//! The `sessions` report: sessions in order of their key, each with its
//! counts, its busiest message types, its MsgSeqNum range and its gaps.
use vstd::prelude::*;

use crate::analysis::sessions::{SeqGap, SessionKey, SessionMap, SessionStats};
use crate::analysis::sets::{bytes_lt, lemma_lex_total, lemma_lex_trans, lex_lt};
use crate::commands::text::{as_text, left_col, push_left_col, push_right_col, right_col, text_string, truncate, truncated};
use crate::index::secondary::bytes_eq;
use crate::bytes::copy_bytes;
use crate::commands::orders::{comma_list, json_str, write_json_str};
use crate::commands::rank::{Counted, counted_view, counted_views, rank, ranked, take_first};
use crate::render::{
    decimal, lossy, pad_left, push_bytes, push_decimal, push_spaces, str_bytes, utf8_lossy, write_json_string,
};

verus! {

/// The sessions of a map as counted keys, all with count zero.
pub open spec fn key_entries(m: SessionMap) -> Seq<(Seq<u8>, Seq<u8>, u64)> {
    Seq::new(m.by_key@.len(), |i: int| (m.by_key@[i].0.sender@, m.by_key@[i].0.target@, 0u64))
}

/// The session keys in lexicographic order (SenderCompID, then
/// TargetCompID).
pub fn ranked_session_keys(m: &SessionMap) -> (r: Vec<Counted>)
    ensures
        ranked(counted_views(r@)),
        counted_views(r@).to_multiset() == key_entries(*m).to_multiset(),
{
    let mut v: Vec<Counted> = Vec::new();
    let mut i: usize = 0;
    while i < m.by_key.len()
        invariant
            i <= m.by_key@.len(),
            v@.len() == i,
            counted_views(v@) == key_entries(*m).take(i as int),
        decreases m.by_key@.len() - i,
    {
        let ghost before = v@;
        let k = &m.by_key[i].0;
        v.push((copy_bytes(k.sender.as_slice()), copy_bytes(k.target.as_slice()), 0));
        proof {
            assert forall|q: int| 0 <= q < v@.len() implies counted_views(v@)[q] == key_entries(*m).take(i + 1)[q] by {
                if q < i {
                    assert(v@[q] == before[q]);
                    assert(counted_views(before)[q] == counted_view(before[q]));
                } else {
                    assert(counted_views(v@)[q] == counted_view(v@[q]));
                }
            }
            assert(counted_views(v@) =~= key_entries(*m).take(i + 1));
        }
        i += 1;
    }
    assert(key_entries(*m).take(m.by_key@.len() as int) =~= key_entries(*m));
    rank(v)
}

/// The MsgType counts of a session as counted keys; with `by_count`
/// false every count is taken as zero, so ranking orders them by value.
pub open spec fn type_entries(st: SessionStats, by_count: bool) -> Seq<(Seq<u8>, Seq<u8>, u64)> {
    Seq::new(
        st.by_msg_type@.len(),
        |i: int|
            (st.by_msg_type@[i].0@, Seq::<u8>::empty(), if by_count {
                st.by_msg_type@[i].1 as u64
            } else {
                0u64
            }),
    )
}

/// The MsgTypes of a session ranked: by count (then value) when `by_count`,
/// else by value alone.
pub fn ranked_types(st: &SessionStats, by_count: bool) -> (r: Vec<Counted>)
    ensures
        ranked(counted_views(r@)),
        counted_views(r@).to_multiset() == type_entries(*st, by_count).to_multiset(),
{
    let mut v: Vec<Counted> = Vec::new();
    let mut i: usize = 0;
    while i < st.by_msg_type.len()
        invariant
            i <= st.by_msg_type@.len(),
            v@.len() == i,
            counted_views(v@) == type_entries(*st, by_count).take(i as int),
        decreases st.by_msg_type@.len() - i,
    {
        let ghost before = v@;
        let e = &st.by_msg_type[i];
        let c: u64 = if by_count {
            e.1 as u64
        } else {
            0
        };
        v.push((copy_bytes(e.0.as_slice()), Vec::new(), c));
        proof {
            assert forall|q: int| 0 <= q < v@.len() implies counted_views(v@)[q] == type_entries(*st, by_count).take(
                i + 1,
            )[q] by {
                if q < i {
                    assert(v@[q] == before[q]);
                    assert(counted_views(before)[q] == counted_view(before[q]));
                } else {
                    assert(counted_views(v@)[q] == counted_view(v@[q]));
                }
            }
            assert(counted_views(v@) =~= type_entries(*st, by_count).take(i + 1));
        }
        i += 1;
    }
    assert(type_entries(*st, by_count).take(st.by_msg_type@.len() as int) =~= type_entries(*st, by_count));
    rank(v)
}

/// `type=count` items joined by spaces.
pub open spec fn type_summary(items: Seq<(Seq<u8>, Seq<u8>, u64)>) -> Seq<u8>
    decreases items.len(),
{
    if items.len() == 0 {
        Seq::empty()
    } else {
        let last = items.last();
        let item = utf8_lossy(last.0) + str_bytes("=") + decimal(last.2 as nat);
        if items.len() == 1 {
            item
        } else {
            type_summary(items.drop_last()) + str_bytes(" ") + item
        }
    }
}

/// The `top_n` busiest MsgTypes of a session as `type=count` items joined
/// by spaces, busiest first, ties by value.
pub fn format_msg_types(st: &SessionStats, top_n: usize) -> (r: Vec<u8>)
    ensures
        exists|all: Seq<(Seq<u8>, Seq<u8>, u64)>|
            ranked(all) && all.to_multiset() == type_entries(*st, true).to_multiset() && r@ == type_summary(
                all.take(if all.len() < top_n { all.len() as int } else { top_n as int }),
            ),
{
    let all = ranked_types(st, true);
    let ghost av = counted_views(all@);
    let top = take_first(all, top_n);
    let ghost tv = counted_views(top@);
    assert(tv =~= av.take(if av.len() < top_n { av.len() as int } else { top_n as int }));
    let mut out: Vec<u8> = Vec::new();
    let mut i: usize = 0;
    while i < top.len()
        invariant
            i <= top@.len(),
            tv == counted_views(top@),
            out@ == type_summary(tv.take(i as int)),
        decreases top@.len() - i,
    {
        if i > 0 {
            push_bytes(&mut out, " ".as_bytes());
        }
        let t = lossy(top[i].0.as_slice());
        push_bytes(&mut out, t.as_slice());
        push_bytes(&mut out, "=".as_bytes());
        push_decimal(&mut out, top[i].2);
        proof {
            let s = tv.take(i + 1);
            assert(s.drop_last() =~= tv.take(i as int));
            assert(s.last() == counted_view(top@[i as int]));
            if i == 0 {
                assert(type_summary(tv.take(0)) =~= Seq::<u8>::empty());
            }
            assert(out@ =~= type_summary(s));
        }
        i += 1;
    }
    assert(tv.take(tv.len() as int) =~= tv);
    out
}

/// The JSON object of a gap.
pub open spec fn gap_json(g: SeqGap) -> Seq<u8> {
    str_bytes("{\"from_seq\":") + decimal(g.from_seq as nat) + str_bytes(",\"to_seq\":") + decimal(g.to_seq as nat)
        + str_bytes(",\"ordinal_before\":") + decimal(g.ordinal_before as nat) + str_bytes(",\"ordinal_after\":")
        + decimal(g.ordinal_after as nat) + str_bytes("}")
}

/// The count of the first entry of `s` with value `t`, zero when none.
pub open spec fn first_count(s: Seq<(Vec<u8>, u32)>, t: Seq<u8>) -> u32
    decreases s.len(),
{
    if s.len() == 0 {
        0
    } else if s[0].0@ == t {
        s[0].1
    } else {
        first_count(s.drop_first(), t)
    }
}

/// The count of the first entry of `s` with value `t`.
fn lookup_count(s: &Vec<(Vec<u8>, u32)>, t: &[u8]) -> (c: u32)
    ensures
        c == first_count(s@, t@),
{
    let mut i: usize = 0;
    assert(s@.skip(0) =~= s@);
    while i < s.len()
        invariant
            i <= s@.len(),
            first_count(s@, t@) == first_count(s@.skip(i as int), t@),
        decreases s@.len() - i,
    {
        assert(s@.skip(i as int).drop_first() =~= s@.skip(i + 1));
        if crate::index::secondary::bytes_eq(s[i].0.as_slice(), t) {
            return s[i].1;
        }
        i += 1;
    }
    0
}

/// `"type":count` members, in the given order.
pub open spec fn type_members(items: Seq<(Seq<u8>, Seq<u8>, u64)>, st: SessionStats) -> Seq<Seq<u8>> {
    Seq::new(
        items.len(),
        |i: int| json_str(items[i].0) + str_bytes(":") + decimal(first_count(st.by_msg_type@, items[i].0) as nat),
    )
}

/// The `by_msg_type` member of a session line, types in the given order.
pub open spec fn types_json(types: Seq<(Seq<u8>, Seq<u8>, u64)>, st: SessionStats) -> Seq<u8> {
    str_bytes(",\"by_msg_type\":{") + comma_list(type_members(types, st)) + str_bytes("}")
}

/// The MsgSeqNum range members of a session line, when both ends are known.
pub open spec fn range_json(st: SessionStats) -> Seq<u8> {
    match (st.seq_min, st.seq_max) {
        (Some(mn), Some(mx)) => str_bytes(",\"seq_min\":") + decimal(mn as nat) + str_bytes(",\"seq_max\":")
            + decimal(mx as nat),
        _ => Seq::empty(),
    }
}

/// The gaps member of a session line and its end.
pub open spec fn gaps_json(st: SessionStats) -> Seq<u8> {
    str_bytes(",\"gaps\":[") + comma_list(Seq::new(st.gaps@.len(), |i: int| gap_json(st.gaps@[i]))) + str_bytes(
        "]}\n",
    )
}

/// The head of a session line: key and counts.
pub open spec fn head_json(key: SessionKey, st: SessionStats) -> Seq<u8> {
    str_bytes("{\"sender\":") + json_str(key.sender@) + str_bytes(",\"target\":") + json_str(key.target@)
        + str_bytes(",\"in_count\":") + decimal(st.in_count as nat) + str_bytes(",\"out_count\":") + decimal(
        st.out_count as nat,
    )
}

/// The JSON line of one session: its key, its two counts, its MsgType
/// counts (in the order of `types`), its MsgSeqNum range when known, and its
/// gaps.
pub open spec fn session_json(key: SessionKey, st: SessionStats, types: Seq<(Seq<u8>, Seq<u8>, u64)>) -> Seq<u8> {
    head_json(key, st) + types_json(types, st) + range_json(st) + gaps_json(st)
}

/// Append the JSON object of a gap.
fn write_gap_json(out: &mut Vec<u8>, g: &SeqGap)
    ensures
        final(out)@ == old(out)@ + gap_json(*g),
{
    push_bytes(out, "{\"from_seq\":".as_bytes());
    push_decimal(out, g.from_seq as u64);
    push_bytes(out, ",\"to_seq\":".as_bytes());
    push_decimal(out, g.to_seq as u64);
    push_bytes(out, ",\"ordinal_before\":".as_bytes());
    push_decimal(out, g.ordinal_before as u64);
    push_bytes(out, ",\"ordinal_after\":".as_bytes());
    push_decimal(out, g.ordinal_after as u64);
    push_bytes(out, "}".as_bytes());
    assert(out@ =~= old(out)@ + gap_json(*g));
}

/// Append the head of a session line: key and counts.
fn write_session_head(out: &mut Vec<u8>, key: &SessionKey, st: &SessionStats)
    ensures
        final(out)@ == old(out)@ + head_json(*key, *st),
{
    push_bytes(out, "{\"sender\":".as_bytes());
    write_json_str(out, key.sender.as_slice());
    push_bytes(out, ",\"target\":".as_bytes());
    write_json_str(out, key.target.as_slice());
    push_bytes(out, ",\"in_count\":".as_bytes());
    push_decimal(out, st.in_count as u64);
    push_bytes(out, ",\"out_count\":".as_bytes());
    push_decimal(out, st.out_count as u64);
    assert(out@ =~= old(out)@ + head_json(*key, *st));
}

/// Append the `by_msg_type` member, types in order of value.
fn write_types_json(out: &mut Vec<u8>, st: &SessionStats)
    ensures
        exists|types: Seq<(Seq<u8>, Seq<u8>, u64)>|
            ranked(types) && types.to_multiset() == type_entries(*st, false).to_multiset() && final(out)@ == old(
                out,
            )@ + types_json(types, *st),
{
    push_bytes(out, ",\"by_msg_type\":{".as_bytes());
    let order = ranked_types(st, false);
    let ghost types = counted_views(order@);
    let ghost h1 = out@;
    let ghost members = type_members(types, *st);
    let mut i: usize = 0;
    while i < order.len()
        invariant
            i <= order@.len(),
            types == counted_views(order@),
            members == type_members(types, *st),
            out@ == h1 + comma_list(members.take(i as int)),
        decreases order@.len() - i,
    {
        if i > 0 {
            push_bytes(out, ",".as_bytes());
        }
        write_json_str(out, order[i].0.as_slice());
        push_bytes(out, ":".as_bytes());
        let cnt = lookup_count(&st.by_msg_type, order[i].0.as_slice());
        push_decimal(out, cnt as u64);
        proof {
            let s = members.take(i + 1);
            assert(s.drop_last() =~= members.take(i as int));
            assert(types[i as int] == counted_view(order@[i as int]));
            if i == 0 {
                assert(comma_list(members.take(0)) =~= Seq::<u8>::empty());
            }
            assert(out@ =~= h1 + comma_list(s));
        }
        i += 1;
    }
    assert(members.take(members.len() as int) =~= members);
    push_bytes(out, "}".as_bytes());
    assert(out@ =~= old(out)@ + types_json(types, *st));
}

/// Append the MsgSeqNum range members.
fn write_range_json(out: &mut Vec<u8>, st: &SessionStats)
    ensures
        final(out)@ == old(out)@ + range_json(*st),
{
    match (st.seq_min, st.seq_max) {
        (Some(mn), Some(mx)) => {
            push_bytes(out, ",\"seq_min\":".as_bytes());
            push_decimal(out, mn as u64);
            push_bytes(out, ",\"seq_max\":".as_bytes());
            push_decimal(out, mx as u64);
        },
        _ => {},
    }
    assert(out@ =~= old(out)@ + range_json(*st));
}

/// Append the gaps member and the end of the line.
fn write_gaps_json(out: &mut Vec<u8>, st: &SessionStats)
    ensures
        final(out)@ == old(out)@ + gaps_json(*st),
{
    push_bytes(out, ",\"gaps\":[".as_bytes());
    let ghost h2 = out@;
    let ghost gs = Seq::new(st.gaps@.len(), |i: int| gap_json(st.gaps@[i]));
    let mut j: usize = 0;
    while j < st.gaps.len()
        invariant
            j <= st.gaps@.len(),
            gs == Seq::new(st.gaps@.len(), |i: int| gap_json(st.gaps@[i])),
            out@ == h2 + comma_list(gs.take(j as int)),
        decreases st.gaps@.len() - j,
    {
        if j > 0 {
            push_bytes(out, ",".as_bytes());
        }
        write_gap_json(out, &st.gaps[j]);
        proof {
            assert(gs.take(j + 1).drop_last() =~= gs.take(j as int));
            if j == 0 {
                assert(comma_list(gs.take(0)) =~= Seq::<u8>::empty());
            }
        }
        j += 1;
    }
    assert(gs.take(gs.len() as int) =~= gs);
    push_bytes(out, "]}\n".as_bytes());
    assert(out@ =~= old(out)@ + gaps_json(*st));
}

/// Write one session as a JSON line, its MsgType counts in order of value.
pub fn write_session_json(out: &mut Vec<u8>, key: &SessionKey, st: &SessionStats)
    ensures
        exists|types: Seq<(Seq<u8>, Seq<u8>, u64)>|
            ranked(types) && types.to_multiset() == type_entries(*st, false).to_multiset() && final(out)@ == old(
                out,
            )@ + session_json(*key, *st, types),
{
    write_session_head(out, key, st);
    let ghost a = out@;
    write_types_json(out, st);
    let ghost types = choose|types: Seq<(Seq<u8>, Seq<u8>, u64)>|
        ranked(types) && types.to_multiset() == type_entries(*st, false).to_multiset() && out@ == a + types_json(
            types,
            *st,
        );
    write_range_json(out, st);
    write_gaps_json(out, st);
    assert(out@ =~= old(out)@ + session_json(*key, *st, types));
}


/// Key `a` comes before key `b`: by SenderCompID, then TargetCompID.
pub open spec fn key_before(a: (Seq<u8>, Seq<u8>), b: (Seq<u8>, Seq<u8>)) -> bool {
    lex_lt(a.0, b.0) || (a.0 == b.0 && lex_lt(a.1, b.1))
}

/// `order` lists each position of `m.by_key` once, in order of the keys.
pub open spec fn in_key_order(m: SessionMap, order: Seq<usize>) -> bool {
    &&& order.len() == m.by_key@.len()
    &&& forall|i: int| 0 <= i < order.len() ==> #[trigger] order[i] < m.by_key@.len()
    &&& forall|i: int, j: int| 0 <= i < j < order.len() ==> order[i] != order[j]
    &&& forall|i: int, j: int|
        0 <= i < j < order.len() ==> !key_before(m.by_key@[order[j] as int].0@, m.by_key@[order[i] as int].0@)
}

proof fn lemma_key_before_trans(a: (Seq<u8>, Seq<u8>), b: (Seq<u8>, Seq<u8>), c: (Seq<u8>, Seq<u8>))
    requires
        key_before(a, b),
        key_before(b, c),
    ensures
        key_before(a, c),
{
    if lex_lt(a.0, b.0) && lex_lt(b.0, c.0) {
        lemma_lex_trans(a.0, b.0, c.0);
    } else if a.0 == b.0 && b.0 == c.0 {
        lemma_lex_trans(a.1, b.1, c.1);
    }
}

proof fn lemma_key_before_asym(a: (Seq<u8>, Seq<u8>), b: (Seq<u8>, Seq<u8>))
    ensures
        !(key_before(a, b) && key_before(b, a)),
{
    lemma_lex_total(a.0, b.0);
    lemma_lex_total(a.1, b.1);
}

/// Whether key `a` comes before key `b`.
fn key_before_exec(a: &SessionKey, b: &SessionKey) -> (r: bool)
    ensures
        r == key_before(a@, b@),
{
    bytes_lt(a.sender.as_slice(), b.sender.as_slice()) || (bytes_eq(a.sender.as_slice(), b.sender.as_slice())
        && bytes_lt(a.target.as_slice(), b.target.as_slice()))
}

/// The positions of the sessions of `m` in order of their keys.
#[verifier::rlimit(40)]
pub fn session_order(m: &SessionMap) -> (r: Vec<usize>)
    ensures
        in_key_order(*m, r@),
{
    let n = m.by_key.len();
    let mut out: Vec<usize> = Vec::new();
    let mut k: usize = 0;
    while k < n
        invariant
            k <= n,
            n == m.by_key@.len(),
            out@.len() == k,
            forall|i: int| 0 <= i < out@.len() ==> #[trigger] out@[i] < k,
            forall|i: int, j: int| 0 <= i < j < out@.len() ==> out@[i] != out@[j],
            forall|i: int, j: int|
                0 <= i < j < out@.len() ==> !key_before(m.by_key@[out@[j] as int].0@, m.by_key@[out@[i] as int].0@),
        decreases n - k,
    {
        let mut p: usize = 0;
        while p < out.len() && !key_before_exec(&m.by_key[k].0, &m.by_key[out[p]].0)
            invariant
                p <= out@.len(),
                k < n,
                n == m.by_key@.len(),
                forall|i: int| 0 <= i < out@.len() ==> #[trigger] out@[i] < k,
                forall|q: int| 0 <= q < p ==> !key_before(m.by_key@[k as int].0@, m.by_key@[out@[q] as int].0@),
            decreases out@.len() - p,
        {
            p += 1;
        }
        let ghost before = out@;
        out.insert(p, k);
        proof {
            let ov = out@;
            let key = |x: usize| m.by_key@[x as int].0@;
            assert forall|i: int| 0 <= i < ov.len() implies #[trigger] ov[i] < k + 1 by {
                if i < p {
                    assert(ov[i] == before[i]);
                } else if i > p {
                    assert(ov[i] == before[i - 1]);
                }
            }
            assert forall|a: int, b: int| 0 <= a < b < ov.len() implies ov[a] != ov[b] by {
                if a < p && b == p {
                    assert(ov[a] == before[a]);
                } else if a == p {
                    assert(ov[b] == before[b - 1]);
                } else if b < p {
                    assert(ov[a] == before[a] && ov[b] == before[b]);
                } else if a < p {
                    assert(ov[a] == before[a] && ov[b] == before[b - 1]);
                } else {
                    assert(ov[a] == before[a - 1] && ov[b] == before[b - 1]);
                }
            }
            assert forall|a: int, b: int| 0 <= a < b < ov.len() implies !key_before(
                m.by_key@[ov[b] as int].0@,
                m.by_key@[ov[a] as int].0@,
            ) by {
                if a < p && b == p {
                    assert(ov[a] == before[a]);
                } else if a == p {
                    assert(ov[b] == before[b - 1]);
                    if key_before(m.by_key@[before[b - 1] as int].0@, m.by_key@[k as int].0@) {
                        if p < before.len() {
                            assert(key_before(m.by_key@[k as int].0@, m.by_key@[before[p as int] as int].0@));
                            lemma_key_before_trans(
                                m.by_key@[before[b - 1] as int].0@,
                                m.by_key@[k as int].0@,
                                m.by_key@[before[p as int] as int].0@,
                            );
                            if b - 1 == p {
                                lemma_key_before_asym(
                                    m.by_key@[before[p as int] as int].0@,
                                    m.by_key@[before[p as int] as int].0@,
                                );
                            }
                        }
                    }
                } else if b < p {
                    assert(ov[a] == before[a] && ov[b] == before[b]);
                } else if a < p {
                    assert(ov[a] == before[a] && ov[b] == before[b - 1]);
                } else {
                    assert(ov[a] == before[a - 1] && ov[b] == before[b - 1]);
                }
            }
        }
        k += 1;
    }
    out
}

/// A session pair as text: `sender ↔ target`.
pub open spec fn session_text(k: SessionKey) -> Seq<u8> {
    utf8_lossy(k.sender@) + str_bytes(" \u{2194} ") + utf8_lossy(k.target@)
}

/// The MsgSeqNum range of a session, `min..max`, `-` when unknown.
pub open spec fn seq_range_text(st: SessionStats) -> Seq<u8> {
    match (st.seq_min, st.seq_max) {
        (Some(a), Some(b)) => decimal(a as nat) + str_bytes("..") + decimal(b as nat),
        _ => str_bytes("-"),
    }
}

/// `t` lists the `top_n` busiest MsgTypes of a session (see
/// [`format_msg_types`]).
pub open spec fn summary_of(st: SessionStats, top_n: nat, t: Seq<u8>) -> bool {
    exists|all: Seq<(Seq<u8>, Seq<u8>, u64)>|
        ranked(all) && all.to_multiset() == type_entries(st, true).to_multiset() && t == type_summary(
            all.take(if all.len() < top_n { all.len() as int } else { top_n as int }),
        )
}

/// The table line of a session, its busiest MsgTypes listed as `by_type`:
/// the pair (cut to 32 characters, left-aligned in 32), the message count,
/// the MsgType list (cut to 18), the MsgSeqNum range and the gap count,
/// right-aligned in 8, 18, 16 and 6 columns.
pub open spec fn session_row(k: SessionKey, st: SessionStats, by_type: Seq<u8>) -> Seq<u8> {
    row_start(k, st) + right_col(truncated(as_text(by_type), 18), 18) + row_end(st)
}

/// The session and message count columns of a table line, each followed
/// by a space.
pub open spec fn row_start(k: SessionKey, st: SessionStats) -> Seq<u8> {
    left_col(truncated(as_text(session_text(k)), 32), 32) + str_bytes(" ") + pad_left(
        decimal((st.in_count + st.out_count) as nat),
        8,
    ) + str_bytes(" ")
}

/// The MsgSeqNum range and gap count columns of a table line, and its end.
pub open spec fn row_end(st: SessionStats) -> Seq<u8> {
    str_bytes(" ") + pad_left(seq_range_text(st), 16) + str_bytes(" ") + pad_left(decimal(st.gaps@.len()), 6)
        + str_bytes("\n")
}

/// The table lines of the first `k` sessions in `order`.
pub open spec fn session_rows(m: SessionMap, order: Seq<usize>, tys: Seq<Seq<u8>>, k: int) -> Seq<u8>
    decreases k,
{
    if k <= 0 {
        Seq::empty()
    } else {
        session_rows(m, order, tys, k - 1) + session_row(
            m.by_key@[order[k - 1] as int].0,
            m.by_key@[order[k - 1] as int].1,
            tys[k - 1],
        )
    }
}

/// The sessions table: `(no sessions)` when there is none, else a header,
/// a rule and one line per session in `order`.
pub open spec fn sessions_pretty(m: SessionMap, order: Seq<usize>, tys: Seq<Seq<u8>>) -> Seq<u8> {
    if m.by_key@.len() == 0 {
        str_bytes("(no sessions)\n")
    } else {
        str_bytes("session                              msgs        by-msg-type        seq-range   gaps\n") + str_bytes("------------------------------------------------------------------------------------\n") + session_rows(m, order, tys, order.len() as int)
    }
}

proof fn lemma_session_rows_prefix(m: SessionMap, order: Seq<usize>, t1: Seq<Seq<u8>>, t2: Seq<Seq<u8>>, k: int)
    requires
        0 <= k <= t1.len(),
        k <= t2.len(),
        forall|j: int| 0 <= j < k ==> t1[j] == t2[j],
    ensures
        session_rows(m, order, t1, k) == session_rows(m, order, t2, k),
    decreases k,
{
    if k > 0 {
        lemma_session_rows_prefix(m, order, t1, t2, k - 1);
    }
}

/// Append `s` right-aligned in a column of `w` bytes.
fn push_right_bytes(out: &mut Vec<u8>, s: &[u8], w: usize)
    ensures
        final(out)@ == old(out)@ + pad_left(s@, w as nat),
{
    if s.len() < w {
        push_spaces(out, w - s.len());
    } else {
        push_spaces(out, 0);
    }
    push_bytes(out, s);
    assert(out@ =~= old(out)@ + pad_left(s@, w as nat));
}

/// Append the session column of a table line.
#[verifier::rlimit(40)]
fn write_session_cell(out: &mut Vec<u8>, k: &SessionKey)
    ensures
        final(out)@ == old(out)@ + left_col(truncated(as_text(session_text(*k)), 32), 32),
{
    let mut text: Vec<u8> = Vec::new();
    let s = lossy(k.sender.as_slice());
    push_bytes(&mut text, s.as_slice());
    push_bytes(&mut text, " \u{2194} ".as_bytes());
    let t = lossy(k.target.as_slice());
    push_bytes(&mut text, t.as_slice());
    assert(text@ =~= session_text(*k));
    let st = text_string(text);
    let cut = truncate(st.as_str(), 32);
    push_left_col(out, cut.as_str(), 32);
}

/// Append the session and message count columns of a table line.
#[verifier::rlimit(40)]
fn write_row_start(out: &mut Vec<u8>, k: &SessionKey, st: &SessionStats)
    ensures
        final(out)@ == old(out)@ + row_start(*k, *st),
{
    write_session_cell(out, k);
    push_bytes(out, " ".as_bytes());
    let mut d: Vec<u8> = Vec::new();
    push_decimal(&mut d, st.in_count as u64 + st.out_count as u64);
    push_right_bytes(out, d.as_slice(), 8);
    push_bytes(out, " ".as_bytes());
    assert(out@ =~= old(out)@ + row_start(*k, *st));
}

/// Append the MsgSeqNum range and gap count columns and end the line.
#[verifier::rlimit(40)]
fn write_row_end(out: &mut Vec<u8>, st: &SessionStats)
    ensures
        final(out)@ == old(out)@ + row_end(*st),
{
    push_bytes(out, " ".as_bytes());
    let mut r: Vec<u8> = Vec::new();
    match (st.seq_min, st.seq_max) {
        (Some(a), Some(b)) => {
            push_decimal(&mut r, a as u64);
            push_bytes(&mut r, "..".as_bytes());
            push_decimal(&mut r, b as u64);
        },
        _ => push_bytes(&mut r, "-".as_bytes()),
    }
    assert(r@ =~= seq_range_text(*st));
    push_right_bytes(out, r.as_slice(), 16);
    push_bytes(out, " ".as_bytes());
    let mut g: Vec<u8> = Vec::new();
    push_decimal(&mut g, st.gaps.len() as u64);
    push_right_bytes(out, g.as_slice(), 6);
    push_bytes(out, "\n".as_bytes());
    assert(out@ =~= old(out)@ + row_end(*st));
}

/// Append the table line of a session; its MsgType list is returned.
#[verifier::rlimit(40)]
fn write_session_row(out: &mut Vec<u8>, k: &SessionKey, st: &SessionStats) -> (by_type: Ghost<Seq<u8>>)
    ensures
        summary_of(*st, 3, by_type@),
        final(out)@ == old(out)@ + session_row(*k, *st, by_type@),
{
    write_row_start(out, k, st);
    let types = format_msg_types(st, 3);
    let ghost tv = types@;
    let tt = text_string(types);
    let tc = truncate(tt.as_str(), 18);
    push_right_col(out, tc.as_str(), 18);
    write_row_end(out, st);
    assert(out@ =~= old(out)@ + session_row(*k, *st, tv));
    Ghost(tv)
}

/// Write the sessions as a table, in order of their keys.
#[verifier::rlimit(40)]
pub fn write_sessions_pretty(out: &mut Vec<u8>, m: &SessionMap)
    ensures
        exists|order: Seq<usize>, tys: Seq<Seq<u8>>|
            in_key_order(*m, order) && tys.len() == order.len() && (forall|i: int|
                0 <= i < order.len() ==> summary_of(m.by_key@[order[i] as int].1, 3, #[trigger] tys[i]))
                && final(out)@ == old(out)@ + sessions_pretty(*m, order, tys),
{
    let order = session_order(m);
    if m.by_key.len() == 0 {
        push_bytes(out, "(no sessions)\n".as_bytes());
        assert(sessions_pretty(*m, order@, Seq::<Seq<u8>>::empty()) == str_bytes("(no sessions)\n"));
        return;
    }
    push_bytes(out, "session                              msgs        by-msg-type        seq-range   gaps\n".as_bytes());
    push_bytes(out, "------------------------------------------------------------------------------------\n".as_bytes());
    let ghost h = out@;
    assert(h =~= old(out)@ + str_bytes("session                              msgs        by-msg-type        seq-range   gaps\n") + str_bytes("------------------------------------------------------------------------------------\n"));
    let ghost mut tys: Seq<Seq<u8>> = Seq::empty();
    let mut i: usize = 0;
    while i < order.len()
        invariant
            i <= order@.len(),
            in_key_order(*m, order@),
            tys.len() == i,
            forall|q: int| 0 <= q < i ==> summary_of(m.by_key@[order@[q] as int].1, 3, #[trigger] tys[q]),
            out@ == h + session_rows(*m, order@, tys, i as int),
        decreases order@.len() - i,
    {
        let j = order[i];
        let e = &m.by_key[j];
        let t = write_session_row(out, &e.0, &e.1);
        proof {
            let t2 = tys.push(t@);
            lemma_session_rows_prefix(*m, order@, tys, t2, i as int);
            tys = t2;
        }
        i += 1;
    }
    assert(out@ =~= old(out)@ + sessions_pretty(*m, order@, tys));
}

/// `line` is the JSON line of a session (see [`write_session_json`]).
pub open spec fn json_line_of(k: SessionKey, st: SessionStats, line: Seq<u8>) -> bool {
    exists|types: Seq<(Seq<u8>, Seq<u8>, u64)>|
        ranked(types) && types.to_multiset() == type_entries(st, false).to_multiset() && line == session_json(
            k,
            st,
            types,
        )
}

/// Lines one after another.
pub open spec fn concat(lines: Seq<Seq<u8>>) -> Seq<u8>
    decreases lines.len(),
{
    if lines.len() == 0 {
        Seq::empty()
    } else {
        concat(lines.drop_last()) + lines.last()
    }
}

/// Write each session as a JSON line, in order of their keys.
#[verifier::rlimit(40)]
pub fn write_sessions_jsonl(out: &mut Vec<u8>, m: &SessionMap)
    ensures
        exists|order: Seq<usize>, lines: Seq<Seq<u8>>|
            in_key_order(*m, order) && lines.len() == order.len() && (forall|i: int|
                0 <= i < order.len() ==> json_line_of(
                    m.by_key@[order[i] as int].0,
                    m.by_key@[order[i] as int].1,
                    #[trigger] lines[i],
                )) && final(out)@ == old(out)@ + concat(lines),
{
    let order = session_order(m);
    let ghost h = out@;
    let ghost mut lines: Seq<Seq<u8>> = Seq::empty();
    let mut i: usize = 0;
    while i < order.len()
        invariant
            i <= order@.len(),
            in_key_order(*m, order@),
            lines.len() == i,
            forall|q: int|
                0 <= q < i ==> json_line_of(
                    m.by_key@[order@[q] as int].0,
                    m.by_key@[order@[q] as int].1,
                    #[trigger] lines[q],
                ),
            out@ == h + concat(lines),
        decreases order@.len() - i,
    {
        let j = order[i];
        let e = &m.by_key[j];
        let ghost before = out@;
        write_session_json(out, &e.0, &e.1);
        proof {
            let types = choose|types: Seq<(Seq<u8>, Seq<u8>, u64)>|
                ranked(types) && types.to_multiset() == type_entries(e.1, false).to_multiset() && out@ == before
                    + session_json(e.0, e.1, types);
            let line = session_json(e.0, e.1, types);
            assert(json_line_of(e.0, e.1, line));
            let l2 = lines.push(line);
            assert(l2.drop_last() =~= lines);
            assert forall|q: int|
                0 <= q < i + 1 implies json_line_of(
                m.by_key@[order@[q] as int].0,
                m.by_key@[order@[q] as int].1,
                #[trigger] l2[q],
            ) by {
                if q < i {
                    assert(l2[q] == lines[q]);
                }
            }
            lines = l2;
        }
        i += 1;
    }
}

} // verus!
