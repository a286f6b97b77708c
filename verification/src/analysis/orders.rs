//! Order lifecycle reconstruction.
//!
//! Given a `ClOrdID` (tag 11), [`OrderTimeline::build`] walks the secondary
//! index of a [`LogIndex`]:
//!
//! 1. the messages whose own ClOrdID is in the family, and those that name a
//!    family member as `OrigClOrdID` (tag 41); the ClOrdID of each of the
//!    latter joins the family, until nothing new is found;
//! 2. the `OrderID`s (tag 37) seen on those messages;
//! 3. every message carrying one of those OrderIDs;
//!
//! and materializes one [`OrderEvent`] per message, in ordinal order.
use vstd::prelude::*;

use crate::analysis::sets::{
    byte_set, contains_bytes, insert_sorted_bytes, insert_sorted_u32, sorted_bytes, sorted_u32,
};
use crate::analysis::util::{sending_time_nanos, spec_sending_time_nanos};
use crate::bytes::{copy_bytes, string_from_utf8};
use crate::format::{LogFormat, separator_byte};
use crate::index::hot_tags::{TAG_CL_ORD_ID, TAG_ORDER_ID, TAG_ORIG_CL_ORD_ID};
use crate::index::secondary::ordinals_of;
use crate::index::{LogIndex, spec_message_bytes};
use crate::parser::{
    RawMessage, TAG_MSG_TYPE, TAG_SENDING_TIME, fields_of, find_tag, first_value, parse_one_with_format,
    parse_result_view, spec_parse_one,
};

verus! {

/// Tag `6`, AvgPx.
pub const TAG_AVG_PX: u32 = 6;

/// Tag `14`, CumQty.
pub const TAG_CUM_QTY: u32 = 14;

/// Tag `31`, LastPx.
pub const TAG_LAST_PX: u32 = 31;

/// Tag `32`, LastQty.
pub const TAG_LAST_QTY: u32 = 32;

/// Tag `39`, OrdStatus.
pub const TAG_ORD_STATUS: u32 = 39;

/// Tag `150`, ExecType.
pub const TAG_EXEC_TYPE: u32 = 150;

/// One message in the life of an order. The `last_*` fields are per fill;
/// `cum_qty` and `avg_px` are cumulative. Values are the raw bytes of the
/// message; `sending_time` is in nanoseconds since the Unix epoch.
#[derive(Debug, Clone)]
pub struct OrderEvent {
    pub ordinal: u32,
    pub msg_type: Vec<u8>,
    pub sending_time: Option<u128>,
    pub exec_type: Option<Vec<u8>>,
    pub ord_status: Option<Vec<u8>>,
    pub last_qty: Option<Vec<u8>>,
    pub last_px: Option<Vec<u8>>,
    pub cum_qty: Option<Vec<u8>>,
    pub avg_px: Option<Vec<u8>>,
}

/// The ordered timeline of an order and its cancel/replace chain.
#[derive(Debug, Clone)]
pub struct OrderTimeline {
    pub clordid: Vec<u8>,
    /// OrderIDs seen, sorted lexicographically, without duplicates.
    pub order_ids: Vec<Vec<u8>>,
    pub events: Vec<OrderEvent>,
}

/// The fields of the message at ordinal `o`, when it lies within `buf` and
/// parses.
pub open spec fn msg_fields(index: LogIndex, buf: Seq<u8>, sep: u8, o: int) -> Option<Seq<(u32, Seq<u8>)>> {
    match spec_message_bytes(index.messages@, buf, o) {
        Some(b) => match spec_parse_one(b, 0, sep) {
            Ok((f, _)) => Some(f),
            Err(_) => None,
        },
        None => None,
    }
}

/// The value of `tag` in the message at ordinal `o`.
pub open spec fn msg_value(index: LogIndex, buf: Seq<u8>, sep: u8, o: int, tag: u32) -> Option<Seq<u8>> {
    match msg_fields(index, buf, sep, o) {
        Some(f) => first_value(f, tag),
        None => None,
    }
}

/// The ordinals the secondary index lists for `(tag, v)`.
pub open spec fn lk(index: LogIndex, tag: u32, v: Seq<u8>) -> Seq<u32> {
    ordinals_of(index.secondary@, (tag, v))
}

/// The ClOrdIDs of the messages that name `c` as their OrigClOrdID.
pub open spec fn successors(index: LogIndex, buf: Seq<u8>, sep: u8, c: Seq<u8>) -> Set<Seq<u8>> {
    Set::new(
        |d: Seq<u8>|
            exists|k: int|
                0 <= k < lk(index, TAG_ORIG_CL_ORD_ID, c).len() && #[trigger] msg_value(
                    index,
                    buf,
                    sep,
                    lk(index, TAG_ORIG_CL_ORD_ID, c)[k] as int,
                    TAG_CL_ORD_ID,
                ) == Some(d),
    )
}

/// `f` holds the successors of each of its members.
pub open spec fn closed_family(index: LogIndex, buf: Seq<u8>, sep: u8, f: Set<Seq<u8>>) -> bool {
    forall|c: Seq<u8>| #[trigger] f.contains(c) ==> successors(index, buf, sep, c).subset_of(f)
}

/// `f` is the family of `c0`: the least set that holds `c0` and the
/// successors of each of its members.
pub open spec fn is_family(index: LogIndex, buf: Seq<u8>, sep: u8, c0: Seq<u8>, f: Set<Seq<u8>>) -> bool {
    &&& f.contains(c0)
    &&& closed_family(index, buf, sep, f)
    &&& forall|g: Set<Seq<u8>>|
        g.contains(c0) && #[trigger] closed_family(index, buf, sep, g) ==> f.subset_of(g)
}

/// The family of `c0`.
pub open spec fn order_family(index: LogIndex, buf: Seq<u8>, sep: u8, c0: Seq<u8>) -> Set<Seq<u8>> {
    choose|f: Set<Seq<u8>>| is_family(index, buf, sep, c0, f)
}

/// The ordinals of the messages that carry a member of `fam` as ClOrdID or
/// as OrigClOrdID.
pub open spec fn direct_ordinals(index: LogIndex, fam: Set<Seq<u8>>) -> Set<u32> {
    Set::new(
        |o: u32|
            exists|c: Seq<u8>|
                fam.contains(c) && (#[trigger] lk(index, TAG_CL_ORD_ID, c).contains(o) || lk(
                    index,
                    TAG_ORIG_CL_ORD_ID,
                    c,
                ).contains(o)),
    )
}

/// The OrderIDs carried by the messages at `ords`.
pub open spec fn order_ids_of(index: LogIndex, buf: Seq<u8>, sep: u8, ords: Set<u32>) -> Set<Seq<u8>> {
    Set::new(
        |oid: Seq<u8>|
            exists|o: u32| ords.contains(o) && #[trigger] msg_value(index, buf, sep, o as int, TAG_ORDER_ID) == Some(oid),
    )
}

/// `ords` together with every message carrying one of `oids` as OrderID.
pub open spec fn expand_ordinals(index: LogIndex, ords: Set<u32>, oids: Set<Seq<u8>>) -> Set<u32> {
    ords + Set::new(
        |o: u32| exists|oid: Seq<u8>| oids.contains(oid) && #[trigger] lk(index, TAG_ORDER_ID, oid).contains(o),
    )
}

/// An optional owned value seen by its bytes.
pub open spec fn opt_bytes(o: Option<Vec<u8>>) -> Option<Seq<u8>> {
    match o {
        Some(v) => Some(v@),
        None => None,
    }
}

/// The timestamp of a message: its `SendingTime` in nanoseconds.
pub open spec fn sending_nanos(f: Seq<(u32, Seq<u8>)>) -> Option<u128> {
    match first_value(f, TAG_SENDING_TIME) {
        Some(v) => match spec_sending_time_nanos(v) {
            Some(n) => Some(n as u128),
            None => None,
        },
        None => None,
    }
}

/// `e` is the event of the message at ordinal `o` with fields `f`.
pub open spec fn event_of(e: OrderEvent, o: u32, f: Seq<(u32, Seq<u8>)>) -> bool {
    &&& e.ordinal == o
    &&& e.msg_type@ == (match first_value(f, TAG_MSG_TYPE) {
        Some(v) => v,
        None => Seq::empty(),
    })
    &&& e.sending_time == sending_nanos(f)
    &&& opt_bytes(e.exec_type) == first_value(f, TAG_EXEC_TYPE)
    &&& opt_bytes(e.ord_status) == first_value(f, TAG_ORD_STATUS)
    &&& opt_bytes(e.last_qty) == first_value(f, TAG_LAST_QTY)
    &&& opt_bytes(e.last_px) == first_value(f, TAG_LAST_PX)
    &&& opt_bytes(e.cum_qty) == first_value(f, TAG_CUM_QTY)
    &&& opt_bytes(e.avg_px) == first_value(f, TAG_AVG_PX)
}

/// `events` are the events of the messages at `ords` that parse, in
/// ordinal order.
pub open spec fn events_for(
    index: LogIndex,
    buf: Seq<u8>,
    sep: u8,
    ords: Set<u32>,
    events: Seq<OrderEvent>,
) -> bool {
    &&& forall|i: int, j: int| 0 <= i < j < events.len() ==> events[i].ordinal < events[j].ordinal
    &&& forall|o: u32|
        (exists|i: int| 0 <= i < events.len() && #[trigger] events[i].ordinal == o) <==> (ords.contains(o)
            && msg_fields(index, buf, sep, o as int) is Some)
    &&& forall|i: int|
        0 <= i < events.len() ==> event_of(
            #[trigger] events[i],
            events[i].ordinal,
            msg_fields(index, buf, sep, events[i].ordinal as int).unwrap(),
        )
}

/// Two families of the same ClOrdID are the same set.
proof fn lemma_family_unique(index: LogIndex, buf: Seq<u8>, sep: u8, c0: Seq<u8>, f: Set<Seq<u8>>, g: Set<Seq<u8>>)
    requires
        is_family(index, buf, sep, c0, f),
        is_family(index, buf, sep, c0, g),
    ensures
        f == g,
{
    assert(f.subset_of(g));
    assert(g.subset_of(f));
    assert(f =~= g);
}

/// The parsed fields of the message at ordinal `o`, if it lies within `buf`
/// and parses.
pub fn load_message<'b>(index: &LogIndex, buf: &'b [u8], format: &LogFormat, o: usize) -> (r: Option<
    RawMessage<'b>,
>)
    ensures
        match msg_fields(*index, buf@, separator_byte(format.separator), o as int) {
            Some(f) => r matches Some(m) && fields_of(m) == f,
            None => r is None,
        },
{
    let bytes = match index.message_bytes(buf, o) {
        Some(b) => b,
        None => return None,
    };
    match parse_one_with_format(bytes, format) {
        Ok((msg, _)) => Some(msg),
        Err(_) => None,
    }
}

fn owned(v: Option<&[u8]>) -> (r: Option<Vec<u8>>)
    ensures
        opt_bytes(r) == match v {
            Some(b) => Some(b@),
            None => None::<Seq<u8>>,
        },
{
    match v {
        Some(b) => Some(copy_bytes(b)),
        None => None,
    }
}

/// The ClOrdID of message `o`, or `c0` when it has none: the values the
/// family can take are among these.
pub open spec fn cl_candidates(index: LogIndex, buf: Seq<u8>, sep: u8, c0: Seq<u8>) -> Seq<Seq<u8>> {
    seq![c0] + Seq::new(
        index.messages@.len(),
        |i: int|
            match msg_value(index, buf, sep, i, TAG_CL_ORD_ID) {
                Some(v) => v,
                None => c0,
            },
    )
}

/// Add the ordinals of `src` to the sorted set `ords`.
fn add_ordinals(ords: &mut Vec<u32>, src: &[u32])
    requires
        sorted_u32(old(ords)@),
    ensures
        sorted_u32(final(ords)@),
        final(ords)@.to_set() == old(ords)@.to_set() + src@.to_set(),
{
    let ghost start = ords@;
    let mut k: usize = 0;
    while k < src.len()
        invariant
            k <= src@.len(),
            sorted_u32(ords@),
            ords@.to_set() == start.to_set() + src@.take(k as int).to_set(),
        decreases src.len() - k,
    {
        insert_sorted_u32(ords, src[k]);
        proof {
            assert(src@.take(k + 1) == src@.take(k as int).push(src@[k as int]));
            src@.take(k as int).lemma_push_to_set_commute(src@[k as int]);
            assert(ords@.to_set() =~= start.to_set() + src@.take(k + 1).to_set());
        }
        k += 1;
    }
    assert(src@.take(src@.len() as int) =~= src@);
}

/// Walk the cancel/replace chain of `clordid` to its fixed point: the
/// family of `clordid`, and the sorted ordinals that reference it.
fn collect_family(index: &LogIndex, buf: &[u8], format: &LogFormat, clordid: &[u8]) -> (r: (Vec<Vec<u8>>, Vec<u32>))
    requires
        index.wf(),
    ensures
        is_family(*index, buf@, separator_byte(format.separator), clordid@, byte_set(r.0@)),
        sorted_u32(r.1@),
        r.1@.to_set() == direct_ordinals(*index, byte_set(r.0@)),
{
    let ghost sep = separator_byte(format.separator);
    let ghost idx = *index;
    let ghost useq = cl_candidates(idx, buf@, sep, clordid@);
    let ghost universe = useq.to_set();
    proof {
        useq.lemma_cardinality_of_set();
        vstd::seq_lib::seq_to_set_is_finite(useq);
        assert(useq[0] == clordid@);
        assert(universe.contains(clordid@));
    }
    let mut ords: Vec<u32> = Vec::new();
    let mut seen: Vec<Vec<u8>> = Vec::new();
    let mut pending: Vec<Vec<u8>> = Vec::new();
    pending.push(copy_bytes(clordid));
    proof {
        assert(byte_set(seen@) =~= Set::<Seq<u8>>::empty());
        assert(pending@[0]@ == clordid@);
        assert(ords@.to_set() =~= direct_ordinals(idx, byte_set(seen@)));
        assert(byte_set(pending@) =~= set![clordid@]);
    }
    while pending.len() > 0
        invariant
            idx == *index,
            index.wf(),
            sep == separator_byte(format.separator),
            useq == cl_candidates(idx, buf@, sep, clordid@),
            universe == useq.to_set(),
            universe.finite(),
            byte_set(seen@).subset_of(universe),
            byte_set(pending@).subset_of(universe),
            byte_set(seen@).contains(clordid@) || byte_set(pending@).contains(clordid@),
            forall|c: Seq<u8>|
                #[trigger] byte_set(seen@).contains(c) ==> successors(idx, buf@, sep, c).subset_of(
                    byte_set(seen@) + byte_set(pending@),
                ),
            forall|g: Set<Seq<u8>>|
                g.contains(clordid@) && #[trigger] closed_family(idx, buf@, sep, g) ==> byte_set(
                    seen@,
                ).subset_of(g) && byte_set(pending@).subset_of(g),
            sorted_u32(ords@),
            ords@.to_set() == direct_ordinals(idx, byte_set(seen@)),
        decreases universe.len() - byte_set(seen@).len(), pending@.len(),
    {
        proof {
            vstd::set_lib::lemma_len_subset(byte_set(seen@), universe);
        }
        let ghost pend0 = pending@;
        let cid = pending.pop().unwrap();
        proof {
            assert(pend0 == pending@.push(cid));
            assert(pend0[pend0.len() - 1]@ == cid@);
            assert(byte_set(pend0) =~= byte_set(pending@).insert(cid@));
        }
        if contains_bytes(&seen, cid.as_slice()) {
            proof {
                assert forall|c: Seq<u8>| #[trigger] byte_set(seen@).contains(c) implies successors(
                    idx,
                    buf@,
                    sep,
                    c,
                ).subset_of(byte_set(seen@) + byte_set(pending@)) by {
                    assert(successors(idx, buf@, sep, c).subset_of(byte_set(seen@) + byte_set(pend0)));
                }
            }
            continue;
        }
        let ghost seen0 = seen@;
        let ghost pend1 = pending@;
        seen.push(copy_bytes(cid.as_slice()));
        proof {
            assert(byte_set(seen@) =~= byte_set(seen0).insert(cid@)) by {
                assert(seen@[seen0.len() as int]@ == cid@);
                assert forall|s: Seq<u8>| byte_set(seen@).contains(s) implies byte_set(seen0).insert(cid@).contains(s) by {
                    let i = choose|i: int| 0 <= i < seen@.len() && #[trigger] seen@[i]@ == s;
                    if i < seen0.len() {
                        assert(seen0[i]@ == s);
                    }
                }
                assert forall|s: Seq<u8>| byte_set(seen0).contains(s) implies byte_set(seen@).contains(s) by {
                    let i = choose|i: int| 0 <= i < seen0.len() && #[trigger] seen0[i]@ == s;
                    assert(seen@[i]@ == s);
                }
            }
            vstd::set_lib::lemma_len_subset(byte_set(seen0), universe);
        }
        let ghost seen_set = byte_set(seen@);
        assert(seen_set == byte_set(seen0).insert(cid@));
        let ghost ords0 = ords@;
        let direct = index.secondary.lookup(TAG_CL_ORD_ID, cid.as_slice());
        add_ordinals(&mut ords, direct);
        let referers = index.secondary.lookup(TAG_ORIG_CL_ORD_ID, cid.as_slice());
        add_ordinals(&mut ords, referers);
        proof {
            assert(direct@ == lk(idx, TAG_CL_ORD_ID, cid@));
            assert(referers@ == lk(idx, TAG_ORIG_CL_ORD_ID, cid@));
            assert(ords@.to_set() == ords0.to_set() + direct@.to_set() + referers@.to_set());
            assert(ords0.to_set() == direct_ordinals(idx, byte_set(seen0)));
            assert(ords@.to_set() =~= direct_ordinals(idx, byte_set(seen@))) by {
                assert forall|o: u32| ords@.to_set().contains(o) implies direct_ordinals(idx, byte_set(seen@)).contains(o) by {
                    if direct_ordinals(idx, byte_set(seen0)).contains(o) {
                        let c = choose|c: Seq<u8>|
                            byte_set(seen0).contains(c) && (#[trigger] lk(idx, TAG_CL_ORD_ID, c).contains(o) || lk(
                                idx,
                                TAG_ORIG_CL_ORD_ID,
                                c,
                            ).contains(o));
                        assert(byte_set(seen@).contains(c));
                    } else {
                        assert(byte_set(seen@).contains(cid@));
                        assert(!ords0.to_set().contains(o));
                        assert(direct@.to_set().contains(o) || referers@.to_set().contains(o));
                        assert(lk(idx, TAG_CL_ORD_ID, cid@).contains(o) || lk(idx, TAG_ORIG_CL_ORD_ID, cid@).contains(o));
                    }
                }
                assert forall|o: u32| direct_ordinals(idx, byte_set(seen@)).contains(o) implies ords@.to_set().contains(o) by {
                    let c = choose|c: Seq<u8>|
                        byte_set(seen@).contains(c) && (#[trigger] lk(idx, TAG_CL_ORD_ID, c).contains(o) || lk(
                            idx,
                            TAG_ORIG_CL_ORD_ID,
                            c,
                        ).contains(o));
                    if c != cid@ {
                        assert(seen_set.contains(c));
                        assert(byte_set(seen0).contains(c));
                        assert(direct_ordinals(idx, byte_set(seen0)).contains(o));
                        assert(ords0.to_set().contains(o));
                    } else {
                        if lk(idx, TAG_CL_ORD_ID, c).contains(o) {
                            assert(direct@.to_set().contains(o));
                        } else {
                            assert(referers@.to_set().contains(o));
                        }
                    }
                }
            }
        }
        let mut k: usize = 0;
        while k < referers.len()
            invariant
                k <= referers@.len(),
                referers@ == lk(idx, TAG_ORIG_CL_ORD_ID, cid@),
                idx == *index,
                sep == separator_byte(format.separator),
                useq == cl_candidates(idx, buf@, sep, clordid@),
                universe == useq.to_set(),
                byte_set(pend1).subset_of(byte_set(pending@)),
                byte_set(pending@).subset_of(universe),
                forall|g: Set<Seq<u8>>|
                    g.contains(clordid@) && #[trigger] closed_family(idx, buf@, sep, g) ==> g.contains(cid@)
                        && byte_set(pending@).subset_of(g),
                forall|j: int|
                    0 <= j < k ==> (#[trigger] msg_value(idx, buf@, sep, referers@[j] as int, TAG_CL_ORD_ID) matches Some(
                        d,
                    ) ==> byte_set(seen@).contains(d) || byte_set(pending@).contains(d)),
            decreases referers.len() - k,
        {
            let ord = referers[k];
            let ghost p0 = pending@;
            match load_message(index, buf, format, ord as usize) {
                Some(msg) => {
                    match find_tag(&msg, TAG_CL_ORD_ID) {
                        Some(new_cl) => {
                            if !contains_bytes(&seen, new_cl) {
                                pending.push(copy_bytes(new_cl));
                                proof {
                                    assert(pending@[p0.len() as int]@ == new_cl@);
                                    assert(byte_set(pending@) =~= byte_set(p0).insert(new_cl@)) by {
                                        assert forall|s: Seq<u8>| byte_set(pending@).contains(s) implies byte_set(p0).insert(new_cl@).contains(s) by {
                                            let i = choose|i: int| 0 <= i < pending@.len() && #[trigger] pending@[i]@ == s;
                                            if i < p0.len() {
                                                assert(p0[i]@ == s);
                                            }
                                        }
                                        assert forall|s: Seq<u8>| byte_set(p0).contains(s) implies byte_set(pending@).contains(s) by {
                                            let i = choose|i: int| 0 <= i < p0.len() && #[trigger] p0[i]@ == s;
                                            assert(pending@[i]@ == s);
                                        }
                                    }
                                    assert(msg_value(idx, buf@, sep, ord as int, TAG_CL_ORD_ID) == Some(new_cl@));
                                    assert(useq[ord + 1] == new_cl@);
                                    assert(universe.contains(new_cl@));
                                    assert(successors(idx, buf@, sep, cid@).contains(new_cl@)) by {
                                        assert(msg_value(idx, buf@, sep, referers@[k as int] as int, TAG_CL_ORD_ID) == Some(new_cl@));
                                    }
                                }
                            }
                        },
                        None => {},
                    }
                },
                None => {},
            }
            proof {
                assert(byte_set(p0).subset_of(byte_set(pending@)));
            }
            k += 1;
        }
        proof {
            assert forall|c: Seq<u8>| #[trigger] byte_set(seen@).contains(c) implies successors(
                idx,
                buf@,
                sep,
                c,
            ).subset_of(byte_set(seen@) + byte_set(pending@)) by {
                if c == cid@ {
                    assert forall|d: Seq<u8>| successors(idx, buf@, sep, c).contains(d) implies (byte_set(seen@) + byte_set(pending@)).contains(d) by {
                        let k2 = choose|k2: int|
                            0 <= k2 < lk(idx, TAG_ORIG_CL_ORD_ID, c).len() && #[trigger] msg_value(
                                idx,
                                buf@,
                                sep,
                                lk(idx, TAG_ORIG_CL_ORD_ID, c)[k2] as int,
                                TAG_CL_ORD_ID,
                            ) == Some(d);
                        assert(msg_value(idx, buf@, sep, referers@[k2] as int, TAG_CL_ORD_ID) == Some(d));
                    }
                } else {
                    assert(byte_set(seen0).contains(c));
                    assert(successors(idx, buf@, sep, c).subset_of(byte_set(seen0) + byte_set(pend0)));
                }
            }
            assert(byte_set(seen@).subset_of(universe));
            vstd::set_lib::lemma_len_subset(byte_set(seen@), universe);
            vstd::set_lib::lemma_len_subset(byte_set(seen0), universe);
            assert(!byte_set(seen0).contains(cid@));
            assert(byte_set(seen@).len() == byte_set(seen0).len() + 1);
        }
    }
    proof {
        assert(byte_set(pending@) =~= Set::<Seq<u8>>::empty());
        assert(byte_set(seen@) + byte_set(pending@) =~= byte_set(seen@));
    }
    (seen, ords)
}

/// The OrderIDs of the messages at `ords`, sorted, without duplicates.
fn collect_order_ids(index: &LogIndex, buf: &[u8], format: &LogFormat, ords: &Vec<u32>) -> (r: Vec<Vec<u8>>)
    ensures
        sorted_bytes(r@),
        byte_set(r@) == order_ids_of(*index, buf@, separator_byte(format.separator), ords@.to_set()),
{
    let ghost sep = separator_byte(format.separator);
    let mut out: Vec<Vec<u8>> = Vec::new();
    let mut k: usize = 0;
    proof {
        assert(byte_set(out@) =~= order_ids_of(*index, buf@, sep, ords@.take(0).to_set())) by {
            assert(ords@.take(0).to_set() =~= Set::<u32>::empty());
        }
    }
    while k < ords.len()
        invariant
            k <= ords@.len(),
            sep == separator_byte(format.separator),
            sorted_bytes(out@),
            byte_set(out@) == order_ids_of(*index, buf@, sep, ords@.take(k as int).to_set()),
        decreases ords.len() - k,
    {
        let o = ords[k];
        let ghost before = byte_set(out@);
        match load_message(index, buf, format, o as usize) {
            Some(msg) => match find_tag(&msg, TAG_ORDER_ID) {
                Some(oid) => insert_sorted_bytes(&mut out, oid),
                None => {},
            },
            None => {},
        }
        proof {
            let prev = ords@.take(k as int).to_set();
            let next = ords@.take(k + 1).to_set();
            assert(ords@.take(k + 1) == ords@.take(k as int).push(o));
            ords@.take(k as int).lemma_push_to_set_commute(o);
            assert(next == prev.insert(o));
            assert(byte_set(out@) =~= order_ids_of(*index, buf@, sep, next)) by {
                assert forall|oid: Seq<u8>| order_ids_of(*index, buf@, sep, next).contains(oid) implies byte_set(out@).contains(oid) by {
                    let w = choose|w: u32| next.contains(w) && #[trigger] msg_value(*index, buf@, sep, w as int, TAG_ORDER_ID) == Some(oid);
                    if w != o {
                        assert(order_ids_of(*index, buf@, sep, prev).contains(oid));
                    }
                }
                assert forall|oid: Seq<u8>| byte_set(out@).contains(oid) implies order_ids_of(*index, buf@, sep, next).contains(oid) by {
                    if before.contains(oid) {
                        let w = choose|w: u32| prev.contains(w) && #[trigger] msg_value(*index, buf@, sep, w as int, TAG_ORDER_ID) == Some(oid);
                        assert(next.contains(w));
                    } else {
                        assert(msg_value(*index, buf@, sep, o as int, TAG_ORDER_ID) == Some(oid));
                        assert(next.contains(o));
                    }
                }
            }
        }
        k += 1;
    }
    assert(ords@.take(ords@.len() as int) =~= ords@);
    out
}

/// Add to `ords` every message that carries one of `oids` as OrderID.
fn expand_by_order_ids(index: &LogIndex, ords: &mut Vec<u32>, oids: &Vec<Vec<u8>>)
    requires
        index.wf(),
        sorted_u32(old(ords)@),
    ensures
        sorted_u32(final(ords)@),
        final(ords)@.to_set() == expand_ordinals(*index, old(ords)@.to_set(), byte_set(oids@)),
{
    let ghost base = ords@.to_set();
    let mut k: usize = 0;
    proof {
        assert(ords@.to_set() =~= expand_ordinals(*index, base, byte_set(oids@.take(0))));
    }
    while k < oids.len()
        invariant
            k <= oids@.len(),
            index.wf(),
            sorted_u32(ords@),
            ords@.to_set() == expand_ordinals(*index, base, byte_set(oids@.take(k as int))),
        decreases oids.len() - k,
    {
        let hits = index.secondary.lookup(TAG_ORDER_ID, oids[k].as_slice());
        let ghost before = ords@.to_set();
        add_ordinals(ords, hits);
        proof {
            let oid = oids@[k as int]@;
            assert(hits@ == lk(*index, TAG_ORDER_ID, oid));
            assert(byte_set(oids@.take(k + 1)) =~= byte_set(oids@.take(k as int)).insert(oid)) by {
                assert(oids@.take(k + 1)[k as int]@ == oid);
                assert forall|s: Seq<u8>| byte_set(oids@.take(k + 1)).contains(s) implies byte_set(oids@.take(k as int)).insert(oid).contains(s) by {
                    let i = choose|i: int| 0 <= i < oids@.take(k + 1).len() && #[trigger] oids@.take(k + 1)[i]@ == s;
                    if i < k {
                        assert(oids@.take(k as int)[i]@ == s);
                    }
                }
                assert forall|s: Seq<u8>| byte_set(oids@.take(k as int)).contains(s) implies byte_set(oids@.take(k + 1)).contains(s) by {
                    let i = choose|i: int| 0 <= i < oids@.take(k as int).len() && #[trigger] oids@.take(k as int)[i]@ == s;
                    assert(oids@.take(k + 1)[i]@ == s);
                }
            }
            let prev = byte_set(oids@.take(k as int));
            let next = byte_set(oids@.take(k + 1));
            assert(ords@.to_set() =~= expand_ordinals(*index, base, next)) by {
                assert forall|o: u32| expand_ordinals(*index, base, next).contains(o) implies ords@.to_set().contains(o) by {
                    if !base.contains(o) {
                        let w = choose|w: Seq<u8>| next.contains(w) && #[trigger] lk(*index, TAG_ORDER_ID, w).contains(o);
                        if w == oid {
                            assert(hits@.to_set().contains(o));
                        } else {
                            assert(prev.contains(w));
                            assert(expand_ordinals(*index, base, prev).contains(o));
                        }
                    }
                }
                assert forall|o: u32| ords@.to_set().contains(o) implies expand_ordinals(*index, base, next).contains(o) by {
                    if before.contains(o) {
                        if !base.contains(o) {
                            let w = choose|w: Seq<u8>| prev.contains(w) && #[trigger] lk(*index, TAG_ORDER_ID, w).contains(o);
                            assert(next.contains(w));
                        }
                    } else {
                        assert(hits@.to_set().contains(o));
                        assert(lk(*index, TAG_ORDER_ID, oid).contains(o));
                        assert(next.contains(oid));
                    }
                }
            }
        }
        k += 1;
    }
    assert(oids@.take(oids@.len() as int) =~= oids@);
}

/// The event of one message.
fn make_event(msg: &RawMessage<'_>, ord: u32) -> (e: OrderEvent)
    ensures
        event_of(e, ord, fields_of(*msg)),
{
    let msg_type = match find_tag(msg, TAG_MSG_TYPE) {
        Some(v) => copy_bytes(v),
        None => Vec::new(),
    };
    let sending_time = match find_tag(msg, TAG_SENDING_TIME) {
        Some(v) => sending_time_nanos(v),
        None => None,
    };
    OrderEvent {
        ordinal: ord,
        msg_type,
        sending_time,
        exec_type: owned(find_tag(msg, TAG_EXEC_TYPE)),
        ord_status: owned(find_tag(msg, TAG_ORD_STATUS)),
        last_qty: owned(find_tag(msg, TAG_LAST_QTY)),
        last_px: owned(find_tag(msg, TAG_LAST_PX)),
        cum_qty: owned(find_tag(msg, TAG_CUM_QTY)),
        avg_px: owned(find_tag(msg, TAG_AVG_PX)),
    }
}

/// Every event's ordinal is among the first `k` of `ords`.
pub open spec fn from_prefix(events: Seq<OrderEvent>, ords: Seq<u32>, k: int) -> bool {
    forall|i: int| 0 <= i < events.len() ==> #[trigger] in_prefix(events[i].ordinal, ords, k)
}

/// `o` is one of the first `k` of `ords`.
pub open spec fn in_prefix(o: u32, ords: Seq<u32>, k: int) -> bool {
    exists|j: int| 0 <= j < k && ords[j] == o
}

#[verifier::rlimit(40)]
#[verifier::spinoff_prover]
proof fn lemma_events_step(
    index: LogIndex,
    buf: Seq<u8>,
    sep: u8,
    ords: Seq<u32>,
    k: int,
    before: Seq<OrderEvent>,
    after: Seq<OrderEvent>,
)
    requires
        sorted_u32(ords),
        0 <= k < ords.len(),
        events_for(index, buf, sep, ords.take(k).to_set(), before),
        from_prefix(before, ords, k),
        msg_fields(index, buf, sep, ords[k] as int) is Some ==> after == before.push(after.last()) && event_of(
            after.last(),
            ords[k],
            msg_fields(index, buf, sep, ords[k] as int).unwrap(),
        ),
        msg_fields(index, buf, sep, ords[k] as int) is None ==> after == before,
    ensures
        events_for(index, buf, sep, ords.take(k + 1).to_set(), after),
        from_prefix(after, ords, k + 1),
{
    let o = ords[k];
    let prev = ords.take(k).to_set();
    let next = ords.take(k + 1).to_set();
    assert(ords.take(k + 1) == ords.take(k).push(o));
    ords.take(k).lemma_push_to_set_commute(o);
    assert(next == prev.insert(o));
    assert forall|i: int| 0 <= i < before.len() implies before[i].ordinal < o by {
        assert(in_prefix(before[i].ordinal, ords, k));
        let j = choose|j: int| 0 <= j < k && ords[j] == before[i].ordinal;
    }
    assert forall|i: int| 0 <= i < after.len() implies #[trigger] in_prefix(after[i].ordinal, ords, k + 1) by {
        if i < before.len() {
            assert(after[i] == before[i]);
            assert(in_prefix(before[i].ordinal, ords, k));
            let j = choose|j: int| 0 <= j < k && ords[j] == before[i].ordinal;
            assert(ords[j] == after[i].ordinal);
        } else {
            assert(ords[k] == after[i].ordinal);
        }
    }
    assert forall|w: u32| (exists|i: int| 0 <= i < after.len() && #[trigger] after[i].ordinal == w) <==> (next.contains(w)
        && msg_fields(index, buf, sep, w as int) is Some) by {
        if exists|i: int| 0 <= i < after.len() && #[trigger] after[i].ordinal == w {
            let i = choose|i: int| 0 <= i < after.len() && #[trigger] after[i].ordinal == w;
            if i < before.len() {
                assert(after[i] == before[i]);
                assert(prev.contains(w));
            }
        }
        if next.contains(w) && msg_fields(index, buf, sep, w as int) is Some {
            if w == o {
                assert(after[after.len() - 1].ordinal == w);
            } else {
                assert(prev.contains(w));
                let i = choose|i: int| 0 <= i < before.len() && #[trigger] before[i].ordinal == w;
                assert(after[i] == before[i]);
            }
        }
    }
    assert forall|i: int, j: int| 0 <= i < j < after.len() implies after[i].ordinal < after[j].ordinal by {
        if j < before.len() {
            assert(after[i] == before[i]);
            assert(after[j] == before[j]);
        } else {
            assert(after[i] == before[i]);
        }
    }
    assert forall|i: int| 0 <= i < after.len() implies event_of(
        #[trigger] after[i],
        after[i].ordinal,
        msg_fields(index, buf, sep, after[i].ordinal as int).unwrap(),
    ) by {
        if i < before.len() {
            assert(after[i] == before[i]);
        }
    }
}

/// The events of the messages at `ords` (sorted), skipping those that do
/// not parse.
fn materialize(index: &LogIndex, buf: &[u8], format: &LogFormat, ords: &Vec<u32>) -> (events: Vec<OrderEvent>)
    requires
        sorted_u32(ords@),
    ensures
        events_for(*index, buf@, separator_byte(format.separator), ords@.to_set(), events@),
{
    let ghost sep = separator_byte(format.separator);
    let mut events: Vec<OrderEvent> = Vec::new();
    let mut k: usize = 0;
    proof {
        assert(ords@.take(0).to_set() =~= Set::<u32>::empty());
    }
    while k < ords.len()
        invariant
            k <= ords@.len(),
            sorted_u32(ords@),
            sep == separator_byte(format.separator),
            from_prefix(events@, ords@, k as int),
            events_for(*index, buf@, sep, ords@.take(k as int).to_set(), events@),
        decreases ords.len() - k,
    {
        let o = ords[k];
        let ghost before = events@;
        match load_message(index, buf, format, o as usize) {
            Some(msg) => {
                let e = make_event(&msg, o);
                events.push(e);
            },
            None => {},
        }
        proof {
            lemma_events_step(*index, buf@, sep, ords@, k as int, before, events@);
        }
        k += 1;
    }
    assert(ords@.take(ords@.len() as int) =~= ords@);
    events
}

impl OrderTimeline {
    /// Reconstruct the timeline of `clordid`: `None` when no message carries
    /// it, or a member of its cancel/replace family, as ClOrdID or
    /// OrigClOrdID.
    pub fn build(index: &LogIndex, buf: &[u8], format: &LogFormat, clordid: &[u8]) -> (r: Option<Self>)
        requires
            index.wf(),
        ensures
            ({
                let sep = separator_byte(format.separator);
                let fam = order_family(*index, buf@, sep, clordid@);
                let direct = direct_ordinals(*index, fam);
                let oids = order_ids_of(*index, buf@, sep, direct);
                match r {
                    None => direct.is_empty(),
                    Some(tl) => {
                        &&& !direct.is_empty()
                        &&& tl.clordid@ == clordid@
                        &&& sorted_bytes(tl.order_ids@)
                        &&& byte_set(tl.order_ids@) == oids
                        &&& events_for(*index, buf@, sep, expand_ordinals(*index, direct, oids), tl.events@)
                    },
                }
            }),
    {
        let ghost sep = separator_byte(format.separator);
        let (family, mut ords) = collect_family(index, buf, format, clordid);
        proof {
            let fam = order_family(*index, buf@, sep, clordid@);
            assert(is_family(*index, buf@, sep, clordid@, byte_set(family@)));
            lemma_family_unique(*index, buf@, sep, clordid@, fam, byte_set(family@));
        }
        if ords.len() == 0 {
            assert(ords@.to_set() =~= Set::<u32>::empty());
            return None;
        }
        proof {
            assert(ords@.to_set().contains(ords@[0]));
        }
        let order_ids = collect_order_ids(index, buf, format, &ords);
        expand_by_order_ids(index, &mut ords, &order_ids);
        let events = materialize(index, buf, format, &ords);
        Some(OrderTimeline { clordid: copy_bytes(clordid), order_ids, events })
    }
}

/// The column character of a message type: `N` NewOrderSingle, `X`
/// ExecutionReport, `C` OrderCancelRequest, `R` OrderCancelReplaceRequest,
/// `!` Reject or BusinessMessageReject, `?` anything else.
pub open spec fn gantt_code(msg_type: Seq<u8>) -> u8 {
    if msg_type == seq![68u8] {
        78u8
    } else if msg_type == seq![56u8] {
        88u8
    } else if msg_type == seq![70u8] {
        67u8
    } else if msg_type == seq![71u8] {
        82u8
    } else if msg_type == seq![51u8] || msg_type == seq![106u8] {
        33u8
    } else {
        63u8
    }
}

/// The Gantt character of a message type (see [`gantt_code`]).
pub fn gantt_char(msg_type: &[u8]) -> (c: u8)
    ensures
        c == gantt_code(msg_type@),
{
    if msg_type.len() != 1 {
        assert(msg_type@ != seq![68u8] && msg_type@ != seq![56u8] && msg_type@ != seq![70u8]
            && msg_type@ != seq![71u8] && msg_type@ != seq![51u8] && msg_type@ != seq![106u8]);
        return 63;
    }
    let b = msg_type[0];
    assert(msg_type@ == seq![b]);
    if b == 68 {
        78
    } else if b == 56 {
        88
    } else if b == 70 {
        67
    } else if b == 71 {
        82
    } else if b == 51 || b == 106 {
        33
    } else {
        63
    }
}

/// The Gantt characters follow the legend printed above the row
/// (`N=D X=8 C=F R=G !=3/j ?=other`): each letter stands for exactly one
/// message type and each message type of the legend gets its own
/// character, so a replace never reads as a cancel or a new order.
pub proof fn law_gantt_legend(m: Seq<u8>)
    ensures
        gantt_code(m) == 78u8 <==> m == seq![68u8],
        gantt_code(m) == 88u8 <==> m == seq![56u8],
        gantt_code(m) == 67u8 <==> m == seq![70u8],
        gantt_code(m) == 82u8 <==> m == seq![71u8],
        gantt_code(m) == 33u8 <==> (m == seq![51u8] || m == seq![106u8]),
        gantt_code(m) == 63u8 <==> !(m == seq![68u8] || m == seq![56u8] || m == seq![70u8] || m == seq![71u8]
            || m == seq![51u8] || m == seq![106u8]),
{
    assert forall|x: u8| #[trigger] seq![x] == m <==> (m.len() == 1 && m[0] == x) by {
        if m.len() == 1 && m[0] == x {
            assert(m =~= seq![x]);
        }
        if seq![x] == m {
            assert(m[0] == seq![x][0]);
        }
    }
}

/// The Gantt width actually used: `width` clamped to `[10, 500]`.
pub open spec fn gantt_width(width: int) -> int {
    if width < 10 {
        10
    } else if width > 500 {
        500
    } else {
        width
    }
}

/// The timestamp of the first event that has one.
pub open spec fn first_time(events: Seq<OrderEvent>, i: int) -> Option<u128>
    decreases events.len() - i,
{
    if i < 0 || i >= events.len() {
        None
    } else if events[i].sending_time is Some {
        events[i].sending_time
    } else {
        first_time(events, i + 1)
    }
}

/// The timestamp of the last of the first `n` events that has one.
pub open spec fn last_time(events: Seq<OrderEvent>, n: int) -> Option<u128>
    decreases n,
{
    if n <= 0 || n > events.len() {
        None
    } else if events[n - 1].sending_time is Some {
        events[n - 1].sending_time
    } else {
        last_time(events, n - 1)
    }
}

/// The column of an event at time `t`: its offset from `first` scaled to
/// the row (an event before `first` goes to column 0).
pub open spec fn gantt_col(t: u128, first: u128, total: int, w: int) -> int {
    let offset = if t >= first {
        t - first
    } else {
        0
    };
    let col = offset * (w - 1) / total;
    if col > w - 1 {
        w - 1
    } else {
        col
    }
}

/// The row after painting the first `n` events: each timed event writes
/// its character at its column; a later event wins a shared column.
pub open spec fn gantt_paint(row: Seq<u8>, events: Seq<OrderEvent>, n: int, first: u128, total: int) -> Seq<u8>
    decreases n,
{
    if n <= 0 {
        row
    } else {
        let r = gantt_paint(row, events, n - 1, first, total);
        match events[n - 1].sending_time {
            Some(t) => r.update(gantt_col(t, first, total, row.len() as int), gantt_code(events[n - 1].msg_type@)),
            None => r,
        }
    }
}

/// The bytes of the Gantt row of a timeline (see [`render_gantt`]).
pub open spec fn gantt_bytes(events: Seq<OrderEvent>, width: int) -> Seq<u8> {
    let w = gantt_width(width);
    let dots = Seq::new(w as nat, |i: int| 46u8);
    match (first_time(events, 0), last_time(events, events.len() as int)) {
        (Some(a), Some(b)) if a != b => {
            let total = if b >= a && b - a > 1 {
                b - a
            } else {
                1
            };
            gantt_paint(dots, events, events.len() as int, a, total)
        },
        _ => if events.len() > 0 {
            dots.update(0, gantt_code(events.last().msg_type@))
        } else {
            dots
        },
    }
}

/// Painting keeps the length of a row and keeps it ASCII.
proof fn lemma_paint_ascii(row: Seq<u8>, events: Seq<OrderEvent>, n: int, first: u128, total: int)
    requires
        row.len() >= 1,
        total >= 1,
        forall|i: int| 0 <= i < row.len() ==> row[i] < 128,
    ensures
        gantt_paint(row, events, n, first, total).len() == row.len(),
        forall|i: int| 0 <= i < row.len() ==> #[trigger] gantt_paint(row, events, n, first, total)[i] < 128,
    decreases n,
{
    if n > 0 {
        lemma_paint_ascii(row, events, n - 1, first, total);
        match events[n - 1].sending_time {
            Some(t) => {
                let w = row.len() as int;
                let offset: int = if t >= first {
                    t - first
                } else {
                    0
                };
                assert(offset * (w - 1) / total >= 0) by (nonlinear_arith)
                    requires
                        offset >= 0,
                        w >= 1,
                        total >= 1,
                ;
            },
            None => {},
        }
    }
}

/// The Gantt row is ASCII, hence valid UTF-8.
pub proof fn lemma_gantt_ascii(events: Seq<OrderEvent>, width: int)
    ensures
        forall|i: int| 0 <= i < gantt_bytes(events, width).len() ==> #[trigger] gantt_bytes(events, width)[i] < 128,
        vstd::utf8::valid_utf8(gantt_bytes(events, width)),
{
    let w = gantt_width(width);
    let dots = Seq::new(w as nat, |i: int| 46u8);
    match (first_time(events, 0), last_time(events, events.len() as int)) {
        (Some(a), Some(b)) if a != b => {
            let total = if b >= a && b - a > 1 {
                b - a
            } else {
                1
            };
            lemma_paint_ascii(dots, events, events.len() as int, a, total as int);
        },
        _ => {},
    }
    let g = gantt_bytes(events, width);
    assert(g.subrange(0, 0) =~= Seq::<u8>::empty());
    assert(vstd::utf8::valid_utf8(Seq::<u8>::empty()));
    assert forall|i: int| 0 <= 0 <= i < g.len() <= g.len() implies #[trigger] vstd::utf8::is_leading_byte_width_1(g[i]) by {}
    vstd::utf8::partial_valid_utf8_extend_ascii_block(g, 0, g.len() as int);
    assert(g.subrange(0, g.len() as int) =~= g);
}

/// Render a horizontal ASCII Gantt bar for a timeline.
///
/// The width is clamped to `[10, 500]`. Each timed event is placed at the
/// column proportional to its time between the first and the last timed
/// events; without two distinct timestamps every event goes to column 0.
/// Characters: see [`gantt_code`]; `.` marks an empty column.
pub fn render_gantt(timeline: &OrderTimeline, width: usize) -> (s: String)
    requires
        forall|i: int|
            0 <= i < timeline.events@.len() ==> ((#[trigger] timeline.events@[i]).sending_time matches Some(t)
                ==> t * 500 <= u128::MAX),
    ensures
        s@ == vstd::utf8::decode_utf8(gantt_bytes(timeline.events@, width as int)),
        vstd::utf8::encode_utf8(s@) == gantt_bytes(timeline.events@, width as int),
{
    proof {
        lemma_gantt_ascii(timeline.events@, width as int);
        vstd::utf8::decode_utf8_encode_utf8(gantt_bytes(timeline.events@, width as int));
    }
    let ghost events = timeline.events@;
    let w: usize = if width < 10 {
        10
    } else if width > 500 {
        500
    } else {
        width
    };
    let mut row: Vec<u8> = Vec::new();
    let mut i: usize = 0;
    while i < w
        invariant
            i <= w,
            row@ == Seq::new(i as nat, |j: int| 46u8),
        decreases w - i,
    {
        row.push(46u8);
        assert(row@ =~= Seq::new((i + 1) as nat, |j: int| 46u8));
        i += 1;
    }
    let ghost dots = row@;
    let n = timeline.events.len();
    // First and last timestamps, in event order.
    let mut first: Option<u128> = None;
    let mut i: usize = n;
    while i > 0
        invariant
            i <= n,
            n == events.len(),
            events == timeline.events@,
            first == first_time(events, i as int),
        decreases i,
    {
        i -= 1;
        match timeline.events[i].sending_time {
            Some(t) => {
                first = Some(t);
            },
            None => {},
        }
    }
    let mut last: Option<u128> = None;
    let mut i: usize = 0;
    while i < n
        invariant
            i <= n,
            n == events.len(),
            events == timeline.events@,
            last == last_time(events, i as int),
        decreases n - i,
    {
        match timeline.events[i].sending_time {
            Some(t) => {
                last = Some(t);
            },
            None => {},
        }
        i += 1;
    }
    match (first, last) {
        (Some(a), Some(b)) if a != b => {
            let total: u128 = if b >= a && b - a > 1 {
                b - a
            } else {
                1
            };
            let mut k: usize = 0;
            while k < n
                invariant
                    k <= n,
                    n == events.len(),
                    events == timeline.events@,
                    row@.len() == w,
                    10 <= w <= 500,
                    total >= 1,
                    dots.len() == w,
                    row@ == gantt_paint(dots, events, k as int, a, total as int),
                    forall|i: int|
                        0 <= i < events.len() ==> ((#[trigger] events[i]).sending_time matches Some(t) ==> t * 500
                            <= u128::MAX),
                decreases n - k,
            {
                match timeline.events[k].sending_time {
                    Some(t) => {
                        assert(t * 500 <= u128::MAX);
                        let offset: u128 = if t >= a {
                            t - a
                        } else {
                            0
                        };
                        assert((offset as int) * ((w - 1) as int) <= (t as int) * 500) by (nonlinear_arith)
                            requires
                                offset <= t,
                                w - 1 <= 499,
                                w >= 1,
                        ;
                        let scaled = offset * (w as u128 - 1);
                        let c = scaled / total;
                        let col: usize = if c > (w - 1) as u128 {
                            w - 1
                        } else {
                            c as usize
                        };
                        let ch = gantt_char(timeline.events[k].msg_type.as_slice());
                        row.set(col, ch);
                    },
                    None => {},
                }
                k += 1;
            }
        },
        _ => {
            if n > 0 {
                let ch = gantt_char(timeline.events[n - 1].msg_type.as_slice());
                row.set(0, ch);
            }
        },
    }
    string_from_utf8(row)
}

} // verus!
