//! Session tracking: messages grouped by their `(SenderCompID,
//! TargetCompID)` pair, with the two directions of a pair folded into one
//! canonical session, per-MsgType counts, the MsgSeqNum range and the gaps
//! in MsgSeqNum within each direction.
//!
//! Everything a map keeps is owned: a map built over one buffer stays valid
//! after the buffer is replaced by a longer one and [`SessionMap::append_from`]
//! carries it on.
use vstd::prelude::*;

use crate::analysis::orders::{load_message, msg_value};
use crate::analysis::sets::{bytes_lt, lex_lt};
use crate::bytes::copy_bytes;
use crate::format::{LogFormat, separator_byte};
use crate::index::LogIndex;
use crate::index::secondary::bytes_eq;
use crate::parser::{
    TAG_MSG_SEQ_NUM, TAG_MSG_TYPE, TAG_SENDER_COMP_ID, TAG_TARGET_COMP_ID, find_tag, parse_uint,
    spec_parse_uint,
};

verus! {

/// Session identity: the `(49, 56)` pair, in canonical order (see
/// [`SessionKey::canonical`]).
#[derive(Clone, Debug, Eq, Hash, PartialEq)]
pub struct SessionKey {
    pub sender: Vec<u8>,
    pub target: Vec<u8>,
}

impl View for SessionKey {
    type V = (Seq<u8>, Seq<u8>);

    open spec fn view(&self) -> (Seq<u8>, Seq<u8>) {
        (self.sender@, self.target@)
    }
}

/// The two CompIDs of a pair, the lexicographically smaller first: both
/// directions of a conversation get the same key.
pub open spec fn canonical_pair(a: Seq<u8>, b: Seq<u8>) -> (Seq<u8>, Seq<u8>) {
    if lex_lt(b, a) {
        (b, a)
    } else {
        (a, b)
    }
}

impl SessionKey {
    /// The key of the session between `a` and `b`, whichever of the two
    /// sent the message.
    pub fn canonical(a: &[u8], b: &[u8]) -> (k: Self)
        ensures
            k@ == canonical_pair(a@, b@),
    {
        if bytes_lt(b, a) {
            SessionKey { sender: copy_bytes(b), target: copy_bytes(a) }
        } else {
            SessionKey { sender: copy_bytes(a), target: copy_bytes(b) }
        }
    }

    /// A copy of the key.
    pub fn duplicate(&self) -> (k: Self)
        ensures
            k@ == self@,
    {
        SessionKey { sender: copy_bytes(self.sender.as_slice()), target: copy_bytes(self.target.as_slice()) }
    }
}

/// A MsgSeqNum gap inside one direction of a session: the message at
/// `ordinal_after` carries `to_seq`, and the previous message of the same
/// direction, at `ordinal_before`, carried `from_seq`, with
/// `to_seq > from_seq + 1`.
#[derive(Clone, Copy, Debug, Eq, PartialEq, Structural)]
pub struct SeqGap {
    pub from_seq: u32,
    pub to_seq: u32,
    pub ordinal_before: u32,
    pub ordinal_after: u32,
}

/// Per-session aggregated metrics.
#[derive(Debug)]
pub struct SessionStats {
    /// Messages sent by the session's `target` to its `sender`.
    pub in_count: u32,
    /// Messages sent by the session's `sender` to its `target`.
    pub out_count: u32,
    /// Message count per MsgType value, each type once, in order of first
    /// appearance.
    pub by_msg_type: Vec<(Vec<u8>, u32)>,
    pub seq_min: Option<u32>,
    pub seq_max: Option<u32>,
    pub gaps: Vec<SeqGap>,
    /// Ordinals of the session's messages, ascending.
    pub ordinals: Vec<u32>,
    /// `(MsgSeqNum, ordinal)` of the last outbound message that had a
    /// MsgSeqNum: where the next gap check of that direction starts.
    pub last_out: Option<(u32, u32)>,
    /// The same for inbound messages.
    pub last_in: Option<(u32, u32)>,
}

/// Aggregate view of the sessions of a log.
#[derive(Debug)]
pub struct SessionMap {
    /// Each session once, with its metrics, in order of first appearance.
    pub by_key: Vec<(SessionKey, SessionStats)>,
    /// The session of each message, by ordinal; `None` for a message that
    /// does not parse or lacks SenderCompID or TargetCompID.
    pub by_ordinal: Vec<Option<SessionKey>>,
}

// ---------------------------------------------------------------------------
// What each message contributes
// ---------------------------------------------------------------------------
/// SenderCompID and TargetCompID of message `o`, when it parses and has both.
pub open spec fn msg_ids(index: LogIndex, buf: Seq<u8>, sep: u8, o: int) -> Option<(Seq<u8>, Seq<u8>)> {
    match (msg_value(index, buf, sep, o, TAG_SENDER_COMP_ID), msg_value(index, buf, sep, o, TAG_TARGET_COMP_ID)) {
        (Some(s), Some(t)) => Some((s, t)),
        _ => None,
    }
}

/// The session of message `o`.
pub open spec fn msg_session(index: LogIndex, buf: Seq<u8>, sep: u8, o: int) -> Option<(Seq<u8>, Seq<u8>)> {
    match msg_ids(index, buf, sep, o) {
        Some((s, t)) => Some(canonical_pair(s, t)),
        None => None,
    }
}

/// Message `o` goes from its session's `sender` to its `target`.
pub open spec fn msg_outbound(index: LogIndex, buf: Seq<u8>, sep: u8, o: int) -> bool {
    match msg_ids(index, buf, sep, o) {
        Some((s, t)) => !lex_lt(t, s),
        None => false,
    }
}

/// The MsgSeqNum of message `o`, when present and a valid `u32`.
pub open spec fn msg_seq(index: LogIndex, buf: Seq<u8>, sep: u8, o: int) -> Option<u32> {
    match msg_value(index, buf, sep, o, TAG_MSG_SEQ_NUM) {
        Some(v) => spec_parse_uint(v),
        None => None,
    }
}

/// Message `o` belongs to session `key`.
pub open spec fn in_session(index: LogIndex, buf: Seq<u8>, sep: u8, o: int, key: (Seq<u8>, Seq<u8>)) -> bool {
    msg_session(index, buf, sep, o) == Some(key)
}

// ---------------------------------------------------------------------------
// Aggregates over the first `k` messages
// ---------------------------------------------------------------------------
/// The sessions of the first `k` messages, each once, in order of first
/// appearance.
pub open spec fn session_keys(index: LogIndex, buf: Seq<u8>, sep: u8, k: int) -> Seq<(Seq<u8>, Seq<u8>)>
    decreases k,
{
    if k <= 0 {
        Seq::empty()
    } else {
        let ks = session_keys(index, buf, sep, k - 1);
        match msg_session(index, buf, sep, k - 1) {
            Some(key) => if ks.contains(key) {
                ks
            } else {
                ks.push(key)
            },
            None => ks,
        }
    }
}

/// The ordinals among the first `k` that belong to `key`.
pub open spec fn session_ordinals(index: LogIndex, buf: Seq<u8>, sep: u8, key: (Seq<u8>, Seq<u8>), k: int) -> Seq<
    u32,
>
    decreases k,
{
    if k <= 0 {
        Seq::empty()
    } else {
        let r = session_ordinals(index, buf, sep, key, k - 1);
        if in_session(index, buf, sep, k - 1, key) {
            r.push((k - 1) as u32)
        } else {
            r
        }
    }
}

/// How many of the first `k` messages belong to `key` and go in the given
/// direction.
pub open spec fn direction_count(
    index: LogIndex,
    buf: Seq<u8>,
    sep: u8,
    key: (Seq<u8>, Seq<u8>),
    outbound: bool,
    k: int,
) -> nat
    decreases k,
{
    if k <= 0 {
        0
    } else {
        direction_count(index, buf, sep, key, outbound, k - 1) + if in_session(index, buf, sep, k - 1, key)
            && msg_outbound(index, buf, sep, k - 1) == outbound {
            1nat
        } else {
            0nat
        }
    }
}

/// The MsgTypes of the first `k` messages of `key`, each once, in order of
/// first appearance.
pub open spec fn type_keys(index: LogIndex, buf: Seq<u8>, sep: u8, key: (Seq<u8>, Seq<u8>), k: int) -> Seq<
    Seq<u8>,
>
    decreases k,
{
    if k <= 0 {
        Seq::empty()
    } else {
        let r = type_keys(index, buf, sep, key, k - 1);
        if in_session(index, buf, sep, k - 1, key) {
            match msg_value(index, buf, sep, k - 1, TAG_MSG_TYPE) {
                Some(t) => if r.contains(t) {
                    r
                } else {
                    r.push(t)
                },
                None => r,
            }
        } else {
            r
        }
    }
}

/// How many of the first `k` messages of `key` have MsgType `t`.
pub open spec fn type_count(index: LogIndex, buf: Seq<u8>, sep: u8, key: (Seq<u8>, Seq<u8>), t: Seq<u8>, k: int) -> nat
    decreases k,
{
    if k <= 0 {
        0
    } else {
        type_count(index, buf, sep, key, t, k - 1) + if in_session(index, buf, sep, k - 1, key) && msg_value(
            index,
            buf,
            sep,
            k - 1,
            TAG_MSG_TYPE,
        ) == Some(t) {
            1nat
        } else {
            0nat
        }
    }
}

/// The smallest MsgSeqNum among the first `k` messages of `key`.
pub open spec fn seq_low(index: LogIndex, buf: Seq<u8>, sep: u8, key: (Seq<u8>, Seq<u8>), k: int) -> Option<u32>
    decreases k,
{
    if k <= 0 {
        None
    } else {
        let r = seq_low(index, buf, sep, key, k - 1);
        if in_session(index, buf, sep, k - 1, key) {
            match msg_seq(index, buf, sep, k - 1) {
                Some(s) => match r {
                    Some(m) => Some(if s < m { s } else { m }),
                    None => Some(s),
                },
                None => r,
            }
        } else {
            r
        }
    }
}

/// The largest MsgSeqNum among the first `k` messages of `key`.
pub open spec fn seq_high(index: LogIndex, buf: Seq<u8>, sep: u8, key: (Seq<u8>, Seq<u8>), k: int) -> Option<u32>
    decreases k,
{
    if k <= 0 {
        None
    } else {
        let r = seq_high(index, buf, sep, key, k - 1);
        if in_session(index, buf, sep, k - 1, key) {
            match msg_seq(index, buf, sep, k - 1) {
                Some(s) => match r {
                    Some(m) => Some(if s > m { s } else { m }),
                    None => Some(s),
                },
                None => r,
            }
        } else {
            r
        }
    }
}

/// `(MsgSeqNum, ordinal)` of the last of the first `k` messages of `key`
/// that go in the given direction and carry a MsgSeqNum.
pub open spec fn last_seq(
    index: LogIndex,
    buf: Seq<u8>,
    sep: u8,
    key: (Seq<u8>, Seq<u8>),
    outbound: bool,
    k: int,
) -> Option<(u32, u32)>
    decreases k,
{
    if k <= 0 {
        None
    } else {
        let r = last_seq(index, buf, sep, key, outbound, k - 1);
        if in_session(index, buf, sep, k - 1, key) && msg_outbound(index, buf, sep, k - 1) == outbound {
            match msg_seq(index, buf, sep, k - 1) {
                Some(s) => Some((s, (k - 1) as u32)),
                None => r,
            }
        } else {
            r
        }
    }
}

/// The MsgSeqNum gaps among the first `k` messages of `key`: each message
/// whose MsgSeqNum exceeds that of the previous message of its direction by
/// more than one gives a gap, in ordinal order.
pub open spec fn seq_gaps(index: LogIndex, buf: Seq<u8>, sep: u8, key: (Seq<u8>, Seq<u8>), k: int) -> Seq<SeqGap>
    decreases k,
{
    if k <= 0 {
        Seq::empty()
    } else {
        let r = seq_gaps(index, buf, sep, key, k - 1);
        if in_session(index, buf, sep, k - 1, key) {
            match (
                msg_seq(index, buf, sep, k - 1),
                last_seq(index, buf, sep, key, msg_outbound(index, buf, sep, k - 1), k - 1),
            ) {
                (Some(s), Some((p, po))) => if s > p + 1 {
                    r.push(SeqGap { from_seq: p, to_seq: s, ordinal_before: po, ordinal_after: (k - 1) as u32 })
                } else {
                    r
                },
                _ => r,
            }
        } else {
            r
        }
    }
}

/// `st` holds the metrics of session `key` over the first `k` messages.
pub open spec fn stats_match(st: SessionStats, index: LogIndex, buf: Seq<u8>, sep: u8, key: (Seq<u8>, Seq<u8>), k: int) -> bool {
    &&& st.in_count == direction_count(index, buf, sep, key, false, k)
    &&& st.out_count == direction_count(index, buf, sep, key, true, k)
    &&& st.by_msg_type@.len() == type_keys(index, buf, sep, key, k).len()
    &&& forall|j: int|
        0 <= j < st.by_msg_type@.len() ==> (#[trigger] st.by_msg_type@[j]).0@ == type_keys(
            index,
            buf,
            sep,
            key,
            k,
        )[j] && st.by_msg_type@[j].1 == type_count(
            index,
            buf,
            sep,
            key,
            type_keys(index, buf, sep, key, k)[j],
            k,
        )
    &&& st.seq_min == seq_low(index, buf, sep, key, k)
    &&& st.seq_max == seq_high(index, buf, sep, key, k)
    &&& st.gaps@ == seq_gaps(index, buf, sep, key, k)
    &&& st.ordinals@ == session_ordinals(index, buf, sep, key, k)
    &&& st.last_out == last_seq(index, buf, sep, key, true, k)
    &&& st.last_in == last_seq(index, buf, sep, key, false, k)
}

/// The view of an optional key.
pub open spec fn key_view(k: Option<SessionKey>) -> Option<(Seq<u8>, Seq<u8>)> {
    match k {
        Some(key) => Some(key@),
        None => None,
    }
}

/// `m` holds the sessions of the first `k` messages of `index`.
pub open spec fn sessions_match(m: SessionMap, index: LogIndex, buf: Seq<u8>, sep: u8, k: int) -> bool {
    &&& m.by_key@.len() == session_keys(index, buf, sep, k).len()
    &&& forall|j: int|
        0 <= j < m.by_key@.len() ==> (#[trigger] m.by_key@[j]).0@ == session_keys(index, buf, sep, k)[j]
            && stats_match(m.by_key@[j].1, index, buf, sep, session_keys(index, buf, sep, k)[j], k)
    &&& m.by_ordinal@.len() == k
    &&& forall|o: int| 0 <= o < k ==> key_view(#[trigger] m.by_ordinal@[o]) == msg_session(index, buf, sep, o)
}

// ---------------------------------------------------------------------------
// Lemmas
// ---------------------------------------------------------------------------
/// A session that none of the first `k` messages belongs to has empty
/// metrics there.
pub proof fn lemma_absent_empty(index: LogIndex, buf: Seq<u8>, sep: u8, key: (Seq<u8>, Seq<u8>), k: int)
    requires
        !session_keys(index, buf, sep, k).contains(key),
    ensures
        direction_count(index, buf, sep, key, true, k) == 0,
        direction_count(index, buf, sep, key, false, k) == 0,
        type_keys(index, buf, sep, key, k).len() == 0,
        seq_low(index, buf, sep, key, k) is None,
        seq_high(index, buf, sep, key, k) is None,
        last_seq(index, buf, sep, key, true, k) is None,
        last_seq(index, buf, sep, key, false, k) is None,
        seq_gaps(index, buf, sep, key, k).len() == 0,
        session_ordinals(index, buf, sep, key, k).len() == 0,
    decreases k,
{
    if k > 0 {
        let ks = session_keys(index, buf, sep, k - 1);
        if ks.contains(key) {
            let j = choose|j: int| 0 <= j < ks.len() && ks[j] == key;
            match msg_session(index, buf, sep, k - 1) {
                Some(x) => if !ks.contains(x) {
                    assert(session_keys(index, buf, sep, k)[j] == key);
                } else {
                    assert(session_keys(index, buf, sep, k)[j] == key);
                },
                None => {
                    assert(session_keys(index, buf, sep, k)[j] == key);
                },
            }
        }
        match msg_session(index, buf, sep, k - 1) {
            Some(x) => {
                if x == key {
                    if !ks.contains(x) {
                        assert(session_keys(index, buf, sep, k)[ks.len() as int] == key);
                    }
                }
            },
            None => {},
        }
        lemma_absent_empty(index, buf, sep, key, k - 1);
    }
}

/// A type not among the types of the first `k` messages of `key` has count
/// zero there.
pub proof fn lemma_type_absent(index: LogIndex, buf: Seq<u8>, sep: u8, key: (Seq<u8>, Seq<u8>), t: Seq<u8>, k: int)
    requires
        !type_keys(index, buf, sep, key, k).contains(t),
    ensures
        type_count(index, buf, sep, key, t, k) == 0,
    decreases k,
{
    if k > 0 {
        let r = type_keys(index, buf, sep, key, k - 1);
        if r.contains(t) {
            let j = choose|j: int| 0 <= j < r.len() && r[j] == t;
            assert(type_keys(index, buf, sep, key, k)[j] == t);
        }
        if in_session(index, buf, sep, k - 1, key) && msg_value(index, buf, sep, k - 1, TAG_MSG_TYPE) == Some(t) {
            if !r.contains(t) {
                assert(type_keys(index, buf, sep, key, k)[r.len() as int] == t);
            }
        }
        lemma_type_absent(index, buf, sep, key, t, k - 1);
    }
}

/// No session appears twice.
pub proof fn lemma_keys_distinct(index: LogIndex, buf: Seq<u8>, sep: u8, k: int)
    ensures
        forall|i: int, j: int|
            0 <= i < j < session_keys(index, buf, sep, k).len() ==> session_keys(index, buf, sep, k)[i]
                != session_keys(index, buf, sep, k)[j],
    decreases k,
{
    if k > 0 {
        lemma_keys_distinct(index, buf, sep, k - 1);
        let ks = session_keys(index, buf, sep, k - 1);
        match msg_session(index, buf, sep, k - 1) {
            Some(key) => if !ks.contains(key) {
                let ns = ks.push(key);
                assert forall|i: int, j: int| 0 <= i < j < ns.len() implies ns[i] != ns[j] by {
                    if j == ks.len() && ns[i] == key {
                        assert(ks[i] == key);
                    }
                }
            },
            None => {},
        }
    }
}

/// No MsgType of a session appears twice.
pub proof fn lemma_types_distinct(index: LogIndex, buf: Seq<u8>, sep: u8, key: (Seq<u8>, Seq<u8>), k: int)
    ensures
        forall|i: int, j: int|
            0 <= i < j < type_keys(index, buf, sep, key, k).len() ==> type_keys(index, buf, sep, key, k)[i]
                != type_keys(index, buf, sep, key, k)[j],
    decreases k,
{
    if k > 0 {
        lemma_types_distinct(index, buf, sep, key, k - 1);
        let r = type_keys(index, buf, sep, key, k - 1);
        if in_session(index, buf, sep, k - 1, key) {
            match msg_value(index, buf, sep, k - 1, TAG_MSG_TYPE) {
                Some(t) => if !r.contains(t) {
                    let ns = r.push(t);
                    assert forall|i: int, j: int| 0 <= i < j < ns.len() implies ns[i] != ns[j] by {
                        if j == r.len() && ns[i] == t {
                            assert(r[i] == t);
                        }
                    }
                },
                None => {},
            }
        }
    }
}

/// Counts never exceed the number of messages seen.
pub proof fn lemma_counts_bounded(index: LogIndex, buf: Seq<u8>, sep: u8, key: (Seq<u8>, Seq<u8>), t: Seq<u8>, k: int)
    requires
        k >= 0,
    ensures
        direction_count(index, buf, sep, key, true, k) <= k,
        direction_count(index, buf, sep, key, false, k) <= k,
        type_count(index, buf, sep, key, t, k) <= k,
    decreases k,
{
    if k > 0 {
        lemma_counts_bounded(index, buf, sep, key, t, k - 1);
    }
}


/// Every message with both CompIDs belongs to exactly one session, the
/// one its pair names, and is counted once there, as inbound or outbound:
/// a session's ordinals are exactly its messages, and its two counts add
/// up to their number.
pub proof fn law_each_message_in_its_session(
    index: LogIndex,
    buf: Seq<u8>,
    sep: u8,
    key: (Seq<u8>, Seq<u8>),
    k: int,
)
    requires
        0 <= k <= u32::MAX,
    ensures
        direction_count(index, buf, sep, key, true, k) + direction_count(index, buf, sep, key, false, k)
            == session_ordinals(index, buf, sep, key, k).len(),
        forall|o: int|
            0 <= o < k ==> (session_ordinals(index, buf, sep, key, k).contains(o as u32) <==> in_session(
                index,
                buf,
                sep,
                o,
                key,
            )),
        forall|i: int|
            0 <= i < session_ordinals(index, buf, sep, key, k).len() ==> #[trigger] session_ordinals(
                index,
                buf,
                sep,
                key,
                k,
            )[i] < k,
    decreases k,
{
    if k > 0 {
        law_each_message_in_its_session(index, buf, sep, key, k - 1);
        let r = session_ordinals(index, buf, sep, key, k - 1);
        let s = session_ordinals(index, buf, sep, key, k);
        assert forall|o: int| 0 <= o < k implies (s.contains(o as u32) <==> in_session(index, buf, sep, o, key)) by {
            if o < k - 1 {
                if s.contains(o as u32) {
                    let j = choose|j: int| 0 <= j < s.len() && s[j] == o as u32;
                    if j < r.len() {
                        assert(r[j] == o as u32);
                    }
                }
                if r.contains(o as u32) {
                    let j = choose|j: int| 0 <= j < r.len() && r[j] == o as u32;
                    assert(s[j] == o as u32);
                }
            } else {
                if in_session(index, buf, sep, o, key) {
                    assert(s[r.len() as int] == o as u32);
                } else {
                    if s.contains(o as u32) {
                        let j = choose|j: int| 0 <= j < s.len() && s[j] == o as u32;
                        assert(r[j] < k - 1);
                    }
                }
            }
        }
    }
}

/// Every gap is a real jump: the MsgSeqNum after it exceeds the one before
/// by more than one, and the message after it comes later in the log.
pub proof fn law_gaps_are_jumps(index: LogIndex, buf: Seq<u8>, sep: u8, key: (Seq<u8>, Seq<u8>), k: int)
    requires
        0 <= k <= u32::MAX,
    ensures
        forall|i: int|
            #![trigger seq_gaps(index, buf, sep, key, k)[i]]
            0 <= i < seq_gaps(index, buf, sep, key, k).len() ==> seq_gaps(index, buf, sep, key, k)[i].to_seq
                > seq_gaps(index, buf, sep, key, k)[i].from_seq + 1 && seq_gaps(index, buf, sep, key, k)[i].ordinal_before
                < seq_gaps(index, buf, sep, key, k)[i].ordinal_after,
    decreases k,
{
    if k > 0 {
        law_gaps_are_jumps(index, buf, sep, key, k - 1);
        lemma_last_seq_before(index, buf, sep, key, msg_outbound(index, buf, sep, k - 1), k - 1);
        let r = seq_gaps(index, buf, sep, key, k - 1);
        let g = seq_gaps(index, buf, sep, key, k);
        assert forall|i: int| #![trigger g[i]] 0 <= i < g.len() implies g[i].to_seq > g[i].from_seq + 1
            && g[i].ordinal_before < g[i].ordinal_after by {
            if i < r.len() {
                assert(g[i] == r[i]);
            } else {
                assert(in_session(index, buf, sep, k - 1, key));
                let ob = msg_outbound(index, buf, sep, k - 1);
                let sq = msg_seq(index, buf, sep, k - 1).unwrap();
                let (p, po) = last_seq(index, buf, sep, key, ob, k - 1).unwrap();
                assert(msg_seq(index, buf, sep, k - 1) is Some);
                assert(last_seq(index, buf, sep, key, ob, k - 1) is Some);
                assert(sq > p + 1);
                assert(g[i] == SeqGap { from_seq: p, to_seq: sq, ordinal_before: po, ordinal_after: (k - 1) as u32 });
                assert(po < k - 1);
            }
        }
    }
}

/// The last MsgSeqNum of a direction was seen before message `k`.
proof fn lemma_last_seq_before(index: LogIndex, buf: Seq<u8>, sep: u8, key: (Seq<u8>, Seq<u8>), outbound: bool, k: int)
    requires
        0 <= k <= u32::MAX,
    ensures
        last_seq(index, buf, sep, key, outbound, k) matches Some((s, po)) ==> po < k,
    decreases k,
{
    if k > 0 {
        lemma_last_seq_before(index, buf, sep, key, outbound, k - 1);
    }
}

// ---------------------------------------------------------------------------
// One message added to a session
// ---------------------------------------------------------------------------
/// `x + 1`, held at `u32::MAX`.
pub open spec fn sat_inc(x: u32) -> u32 {
    if x == u32::MAX {
        x
    } else {
        (x + 1) as u32
    }
}

/// The per-type counts after a message of type `mt`: the entry of `mt`
/// counts one more, or a new entry with count one is appended.
pub open spec fn types_noted(old: Seq<(Vec<u8>, u32)>, new: Seq<(Vec<u8>, u32)>, mt: Option<Seq<u8>>) -> bool {
    match mt {
        None => new.len() == old.len() && forall|j: int|
            0 <= j < old.len() ==> (#[trigger] new[j]).0@ == old[j].0@ && new[j].1 == old[j].1,
        Some(t) => if exists|j: int| 0 <= j < old.len() && (#[trigger] old[j]).0@ == t {
            new.len() == old.len() && forall|j: int|
                0 <= j < old.len() ==> (#[trigger] new[j]).0@ == old[j].0@ && new[j].1 == if old[j].0@ == t {
                    sat_inc(old[j].1)
                } else {
                    old[j].1
                }
        } else {
            &&& new.len() == old.len() + 1
            &&& forall|j: int| 0 <= j < old.len() ==> (#[trigger] new[j]).0@ == old[j].0@ && new[j].1 == old[j].1
            &&& new[old.len() as int].0@ == t
            &&& new[old.len() as int].1 == 1
        },
    }
}

/// The gap a message with MsgSeqNum `seq` at ordinal `o` opens after the
/// previous message `last` of its direction.
pub open spec fn gap_of(last: Option<(u32, u32)>, seq: Option<u32>, o: u32) -> Option<SeqGap> {
    match (seq, last) {
        (Some(s), Some((p, po))) => if s > p + 1 {
            Some(SeqGap { from_seq: p, to_seq: s, ordinal_before: po, ordinal_after: o })
        } else {
            None
        },
        _ => None,
    }
}

/// The smaller of an optional bound and an optional value.
pub open spec fn opt_low(m: Option<u32>, s: Option<u32>) -> Option<u32> {
    match s {
        Some(v) => match m {
            Some(x) => Some(if v < x { v } else { x }),
            None => Some(v),
        },
        None => m,
    }
}

/// The larger of an optional bound and an optional value.
pub open spec fn opt_high(m: Option<u32>, s: Option<u32>) -> Option<u32> {
    match s {
        Some(v) => match m {
            Some(x) => Some(if v > x { v } else { x }),
            None => Some(v),
        },
        None => m,
    }
}

/// `new` is `old` after one more message, at ordinal `o`, going in the
/// given direction, with MsgType `mt` and MsgSeqNum `seq`.
pub open spec fn stats_noted(
    old: SessionStats,
    new: SessionStats,
    outbound: bool,
    mt: Option<Seq<u8>>,
    seq: Option<u32>,
    o: u32,
) -> bool {
    &&& new.in_count == if outbound {
        old.in_count
    } else {
        sat_inc(old.in_count)
    }
    &&& new.out_count == if outbound {
        sat_inc(old.out_count)
    } else {
        old.out_count
    }
    &&& types_noted(old.by_msg_type@, new.by_msg_type@, mt)
    &&& new.seq_min == opt_low(old.seq_min, seq)
    &&& new.seq_max == opt_high(old.seq_max, seq)
    &&& new.gaps@ == match gap_of(
        if outbound {
            old.last_out
        } else {
            old.last_in
        },
        seq,
        o,
    ) {
        Some(g) => old.gaps@.push(g),
        None => old.gaps@,
    }
    &&& new.ordinals@ == old.ordinals@.push(o)
    &&& new.last_out == if outbound && seq is Some {
        Some((seq->0, o))
    } else {
        old.last_out
    }
    &&& new.last_in == if !outbound && seq is Some {
        Some((seq->0, o))
    } else {
        old.last_in
    }
}

impl SessionStats {
    /// Metrics of a session with no message yet.
    pub fn new() -> (st: Self)
        ensures
            st.in_count == 0,
            st.out_count == 0,
            st.by_msg_type@.len() == 0,
            st.seq_min is None,
            st.seq_max is None,
            st.gaps@.len() == 0,
            st.ordinals@.len() == 0,
            st.last_out is None,
            st.last_in is None,
    {
        SessionStats {
            in_count: 0,
            out_count: 0,
            by_msg_type: Vec::new(),
            seq_min: None,
            seq_max: None,
            gaps: Vec::new(),
            ordinals: Vec::new(),
            last_out: None,
            last_in: None,
        }
    }

    /// Count one more message of type `mt`.
    fn note_type(&mut self, mt: &[u8])
        ensures
            types_noted(old(self).by_msg_type@, final(self).by_msg_type@, Some(mt@)),
            final(self).in_count == old(self).in_count,
            final(self).out_count == old(self).out_count,
            final(self).seq_min == old(self).seq_min,
            final(self).seq_max == old(self).seq_max,
            final(self).gaps == old(self).gaps,
            final(self).ordinals == old(self).ordinals,
            final(self).last_out == old(self).last_out,
            final(self).last_in == old(self).last_in,
    {
        let ghost before = self.by_msg_type@;
        let mut found = false;
        let mut j: usize = 0;
        while j < self.by_msg_type.len()
            invariant
                j <= self.by_msg_type@.len(),
                self.by_msg_type@.len() == before.len(),
                found == exists|i: int| 0 <= i < j && (#[trigger] before[i]).0@ == mt@,
                forall|i: int|
                    0 <= i < before.len() ==> (#[trigger] self.by_msg_type@[i]).0@ == before[i].0@ && self.by_msg_type@[i].1
                        == if i < j && before[i].0@ == mt@ {
                        sat_inc(before[i].1)
                    } else {
                        before[i].1
                    },
                self.in_count == old(self).in_count,
                self.out_count == old(self).out_count,
                self.seq_min == old(self).seq_min,
                self.seq_max == old(self).seq_max,
                self.gaps == old(self).gaps,
                self.ordinals == old(self).ordinals,
                self.last_out == old(self).last_out,
                self.last_in == old(self).last_in,
            decreases before.len() - j,
        {
            if bytes_eq(self.by_msg_type[j].0.as_slice(), mt) {
                let entry = &mut self.by_msg_type[j];
                entry.1 = entry.1.saturating_add(1);
                found = true;
            }
            proof {
                if before[j as int].0@ == mt@ {
                    assert(exists|i: int| 0 <= i < j + 1 && (#[trigger] before[i]).0@ == mt@);
                }
            }
            j += 1;
        }
        if !found {
            self.by_msg_type.push((copy_bytes(mt), 1));
        }
    }

    /// Add the message at ordinal `o`, going in the given direction, with
    /// MsgType `mt` and MsgSeqNum `seq`: the direction's count, the type's
    /// count, the MsgSeqNum range, a gap when MsgSeqNum jumps past the
    /// previous one of the same direction, and the ordinal.
    pub fn note_message(&mut self, outbound: bool, mt: Option<&[u8]>, seq: Option<u32>, o: u32)
        ensures
            stats_noted(
                *old(self),
                *final(self),
                outbound,
                match mt {
                    Some(t) => Some(t@),
                    None => None,
                },
                seq,
                o,
            ),
    {
        if outbound {
            self.out_count = self.out_count.saturating_add(1);
        } else {
            self.in_count = self.in_count.saturating_add(1);
        }
        match mt {
            Some(t) => self.note_type(t),
            None => {},
        }
        if let Some(s) = seq {
            self.seq_min = match self.seq_min {
                Some(m) => Some(if s < m { s } else { m }),
                None => Some(s),
            };
            self.seq_max = match self.seq_max {
                Some(m) => Some(if s > m { s } else { m }),
                None => Some(s),
            };
            let last = if outbound { self.last_out } else { self.last_in };
            if let Some((p, po)) = last {
                if s > p && s - p > 1 {
                    self.gaps.push(SeqGap { from_seq: p, to_seq: s, ordinal_before: po, ordinal_after: o });
                }
            }
            if outbound {
                self.last_out = Some((s, o));
            } else {
                self.last_in = Some((s, o));
            }
        }
        self.ordinals.push(o);
    }
}


/// Metrics that match the first `o` messages match the first `o + 1` when
/// message `o` belongs to another session.
pub proof fn lemma_stats_other(st: SessionStats, index: LogIndex, buf: Seq<u8>, sep: u8, key: (Seq<u8>, Seq<u8>), o: int)
    requires
        o >= 0,
        stats_match(st, index, buf, sep, key, o),
        !in_session(index, buf, sep, o, key),
    ensures
        stats_match(st, index, buf, sep, key, o + 1),
{
    assert(type_keys(index, buf, sep, key, o + 1) == type_keys(index, buf, sep, key, o));
    assert forall|j: int| 0 <= j < st.by_msg_type@.len() implies (#[trigger] st.by_msg_type@[j]).0@ == type_keys(
        index,
        buf,
        sep,
        key,
        o + 1,
    )[j] && st.by_msg_type@[j].1 == type_count(
        index,
        buf,
        sep,
        key,
        type_keys(index, buf, sep, key, o + 1)[j],
        o + 1,
    ) by {
        let t = type_keys(index, buf, sep, key, o)[j];
        assert(type_count(index, buf, sep, key, t, o + 1) == type_count(index, buf, sep, key, t, o));
    }
}

/// Metrics that match the first `o` messages, with message `o` of the
/// session noted, match the first `o + 1`.
pub proof fn lemma_stats_step(
    old_st: SessionStats,
    new_st: SessionStats,
    index: LogIndex,
    buf: Seq<u8>,
    sep: u8,
    key: (Seq<u8>, Seq<u8>),
    o: int,
)
    requires
        0 <= o < u32::MAX,
        stats_match(old_st, index, buf, sep, key, o),
        in_session(index, buf, sep, o, key),
        stats_noted(
            old_st,
            new_st,
            msg_outbound(index, buf, sep, o),
            msg_value(index, buf, sep, o, TAG_MSG_TYPE),
            msg_seq(index, buf, sep, o),
            o as u32,
        ),
    ensures
        stats_match(new_st, index, buf, sep, key, o + 1),
{
    let old_t = old_st.by_msg_type@;
    let new_t = new_st.by_msg_type@;
    let tk = type_keys(index, buf, sep, key, o);
    lemma_counts_bounded(index, buf, sep, key, Seq::empty(), o);
    match msg_value(index, buf, sep, o, TAG_MSG_TYPE) {
        None => {
            assert(type_keys(index, buf, sep, key, o + 1) == tk);
            assert forall|j: int| 0 <= j < new_t.len() implies (#[trigger] new_t[j]).0@ == type_keys(
                index,
                buf,
                sep,
                key,
                o + 1,
            )[j] && new_t[j].1 == type_count(index, buf, sep, key, type_keys(index, buf, sep, key, o + 1)[j], o + 1)
                by {
                assert(old_t[j].0@ == tk[j]);
                assert(type_count(index, buf, sep, key, tk[j], o + 1) == type_count(index, buf, sep, key, tk[j], o));
            }
        },
        Some(t) => {
            if exists|j: int| 0 <= j < old_t.len() && (#[trigger] old_t[j]).0@ == t {
                let jj = choose|j: int| 0 <= j < old_t.len() && (#[trigger] old_t[j]).0@ == t;
                assert(old_t[jj].0@ == tk[jj]);
                assert(tk.contains(t));
                assert(type_keys(index, buf, sep, key, o + 1) == tk);
                assert forall|j: int| 0 <= j < new_t.len() implies (#[trigger] new_t[j]).0@ == type_keys(
                    index,
                    buf,
                    sep,
                    key,
                    o + 1,
                )[j] && new_t[j].1 == type_count(
                    index,
                    buf,
                    sep,
                    key,
                    type_keys(index, buf, sep, key, o + 1)[j],
                    o + 1,
                ) by {
                    assert(old_t[j].0@ == tk[j]);
                    lemma_counts_bounded(index, buf, sep, key, tk[j], o);
                }
            } else {
                assert(!tk.contains(t)) by {
                    if tk.contains(t) {
                        let j = choose|j: int| 0 <= j < tk.len() && tk[j] == t;
                        assert(old_t[j].0@ == t);
                    }
                }
                lemma_type_absent(index, buf, sep, key, t, o);
                assert(type_keys(index, buf, sep, key, o + 1) == tk.push(t));
                assert forall|j: int| 0 <= j < new_t.len() implies (#[trigger] new_t[j]).0@ == type_keys(
                    index,
                    buf,
                    sep,
                    key,
                    o + 1,
                )[j] && new_t[j].1 == type_count(
                    index,
                    buf,
                    sep,
                    key,
                    type_keys(index, buf, sep, key, o + 1)[j],
                    o + 1,
                ) by {
                    if j < old_t.len() {
                        assert(old_t[j].0@ == tk[j]);
                        assert(tk[j] != t);
                    }
                }
            }
        },
    }
}


// ---------------------------------------------------------------------------
// Building the map
// ---------------------------------------------------------------------------
/// The bytes of an optional slice.
pub open spec fn slice_view(x: Option<&[u8]>) -> Option<Seq<u8>> {
    match x {
        Some(b) => Some(b@),
        None => None,
    }
}

/// SenderCompID, TargetCompID, MsgType and MsgSeqNum of message `o`, when it
/// parses and has the two CompIDs.
fn read_identity<'b>(index: &LogIndex, buf: &'b [u8], format: &LogFormat, o: usize) -> (r: Option<
    (&'b [u8], &'b [u8], Option<&'b [u8]>, Option<u32>),
>)
    ensures
        match msg_ids(*index, buf@, separator_byte(format.separator), o as int) {
            Some((s, t)) => r matches Some(x) && x.0@ == s && x.1@ == t && slice_view(x.2) == msg_value(
                *index,
                buf@,
                separator_byte(format.separator),
                o as int,
                TAG_MSG_TYPE,
            ) && x.3 == msg_seq(*index, buf@, separator_byte(format.separator), o as int),
            None => r is None,
        },
{
    let msg = match load_message(index, buf, format, o) {
        Some(m) => m,
        None => return None,
    };
    let sender = match find_tag(&msg, TAG_SENDER_COMP_ID) {
        Some(v) => v,
        None => return None,
    };
    let target = match find_tag(&msg, TAG_TARGET_COMP_ID) {
        Some(v) => v,
        None => return None,
    };
    let mt = find_tag(&msg, TAG_MSG_TYPE);
    let seq = match find_tag(&msg, TAG_MSG_SEQ_NUM) {
        Some(v) => parse_uint(v),
        None => None,
    };
    Some((sender, target, mt, seq))
}

impl SessionMap {
    /// A map with no session.
    pub fn new() -> (m: Self)
        ensures
            m.by_key@.len() == 0,
            m.by_ordinal@.len() == 0,
    {
        SessionMap { by_key: Vec::new(), by_ordinal: Vec::new() }
    }

    /// Position of `key` in `by_key`.
    pub fn find_session(&self, key: &SessionKey) -> (r: Option<usize>)
        ensures
            match r {
                Some(j) => j < self.by_key@.len() && self.by_key@[j as int].0@ == key@,
                None => forall|j: int| 0 <= j < self.by_key@.len() ==> (#[trigger] self.by_key@[j]).0@ != key@,
            },
    {
        let mut j: usize = 0;
        while j < self.by_key.len()
            invariant
                j <= self.by_key@.len(),
                forall|i: int| 0 <= i < j ==> (#[trigger] self.by_key@[i]).0@ != key@,
            decreases self.by_key@.len() - j,
        {
            let k = &self.by_key[j].0;
            if bytes_eq(k.sender.as_slice(), key.sender.as_slice()) && bytes_eq(
                k.target.as_slice(),
                key.target.as_slice(),
            ) {
                return Some(j);
            }
            j += 1;
        }
        None
    }

    /// Add message `o` of `index`: a map of the first `o` messages becomes
    /// a map of the first `o + 1`.
    fn note(&mut self, index: &LogIndex, buf: &[u8], format: &LogFormat, o: usize)
        requires
            o < u32::MAX,
        ensures
            sessions_match(*old(self), *index, buf@, separator_byte(format.separator), o as int) ==> sessions_match(
                *final(self),
                *index,
                buf@,
                separator_byte(format.separator),
                o + 1,
            ),
    {
        let ghost sep = separator_byte(format.separator);
        let ghost pre = *self;
        let ghost ks = session_keys(*index, buf@, sep, o as int);
        proof {
            lemma_keys_distinct(*index, buf@, sep, o as int);
        }
        match read_identity(index, buf, format, o) {
            None => {
                self.by_ordinal.push(None);
                proof {
                    if sessions_match(pre, *index, buf@, sep, o as int) {
                        assert(session_keys(*index, buf@, sep, o + 1) == ks);
                        assert forall|j: int| 0 <= j < self.by_key@.len() implies (#[trigger] self.by_key@[j]).0@ == ks[j]
                            && stats_match(self.by_key@[j].1, *index, buf@, sep, ks[j], o + 1) by {
                            lemma_stats_other(self.by_key@[j].1, *index, buf@, sep, ks[j], o as int);
                        }
                        assert forall|q: int| 0 <= q < o + 1 implies key_view(#[trigger] self.by_ordinal@[q])
                            == msg_session(*index, buf@, sep, q) by {
                            if q < o {
                                assert(self.by_ordinal@[q] == pre.by_ordinal@[q]);
                            }
                        }
                    }
                }
            },
            Some((sender, target, mt, seq)) => {
                let outbound = !bytes_lt(target, sender);
                let key = SessionKey::canonical(sender, target);
                let ghost kv = key@;
                assert(msg_session(*index, buf@, sep, o as int) == Some(kv));
                assert(msg_outbound(*index, buf@, sep, o as int) == outbound);
                let at = match self.find_session(&key) {
                    Some(i) => i,
                    None => {
                        self.by_key.push((key.duplicate(), SessionStats::new()));
                        proof {
                            if sessions_match(pre, *index, buf@, sep, o as int) {
                                assert(!ks.contains(kv)) by {
                                    if ks.contains(kv) {
                                        let j = choose|j: int| 0 <= j < ks.len() && ks[j] == kv;
                                        assert(pre.by_key@[j].0@ == kv);
                                    }
                                }
                                lemma_absent_empty(*index, buf@, sep, kv, o as int);
                                let st = self.by_key@[pre.by_key@.len() as int].1;
                                assert(st.gaps@ =~= seq_gaps(*index, buf@, sep, kv, o as int));
                                assert(st.ordinals@ =~= session_ordinals(*index, buf@, sep, kv, o as int));
                                assert(stats_match(st, *index, buf@, sep, kv, o as int));
                            }
                        }
                        self.by_key.len() - 1
                    },
                };
                let ghost mid = *self;
                let ghost before_st = self.by_key@[at as int].1;
                let entry = &mut self.by_key[at];
                entry.1.note_message(outbound, mt, seq, o as u32);
                self.by_ordinal.push(Some(key));
                proof {
                    if sessions_match(pre, *index, buf@, sep, o as int) {
                        let nks = session_keys(*index, buf@, sep, o + 1);
                        assert(self.by_key@[at as int].0@ == kv);
                        if at < pre.by_key@.len() {
                            assert(ks[at as int] == kv);
                            assert(ks.contains(kv));
                            assert(nks == ks);
                        } else {
                            assert(!ks.contains(kv)) by {
                                if ks.contains(kv) {
                                    let j = choose|j: int| 0 <= j < ks.len() && ks[j] == kv;
                                    assert(pre.by_key@[j].0@ == kv);
                                }
                            }
                            assert(nks == ks.push(kv));
                        }
                        assert(stats_match(before_st, *index, buf@, sep, kv, o as int));
                        lemma_stats_step(
                            before_st,
                            self.by_key@[at as int].1,
                            *index,
                            buf@,
                            sep,
                            kv,
                            o as int,
                        );
                        assert forall|j: int| 0 <= j < self.by_key@.len() implies (#[trigger] self.by_key@[j]).0@ == nks[j]
                            && stats_match(self.by_key@[j].1, *index, buf@, sep, nks[j], o + 1) by {
                            if j != at {
                                assert(self.by_key@[j] == mid.by_key@[j]);
                                assert(j < pre.by_key@.len());
                                assert(mid.by_key@[j] == pre.by_key@[j]);
                                assert(nks[j] == ks[j]);
                                assert(ks[j] != kv) by {
                                    if at < pre.by_key@.len() {
                                        assert(ks[at as int] == kv);
                                    }
                                }
                                lemma_stats_other(self.by_key@[j].1, *index, buf@, sep, ks[j], o as int);
                            }
                        }
                        assert forall|q: int| 0 <= q < o + 1 implies key_view(#[trigger] self.by_ordinal@[q])
                            == msg_session(*index, buf@, sep, q) by {
                            if q < o {
                                assert(self.by_ordinal@[q] == pre.by_ordinal@[q]);
                            }
                        }
                    }
                }
            },
        }
    }

    /// Add messages `from_ordinal..` of `index` to a map that holds the
    /// messages before `from_ordinal`. Used to follow a growing log: the
    /// map stays owned while the buffer behind `index` is replaced.
    pub fn append_from(&mut self, index: &LogIndex, buf: &[u8], format: &LogFormat, from_ordinal: u32)
        requires
            index.messages@.len() <= u32::MAX,
        ensures
            from_ordinal <= index.messages@.len() && sessions_match(
                *old(self),
                *index,
                buf@,
                separator_byte(format.separator),
                from_ordinal as int,
            ) ==> sessions_match(
                *final(self),
                *index,
                buf@,
                separator_byte(format.separator),
                index.messages@.len() as int,
            ),
    {
        let ghost sep = separator_byte(format.separator);
        let ghost start_ok = from_ordinal <= index.messages@.len() && sessions_match(
            *self,
            *index,
            buf@,
            sep,
            from_ordinal as int,
        );
        let n = index.messages.len();
        let mut o: usize = from_ordinal as usize;
        while o < n
            invariant
                n == index.messages@.len(),
                n <= u32::MAX,
                sep == separator_byte(format.separator),
                start_ok ==> from_ordinal <= o <= n && sessions_match(*self, *index, buf@, sep, o as int),
            decreases n - o,
        {
            self.note(index, buf, format, o);
            o += 1;
        }
    }

    /// The sessions of every message of `index`.
    pub fn build(index: &LogIndex, buf: &[u8], format: &LogFormat) -> (m: Self)
        requires
            index.messages@.len() <= u32::MAX,
        ensures
            sessions_match(m, *index, buf@, separator_byte(format.separator), index.messages@.len() as int),
    {
        let mut m = SessionMap::new();
        proof {
            let sep = separator_byte(format.separator);
            assert(session_keys(*index, buf@, sep, 0).len() == 0);
        }
        m.append_from(index, buf, format, 0);
        m
    }
}

} // verus!
