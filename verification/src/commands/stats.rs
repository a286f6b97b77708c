//! The `stats` summary of a log: message and error counts, the MsgType
//! breakdown, the `(SenderCompID, TargetCompID)` pairs, the SendingTime
//! range and the session hints that pick the dictionary.
use vstd::prelude::*;

use crate::analysis::assoc::{afind, ainsert, akeys_unique, amap};
use crate::analysis::sessions::SessionKey;
use crate::analysis::sets::{bytes_lt, lex_lt};
use crate::bytes::copy_bytes;
use crate::commands::rank::{Counted, counted_view, counted_views, rank, ranked, take_first};
use crate::index::secondary::bytes_eq;
use crate::commands::text::{left_col, lossy_string, push_left_col, text_of};
use crate::dict::{FixVersion, chain_for, chain_msg, chain_msg_type_label, spec_chain_for};
use crate::parser::{
    RawMessage, TAG_BEGIN_STRING, TAG_MSG_TYPE, TAG_SENDER_COMP_ID, TAG_SENDING_TIME, TAG_TARGET_COMP_ID,
    fields_of,
};
use crate::render::{decimal, lossy, pad_left, push_bytes, push_decimal, push_spaces, str_bytes, utf8_lossy};

verus! {

/// ApplVerID: the application version of FIXT.1.1 sessions.
pub const TAG_APPL_VER_ID: u32 = 1128;

/// How many message types the summary lists.
pub const MSG_TYPE_TOP_N: usize = 10;

/// `x + 1`, held at `u64::MAX`.
pub open spec fn sat_inc64(x: u64) -> u64 {
    if x == u64::MAX {
        x
    } else {
        (x + 1) as u64
    }
}

// ---------------------------------------------------------------------------
// Pair-keyed counts
// ---------------------------------------------------------------------------
/// The pair of an entry.
pub open spec fn pkey(e: (SessionKey, u64)) -> (Seq<u8>, Seq<u8>) {
    e.0@
}

/// No two entries share a pair.
pub open spec fn pkeys_unique(s: Seq<(SessionKey, u64)>) -> bool {
    forall|i: int, j: int| 0 <= i < j < s.len() ==> pkey(s[i]) != pkey(s[j])
}

/// The count each pair has.
pub open spec fn pmap(s: Seq<(SessionKey, u64)>) -> Map<(Seq<u8>, Seq<u8>), u64> {
    Map::new(
        |k: (Seq<u8>, Seq<u8>)| exists|i: int| 0 <= i < s.len() && #[trigger] pkey(s[i]) == k,
        |k: (Seq<u8>, Seq<u8>)| s[choose|i: int| 0 <= i < s.len() && #[trigger] pkey(s[i]) == k].1,
    )
}

proof fn lemma_pmap_at(s: Seq<(SessionKey, u64)>, i: int)
    requires
        pkeys_unique(s),
        0 <= i < s.len(),
    ensures
        pmap(s).dom().contains(pkey(s[i])),
        pmap(s)[pkey(s[i])] == s[i].1,
{
    let k = pkey(s[i]);
    assert(exists|j: int| 0 <= j < s.len() && #[trigger] pkey(s[j]) == k);
    let j = choose|j: int| 0 <= j < s.len() && #[trigger] pkey(s[j]) == k;
    if j != i {
        if j < i {
            assert(pkey(s[j]) != pkey(s[i]));
        } else {
            assert(pkey(s[i]) != pkey(s[j]));
        }
    }
}

proof fn lemma_pmap_update(s: Seq<(SessionKey, u64)>, i: int, e: (SessionKey, u64))
    requires
        pkeys_unique(s),
        0 <= i < s.len(),
        pkey(e) == pkey(s[i]),
    ensures
        pkeys_unique(s.update(i, e)),
        pmap(s.update(i, e)) == pmap(s).insert(pkey(e), e.1),
{
    let s2 = s.update(i, e);
    assert(pkeys_unique(s2)) by {
        assert forall|a: int, b: int| 0 <= a < b < s2.len() implies pkey(s2[a]) != pkey(s2[b]) by {
            assert(pkey(s2[a]) == pkey(s[a]));
            assert(pkey(s2[b]) == pkey(s[b]));
        }
    }
    let m1 = pmap(s2);
    let m2 = pmap(s).insert(pkey(e), e.1);
    assert forall|k: (Seq<u8>, Seq<u8>)| m1.dom().contains(k) <==> m2.dom().contains(k) by {
        if m2.dom().contains(k) && k != pkey(e) {
            let j = choose|j: int| 0 <= j < s.len() && #[trigger] pkey(s[j]) == k;
            assert(pkey(s2[j]) == k);
        }
        if k == pkey(e) {
            assert(pkey(s2[i]) == k);
        }
        if m1.dom().contains(k) {
            let j = choose|j: int| 0 <= j < s2.len() && #[trigger] pkey(s2[j]) == k;
            assert(pkey(s[j]) == k);
        }
    }
    assert forall|k: (Seq<u8>, Seq<u8>)| m1.dom().contains(k) implies m1[k] == m2[k] by {
        let j = choose|j: int| 0 <= j < s2.len() && #[trigger] pkey(s2[j]) == k;
        lemma_pmap_at(s2, j);
        if j != i {
            lemma_pmap_at(s, j);
        }
    }
    assert(m1 =~= m2);
}

proof fn lemma_pmap_push(s: Seq<(SessionKey, u64)>, e: (SessionKey, u64))
    requires
        pkeys_unique(s),
        !pmap(s).dom().contains(pkey(e)),
    ensures
        pkeys_unique(s.push(e)),
        pmap(s.push(e)) == pmap(s).insert(pkey(e), e.1),
{
    let s2 = s.push(e);
    assert(pkeys_unique(s2)) by {
        assert forall|a: int, b: int| 0 <= a < b < s2.len() implies pkey(s2[a]) != pkey(s2[b]) by {
            if b == s.len() {
                assert(pkey(s2[a]) == pkey(s[a]));
                if pkey(s[a]) == pkey(e) {
                    assert(pmap(s).dom().contains(pkey(e)));
                }
            }
        }
    }
    let m1 = pmap(s2);
    let m2 = pmap(s).insert(pkey(e), e.1);
    assert forall|k: (Seq<u8>, Seq<u8>)| m1.dom().contains(k) <==> m2.dom().contains(k) by {
        if m2.dom().contains(k) && k != pkey(e) {
            let j = choose|j: int| 0 <= j < s.len() && #[trigger] pkey(s[j]) == k;
            assert(pkey(s2[j]) == k);
        }
        if k == pkey(e) {
            assert(pkey(s2[s.len() as int]) == k);
        }
        if m1.dom().contains(k) {
            let j = choose|j: int| 0 <= j < s2.len() && #[trigger] pkey(s2[j]) == k;
            if j < s.len() {
                assert(pkey(s[j]) == k);
            }
        }
    }
    assert forall|k: (Seq<u8>, Seq<u8>)| m1.dom().contains(k) implies m1[k] == m2[k] by {
        let j = choose|j: int| 0 <= j < s2.len() && #[trigger] pkey(s2[j]) == k;
        lemma_pmap_at(s2, j);
        if j < s.len() {
            lemma_pmap_at(s, j);
        }
    }
    assert(m1 =~= m2);
}

/// The count of `k` in `m`, zero when absent.
pub open spec fn count_in<K>(m: Map<K, u64>, k: K) -> u64 {
    if m.dom().contains(k) {
        m[k]
    } else {
        0
    }
}

/// Count one more message of the pair `(s, t)`.
fn bump_pair(v: &mut Vec<(SessionKey, u64)>, s: &[u8], t: &[u8])
    requires
        pkeys_unique(old(v)@),
    ensures
        pkeys_unique(final(v)@),
        pmap(final(v)@) == pmap(old(v)@).insert((s@, t@), sat_inc64(count_in(pmap(old(v)@), (s@, t@)))),
{
    let mut i: usize = 0;
    while i < v.len()
        invariant
            i <= v@.len(),
            v@ == old(v)@,
            pkeys_unique(v@),
            forall|j: int| 0 <= j < i ==> pkey(#[trigger] v@[j]) != (s@, t@),
        decreases v.len() - i,
    {
        if bytes_eq(v[i].0.sender.as_slice(), s) && bytes_eq(v[i].0.target.as_slice(), t) {
            proof {
                lemma_pmap_at(v@, i as int);
            }
            let c = v[i].1;
            let key = SessionKey { sender: copy_bytes(s), target: copy_bytes(t) };
            let ghost e = (key, c.saturating_add(1));
            proof {
                lemma_pmap_update(v@, i as int, e);
            }
            v.set(i, (key, c.saturating_add(1)));
            return;
        }
        i += 1;
    }
    assert(!pmap(v@).dom().contains((s@, t@))) by {
        if pmap(v@).dom().contains((s@, t@)) {
            let j = choose|j: int| 0 <= j < v@.len() && #[trigger] pkey(v@[j]) == (s@, t@);
            assert(pkey(v@[j]) != (s@, t@));
        }
    }
    let key = SessionKey { sender: copy_bytes(s), target: copy_bytes(t) };
    let ghost e = (key, 1u64);
    proof {
        lemma_pmap_push(v@, e);
    }
    v.push((key, 1));
}

/// Count one more message of type `k`.
fn bump_key(v: &mut Vec<(Vec<u8>, u64)>, k: &[u8])
    requires
        akeys_unique(old(v)@),
    ensures
        akeys_unique(final(v)@),
        amap(final(v)@) == amap(old(v)@).insert(k@, sat_inc64(count_in(amap(old(v)@), k@))),
{
    let c: u64 = match afind(v, k) {
        Some(i) => v[i].1,
        None => 0,
    };
    ainsert(v, k, c.saturating_add(1));
}

// ---------------------------------------------------------------------------
// What one message adds
// ---------------------------------------------------------------------------
/// The value of the last field of `f[..k]` with tag `tag`.
pub open spec fn last_value(f: Seq<(u32, Seq<u8>)>, tag: u32, k: int) -> Option<Seq<u8>>
    decreases k,
{
    if k <= 0 {
        None
    } else if f[k - 1].0 == tag {
        Some(f[k - 1].1)
    } else {
        last_value(f, tag, k - 1)
    }
}

/// The MsgType counts after the fields `f[..k]`: one more for every MsgType
/// field.
pub open spec fn types_after(m: Map<Seq<u8>, u64>, f: Seq<(u32, Seq<u8>)>, k: int) -> Map<Seq<u8>, u64>
    decreases k,
{
    if k <= 0 {
        m
    } else {
        let p = types_after(m, f, k - 1);
        if f[k - 1].0 == TAG_MSG_TYPE {
            p.insert(f[k - 1].1, sat_inc64(count_in(p, f[k - 1].1)))
        } else {
            p
        }
    }
}

/// The lower end of the SendingTime range after `f[..k]`: every SendingTime
/// field compares, byte by byte.
pub open spec fn time_low(t: Option<Seq<u8>>, f: Seq<(u32, Seq<u8>)>, k: int) -> Option<Seq<u8>>
    decreases k,
{
    if k <= 0 {
        t
    } else {
        let p = time_low(t, f, k - 1);
        if f[k - 1].0 == TAG_SENDING_TIME {
            match p {
                Some(c) => if lex_lt(f[k - 1].1, c) {
                    Some(f[k - 1].1)
                } else {
                    p
                },
                None => Some(f[k - 1].1),
            }
        } else {
            p
        }
    }
}

/// The upper end of the SendingTime range after `f[..k]`.
pub open spec fn time_high(t: Option<Seq<u8>>, f: Seq<(u32, Seq<u8>)>, k: int) -> Option<Seq<u8>>
    decreases k,
{
    if k <= 0 {
        t
    } else {
        let p = time_high(t, f, k - 1);
        if f[k - 1].0 == TAG_SENDING_TIME {
            match p {
                Some(c) => if lex_lt(c, f[k - 1].1) {
                    Some(f[k - 1].1)
                } else {
                    p
                },
                None => Some(f[k - 1].1),
            }
        } else {
            p
        }
    }
}

/// The view of an optional owned byte string.
pub open spec fn opt_vec_view(v: Option<Vec<u8>>) -> Option<Seq<u8>> {
    match v {
        Some(b) => Some(b@),
        None => None,
    }
}

/// `b` replaces `a` when present.
pub open spec fn or_else(b: Option<Seq<u8>>, a: Option<Seq<u8>>) -> Option<Seq<u8>> {
    match b {
        Some(x) => Some(x),
        None => a,
    }
}

/// The summary of a log, built one message at a time.
pub struct Stats {
    pub total: u64,
    pub errors: u64,
    /// MsgType value → occurrences.
    pub msg_type_counts: Vec<(Vec<u8>, u64)>,
    /// `(SenderCompID, TargetCompID)` → messages.
    pub sessions: Vec<(SessionKey, u64)>,
    /// The least and greatest SendingTime, compared byte by byte: for the
    /// `YYYYMMDD-HH:MM:SS[.sss]` form that is chronological order.
    pub min_time: Option<Vec<u8>>,
    pub max_time: Option<Vec<u8>>,
    /// The last BeginString and ApplVerID seen, which pick the dictionary.
    pub last_begin_string: Option<Vec<u8>>,
    pub last_appl_ver_id: Option<Vec<u8>>,
}

impl Stats {
    /// The lists hold each key once.
    pub open spec fn wf(&self) -> bool {
        akeys_unique(self.msg_type_counts@) && pkeys_unique(self.sessions@)
    }

    /// A summary of no message.
    pub fn new() -> (s: Self)
        ensures
            s.wf(),
            s.total == 0,
            s.errors == 0,
            s.msg_type_counts@.len() == 0,
            s.sessions@.len() == 0,
            amap(s.msg_type_counts@) == Map::<Seq<u8>, u64>::empty(),
            pmap(s.sessions@) == Map::<(Seq<u8>, Seq<u8>), u64>::empty(),
            s.min_time is None,
            s.max_time is None,
            s.last_begin_string is None,
            s.last_appl_ver_id is None,
    {
        let s = Stats {
            total: 0,
            errors: 0,
            msg_type_counts: Vec::new(),
            sessions: Vec::new(),
            min_time: None,
            max_time: None,
            last_begin_string: None,
            last_appl_ver_id: None,
        };
        assert(amap(s.msg_type_counts@) =~= Map::<Seq<u8>, u64>::empty());
        assert(pmap(s.sessions@) =~= Map::<(Seq<u8>, Seq<u8>), u64>::empty());
        s
    }

    /// Count a message that failed to parse.
    pub fn record_error(&mut self)
        ensures
            *final(self) == (Stats { errors: sat_inc64(old(self).errors), ..*old(self) }),
    {
        self.errors = self.errors.saturating_add(1);
    }

    /// Widen the SendingTime range to include `value`.
    pub fn update_time_range(&mut self, value: &[u8])
        ensures
            opt_vec_view(final(self).min_time) == match opt_vec_view(old(self).min_time) {
                Some(c) => if lex_lt(value@, c) {
                    Some(value@)
                } else {
                    Some(c)
                },
                None => Some(value@),
            },
            opt_vec_view(final(self).max_time) == match opt_vec_view(old(self).max_time) {
                Some(c) => if lex_lt(c, value@) {
                    Some(value@)
                } else {
                    Some(c)
                },
                None => Some(value@),
            },
            final(self).total == old(self).total,
            final(self).errors == old(self).errors,
            final(self).msg_type_counts == old(self).msg_type_counts,
            final(self).sessions == old(self).sessions,
            final(self).last_begin_string == old(self).last_begin_string,
            final(self).last_appl_ver_id == old(self).last_appl_ver_id,
    {
        let lower = match &self.min_time {
            Some(c) => bytes_lt(value, c.as_slice()),
            None => true,
        };
        if lower {
            self.min_time = Some(copy_bytes(value));
        }
        let higher = match &self.max_time {
            Some(c) => bytes_lt(c.as_slice(), value),
            None => true,
        };
        if higher {
            self.max_time = Some(copy_bytes(value));
        }
    }

    /// Add a parsed message: one more message, each MsgType field counted,
    /// each SendingTime field in the range, the last BeginString and
    /// ApplVerID kept, and the pair of its last SenderCompID and
    /// TargetCompID counted when it has both.
    pub fn record(&mut self, msg: &RawMessage)
        requires
            old(self).wf(),
        ensures
            final(self).wf(),
            final(self).total == sat_inc64(old(self).total),
            final(self).errors == old(self).errors,
            amap(final(self).msg_type_counts@) == types_after(
                amap(old(self).msg_type_counts@),
                fields_of(*msg),
                fields_of(*msg).len() as int,
            ),
            opt_vec_view(final(self).min_time) == time_low(
                opt_vec_view(old(self).min_time),
                fields_of(*msg),
                fields_of(*msg).len() as int,
            ),
            opt_vec_view(final(self).max_time) == time_high(
                opt_vec_view(old(self).max_time),
                fields_of(*msg),
                fields_of(*msg).len() as int,
            ),
            opt_vec_view(final(self).last_begin_string) == or_else(
                last_value(fields_of(*msg), TAG_BEGIN_STRING, fields_of(*msg).len() as int),
                opt_vec_view(old(self).last_begin_string),
            ),
            opt_vec_view(final(self).last_appl_ver_id) == or_else(
                last_value(fields_of(*msg), TAG_APPL_VER_ID, fields_of(*msg).len() as int),
                opt_vec_view(old(self).last_appl_ver_id),
            ),
            pmap(final(self).sessions@) == match (
                last_value(fields_of(*msg), TAG_SENDER_COMP_ID, fields_of(*msg).len() as int),
                last_value(fields_of(*msg), TAG_TARGET_COMP_ID, fields_of(*msg).len() as int),
            ) {
                (Some(s), Some(t)) => pmap(old(self).sessions@).insert(
                    (s, t),
                    sat_inc64(count_in(pmap(old(self).sessions@), (s, t))),
                ),
                _ => pmap(old(self).sessions@),
            },
    {
        self.total = self.total.saturating_add(1);
        let ghost f = fields_of(*msg);
        let ghost m0 = amap(self.msg_type_counts@);
        let ghost lo0 = opt_vec_view(self.min_time);
        let ghost hi0 = opt_vec_view(self.max_time);
        let ghost b0 = opt_vec_view(self.last_begin_string);
        let ghost a0 = opt_vec_view(self.last_appl_ver_id);
        let mut sender: Option<&[u8]> = None;
        let mut target: Option<&[u8]> = None;
        let n = msg.tags.len();
        let mut i: usize = 0;
        while i < n
            invariant
                i <= n,
                n == f.len(),
                f == fields_of(*msg),
                self.wf(),
                self.total == sat_inc64(old(self).total),
                self.errors == old(self).errors,
                self.sessions == old(self).sessions,
                amap(self.msg_type_counts@) == types_after(m0, f, i as int),
                opt_vec_view(self.min_time) == time_low(lo0, f, i as int),
                opt_vec_view(self.max_time) == time_high(hi0, f, i as int),
                opt_vec_view(self.last_begin_string) == or_else(last_value(f, TAG_BEGIN_STRING, i as int), b0),
                opt_vec_view(self.last_appl_ver_id) == or_else(last_value(f, TAG_APPL_VER_ID, i as int), a0),
                match sender {
                    Some(s) => last_value(f, TAG_SENDER_COMP_ID, i as int) == Some(s@),
                    None => last_value(f, TAG_SENDER_COMP_ID, i as int) is None,
                },
                match target {
                    Some(t) => last_value(f, TAG_TARGET_COMP_ID, i as int) == Some(t@),
                    None => last_value(f, TAG_TARGET_COMP_ID, i as int) is None,
                },
                m0 == amap(old(self).msg_type_counts@),
                lo0 == opt_vec_view(old(self).min_time),
                hi0 == opt_vec_view(old(self).max_time),
                b0 == opt_vec_view(old(self).last_begin_string),
                a0 == opt_vec_view(old(self).last_appl_ver_id),
            decreases n - i,
        {
            let (tag, value) = msg.tags.get(i);
            if tag == TAG_BEGIN_STRING {
                self.last_begin_string = Some(copy_bytes(value));
            } else if tag == TAG_MSG_TYPE {
                bump_key(&mut self.msg_type_counts, value);
            } else if tag == TAG_SENDER_COMP_ID {
                sender = Some(value);
            } else if tag == TAG_TARGET_COMP_ID {
                target = Some(value);
            } else if tag == TAG_SENDING_TIME {
                self.update_time_range(value);
            } else if tag == TAG_APPL_VER_ID {
                self.last_appl_ver_id = Some(copy_bytes(value));
            }
            i += 1;
        }
        match (sender, target) {
            (Some(s), Some(t)) => bump_pair(&mut self.sessions, s, t),
            _ => {},
        }
    }

    /// The pairs with their counts, as counted keys.
    pub open spec fn session_entries(&self) -> Seq<(Seq<u8>, Seq<u8>, u64)> {
        Seq::new(
            self.sessions@.len(),
            |i: int| (self.sessions@[i].0.sender@, self.sessions@[i].0.target@, self.sessions@[i].1),
        )
    }

    /// The MsgTypes with their counts, as counted keys (second part empty).
    pub open spec fn msg_type_entries(&self) -> Seq<(Seq<u8>, Seq<u8>, u64)> {
        Seq::new(
            self.msg_type_counts@.len(),
            |i: int| (self.msg_type_counts@[i].0@, Seq::<u8>::empty(), self.msg_type_counts@[i].1),
        )
    }

    /// The pairs, busiest first, ties by SenderCompID then TargetCompID.
    pub fn ranked_sessions(&self) -> (r: Vec<Counted>)
        ensures
            ranked(counted_views(r@)),
            counted_views(r@).to_multiset() == self.session_entries().to_multiset(),
    {
        let mut v: Vec<Counted> = Vec::new();
        let mut i: usize = 0;
        while i < self.sessions.len()
            invariant
                i <= self.sessions@.len(),
                counted_views(v@) == self.session_entries().take(i as int),
                v@.len() == i,
            decreases self.sessions@.len() - i,
        {
            let e = &self.sessions[i];
            let ghost before = v@;
            v.push((copy_bytes(e.0.sender.as_slice()), copy_bytes(e.0.target.as_slice()), e.1));
            proof {
                assert forall|q: int| 0 <= q < v@.len() implies counted_views(v@)[q] == self.session_entries().take(i + 1)[q] by {
                    if q < i {
                        assert(v@[q] == before[q]);
                        assert(counted_views(before)[q] == counted_view(before[q]));
                    } else {
                        assert(counted_views(v@)[q] == counted_view(v@[q]));
                    }
                }
                assert(counted_views(v@) =~= self.session_entries().take(i + 1));
            }
            i += 1;
        }
        assert(self.session_entries().take(self.sessions@.len() as int) =~= self.session_entries());
        rank(v)
    }

    /// The [`MSG_TYPE_TOP_N`] most frequent MsgTypes, ties by value.
    pub fn top_msg_types(&self) -> (r: Vec<Counted>)
        ensures
            exists|all: Seq<(Seq<u8>, Seq<u8>, u64)>|
                ranked(all) && all.to_multiset() == self.msg_type_entries().to_multiset() && counted_views(r@)
                    == all.take(if all.len() < MSG_TYPE_TOP_N { all.len() as int } else { MSG_TYPE_TOP_N as int }),
    {
        let mut v: Vec<Counted> = Vec::new();
        let mut i: usize = 0;
        while i < self.msg_type_counts.len()
            invariant
                i <= self.msg_type_counts@.len(),
                counted_views(v@) == self.msg_type_entries().take(i as int),
                v@.len() == i,
            decreases self.msg_type_counts@.len() - i,
        {
            let e = &self.msg_type_counts[i];
            let ghost before = v@;
            v.push((copy_bytes(e.0.as_slice()), Vec::new(), e.1));
            proof {
                assert forall|q: int| 0 <= q < v@.len() implies counted_views(v@)[q] == self.msg_type_entries().take(i + 1)[q] by {
                    if q < i {
                        assert(v@[q] == before[q]);
                        assert(counted_views(before)[q] == counted_view(before[q]));
                    } else {
                        assert(counted_views(v@)[q] == counted_view(v@[q]));
                    }
                }
                assert(counted_views(v@) =~= self.msg_type_entries().take(i + 1));
            }
            i += 1;
        }
        assert(self.msg_type_entries().take(self.msg_type_counts@.len() as int) =~= self.msg_type_entries());
        let all = rank(v);
        let ghost av = counted_views(all@);
        let r = take_first(all, MSG_TYPE_TOP_N);
        assert(counted_views(r@) =~= av.take(if av.len() < MSG_TYPE_TOP_N { av.len() as int } else { MSG_TYPE_TOP_N as int }));
        r
    }
}


/// The dictionary chain of a summary: picked by the last BeginString and
/// ApplVerID seen.
pub open spec fn stats_chain(st: Stats) -> Seq<FixVersion> {
    spec_chain_for(
        match st.last_begin_string {
            Some(b) => b@,
            None => Seq::empty(),
        },
        opt_vec_view(st.last_appl_ver_id),
    )
}

/// A count right-aligned in 10 columns after two spaces, and two spaces.
pub open spec fn count_cell(n: u64) -> Seq<u8> {
    str_bytes("  ") + pad_left(decimal(n as nat), 10) + str_bytes("  ")
}

/// The report line of a session pair: its count, sender and target.
pub open spec fn session_line(e: (Seq<u8>, Seq<u8>, u64)) -> Seq<u8> {
    count_cell(e.2) + utf8_lossy(e.0) + str_bytes(" \u{2192} ") + utf8_lossy(e.1) + str_bytes("\n")
}

/// The report lines of session pairs, in order.
pub open spec fn session_lines(es: Seq<(Seq<u8>, Seq<u8>, u64)>) -> Seq<u8>
    decreases es.len(),
{
    if es.len() == 0 {
        Seq::empty()
    } else {
        session_lines(es.drop_last()) + session_line(es.last())
    }
}

/// The report line of a MsgType: its count, its value left-aligned in 4
/// columns, and its name in `chain` (`?` when unknown).
pub open spec fn type_line(chain: Seq<FixVersion>, e: (Seq<u8>, Seq<u8>, u64)) -> Seq<u8> {
    count_cell(e.2) + left_col(text_of(e.0), 4) + str_bytes(" ") + match chain_msg(chain, e.0) {
        Some(l) => str_bytes(l),
        None => str_bytes("?"),
    } + str_bytes("\n")
}

/// The report lines of MsgTypes, in order.
pub open spec fn type_lines(chain: Seq<FixVersion>, es: Seq<(Seq<u8>, Seq<u8>, u64)>) -> Seq<u8>
    decreases es.len(),
{
    if es.len() == 0 {
        Seq::empty()
    } else {
        type_lines(chain, es.drop_last()) + type_line(chain, es.last())
    }
}

/// The time range line, when both ends are known.
pub open spec fn time_range_line(st: Stats) -> Seq<u8> {
    match (st.min_time, st.max_time) {
        (Some(a), Some(b)) => str_bytes("Time range:      ") + utf8_lossy(a@) + str_bytes(" .. ") + utf8_lossy(b@)
            + str_bytes("\n"),
        _ => Seq::empty(),
    }
}

/// The head of the report: file, counts and time range.
pub open spec fn report_head(st: Stats, path: Seq<u8>) -> Seq<u8> {
    str_bytes("File:            ") + path + str_bytes("\nMessages parsed: ") + decimal(st.total as nat) + str_bytes(
        "\nParse errors:    ",
    ) + decimal(st.errors as nat) + str_bytes("\n") + time_range_line(st)
}

/// The number of MsgTypes the report lists.
pub open spec fn shown(n: nat) -> nat {
    if n < MSG_TYPE_TOP_N {
        n
    } else {
        MSG_TYPE_TOP_N as nat
    }
}

/// The report of a summary for the log at `path`, its session pairs in the
/// order `sessions` and its listed MsgTypes in the order `types`.
pub open spec fn stats_report(
    st: Stats,
    path: Seq<u8>,
    sessions: Seq<(Seq<u8>, Seq<u8>, u64)>,
    types: Seq<(Seq<u8>, Seq<u8>, u64)>,
) -> Seq<u8> {
    report_head(st, path) + str_bytes("Sessions:        ") + decimal(st.sessions@.len()) + str_bytes("\n")
        + session_lines(sessions) + str_bytes("Message types:   ") + decimal(st.msg_type_counts@.len()) + str_bytes(
        " (",
    ) + decimal(shown(st.msg_type_counts@.len())) + str_bytes(" shown)\n") + type_lines(stats_chain(st), types)
}

/// Append a count cell.
#[verifier::rlimit(40)]
fn push_count_cell(out: &mut Vec<u8>, n: u64)
    ensures
        final(out)@ == old(out)@ + count_cell(n),
{
    push_bytes(out, "  ".as_bytes());
    let mut d: Vec<u8> = Vec::new();
    push_decimal(&mut d, n);
    if d.len() < 10 {
        push_spaces(out, 10 - d.len());
    } else {
        push_spaces(out, 0);
    }
    push_bytes(out, d.as_slice());
    push_bytes(out, "  ".as_bytes());
    assert(out@ =~= old(out)@ + count_cell(n));
}

impl Stats {
    /// Append the head of the report.
    #[verifier::rlimit(40)]
    fn write_report_head(&self, out: &mut Vec<u8>, path: &[u8])
        ensures
            final(out)@ == old(out)@ + report_head(*self, path@),
    {
        push_bytes(out, "File:            ".as_bytes());
        push_bytes(out, path);
        push_bytes(out, "\nMessages parsed: ".as_bytes());
        push_decimal(out, self.total);
        push_bytes(out, "\nParse errors:    ".as_bytes());
        push_decimal(out, self.errors);
        push_bytes(out, "\n".as_bytes());
        let ghost p = out@;
        match (&self.min_time, &self.max_time) {
            (Some(a), Some(b)) => {
                push_bytes(out, "Time range:      ".as_bytes());
                let la = lossy(a.as_slice());
                push_bytes(out, la.as_slice());
                push_bytes(out, " .. ".as_bytes());
                let lb = lossy(b.as_slice());
                push_bytes(out, lb.as_slice());
                push_bytes(out, "\n".as_bytes());
            },
            _ => {},
        }
        assert(out@ =~= p + time_range_line(*self));
        assert(out@ =~= old(out)@ + report_head(*self, path@));
    }

    /// Append the report lines of session pairs.
    #[verifier::rlimit(40)]
    fn write_session_lines(out: &mut Vec<u8>, v: &Vec<Counted>)
        ensures
            final(out)@ == old(out)@ + session_lines(counted_views(v@)),
    {
        let ghost h = out@;
        let ghost es = counted_views(v@);
        let mut i: usize = 0;
        while i < v.len()
            invariant
                i <= v@.len(),
                es == counted_views(v@),
                out@ == h + session_lines(es.take(i as int)),
            decreases v@.len() - i,
        {
            let ghost before = out@;
            push_count_cell(out, v[i].2);
            let s = lossy(v[i].0.as_slice());
            push_bytes(out, s.as_slice());
            push_bytes(out, " \u{2192} ".as_bytes());
            let t = lossy(v[i].1.as_slice());
            push_bytes(out, t.as_slice());
            push_bytes(out, "\n".as_bytes());
            proof {
                assert(es[i as int] == counted_view(v@[i as int]));
                assert(out@ =~= before + session_line(es[i as int]));
                assert(es.take(i + 1).drop_last() =~= es.take(i as int));
            }
            i += 1;
        }
        assert(es.take(es.len() as int) =~= es);
    }

    /// Append the report lines of MsgTypes, named in `chain`.
    #[verifier::rlimit(40)]
    fn write_type_lines(out: &mut Vec<u8>, chain: &[FixVersion], v: &Vec<Counted>)
        ensures
            final(out)@ == old(out)@ + type_lines(chain@, counted_views(v@)),
    {
        let ghost h = out@;
        let ghost es = counted_views(v@);
        let mut i: usize = 0;
        while i < v.len()
            invariant
                i <= v@.len(),
                es == counted_views(v@),
                out@ == h + type_lines(chain@, es.take(i as int)),
            decreases v@.len() - i,
        {
            let ghost before = out@;
            push_count_cell(out, v[i].2);
            let t = lossy_string(v[i].0.as_slice());
            push_left_col(out, t.as_str(), 4);
            push_bytes(out, " ".as_bytes());
            match chain_msg_type_label(chain, v[i].0.as_slice()) {
                Some(l) => push_bytes(out, l.as_bytes()),
                None => push_bytes(out, "?".as_bytes()),
            }
            push_bytes(out, "\n".as_bytes());
            proof {
                assert(es[i as int] == counted_view(v@[i as int]));
                assert(out@ =~= before + type_line(chain@, es[i as int]));
                assert(es.take(i + 1).drop_last() =~= es.take(i as int));
            }
            i += 1;
        }
        assert(es.take(es.len() as int) =~= es);
    }

    /// The report of the summary for the log at `path`: file, message and
    /// error counts, time range, session pairs (busiest first) and the
    /// [`MSG_TYPE_TOP_N`] most frequent MsgTypes with their names in the
    /// dictionary chain of the last BeginString and ApplVerID seen.
    #[verifier::rlimit(40)]
    pub fn report(&self, path: &[u8]) -> (r: Vec<u8>)
        ensures
            exists|ss: Seq<(Seq<u8>, Seq<u8>, u64)>, all: Seq<(Seq<u8>, Seq<u8>, u64)>|
                ranked(ss) && ss.to_multiset() == self.session_entries().to_multiset() && ranked(all)
                    && all.to_multiset() == self.msg_type_entries().to_multiset() && r@ == stats_report(
                    *self,
                    path@,
                    ss,
                    all.take(shown(all.len()) as int),
                ),
    {
        let mut out: Vec<u8> = Vec::new();
        self.write_report_head(&mut out, path);
        push_bytes(&mut out, "Sessions:        ".as_bytes());
        push_decimal(&mut out, self.sessions.len() as u64);
        push_bytes(&mut out, "\n".as_bytes());
        let sessions = self.ranked_sessions();
        Self::write_session_lines(&mut out, &sessions);
        push_bytes(&mut out, "Message types:   ".as_bytes());
        let n = self.msg_type_counts.len();
        push_decimal(&mut out, n as u64);
        push_bytes(&mut out, " (".as_bytes());
        let k = if n < MSG_TYPE_TOP_N {
            n
        } else {
            MSG_TYPE_TOP_N
        };
        push_decimal(&mut out, k as u64);
        push_bytes(&mut out, " shown)\n".as_bytes());
        let empty: Vec<u8> = Vec::new();
        let begin: &[u8] = match &self.last_begin_string {
            Some(b) => b.as_slice(),
            None => empty.as_slice(),
        };
        let appl: Option<&[u8]> = match &self.last_appl_ver_id {
            Some(a) => Some(a.as_slice()),
            None => None,
        };
        let chain = chain_for(begin, appl);
        assert(chain@ == stats_chain(*self));
        let types = self.top_msg_types();
        Self::write_type_lines(&mut out, chain, &types);
        proof {
            let all = choose|all: Seq<(Seq<u8>, Seq<u8>, u64)>|
                ranked(all) && all.to_multiset() == self.msg_type_entries().to_multiset() && counted_views(types@)
                    == all.take(if all.len() < MSG_TYPE_TOP_N { all.len() as int } else { MSG_TYPE_TOP_N as int });
            vstd::seq_lib::to_multiset_len(all);
            vstd::seq_lib::to_multiset_len(self.msg_type_entries());
            assert(all.len() == self.msg_type_counts@.len());
            assert(out@ =~= stats_report(*self, path@, counted_views(sessions@), all.take(shown(all.len()) as int)));
        }
        out
    }
}
} // verus!
