//! Streaming aggregator for consolidated order summaries.
//!
//! Messages from any number of sources accumulate into one summary per
//! order family:
//!
//! - the root `ClOrdID` and the family after cancel/replace chains (tag
//!   `11` linked through `41` OrigClOrdID), kept in a union-find forest;
//! - the cumulative quantity (the largest tag `14` seen);
//! - the fills of ExecutionReports of type Trade/PartialFill (`150` is `F`
//!   or `1`), deduplicated by `ExecID` (tag `17`), as their LastQty/LastPx
//!   bytes (tags `32`/`31`) when both read as numbers, from which the
//!   caller derives the notional;
//! - the last `OrdStatus` (tag `39`), the first `Symbol` (tag `55`) and
//!   `Side` (tag `54`), the latest `OrderQty` (tag `38`) of a D/F/G request,
//!   and the first and last `SendingTime`.
use vstd::prelude::*;

use crate::analysis::assoc::{afind, ainsert, akey, akeys_unique, amap, aremove, lemma_amap_at, lemma_amap_update};
use crate::analysis::sets::{byte_set, contains_bytes};
use crate::analysis::number_text::{float_text, is_float_text};
use crate::analysis::util::{sending_time_nanos, spec_sending_time_nanos};
use crate::bytes::{copy_bytes, is_digit, next_byte};
use crate::format::{LogFormat, begin_marker, separator_byte};
use crate::parser::{ParseError, find_begin_string, lemma_find_begin_at_join, lemma_find_begin_prefix, lemma_no_begin_tail, lemma_parse_one_prefix, lemma_find_begin_bounds, lemma_parse_one_consumed, parse_one_with_format, parse_result_view, spec_find_begin, spec_parse_one, RawMessage, all_digits, digits_value, fields_of, find_tag, first_value, lemma_digits_value_prefix, TAG_MSG_TYPE, TAG_SENDING_TIME};
use crate::analysis::orders::{TAG_CUM_QTY, TAG_EXEC_TYPE, TAG_LAST_PX, TAG_LAST_QTY, TAG_ORD_STATUS};
use crate::index::hot_tags::{TAG_CL_ORD_ID, TAG_ORDER_ID, TAG_ORIG_CL_ORD_ID};

verus! {

/// The forest of ClOrdID aliases: each child points at its parent.
pub open spec fn bytes_map(m: Map<Seq<u8>, Vec<u8>>) -> Map<Seq<u8>, Seq<u8>> {
    Map::new(|k: Seq<u8>| m.dom().contains(k), |k: Seq<u8>| m[k]@)
}

/// The rank of a node (0 when unranked).
pub open spec fn rank_of(rank: Map<Seq<u8>, nat>, x: Seq<u8>) -> nat {
    if rank.dom().contains(x) {
        rank[x]
    } else {
        0
    }
}

/// Every alias points at a node of strictly higher rank, no higher than
/// `bound`: following aliases always ends.
pub open spec fn forest_ok(alias: Map<Seq<u8>, Seq<u8>>, rank: Map<Seq<u8>, nat>, bound: nat) -> bool {
    forall|k: Seq<u8>|
        #[trigger] alias.dom().contains(k) ==> rank_of(rank, k) < rank_of(rank, alias[k]) && rank_of(
            rank,
            alias[k],
        ) <= bound
}

/// The root of `x`: follow aliases until a node without one.
pub open spec fn root_of(alias: Map<Seq<u8>, Seq<u8>>, rank: Map<Seq<u8>, nat>, bound: nat, x: Seq<u8>) -> Seq<u8>
    decreases bound - rank_of(rank, x),
    when forest_ok(alias, rank, bound)
{
    if alias.dom().contains(x) {
        root_of(alias, rank, bound, alias[x])
    } else {
        x
    }
}

/// A root has no alias, ranks at least as high as the node, and strictly
/// higher when it is another node.
pub proof fn lemma_root(alias: Map<Seq<u8>, Seq<u8>>, rank: Map<Seq<u8>, nat>, bound: nat, x: Seq<u8>)
    requires
        forest_ok(alias, rank, bound),
    ensures
        !alias.dom().contains(root_of(alias, rank, bound, x)),
        rank_of(rank, x) <= rank_of(rank, root_of(alias, rank, bound, x)),
        root_of(alias, rank, bound, x) != x ==> alias.dom().contains(x) && rank_of(rank, x) < rank_of(
            rank,
            root_of(alias, rank, bound, x),
        ) && rank_of(rank, root_of(alias, rank, bound, x)) <= bound,
        alias.dom().contains(x) ==> root_of(alias, rank, bound, x) == root_of(alias, rank, bound, alias[x]),
    decreases bound - rank_of(rank, x),
{
    if alias.dom().contains(x) {
        lemma_root(alias, rank, bound, alias[x]);
    }
}

/// Roots do not depend on the ranks that witness the forest.
pub proof fn lemma_root_rank_free(
    alias: Map<Seq<u8>, Seq<u8>>,
    r1: Map<Seq<u8>, nat>,
    b1: nat,
    r2: Map<Seq<u8>, nat>,
    b2: nat,
    x: Seq<u8>,
)
    requires
        forest_ok(alias, r1, b1),
        forest_ok(alias, r2, b2),
    ensures
        root_of(alias, r1, b1, x) == root_of(alias, r2, b2, x),
    decreases b1 - rank_of(r1, x),
{
    if alias.dom().contains(x) {
        lemma_root_rank_free(alias, r1, b1, r2, b2, alias[x]);
    }
}

/// Pointing a node straight at its root keeps the forest and every root.
pub proof fn lemma_compress(alias: Map<Seq<u8>, Seq<u8>>, rank: Map<Seq<u8>, nat>, bound: nat, n: Seq<u8>, x: Seq<u8>)
    requires
        forest_ok(alias, rank, bound),
        alias.dom().contains(n),
    ensures
        forest_ok(alias.insert(n, root_of(alias, rank, bound, n)), rank, bound),
        root_of(alias.insert(n, root_of(alias, rank, bound, n)), rank, bound, x) == root_of(alias, rank, bound, x),
    decreases bound - rank_of(rank, x),
{
    let r = root_of(alias, rank, bound, n);
    let a2 = alias.insert(n, r);
    lemma_root(alias, rank, bound, n);
    assert(forest_ok(a2, rank, bound)) by {
        assert forall|k: Seq<u8>| #[trigger] a2.dom().contains(k) implies rank_of(rank, k) < rank_of(rank, a2[k])
            && rank_of(rank, a2[k]) <= bound by {
            if k != n {
                assert(alias.dom().contains(k));
            }
        }
    }
    lemma_root(a2, rank, bound, x);
    if alias.dom().contains(x) {
        lemma_compress(alias, rank, bound, n, alias[x]);
        if x == n {
            lemma_root(a2, rank, bound, r);
        }
    }
}

/// Linking root `rc` under root `rp` (raising the rank of `rp` when needed)
/// keeps a forest, in which the nodes that had root `rc` now have root
/// `rp` and every other root is unchanged.
pub proof fn lemma_link(
    alias: Map<Seq<u8>, Seq<u8>>,
    rank: Map<Seq<u8>, nat>,
    bound: nat,
    rc: Seq<u8>,
    rp: Seq<u8>,
    x: Seq<u8>,
)
    requires
        forest_ok(alias, rank, bound),
        !alias.dom().contains(rc),
        !alias.dom().contains(rp),
        rc != rp,
    ensures
        ({
            let nr = if rank_of(rank, rp) > rank_of(rank, rc) {
                rank_of(rank, rp)
            } else {
                rank_of(rank, rc) + 1
            };
            let rank2 = rank.insert(rp, nr);
            let bound2 = if bound > nr {
                bound
            } else {
                nr
            };
            let a2 = alias.insert(rc, rp);
            &&& forest_ok(a2, rank2, bound2)
            &&& root_of(a2, rank2, bound2, x) == (if root_of(alias, rank, bound, x) == rc {
                rp
            } else {
                root_of(alias, rank, bound, x)
            })
        }),
    decreases bound - rank_of(rank, x),
{
    let nr = if rank_of(rank, rp) > rank_of(rank, rc) {
        rank_of(rank, rp)
    } else {
        rank_of(rank, rc) + 1
    };
    let rank2 = rank.insert(rp, nr);
    let bound2 = if bound > nr {
        bound
    } else {
        nr
    };
    let a2 = alias.insert(rc, rp);
    assert(forest_ok(alias, rank2, bound2)) by {
        assert forall|k: Seq<u8>| #[trigger] alias.dom().contains(k) implies rank_of(rank2, k) < rank_of(rank2, alias[k])
            && rank_of(rank2, alias[k]) <= bound2 by {
            assert(k != rp);
        }
    }
    assert(forest_ok(a2, rank2, bound2)) by {
        assert forall|k: Seq<u8>| #[trigger] a2.dom().contains(k) implies rank_of(rank2, k) < rank_of(rank2, a2[k])
            && rank_of(rank2, a2[k]) <= bound2 by {
            if k != rc {
                assert(alias.dom().contains(k));
                assert(k != rp);
            } else {
                assert(rank_of(rank2, rc) == rank_of(rank, rc));
            }
        }
    }
    lemma_root(alias, rank, bound, x);
    lemma_root_rank_free(alias, rank, bound, rank2, bound2, x);
    if alias.dom().contains(x) {
        lemma_link(alias, rank, bound, rc, rp, alias[x]);
        lemma_root(a2, rank2, bound2, x);
        assert(x != rc);
        lemma_root_rank_free(alias, rank, bound, rank2, bound2, alias[x]);
    } else {
        lemma_root(a2, rank2, bound2, x);
        if x == rc {
            lemma_root(a2, rank2, bound2, rp);
        }
    }
}

/// One fill: its LastQty and LastPx values, as bytes.
#[derive(Debug, Clone)]
pub struct FillLeg {
    pub last_qty: Vec<u8>,
    pub last_px: Vec<u8>,
}

/// The accumulated summary of one order family.
#[derive(Debug)]
pub struct OrderAcc {
    /// The ClOrdIDs of the family, in the order they were first seen.
    pub family: Vec<Vec<u8>>,
    pub symbol: Option<Vec<u8>>,
    pub side: Option<u8>,
    pub order_qty: Option<u64>,
    pub cum_qty: u64,
    /// The counted fills, in arrival order.
    pub fills: Vec<FillLeg>,
    /// The ExecIDs of the fills already counted.
    pub seen_execids: Vec<Vec<u8>>,
    pub final_ord_status: Option<Vec<u8>>,
    /// Earliest and latest SendingTime, in nanoseconds since the epoch.
    pub first_seen: Option<u128>,
    pub last_seen: Option<u128>,
}

impl OrderAcc {
    /// An empty summary.
    pub fn new() -> (a: Self)
        ensures
            acc_empty(a),
    {
        OrderAcc {
            family: Vec::new(),
            symbol: None,
            side: None,
            order_qty: None,
            cum_qty: 0,
            fills: Vec::new(),
            seen_execids: Vec::new(),
            final_ord_status: None,
            first_seen: None,
            last_seen: None,
        }
    }
}

/// The smaller of two optional timestamps (an absent one is ignored).
pub open spec fn opt_min(a: Option<u128>, b: Option<u128>) -> Option<u128> {
    match (a, b) {
        (Some(x), Some(y)) => Some(if x < y { x } else { y }),
        (None, y) => y,
        (x, None) => x,
    }
}

/// The larger of two optional timestamps (an absent one is ignored).
pub open spec fn opt_max(a: Option<u128>, b: Option<u128>) -> Option<u128> {
    match (a, b) {
        (Some(x), Some(y)) => Some(if x > y { x } else { y }),
        (None, y) => y,
        (x, None) => x,
    }
}

/// The first of two optional values that is present.
pub open spec fn first_some<T>(a: Option<T>, b: Option<T>) -> Option<T> {
    match a {
        Some(x) => Some(x),
        None => b,
    }
}

/// An optional byte vector seen by its bytes.
pub open spec fn opt_view(o: Option<Vec<u8>>) -> Option<Seq<u8>> {
    match o {
        Some(v) => Some(v@),
        None => None,
    }
}

/// `m` is `a` with the summary `b` folded in: the family and ExecIDs of
/// `b` added, the fills of `b` appended, descriptive fields kept from `a`
/// when present, the larger CumQty, the last OrdStatus of `b` when it has
/// one, and the widest time span.
pub open spec fn merged_acc(m: OrderAcc, a: OrderAcc, b: OrderAcc) -> bool {
    &&& crate::analysis::sets::byte_set(m.family@) == crate::analysis::sets::byte_set(a.family@)
        + crate::analysis::sets::byte_set(b.family@)
    &&& m.family@.take(a.family@.len() as int) == a.family@
    &&& opt_view(m.symbol) == first_some(opt_view(a.symbol), opt_view(b.symbol))
    &&& m.side == first_some(a.side, b.side)
    &&& m.order_qty == first_some(a.order_qty, b.order_qty)
    &&& m.cum_qty == (if b.cum_qty > a.cum_qty { b.cum_qty } else { a.cum_qty })
    &&& m.fills@ == a.fills@ + b.fills@
    &&& crate::analysis::sets::byte_set(m.seen_execids@) == crate::analysis::sets::byte_set(a.seen_execids@)
        + crate::analysis::sets::byte_set(b.seen_execids@)
    &&& opt_view(m.final_ord_status) == first_some(opt_view(b.final_ord_status), opt_view(a.final_ord_status))
    &&& m.first_seen == opt_min(a.first_seen, b.first_seen)
    &&& m.last_seen == opt_max(a.last_seen, b.last_seen)
}

/// Append the byte strings of `src` that `dst` lacks, in order.
fn add_missing(dst: &mut Vec<Vec<u8>>, src: Vec<Vec<u8>>)
    ensures
        crate::analysis::sets::byte_set(final(dst)@) == crate::analysis::sets::byte_set(old(dst)@)
            + crate::analysis::sets::byte_set(src@),
        final(dst)@.take(old(dst)@.len() as int) == old(dst)@,
{
    let ghost d0 = dst@;
    let mut k: usize = 0;
    while k < src.len()
        invariant
            k <= src@.len(),
            dst@.len() >= d0.len(),
            dst@.take(d0.len() as int) == d0,
            crate::analysis::sets::byte_set(dst@) == crate::analysis::sets::byte_set(d0)
                + crate::analysis::sets::byte_set(src@.take(k as int)),
        decreases src.len() - k,
    {
        let ghost before = dst@;
        if !crate::analysis::sets::contains_bytes(dst, src[k].as_slice()) {
            dst.push(copy_bytes(src[k].as_slice()));
            assert(dst@.take(d0.len() as int) =~= d0) by {
                assert forall|i: int| 0 <= i < d0.len() implies dst@[i] == d0[i] by {
                    assert(before.take(d0.len() as int)[i] == d0[i]);
                }
            }
        }
        proof {
            let x = src@[k as int]@;
            assert(crate::analysis::sets::byte_set(src@.take(k + 1)) =~= crate::analysis::sets::byte_set(
                src@.take(k as int),
            ).insert(x)) by {
                assert(src@.take(k + 1)[k as int]@ == x);
                assert forall|s: Seq<u8>| crate::analysis::sets::byte_set(src@.take(k + 1)).contains(s) implies
                    crate::analysis::sets::byte_set(src@.take(k as int)).insert(x).contains(s) by {
                    let i = choose|i: int| 0 <= i < src@.take(k + 1).len() && #[trigger] src@.take(k + 1)[i]@ == s;
                    if i < k {
                        assert(src@.take(k as int)[i]@ == s);
                    }
                }
                assert forall|s: Seq<u8>| crate::analysis::sets::byte_set(src@.take(k as int)).contains(s) implies
                    crate::analysis::sets::byte_set(src@.take(k + 1)).contains(s) by {
                    let i = choose|i: int| 0 <= i < src@.take(k as int).len() && #[trigger] src@.take(k as int)[i]@ == s;
                    assert(src@.take(k + 1)[i]@ == s);
                }
            }
            assert(crate::analysis::sets::byte_set(dst@) =~= crate::analysis::sets::byte_set(before).insert(x)) by {
                if dst@.len() > before.len() {
                    assert(dst@[before.len() as int]@ == x);
                    assert forall|s: Seq<u8>| crate::analysis::sets::byte_set(dst@).contains(s) implies
                        crate::analysis::sets::byte_set(before).insert(x).contains(s) by {
                        let i = choose|i: int| 0 <= i < dst@.len() && #[trigger] dst@[i]@ == s;
                        if i < before.len() {
                            assert(before[i]@ == s);
                        }
                    }
                    assert forall|s: Seq<u8>| crate::analysis::sets::byte_set(before).contains(s) implies
                        crate::analysis::sets::byte_set(dst@).contains(s) by {
                        let i = choose|i: int| 0 <= i < before.len() && #[trigger] before[i]@ == s;
                        assert(dst@[i]@ == s);
                    }
                }
            }
        }
        k += 1;
    }
    assert(src@.take(src@.len() as int) =~= src@);
}

impl OrderAcc {
    /// Fold the summary `other` into this one (see [`merged_acc`]).
    pub fn merge_from(&mut self, other: OrderAcc)
        ensures
            merged_acc(*final(self), *old(self), other),
    {
        let OrderAcc {
            family,
            symbol,
            side,
            order_qty,
            cum_qty,
            fills,
            seen_execids,
            final_ord_status,
            first_seen,
            last_seen,
        } = other;
        add_missing(&mut self.family, family);
        if self.symbol.is_none() {
            self.symbol = symbol;
        }
        if self.side.is_none() {
            self.side = side;
        }
        if self.order_qty.is_none() {
            self.order_qty = order_qty;
        }
        if cum_qty > self.cum_qty {
            self.cum_qty = cum_qty;
        }
        let mut fills = fills;
        self.fills.append(&mut fills);
        add_missing(&mut self.seen_execids, seen_execids);
        if final_ord_status.is_some() {
            self.final_ord_status = final_ord_status;
        }
        self.first_seen = match (self.first_seen, first_seen) {
            (Some(a), Some(b)) => Some(if a < b { a } else { b }),
            (None, x) => x,
            (x, None) => x,
        };
        self.last_seen = match (self.last_seen, last_seen) {
            (Some(a), Some(b)) => Some(if a > b { a } else { b }),
            (None, x) => x,
            (x, None) => x,
        };
    }
}

/// Builder that consumes messages from one or more sources and produces
/// consolidated rows.
pub struct ConsolidatedBuilder {
    /// Summaries keyed by family root.
    accs: Vec<(Vec<u8>, OrderAcc)>,
    /// Alias forest `child → parent` over ClOrdIDs.
    alias: Vec<(Vec<u8>, Vec<u8>)>,
    /// OrderID → family root, for ExecutionReports that only carry tag 37.
    order_id_to_root: Vec<(Vec<u8>, Vec<u8>)>,
    rank: Ghost<Map<Seq<u8>, nat>>,
    bound: Ghost<nat>,
}

impl ConsolidatedBuilder {
    /// The alias forest.
    pub closed spec fn aliases(&self) -> Map<Seq<u8>, Seq<u8>> {
        bytes_map(amap(self.alias@))
    }

    /// The summaries, by family root.
    pub closed spec fn summaries(&self) -> Map<Seq<u8>, OrderAcc> {
        amap(self.accs@)
    }

    /// The OrderID bindings.
    pub closed spec fn order_roots(&self) -> Map<Seq<u8>, Seq<u8>> {
        bytes_map(amap(self.order_id_to_root@))
    }

    /// The builder is well formed: distinct keys, and an alias forest in
    /// which every chain ends.
    pub closed spec fn wf(&self) -> bool {
        &&& akeys_unique(self.accs@)
        &&& akeys_unique(self.alias@)
        &&& akeys_unique(self.order_id_to_root@)
        &&& forest_ok(self.aliases(), self.rank@, self.bound@)
    }

    /// The family root of `x`.
    pub closed spec fn root(&self, x: Seq<u8>) -> Seq<u8> {
        root_of(self.aliases(), self.rank@, self.bound@, x)
    }

    /// An empty builder.
    pub fn new() -> (b: Self)
        ensures
            b.wf(),
            b.summaries() == Map::<Seq<u8>, OrderAcc>::empty(),
            b.aliases() == Map::<Seq<u8>, Seq<u8>>::empty(),
            b.order_roots() == Map::<Seq<u8>, Seq<u8>>::empty(),
    {
        let b = ConsolidatedBuilder {
            accs: Vec::new(),
            alias: Vec::new(),
            order_id_to_root: Vec::new(),
            rank: Ghost(Map::empty()),
            bound: Ghost(0),
        };
        assert(b.summaries() =~= Map::<Seq<u8>, OrderAcc>::empty());
        assert(b.aliases() =~= Map::<Seq<u8>, Seq<u8>>::empty());
        assert(b.order_roots() =~= Map::<Seq<u8>, Seq<u8>>::empty());
        b
    }

    /// The canonical root of `cid`, compressing the path walked: every
    /// node on it is re-pointed straight at the root. No node changes root.
    fn resolve_root(&mut self, cid: &[u8]) -> (r: Vec<u8>)
        requires
            old(self).wf(),
        ensures
            final(self).wf(),
            r@ == old(self).root(cid@),
            forall|x: Seq<u8>| #[trigger] final(self).root(x) == old(self).root(x),
            final(self).summaries() == old(self).summaries(),
            final(self).order_roots() == old(self).order_roots(),
            final(self).aliases().dom() == old(self).aliases().dom(),
    {
        let ghost a0 = self.aliases();
        let ghost rank = self.rank@;
        let ghost bound = self.bound@;
        let mut cur: Vec<u8> = copy_bytes(cid);
        let mut path: Vec<Vec<u8>> = Vec::new();
        loop
            invariant
                self.wf(),
                self.aliases() == a0,
                self.rank@ == rank,
                self.bound@ == bound,
                root_of(a0, rank, bound, cur@) == root_of(a0, rank, bound, cid@),
                forall|i: int| 0 <= i < path@.len() ==> a0.dom().contains(#[trigger] path@[i]@) && root_of(
                    a0,
                    rank,
                    bound,
                    path@[i]@,
                ) == root_of(a0, rank, bound, cid@),
            ensures
                !a0.dom().contains(cur@),
                root_of(a0, rank, bound, cur@) == root_of(a0, rank, bound, cid@),
                forall|i: int| 0 <= i < path@.len() ==> a0.dom().contains(#[trigger] path@[i]@) && root_of(
                    a0,
                    rank,
                    bound,
                    path@[i]@,
                ) == root_of(a0, rank, bound, cid@),
            decreases bound - rank_of(rank, cur@),
        {
            match afind(&self.alias, cur.as_slice()) {
                Some(i) => {
                    proof {
                        lemma_root(a0, rank, bound, cur@);
                    }
                    let parent = copy_bytes(self.alias[i].1.as_slice());
                    let ghost c0 = cur@;
                    path.push(cur);
                    cur = parent;
                    assert(cur@ == a0[c0]);
                },
                None => {
                    break;
                },
            }
        }
        proof {
            lemma_root(a0, rank, bound, cur@);
        }
        let mut k: usize = 0;
        while k < path.len()
            invariant
                k <= path@.len(),
                self.wf(),
                self.rank@ == rank,
                self.bound@ == bound,
                self.aliases().dom() == a0.dom(),
                forall|x: Seq<u8>| #[trigger] root_of(self.aliases(), rank, bound, x) == root_of(a0, rank, bound, x),
                forall|i: int| 0 <= i < path@.len() ==> a0.dom().contains(#[trigger] path@[i]@) && root_of(
                    a0,
                    rank,
                    bound,
                    path@[i]@,
                ) == cur@,
                self.summaries() == old(self).summaries(),
                self.order_roots() == old(self).order_roots(),
            decreases path.len() - k,
        {
            let ghost a1 = self.aliases();
            let n = &path[k];
            let ghost nn = n@;
            assert(a1.dom().contains(nn));
            assert(root_of(a1, rank, bound, nn) == cur@);
            ainsert(&mut self.alias, n.as_slice(), copy_bytes(cur.as_slice()));
            proof {
                assert(self.aliases() =~= a1.insert(nn, cur@));
                assert forall|x: Seq<u8>| #[trigger] root_of(self.aliases(), rank, bound, x) == root_of(a0, rank, bound, x) by {
                    lemma_compress(a1, rank, bound, nn, x);
                }
                lemma_compress(a1, rank, bound, nn, nn);
                assert(self.aliases().dom() =~= a0.dom());
            }
            k += 1;
        }
        cur
    }
}

/// The summary of `k` in `m`, or an empty one.
pub open spec fn acc_or_empty(m: Map<Seq<u8>, OrderAcc>, k: Seq<u8>) -> OrderAcc {
    if m.dom().contains(k) {
        m[k]
    } else {
        choose|a: OrderAcc| acc_empty(a)
    }
}

/// `a` is an empty summary.
pub open spec fn acc_empty(a: OrderAcc) -> bool {
    &&& a.family@ == Seq::<Vec<u8>>::empty()
    &&& a.symbol is None
    &&& a.side is None
    &&& a.order_qty is None
    &&& a.cum_qty == 0
    &&& a.fills@ == Seq::<FillLeg>::empty()
    &&& a.seen_execids@ == Seq::<Vec<u8>>::empty()
    &&& a.final_ord_status is None
    &&& a.first_seen is None
    &&& a.last_seen is None
}

/// Two summaries hold the same values.
pub open spec fn acc_same(a: OrderAcc, b: OrderAcc) -> bool {
    &&& a.family@ == b.family@
    &&& opt_view(a.symbol) == opt_view(b.symbol)
    &&& a.side == b.side
    &&& a.order_qty == b.order_qty
    &&& a.cum_qty == b.cum_qty
    &&& a.fills@ == b.fills@
    &&& a.seen_execids@ == b.seen_execids@
    &&& opt_view(a.final_ord_status) == opt_view(b.final_ord_status)
    &&& a.first_seen == b.first_seen
    &&& a.last_seen == b.last_seen
}

proof fn lemma_merged_same(m: OrderAcc, a1: OrderAcc, a2: OrderAcc, b1: OrderAcc, b2: OrderAcc)
    requires
        acc_same(a1, a2),
        acc_same(b1, b2),
        merged_acc(m, a1, b1),
    ensures
        merged_acc(m, a2, b2),
{
}

impl ConsolidatedBuilder {
    /// Make sure `root` has a summary (an empty one when new).
    fn ensure_acc(&mut self, root: &[u8])
        requires
            old(self).wf(),
        ensures
            final(self).wf(),
            final(self).summaries().dom() == old(self).summaries().dom().insert(root@),
            old(self).summaries().dom().contains(root@) ==> final(self).summaries() == old(self).summaries(),
            !old(self).summaries().dom().contains(root@) ==> acc_empty(final(self).summaries()[root@])
                && final(self).summaries() == old(self).summaries().insert(root@, final(self).summaries()[root@]),
            final(self).aliases() == old(self).aliases(),
            final(self).order_roots() == old(self).order_roots(),
            final(self).rank@ == old(self).rank@,
            final(self).bound@ == old(self).bound@,
    {
        match afind(&self.accs, root) {
            Some(_) => {
                assert(self.summaries().dom().insert(root@) =~= self.summaries().dom());
            },
            None => {
                ainsert(&mut self.accs, root, OrderAcc::new());
            },
        }
    }

    /// Point every OrderID bound to `from` at `to`.
    fn rewire_order_ids(&mut self, from: &Vec<u8>, to: &Vec<u8>)
        requires
            old(self).wf(),
        ensures
            final(self).wf(),
            final(self).order_roots().dom() == old(self).order_roots().dom(),
            forall|k: Seq<u8>|
                #[trigger] old(self).order_roots().dom().contains(k) ==> final(self).order_roots()[k] == (if old(
                    self,
                ).order_roots()[k] == from@ {
                    to@
                } else {
                    old(self).order_roots()[k]
                }),
            final(self).summaries() == old(self).summaries(),
            final(self).aliases() == old(self).aliases(),
            final(self).rank@ == old(self).rank@,
            final(self).bound@ == old(self).bound@,
    {
        let ghost m0 = self.order_roots();
        proof {
            assert forall|j: int| 0 <= j < self.order_id_to_root@.len() implies m0.dom().contains(
                #[trigger] self.order_id_to_root@[j].0@,
            ) && self.order_id_to_root@[j].1@ == m0[self.order_id_to_root@[j].0@] by {
                lemma_amap_at(self.order_id_to_root@, j);
            }
        }
        let mut i: usize = 0;
        while i < self.order_id_to_root.len()
            invariant
                i <= self.order_id_to_root@.len(),
                self.wf(),
                self.summaries() == old(self).summaries(),
                self.aliases() == old(self).aliases(),
                self.rank@ == old(self).rank@,
                self.bound@ == old(self).bound@,
                self.order_roots().dom() == m0.dom(),
                forall|j: int|
                    0 <= j < self.order_id_to_root@.len() ==> #[trigger] self.order_id_to_root@[j].1@ == (if j < i
                        && m0[self.order_id_to_root@[j].0@] == from@ {
                        to@
                    } else {
                        m0[self.order_id_to_root@[j].0@]
                    }),
                forall|j: int|
                    0 <= j < self.order_id_to_root@.len() ==> m0.dom().contains(#[trigger] self.order_id_to_root@[j].0@),
            decreases self.order_id_to_root.len() - i,
        {
            proof {
                lemma_amap_at(self.order_id_to_root@, i as int);
            }
            if crate::index::secondary::bytes_eq(self.order_id_to_root[i].1.as_slice(), from.as_slice()) {
                let key = copy_bytes(self.order_id_to_root[i].0.as_slice());
                let ghost before = self.order_id_to_root@;
                let e = (key, copy_bytes(to.as_slice()));
                let ghost eg = e;
                self.order_id_to_root.set(i, e);
                proof {
                    lemma_amap_update(before, i as int, eg);
                    assert(self.order_roots() =~= bytes_map(amap(before)).insert(eg.0@, to@));
                }
            }
            i += 1;
        }
        proof {
            assert forall|k: Seq<u8>| #[trigger] m0.dom().contains(k) implies self.order_roots()[k] == (if m0[k] == from@ {
                to@
            } else {
                m0[k]
            }) by {
                assert(self.order_roots().dom().contains(k));
                let j = choose|j: int| 0 <= j < self.order_id_to_root@.len() && #[trigger] akey(self.order_id_to_root@[j]) == k;
                lemma_amap_at(self.order_id_to_root@, j);
            }
        }
    }

    /// Merge the family of `child` into that of `parent`. Afterwards both
    /// have the same root; every node whose root was the root of `child`
    /// now has the root of `parent`; the two summaries are merged under
    /// the root of `parent`, and OrderIDs bound to the absorbed root follow.
    fn union(&mut self, child: &[u8], parent: &[u8])
        requires
            old(self).wf(),
        ensures
            final(self).wf(),
            final(self).root(child@) == final(self).root(parent@),
            forall|x: Seq<u8>| #[trigger] final(self).root(x) == (if old(self).root(x) == old(self).root(child@) {
                old(self).root(parent@)
            } else {
                old(self).root(x)
            }),
            old(self).root(child@) == old(self).root(parent@) ==> final(self).summaries() == old(self).summaries()
                && final(self).order_roots() == old(self).order_roots(),
            old(self).root(child@) != old(self).root(parent@) ==> ({
                let rc = old(self).root(child@);
                let rp = old(self).root(parent@);
                &&& final(self).summaries().dom() == old(self).summaries().dom().remove(rc).insert(rp)
                &&& forall|k: Seq<u8>|
                    #[trigger] final(self).summaries().dom().contains(k) && k != rp ==> final(self).summaries()[k]
                        == old(self).summaries()[k]
                &&& merged_acc(
                    final(self).summaries()[rp],
                    acc_or_empty(old(self).summaries(), rp),
                    acc_or_empty(old(self).summaries(), rc),
                )
                &&& final(self).order_roots().dom() == old(self).order_roots().dom()
                &&& forall|k: Seq<u8>|
                    #[trigger] old(self).order_roots().dom().contains(k) ==> final(self).order_roots()[k] == (if old(
                        self,
                    ).order_roots()[k] == rc {
                        rp
                    } else {
                        old(self).order_roots()[k]
                    })
            }),
    {
        let ghost s0 = *self;
        let root_child = self.resolve_root(child);
        let ghost s1 = *self;
        let root_parent = self.resolve_root(parent);
        let ghost s2 = *self;
        let ghost a1 = self.aliases();
        let ghost rank = self.rank@;
        let ghost bound = self.bound@;
        proof {
            lemma_root(a1, rank, bound, child@);
            lemma_root(a1, rank, bound, parent@);
            assert(s2.root(child@) == s1.root(child@));
            assert(s1.root(child@) == s0.root(child@));
            assert(s2.root(parent@) == s1.root(parent@));
            assert(root_child@ == root_of(a1, rank, bound, child@));
            assert(root_parent@ == root_of(a1, rank, bound, parent@));
        }
        if crate::index::secondary::bytes_eq(root_child.as_slice(), root_parent.as_slice()) {
            if !crate::index::secondary::bytes_eq(child, root_child.as_slice()) {
                ainsert(&mut self.alias, child, copy_bytes(root_child.as_slice()));
                proof {
                    assert(self.aliases() =~= a1.insert(child@, root_child@));
                    assert forall|x: Seq<u8>| #[trigger] self.root(x) == s0.root(x) by {
                        lemma_compress(a1, rank, bound, child@, x);
                        assert(s2.root(x) == s1.root(x));
                        assert(s1.root(x) == s0.root(x));
                    }
                }
            }
            return;
        }
        // Move the summary of the absorbed root under the surviving one.
        let child_acc = match aremove(&mut self.accs, root_child.as_slice()) {
            Some(a) => a,
            None => OrderAcc::new(),
        };
        let mut parent_acc = match aremove(&mut self.accs, root_parent.as_slice()) {
            Some(a) => a,
            None => OrderAcc::new(),
        };
        let ghost pa0 = parent_acc;
        let ghost ca0 = child_acc;
        parent_acc.merge_from(child_acc);
        ainsert(&mut self.accs, root_parent.as_slice(), parent_acc);
        self.rewire_order_ids(&root_child, &root_parent);
        // Link the absorbed root under the surviving one.
        let ghost rc = root_child@;
        let ghost rp = root_parent@;
        let ghost nr: nat = if rank_of(rank, rp) > rank_of(rank, rc) {
            rank_of(rank, rp)
        } else {
            rank_of(rank, rc) + 1
        };
        proof {
            lemma_link(a1, rank, bound, rc, rp, rc);
        }
        self.rank = Ghost(rank.insert(rp, nr));
        self.bound = Ghost(if bound > nr { bound } else { nr });
        ainsert(&mut self.alias, root_child.as_slice(), copy_bytes(root_parent.as_slice()));
        let ghost a2 = self.aliases();
        proof {
            assert(a2 =~= a1.insert(rc, rp));
            assert forall|x: Seq<u8>| #[trigger] root_of(a2, self.rank@, self.bound@, x) == (if s0.root(x) == rc {
                rp
            } else {
                s0.root(x)
            }) by {
                lemma_link(a1, rank, bound, rc, rp, x);
                assert(s2.root(x) == s1.root(x));
                assert(s1.root(x) == s0.root(x));
            }
        }
        if !crate::index::secondary::bytes_eq(child, root_parent.as_slice()) {
            ainsert(&mut self.alias, child, copy_bytes(root_parent.as_slice()));
            proof {
                lemma_root(a2, self.rank@, self.bound@, child@);
                assert(self.aliases() =~= a2.insert(child@, rp));
                assert forall|x: Seq<u8>| #[trigger] self.root(x) == root_of(a2, self.rank@, self.bound@, x) by {
                    lemma_compress(a2, self.rank@, self.bound@, child@, x);
                }
            }
        }
        proof {
            let pe = acc_or_empty(s0.summaries(), rp);
            let ce = acc_or_empty(s0.summaries(), rc);
            if !s0.summaries().dom().contains(rp) {
                assert(acc_empty(pa0));
                assert(acc_empty(pe));
            }
            if !s0.summaries().dom().contains(rc) {
                assert(acc_empty(ca0));
                assert(acc_empty(ce));
            }
            assert(acc_same(pa0, pe));
            assert(acc_same(ca0, ce));
            lemma_merged_same(self.summaries()[rp], pa0, pe, ca0, ce);
            assert(self.summaries().dom() =~= s0.summaries().dom().remove(rc).insert(rp));
        }
    }
}

/// Tag `17`, ExecID: the deduplication key of fills.
pub const TAG_EXEC_ID: u32 = 17;

/// Tag `38`, OrderQty.
pub const TAG_ORDER_QTY: u32 = 38;

/// Tag `54`, Side.
pub const TAG_SIDE: u32 = 54;

/// Tag `55`, Symbol.
pub const TAG_SYMBOL: u32 = 55;

/// Per-source statistics.
#[derive(Debug, Clone, Copy, PartialEq, Eq, Structural)]
pub struct SourceStats {
    pub messages: u64,
    pub fills_seen: u64,
    pub fills_deduped: u64,
}

impl SourceStats {
    /// All counters at zero.
    pub fn new() -> (s: Self)
        ensures
            s.messages == 0 && s.fills_seen == 0 && s.fills_deduped == 0,
    {
        SourceStats { messages: 0, fills_seen: 0, fills_deduped: 0 }
    }
}

/// `n + 1`, saturating at `u64::MAX`.
pub open spec fn inc(n: u64) -> u64 {
    if n == u64::MAX {
        n
    } else {
        (n + 1) as u64
    }
}

/// The quantity an ASCII decimal denotes: its integer part (before the
/// first `.`), which must be all digits and fit in a `u64`; a fractional
/// part is truncated. `None` for empty input.
pub open spec fn spec_parse_qty(s: Seq<u8>) -> Option<u64> {
    let ip = s.take(next_byte(s, 46u8, 0));
    if s.len() == 0 || !all_digits(ip) || digits_value(ip) > u64::MAX {
        None
    } else {
        Some(digits_value(ip) as u64)
    }
}

/// Parse an ASCII quantity into `u64`, truncating a fractional part.
pub fn parse_qty(bytes: &[u8]) -> (r: Option<u64>)
    ensures
        r == spec_parse_qty(bytes@),
{
    if bytes.len() == 0 {
        return None;
    }
    let end = match crate::bytes::find_byte_from(bytes, 46u8, 0) {
        Some(i) => i,
        None => bytes.len(),
    };
    proof {
        crate::bytes::lemma_next_byte_bounds(bytes@, 46u8, 0);
    }
    assert(end == next_byte(bytes@, 46u8, 0));
    let ghost ip = bytes@.take(end as int);
    let mut out: u64 = 0;
    let mut k: usize = 0;
    while k < end
        invariant
            k <= end,
            end <= bytes@.len(),
            end == next_byte(bytes@, 46u8, 0),
            bytes@.len() > 0,
            ip == bytes@.take(end as int),
            all_digits(ip.take(k as int)),
            out as nat == digits_value(ip.take(k as int)),
        decreases end - k,
    {
        let b = bytes[k];
        assert(ip.take(k + 1).drop_last() == ip.take(k as int));
        assert(ip[k as int] == b);
        if !(b >= 48u8 && b <= 57u8) {
            assert(!is_digit(ip[k as int]));
            assert(!all_digits(ip));
            return None;
        }
        assert(ip.take(k + 1).last() == b);
        assert(digits_value(ip.take(k + 1)) == digits_value(ip.take(k as int)) * 10 + (b - 48) as nat);
        assert(all_digits(ip.take(k + 1))) by {
            assert forall|i: int| 0 <= i < k + 1 implies #[trigger] is_digit(ip.take(k + 1)[i]) by {
                if i < k {
                    assert(ip.take(k + 1)[i] == ip.take(k as int)[i]);
                }
            }
        }
        let m = match out.checked_mul(10) {
            Some(m) => m,
            None => {
                proof {
                    if all_digits(ip) {
                        lemma_digits_value_prefix(ip, k + 1);
                    }
                }
                return None;
            },
        };
        out = match m.checked_add((b - 48u8) as u64) {
            Some(v) => v,
            None => {
                proof {
                    if all_digits(ip) {
                        lemma_digits_value_prefix(ip, k + 1);
                    }
                }
                return None;
            },
        };
        k += 1;
    }
    assert(ip.take(end as int) == ip);
    Some(out)
}

/// The value of `tag`, or empty when absent.
pub open spec fn value_or_empty(f: Seq<(u32, Seq<u8>)>, tag: u32) -> Seq<u8> {
    match first_value(f, tag) {
        Some(v) => v,
        None => Seq::empty(),
    }
}

/// The message is a NewOrderSingle, OrderCancelRequest or
/// OrderCancelReplaceRequest.
pub open spec fn is_request(mt: Seq<u8>) -> bool {
    mt == seq![68u8] || mt == seq![70u8] || mt == seq![71u8]
}

/// The message is an ExecutionReport.
pub open spec fn is_exec_report(mt: Seq<u8>) -> bool {
    mt == seq![56u8]
}

/// The ExecutionReport reports a fill (ExecType `F` or `1`).
pub open spec fn is_fill(f: Seq<(u32, Seq<u8>)>) -> bool {
    is_exec_report(value_or_empty(f, TAG_MSG_TYPE)) && (value_or_empty(f, TAG_EXEC_TYPE) == seq![70u8]
        || value_or_empty(f, TAG_EXEC_TYPE) == seq![49u8])
}

/// The fill's ExecID was already counted for the family (a fill without a
/// non-empty ExecID is never a duplicate).
pub open spec fn is_duplicate_fill(a: OrderAcc, f: Seq<(u32, Seq<u8>)>) -> bool {
    match first_value(f, TAG_EXEC_ID) {
        Some(e) => e.len() > 0 && byte_set(a.seen_execids@).contains(e),
        None => false,
    }
}

/// The timestamp of a message, in nanoseconds.
pub open spec fn msg_nanos(f: Seq<(u32, Seq<u8>)>) -> Option<u128> {
    match first_value(f, TAG_SENDING_TIME) {
        Some(v) => match spec_sending_time_nanos(v) {
            Some(n) => Some(n as u128),
            None => None,
        },
        None => None,
    }
}

/// The message has a non-empty value for `tag`.
pub open spec fn nonempty_value(f: Seq<(u32, Seq<u8>)>, tag: u32) -> bool {
    first_value(f, tag) is Some && first_value(f, tag).unwrap().len() > 0
}

/// The quantity in the value of `tag`, if any.
pub open spec fn qty_of(f: Seq<(u32, Seq<u8>)>, tag: u32) -> Option<u64> {
    match first_value(f, tag) {
        Some(q) => spec_parse_qty(q),
        None => None,
    }
}

/// The family after recording `root` and the message's ClOrdID.
pub open spec fn family_after(fam: Set<Seq<u8>>, root: Seq<u8>, f: Seq<(u32, Seq<u8>)>) -> Set<Seq<u8>> {
    match first_value(f, TAG_CL_ORD_ID) {
        Some(c) => fam.insert(root).insert(c),
        None => fam.insert(root),
    }
}

/// The message carries a LastQty and a LastPx that both read as numbers
/// (see [`float_text`]): the values of the fill leg it adds.
pub open spec fn priced_leg(f: Seq<(u32, Seq<u8>)>) -> bool {
    &&& first_value(f, TAG_LAST_QTY) is Some
    &&& first_value(f, TAG_LAST_PX) is Some
    &&& float_text(first_value(f, TAG_LAST_QTY).unwrap())
    &&& float_text(first_value(f, TAG_LAST_PX).unwrap())
}

/// `n` is the summary `a` after the message with fields `f` (see
/// [`ConsolidatedBuilder::update_summary`]).
pub open spec fn summary_updated(n: OrderAcc, a: OrderAcc, root: Seq<u8>, f: Seq<(u32, Seq<u8>)>) -> bool {
    let mt = value_or_empty(f, TAG_MSG_TYPE);
    let er = is_exec_report(mt);
    &&& byte_set(n.family@) == family_after(byte_set(a.family@), root, f)
    &&& n.family@.take(a.family@.len() as int) == a.family@
    &&& opt_view(n.symbol) == (if a.symbol is None && nonempty_value(f, TAG_SYMBOL) {
        first_value(f, TAG_SYMBOL)
    } else {
        opt_view(a.symbol)
    })
    &&& n.side == (if a.side is None && nonempty_value(f, TAG_SIDE) {
        Some(first_value(f, TAG_SIDE).unwrap()[0])
    } else {
        a.side
    })
    &&& n.order_qty == (if is_request(mt) && qty_of(f, TAG_ORDER_QTY) is Some {
        qty_of(f, TAG_ORDER_QTY)
    } else {
        a.order_qty
    })
    &&& n.first_seen == opt_min(a.first_seen, msg_nanos(f))
    &&& n.last_seen == opt_max(a.last_seen, msg_nanos(f))
    &&& opt_view(n.final_ord_status) == (if er && first_value(f, TAG_ORD_STATUS) is Some {
        first_value(f, TAG_ORD_STATUS)
    } else {
        opt_view(a.final_ord_status)
    })
    &&& n.cum_qty == (if er && qty_of(f, TAG_CUM_QTY) is Some && qty_of(f, TAG_CUM_QTY).unwrap() > a.cum_qty {
        qty_of(f, TAG_CUM_QTY).unwrap()
    } else {
        a.cum_qty
    })
    &&& byte_set(n.seen_execids@) == (if is_fill(f) && nonempty_value(f, TAG_EXEC_ID) {
        byte_set(a.seen_execids@).insert(first_value(f, TAG_EXEC_ID).unwrap())
    } else {
        byte_set(a.seen_execids@)
    })
    &&& n.fills@.len() == (if is_fill(f) && !is_duplicate_fill(a, f) && priced_leg(f) {
        a.fills@.len() + 1int
    } else {
        a.fills@.len() as int
    })
    &&& n.fills@.take(a.fills@.len() as int) == a.fills@
    &&& n.fills@.len() > a.fills@.len() ==> n.fills@.last().last_qty@ == first_value(f, TAG_LAST_QTY).unwrap()
        && n.fills@.last().last_px@ == first_value(f, TAG_LAST_PX).unwrap()
}

/// Fills are deduplicated by ExecID: an execution report resent with the
/// same non-empty ExecID (a resend, or the overlap of a current and a
/// rotated log) adds no fill leg the second time, and leaves the
/// cumulative quantity where the first copy put it.
pub proof fn law_resent_fill_counts_once(a: OrderAcc, n: OrderAcc, n2: OrderAcc, root: Seq<u8>, f: Seq<(u32, Seq<u8>)>)
    requires
        summary_updated(n, a, root, f),
        summary_updated(n2, n, root, f),
        is_fill(f),
        nonempty_value(f, TAG_EXEC_ID),
    ensures
        n2.fills@ == n.fills@,
        n2.cum_qty == n.cum_qty,
{
    assert(byte_set(n.seen_execids@).contains(first_value(f, TAG_EXEC_ID).unwrap()));
    assert(is_duplicate_fill(n, f));
    assert(n2.fills@ =~= n2.fills@.take(n.fills@.len() as int));
}

/// A fill without an ExecID cannot be recognised as a resend: each copy
/// that carries a numeric LastQty and LastPx adds a fill leg.
pub proof fn law_fill_without_exec_id_always_counts(a: OrderAcc, n: OrderAcc, root: Seq<u8>, f: Seq<(u32, Seq<u8>)>)
    requires
        summary_updated(n, a, root, f),
        is_fill(f),
        first_value(f, TAG_EXEC_ID) is None,
        priced_leg(f),
    ensures
        n.fills@.len() == a.fills@.len() + 1,
        n.fills@.last().last_qty@ == first_value(f, TAG_LAST_QTY).unwrap(),
        n.fills@.last().last_px@ == first_value(f, TAG_LAST_PX).unwrap(),
{
}

/// A NewOrderSingle, OrderCancelRequest or OrderCancelReplaceRequest
/// (MsgType `D`, `F` or `G`) that carries a readable OrderQty sets the
/// family's order quantity to it, whatever quantity was recorded before
/// (a replace that changes the quantity wins); any other message leaves
/// the quantity as it was.
pub proof fn law_request_sets_order_qty(n: OrderAcc, a: OrderAcc, root: Seq<u8>, f: Seq<(u32, Seq<u8>)>)
    requires
        summary_updated(n, a, root, f),
    ensures
        ({
            let mt = first_value(f, TAG_MSG_TYPE);
            let request = mt == Some(seq![68u8]) || mt == Some(seq![70u8]) || mt == Some(seq![71u8]);
            &&& (request && qty_of(f, TAG_ORDER_QTY) is Some ==> n.order_qty == qty_of(f, TAG_ORDER_QTY))
            &&& (!(request && qty_of(f, TAG_ORDER_QTY) is Some) ==> n.order_qty == a.order_qty)
        }),
{
    let mt = value_or_empty(f, TAG_MSG_TYPE);
    if first_value(f, TAG_MSG_TYPE) is None {
        assert(mt.len() == 0);
        assert(seq![68u8].len() == 1 && seq![70u8].len() == 1 && seq![71u8].len() == 1);
        assert(!is_request(mt));
    }
}

/// The counters after a message that reached a family summary `a`.
pub open spec fn stats_updated(n: SourceStats, o: SourceStats, a: OrderAcc, f: Seq<(u32, Seq<u8>)>) -> bool {
    &&& n.messages == o.messages
    &&& n.fills_seen == (if is_fill(f) {
        inc(o.fills_seen)
    } else {
        o.fills_seen
    })
    &&& n.fills_deduped == (if is_fill(f) && is_duplicate_fill(a, f) {
        inc(o.fills_deduped)
    } else {
        o.fills_deduped
    })
}

fn is_one(v: &[u8], c: u8) -> (b: bool)
    ensures
        b == (v@ == seq![c]),
{
    if v.len() == 1 && v[0] == c {
        assert(v@ =~= seq![c]);
        true
    } else {
        false
    }
}

/// Add `x` to a vector used as a set; whether it was new.
fn set_insert(v: &mut Vec<Vec<u8>>, x: &[u8]) -> (added: bool)
    ensures
        byte_set(final(v)@) == byte_set(old(v)@).insert(x@),
        added == !byte_set(old(v)@).contains(x@),
        final(v)@.take(old(v)@.len() as int) == old(v)@,
        final(v)@.len() == old(v)@.len() + (if added { 1int } else { 0 }),
{
    if contains_bytes(v, x) {
        assert(byte_set(v@).insert(x@) =~= byte_set(v@));
        assert(v@.take(v@.len() as int) =~= v@);
        return false;
    }
    let ghost before = v@;
    v.push(copy_bytes(x));
    proof {
        assert(v@[before.len() as int]@ == x@);
        assert(v@.take(before.len() as int) =~= before);
        assert forall|s: Seq<u8>| byte_set(v@).contains(s) implies byte_set(before).insert(x@).contains(s) by {
            let i = choose|i: int| 0 <= i < v@.len() && #[trigger] v@[i]@ == s;
            if i < before.len() {
                assert(before[i]@ == s);
            }
        }
        assert forall|s: Seq<u8>| byte_set(before).contains(s) implies byte_set(v@).contains(s) by {
            let i = choose|i: int| 0 <= i < before.len() && #[trigger] before[i]@ == s;
            assert(v@[i]@ == s);
        }
        assert(byte_set(v@) =~= byte_set(before).insert(x@));
    }
    true
}

/// The family part of [`summary_updated`].
pub open spec fn family_updated(n: OrderAcc, a: OrderAcc, root: Seq<u8>, f: Seq<(u32, Seq<u8>)>) -> bool {
    &&& byte_set(n.family@) == family_after(byte_set(a.family@), root, f)
    &&& n.family@.take(a.family@.len() as int) == a.family@
}

/// The descriptive part of [`summary_updated`].
pub open spec fn descriptive_updated(n: OrderAcc, a: OrderAcc, f: Seq<(u32, Seq<u8>)>) -> bool {
    let mt = value_or_empty(f, TAG_MSG_TYPE);
    &&& opt_view(n.symbol) == (if a.symbol is None && nonempty_value(f, TAG_SYMBOL) {
        first_value(f, TAG_SYMBOL)
    } else {
        opt_view(a.symbol)
    })
    &&& n.side == (if a.side is None && nonempty_value(f, TAG_SIDE) {
        Some(first_value(f, TAG_SIDE).unwrap()[0])
    } else {
        a.side
    })
    &&& n.order_qty == (if is_request(mt) && qty_of(f, TAG_ORDER_QTY) is Some {
        qty_of(f, TAG_ORDER_QTY)
    } else {
        a.order_qty
    })
    &&& n.first_seen == opt_min(a.first_seen, msg_nanos(f))
    &&& n.last_seen == opt_max(a.last_seen, msg_nanos(f))
}

/// The execution part of [`summary_updated`].
pub open spec fn execution_updated(n: OrderAcc, a: OrderAcc, f: Seq<(u32, Seq<u8>)>) -> bool {
    let er = is_exec_report(value_or_empty(f, TAG_MSG_TYPE));
    &&& opt_view(n.final_ord_status) == (if er && first_value(f, TAG_ORD_STATUS) is Some {
        first_value(f, TAG_ORD_STATUS)
    } else {
        opt_view(a.final_ord_status)
    })
    &&& n.cum_qty == (if er && qty_of(f, TAG_CUM_QTY) is Some && qty_of(f, TAG_CUM_QTY).unwrap() > a.cum_qty {
        qty_of(f, TAG_CUM_QTY).unwrap()
    } else {
        a.cum_qty
    })
    &&& byte_set(n.seen_execids@) == (if is_fill(f) && nonempty_value(f, TAG_EXEC_ID) {
        byte_set(a.seen_execids@).insert(first_value(f, TAG_EXEC_ID).unwrap())
    } else {
        byte_set(a.seen_execids@)
    })
    &&& n.fills@.len() == (if is_fill(f) && !is_duplicate_fill(a, f) && priced_leg(f) {
        a.fills@.len() + 1int
    } else {
        a.fills@.len() as int
    })
    &&& n.fills@.take(a.fills@.len() as int) == a.fills@
    &&& n.fills@.len() > a.fills@.len() ==> n.fills@.last().last_qty@ == first_value(f, TAG_LAST_QTY).unwrap()
        && n.fills@.last().last_px@ == first_value(f, TAG_LAST_PX).unwrap()
}

fn empty_slice() -> (e: &'static [u8])
    ensures
        e@ == Seq::<u8>::empty(),
{
    let e: &'static [u8] = &[];
    assert(e@ =~= Seq::<u8>::empty());
    e
}

impl OrderAcc {
    fn note_family(&mut self, msg: &RawMessage<'_>, root: &[u8])
        ensures
            family_updated(*final(self), *old(self), root@, fields_of(*msg)),
            final(self).symbol == old(self).symbol,
            final(self).side == old(self).side,
            final(self).order_qty == old(self).order_qty,
            final(self).cum_qty == old(self).cum_qty,
            final(self).fills == old(self).fills,
            final(self).seen_execids == old(self).seen_execids,
            final(self).final_ord_status == old(self).final_ord_status,
            final(self).first_seen == old(self).first_seen,
            final(self).last_seen == old(self).last_seen,
    {
        let clordid = find_tag(msg, TAG_CL_ORD_ID);
        let ghost f0 = self.family@;
        set_insert(&mut self.family, root);
        let ghost f1 = self.family@;
        match clordid {
            Some(cid) => {
                set_insert(&mut self.family, cid);
                assert(self.family@.take(f0.len() as int) =~= f0) by {
                    assert forall|i: int| 0 <= i < f0.len() implies self.family@[i] == f0[i] by {
                        assert(self.family@.take(f1.len() as int)[i] == f1[i]);
                        assert(f1.take(f0.len() as int)[i] == f0[i]);
                    }
                }
            },
            None => {},
        }
    }

    fn note_descriptive(&mut self, msg: &RawMessage<'_>)
        ensures
            descriptive_updated(*final(self), *old(self), fields_of(*msg)),
            final(self).family == old(self).family,
            final(self).cum_qty == old(self).cum_qty,
            final(self).fills == old(self).fills,
            final(self).seen_execids == old(self).seen_execids,
            final(self).final_ord_status == old(self).final_ord_status,
    {
        let mt: &[u8] = match find_tag(msg, TAG_MSG_TYPE) {
            Some(v) => v,
            None => empty_slice(),
        };
        if self.symbol.is_none() {
            match find_tag(msg, TAG_SYMBOL) {
                Some(sym) => {
                    if sym.len() > 0 {
                        self.symbol = Some(copy_bytes(sym));
                    }
                },
                None => {},
            }
        }
        if self.side.is_none() {
            match find_tag(msg, TAG_SIDE) {
                Some(side) => {
                    if side.len() > 0 {
                        self.side = Some(side[0]);
                    }
                },
                None => {},
            }
        }
        if is_one(mt, 68) || is_one(mt, 70) || is_one(mt, 71) {
            match find_tag(msg, TAG_ORDER_QTY) {
                Some(q) => match parse_qty(q) {
                    Some(p) => {
                        self.order_qty = Some(p);
                    },
                    None => {},
                },
                None => {},
            }
        }
        let t = match find_tag(msg, TAG_SENDING_TIME) {
            Some(v) => sending_time_nanos(v),
            None => None,
        };
        match t {
            Some(t) => {
                self.first_seen = match self.first_seen {
                    Some(cur) => Some(if cur < t { cur } else { t }),
                    None => Some(t),
                };
                self.last_seen = match self.last_seen {
                    Some(cur) => Some(if cur > t { cur } else { t }),
                    None => Some(t),
                };
            },
            None => {},
        }
    }

    fn note_execution(&mut self, msg: &RawMessage<'_>, stats: &mut SourceStats)
        ensures
            execution_updated(*final(self), *old(self), fields_of(*msg)),
            stats_updated(*final(stats), *old(stats), *old(self), fields_of(*msg)),
            final(self).family == old(self).family,
            final(self).symbol == old(self).symbol,
            final(self).side == old(self).side,
            final(self).order_qty == old(self).order_qty,
            final(self).first_seen == old(self).first_seen,
            final(self).last_seen == old(self).last_seen,
    {
        let mt: &[u8] = match find_tag(msg, TAG_MSG_TYPE) {
            Some(v) => v,
            None => empty_slice(),
        };
        if !is_one(mt, 56) {
            assert(self.fills@.take(self.fills@.len() as int) =~= self.fills@);
            return;
        }
        match find_tag(msg, TAG_ORD_STATUS) {
            Some(status) => {
                self.final_ord_status = Some(copy_bytes(status));
            },
            None => {},
        }
        match find_tag(msg, TAG_CUM_QTY) {
            Some(q) => match parse_qty(q) {
                Some(p) => {
                    if p > self.cum_qty {
                        self.cum_qty = p;
                    }
                },
                None => {},
            },
            None => {},
        }
        let et: &[u8] = match find_tag(msg, TAG_EXEC_TYPE) {
            Some(v) => v,
            None => empty_slice(),
        };
        if !(is_one(et, 70) || is_one(et, 49)) {
            assert(self.fills@.take(self.fills@.len() as int) =~= self.fills@);
            return;
        }
        stats.fills_seen = stats.fills_seen.saturating_add(1);
        let dedup_ok = match find_tag(msg, TAG_EXEC_ID) {
            Some(eid) => {
                if eid.len() > 0 {
                    set_insert(&mut self.seen_execids, eid)
                } else {
                    true
                }
            },
            None => true,
        };
        if !dedup_ok {
            stats.fills_deduped = stats.fills_deduped.saturating_add(1);
            assert(self.fills@.take(self.fills@.len() as int) =~= self.fills@);
            return;
        }
        match (find_tag(msg, TAG_LAST_QTY), find_tag(msg, TAG_LAST_PX)) {
            (Some(q), Some(p)) => {
                if is_float_text(q) && is_float_text(p) {
                    let ghost before = self.fills@;
                    self.fills.push(FillLeg { last_qty: copy_bytes(q), last_px: copy_bytes(p) });
                    assert(self.fills@.take(before.len() as int) =~= before);
                } else {
                    assert(self.fills@.take(self.fills@.len() as int) =~= self.fills@);
                }
            },
            _ => {
                assert(self.fills@.take(self.fills@.len() as int) =~= self.fills@);
            },
        }
    }

    /// Apply one message to this family's summary (see
    /// [`summary_updated`] and [`stats_updated`]).
    pub fn apply(&mut self, msg: &RawMessage<'_>, root: &[u8], stats: &mut SourceStats)
        ensures
            summary_updated(*final(self), *old(self), root@, fields_of(*msg)),
            stats_updated(*final(stats), *old(stats), *old(self), fields_of(*msg)),
    {
        let ghost a0 = *self;
        self.note_family(msg, root);
        let ghost a1 = *self;
        self.note_descriptive(msg);
        let ghost a2 = *self;
        self.note_execution(msg, stats);
        proof {
            assert(is_duplicate_fill(a2, fields_of(*msg)) == is_duplicate_fill(a0, fields_of(*msg)));
        }
    }
}

/// The summaries after merging the family with root `rc` into the one
/// with root `rp` (see [`ConsolidatedBuilder::union`]).
pub open spec fn summaries_merged(n: Map<Seq<u8>, OrderAcc>, o: Map<Seq<u8>, OrderAcc>, rc: Seq<u8>, rp: Seq<u8>) -> bool {
    &&& n.dom() == o.dom().remove(rc).insert(rp)
    &&& forall|k: Seq<u8>| #[trigger] n.dom().contains(k) && k != rp ==> n[k] == o[k]
    &&& merged_acc(n[rp], acc_or_empty(o, rp), acc_or_empty(o, rc))
}

/// `n` is `o` after binding the identifiers of a message with fields `f`,
/// and `r` the family root the message belongs to:
///
/// 1. a ClOrdID whose OrigClOrdID belongs to a family that has a summary
///    joins that family; any other ClOrdID gets a summary of its own root;
/// 2. an OrderID seen with a ClOrdID is bound, once, to that root;
/// 3. the message belongs to the root of its ClOrdID, else to the root
///    bound to its OrderID, else to none.
pub open spec fn ids_bound(n: ConsolidatedBuilder, o: ConsolidatedBuilder, f: Seq<(u32, Seq<u8>)>, r: Option<Seq<u8>>) -> bool {
    let cid = first_value(f, TAG_CL_ORD_ID);
    let orig = first_value(f, TAG_ORIG_CL_ORD_ID);
    let oid = first_value(f, TAG_ORDER_ID);
    let known = cid is Some && orig is Some && o.summaries().dom().contains(o.root(orig.unwrap()));
    &&& n.wf()
    &&& known ==> forall|x: Seq<u8>| #[trigger] n.root(x) == (if o.root(x) == o.root(cid.unwrap()) {
        o.root(orig.unwrap())
    } else {
        o.root(x)
    })
    &&& !known ==> forall|x: Seq<u8>| #[trigger] n.root(x) == o.root(x)
    &&& known && o.root(cid.unwrap()) != o.root(orig.unwrap()) ==> summaries_merged(
        n.summaries(),
        o.summaries(),
        o.root(cid.unwrap()),
        o.root(orig.unwrap()),
    )
    &&& known && o.root(cid.unwrap()) == o.root(orig.unwrap()) ==> n.summaries() == o.summaries()
    &&& !known && cid is Some ==> n.summaries().dom() == o.summaries().dom().insert(o.root(cid.unwrap()))
        && forall|k: Seq<u8>| #[trigger] o.summaries().dom().contains(k) ==> n.summaries()[k] == o.summaries()[k]
    &&& !known && cid is Some && !o.summaries().dom().contains(o.root(cid.unwrap())) ==> acc_empty(
        n.summaries()[o.root(cid.unwrap())],
    )
    &&& cid is None ==> n.summaries() == o.summaries()
    &&& match r {
        Some(root) => n.summaries().dom().contains(root) || cid is None,
        None => true,
    }
    &&& r == match cid {
        Some(c) => Some(n.root(c)),
        None => match oid {
            Some(k) => if n.order_roots().dom().contains(k) {
                Some(n.order_roots()[k])
            } else {
                None
            },
            None => None,
        },
    }
}

impl ConsolidatedBuilder {
    /// Bind the identifiers of `msg` (see [`ids_bound`]) and return the
    /// family root it belongs to.
    fn bind_ids(&mut self, msg: &RawMessage<'_>) -> (r: Option<Vec<u8>>)
        requires
            old(self).wf(),
        ensures
            ids_bound(
                *final(self),
                *old(self),
                fields_of(*msg),
                match r {
                    Some(v) => Some(v@),
                    None => None,
                },
            ),
    {
        let ghost s0 = *self;
        let ghost f = fields_of(*msg);
        let clordid = find_tag(msg, TAG_CL_ORD_ID);
        let orig_clordid = find_tag(msg, TAG_ORIG_CL_ORD_ID);
        let order_id = find_tag(msg, TAG_ORDER_ID);
        match clordid {
            Some(cid) => {
                let parent_known = match orig_clordid {
                    Some(orig) => {
                        let ghost sa = *self;
                        let root = self.resolve_root(orig);
                        let found = match afind(&self.accs, root.as_slice()) {
                            Some(_) => true,
                            None => false,
                        };
                        proof {
                            assert forall|x: Seq<u8>| #[trigger] self.root(x) == s0.root(x) by {
                                assert(self.root(x) == sa.root(x));
                            }
                        }
                        found
                    },
                    None => false,
                };
                let ghost sb = *self;
                if parent_known {
                    let orig = orig_clordid.unwrap();
                    self.union(cid, orig);
                    proof {
                        assert forall|x: Seq<u8>| #[trigger] self.root(x) == (if s0.root(x) == s0.root(cid@) {
                            s0.root(orig@)
                        } else {
                            s0.root(x)
                        }) by {
                            assert(self.root(x) == (if sb.root(x) == sb.root(cid@) {
                                sb.root(orig@)
                            } else {
                                sb.root(x)
                            }));
                            assert(sb.root(x) == s0.root(x));
                            assert(sb.root(cid@) == s0.root(cid@));
                            assert(sb.root(orig@) == s0.root(orig@));
                        }
                    }
                } else {
                    let root = self.resolve_root(cid);
                    let ghost sc = *self;
                    self.ensure_acc(root.as_slice());
                    proof {
                        assert forall|x: Seq<u8>| #[trigger] self.root(x) == s0.root(x) by {
                            assert(self.root(x) == sc.root(x));
                            assert(sc.root(x) == sb.root(x));
                            assert(sb.root(x) == s0.root(x));
                        }
                    }
                }
            },
            None => {},
        }
        let ghost s1 = *self;
        match (order_id, clordid) {
            (Some(oid), Some(cid)) => {
                let root = self.resolve_root(cid);
                let ghost sd = *self;
                if afind(&self.order_id_to_root, oid).is_none() {
                    ainsert(&mut self.order_id_to_root, oid, root);
                }
                proof {
                    assert forall|x: Seq<u8>| #[trigger] self.root(x) == s1.root(x) by {
                        assert(self.root(x) == sd.root(x));
                        assert(sd.root(x) == s1.root(x));
                    }
                }
            },
            _ => {},
        }
        let ghost s2 = *self;
        let r = match clordid {
            Some(cid) => Some(self.resolve_root(cid)),
            None => match order_id {
                Some(oid) => match afind(&self.order_id_to_root, oid) {
                    Some(i) => Some(copy_bytes(self.order_id_to_root[i].1.as_slice())),
                    None => None,
                },
                None => None,
            },
        };
        proof {
            assert forall|x: Seq<u8>| #[trigger] self.root(x) == s1.root(x) by {
                assert(self.root(x) == s2.root(x));
                assert(s2.root(x) == s1.root(x));
            }
        }
        r
    }
}

proof fn lemma_updated_same(n: OrderAcc, a1: OrderAcc, a2: OrderAcc, root: Seq<u8>, f: Seq<(u32, Seq<u8>)>, sn: SourceStats, so: SourceStats)
    requires
        acc_same(a1, a2),
        summary_updated(n, a1, root, f),
        stats_updated(sn, so, a1, f),
    ensures
        summary_updated(n, a2, root, f),
        stats_updated(sn, so, a2, f),
{
}

/// `n` is `mid` after the message with fields `f` reached family root `r`
/// (nothing changes without a root), with the counters `sn` (from `so`).
pub open spec fn message_applied(
    n: ConsolidatedBuilder,
    mid: ConsolidatedBuilder,
    f: Seq<(u32, Seq<u8>)>,
    r: Option<Seq<u8>>,
    sn: SourceStats,
    so: SourceStats,
) -> bool {
    &&& n.wf()
    &&& n.aliases() == mid.aliases()
    &&& forall|x: Seq<u8>| #[trigger] n.root(x) == mid.root(x)
    &&& n.order_roots() == mid.order_roots()
    &&& match r {
        None => n.summaries() == mid.summaries() && sn.fills_seen == so.fills_seen && sn.fills_deduped
            == so.fills_deduped,
        Some(root) => {
            &&& n.summaries() == mid.summaries().insert(root, n.summaries()[root])
            &&& summary_updated(n.summaries()[root], acc_or_empty(mid.summaries(), root), root, f)
            &&& stats_updated(sn, SourceStats { messages: sn.messages, ..so }, acc_or_empty(mid.summaries(), root), f)
        },
    }
}

impl ConsolidatedBuilder {
    /// Feed one message: bind its identifiers (see [`ids_bound`]), then
    /// update the summary of the family it belongs to (see
    /// [`message_applied`]). The message counter always moves.
    pub fn handle_message(&mut self, msg: &RawMessage<'_>, stats: &mut SourceStats)
        requires
            old(self).wf(),
        ensures
            final(self).wf(),
            final(stats).messages == inc(old(stats).messages),
            exists|mid: ConsolidatedBuilder, r: Option<Seq<u8>>|
                ids_bound(mid, *old(self), fields_of(*msg), r) && message_applied(
                    *final(self),
                    mid,
                    fields_of(*msg),
                    r,
                    *final(stats),
                    *old(stats),
                ),
    {
        stats.messages = stats.messages.saturating_add(1);
        let ghost s_after_count = *stats;
        let root = self.bind_ids(msg);
        let ghost mid = *self;
        let ghost r = match &root {
            Some(v) => Some(v@),
            None => None,
        };
        match root {
            None => {
                assert(message_applied(*self, mid, fields_of(*msg), r, *stats, *old(stats)));
            },
            Some(root) => {
                let mut acc = match aremove(&mut self.accs, root.as_slice()) {
                    Some(a) => a,
                    None => OrderAcc::new(),
                };
                let ghost a0 = acc;
                let ghost st0 = *stats;
                acc.apply(msg, root.as_slice(), stats);
                let ghost a1 = acc;
                ainsert(&mut self.accs, root.as_slice(), acc);
                proof {
                    let e = acc_or_empty(mid.summaries(), root@);
                    if !mid.summaries().dom().contains(root@) {
                        assert(acc_empty(a0));
                        assert(acc_empty(e));
                    }
                    assert(acc_same(a0, e));
                    lemma_updated_same(a1, a0, e, root@, fields_of(*msg), *stats, st0);
                    assert(self.summaries() =~= mid.summaries().insert(root@, a1));
                    assert(SourceStats { messages: stats.messages, ..*old(stats) } == st0);
                    assert(message_applied(*self, mid, fields_of(*msg), r, *stats, *old(stats)));
                }
            },
        }
    }
}

/// What draining `buf` from `cursor` handles, and where it stops: at each
/// `8=FIX` marker a message is parsed and handled; a message cut short by
/// the end of the buffer stops the drain at its start (it is kept for the
/// next chunk); a malformed one is skipped one byte past its marker; with
/// no further marker the drain stops where it is.
pub open spec fn drain_spec(buf: Seq<u8>, cursor: int, sep: u8) -> (Seq<Seq<(u32, Seq<u8>)>>, int)
    decreases buf.len() - cursor,
{
    if cursor < 0 || cursor >= buf.len() {
        (Seq::empty(), cursor)
    } else {
        match spec_find_begin(buf, cursor) {
            None => (Seq::empty(), cursor),
            Some(start) => {
                proof {
                    lemma_find_begin_bounds(buf, cursor);
                    lemma_parse_one_consumed(buf.subrange(start, buf.len() as int), 0, sep);
                }
                match spec_parse_one(buf.subrange(start, buf.len() as int), 0, sep) {
                    Ok((f, n)) => {
                        let rest = drain_spec(buf, start + n, sep);
                        (seq![f] + rest.0, rest.1)
                    },
                    Err(ParseError::UnexpectedEof) => (Seq::empty(), start),
                    Err(_) => drain_spec(buf, start + 1, sep),
                }
            },
        }
    }
}

/// `n` is `o` after handling one message with fields `f`.
pub open spec fn handled_one(
    n: ConsolidatedBuilder,
    o: ConsolidatedBuilder,
    f: Seq<(u32, Seq<u8>)>,
    sn: SourceStats,
    so: SourceStats,
) -> bool {
    &&& sn.messages == inc(so.messages)
    &&& exists|mid: ConsolidatedBuilder, r: Option<Seq<u8>>| ids_bound(mid, o, f, r) && message_applied(n, mid, f, r, sn, so)
}

/// `n` is `o` after handling the messages `msgs` in order.
pub open spec fn handled_all(
    n: ConsolidatedBuilder,
    o: ConsolidatedBuilder,
    msgs: Seq<Seq<(u32, Seq<u8>)>>,
    sn: SourceStats,
    so: SourceStats,
) -> bool
    decreases msgs.len(),
{
    if msgs.len() == 0 {
        n == o && sn == so
    } else {
        exists|m: ConsolidatedBuilder, sm: SourceStats|
            handled_all(m, o, msgs.drop_last(), sm, so) && handled_one(n, m, msgs.last(), sn, sm)
    }
}

proof fn lemma_handled_snoc(
    n: ConsolidatedBuilder,
    m: ConsolidatedBuilder,
    o: ConsolidatedBuilder,
    msgs: Seq<Seq<(u32, Seq<u8>)>>,
    f: Seq<(u32, Seq<u8>)>,
    sn: SourceStats,
    sm: SourceStats,
    so: SourceStats,
)
    requires
        handled_all(m, o, msgs, sm, so),
        handled_one(n, m, f, sn, sm),
    ensures
        handled_all(n, o, msgs.push(f), sn, so),
{
    assert(msgs.push(f).drop_last() =~= msgs);
    assert(msgs.push(f).last() == f);
}

impl ConsolidatedBuilder {
    /// Handle every complete message of `buf` (see [`drain_spec`]) and
    /// return how many leading bytes were consumed; the rest (a partial
    /// message, or bytes before no marker) is for the caller to keep.
    pub fn drain_complete(&mut self, buf: &[u8], format: &LogFormat, stats: &mut SourceStats) -> (consumed: usize)
        requires
            old(self).wf(),
        ensures
            final(self).wf(),
            consumed == drain_spec(buf@, 0, separator_byte(format.separator)).1,
            consumed <= buf@.len(),
            handled_all(
                *final(self),
                *old(self),
                drain_spec(buf@, 0, separator_byte(format.separator)).0,
                *final(stats),
                *old(stats),
            ),
    {
        let ghost sep = separator_byte(format.separator);
        let ghost total = drain_spec(buf@, 0, sep);
        let ghost mut done: Seq<Seq<(u32, Seq<u8>)>> = Seq::empty();
        let mut cursor: usize = 0;
        assert(buf@.len() == buf.len());
        while cursor < buf.len()
            invariant_except_break
                total.0 == done + drain_spec(buf@, cursor as int, sep).0,
                total.1 == drain_spec(buf@, cursor as int, sep).1,
            invariant
                cursor <= buf@.len(),
                buf@.len() == buf.len(),
                sep == separator_byte(format.separator),
                total == drain_spec(buf@, 0, sep),
                self.wf(),
                handled_all(*self, *old(self), done, *stats, *old(stats)),
            ensures
                total.0 == done,
                total.1 == cursor,
            decreases buf.len() - cursor,
        {
            proof {
                lemma_find_begin_bounds(buf@, cursor as int);
            }
            let start = match find_begin_string(buf, cursor) {
                Some(p) => p,
                None => {
                    assert(drain_spec(buf@, cursor as int, sep).0 =~= Seq::<Seq<(u32, Seq<u8>)>>::empty());
                    assert(done + Seq::<Seq<(u32, Seq<u8>)>>::empty() =~= done);
                    break;
                },
            };
            let tail = &buf[start..buf.len()];
            proof {
                lemma_parse_one_consumed(tail@, 0, sep);
            }
            match parse_one_with_format(tail, format) {
                Ok((msg, consumed)) => {
                    let ghost m0 = *self;
                    let ghost s0 = *stats;
                    self.handle_message(&msg, stats);
                    proof {
                        let f = fields_of(msg);
                        lemma_handled_snoc(*self, m0, *old(self), done, f, *stats, s0, *old(stats));
                        assert(done.push(f) + drain_spec(buf@, start + consumed, sep).0 =~= done + (seq![f] + drain_spec(buf@, start + consumed, sep).0));
                        done = done.push(f);
                    }
                    cursor = start + consumed;
                },
                Err(ParseError::UnexpectedEof) => {
                    assert(done + Seq::<Seq<(u32, Seq<u8>)>>::empty() =~= done);
                    return start;
                },
                Err(_) => {
                    cursor = start + 1;
                },
            }
        }
        cursor
    }
}

/// Size of the read chunks a caller feeds (1 MiB).
pub const READ_CHUNK: usize = 1048576;

/// Upper bound on the bytes kept between chunks (8 MiB): past it, the
/// oldest bytes are dropped down to half of it.
pub const MAX_BUFFER: usize = 8388608;

/// The bytes kept after a drain that consumed `consumed` bytes of `joined`.
pub open spec fn kept_after(joined: Seq<u8>, consumed: int) -> Seq<u8> {
    let rest = joined.subrange(consumed, joined.len() as int);
    if rest.len() > MAX_BUFFER {
        rest.subrange(rest.len() - MAX_BUFFER / 2, rest.len() as int)
    } else {
        rest
    }
}

/// The messages handled for a source fed whole: those drained when it is
/// pushed as one chunk onto nothing kept, then those drained from what was
/// kept when the source ends.
pub open spec fn source_messages(src: Seq<u8>, sep: u8) -> Seq<Seq<(u32, Seq<u8>)>> {
    let d = drain_spec(src, 0, sep);
    d.0 + drain_spec(kept_after(src, d.1), 0, sep).0
}

/// A drain of `buf` ends cleanly: at the end of the buffer, or where no
/// further marker follows (not at a message cut short).
pub open spec fn drain_ends_cleanly(buf: Seq<u8>, sep: u8) -> bool {
    let c = drain_spec(buf, 0, sep).1;
    c == buf.len() || spec_find_begin(buf, c) is None
}

/// Draining `a + b` from inside `b` is draining `b`, with positions counted
/// from the start of `a`.
proof fn lemma_drain_shift(a: Seq<u8>, b: Seq<u8>, x: int, sep: u8)
    requires
        0 <= x,
    ensures
        drain_spec(a + b, a.len() + x, sep) == (drain_spec(b, x, sep).0, a.len() + drain_spec(b, x, sep).1),
    decreases b.len() - x,
{
    let ab = a + b;
    let c = a.len() + x;
    if x < b.len() {
        assert(ab.subrange(c, ab.len() as int) =~= b.subrange(x, b.len() as int));
        assert(spec_find_begin(ab, c) == match spec_find_begin(b, x) {
            Some(p) => Some(a.len() + p),
            None => None::<int>,
        });
        if let Some(p) = spec_find_begin(b, x) {
            lemma_find_begin_bounds(b, x);
            assert(ab.subrange(a.len() + p, ab.len() as int) =~= b.subrange(p, b.len() as int));
            lemma_parse_one_consumed(b.subrange(p, b.len() as int), 0, sep);
            match spec_parse_one(b.subrange(p, b.len() as int), 0, sep) {
                Ok((f, n)) => {
                    lemma_drain_shift(a, b, p + n, sep);
                },
                Err(ParseError::UnexpectedEof) => {},
                Err(_) => {
                    lemma_drain_shift(a, b, p + 1, sep);
                },
            }
        }
    }
}

/// A drain from `c` stops between `c` and the end of the buffer.
proof fn lemma_drain_bounds(buf: Seq<u8>, c: int, sep: u8)
    requires
        0 <= c <= buf.len(),
    ensures
        c <= drain_spec(buf, c, sep).1 <= buf.len(),
    decreases buf.len() - c,
{
    if c < buf.len() {
        lemma_find_begin_bounds(buf, c);
        if let Some(s) = spec_find_begin(buf, c) {
            lemma_parse_one_consumed(buf.subrange(s, buf.len() as int), 0, sep);
            match spec_parse_one(buf.subrange(s, buf.len() as int), 0, sep) {
                Ok((f, n)) => lemma_drain_bounds(buf, s + n, sep),
                Err(ParseError::UnexpectedEof) => {},
                Err(_) => lemma_drain_bounds(buf, s + 1, sep),
            }
        }
    }
}

/// A message cut short at a marker stops the drain there, with that marker
/// still ahead of it.
proof fn lemma_drain_cut_short(a: Seq<u8>, c: int, sep: u8)
    requires
        0 <= c < a.len(),
        spec_find_begin(a, c) matches Some(s) && spec_parse_one(a.subrange(s, a.len() as int), 0, sep)
            == Err::<(Seq<(u32, Seq<u8>)>, int), ParseError>(ParseError::UnexpectedEof),
    ensures
        drain_spec(a, c, sep).1 < a.len(),
        spec_find_begin(a, drain_spec(a, c, sep).1) == Some(drain_spec(a, c, sep).1),
{
    let s = spec_find_begin(a, c)->0;
    lemma_find_begin_bounds(a, c);
    let h = a.subrange(s, a.len() as int);
    let hc = a.subrange(c, a.len() as int);
    assert(crate::bytes::first_occurrence(hc, begin_marker(), s - c));
    assert(h.subrange(0, 5) =~= hc.subrange(s - c, s - c + 5));
    assert(crate::bytes::first_occurrence(h, begin_marker(), 0));
    let k = choose|k: int| crate::bytes::first_occurrence(h, begin_marker(), k);
    crate::bytes::lemma_first_occurrence_unique(h, begin_marker(), 0, k);
    assert(spec_find_begin(a, s) == Some(s));
}

/// With no marker left in `a`, the drain of `a + b` from there is the drain
/// from where `b` starts.
proof fn lemma_drain_join(a: Seq<u8>, b: Seq<u8>, c: int, sep: u8)
    requires
        0 <= c < a.len(),
        b.len() >= 5,
        b.take(5) == begin_marker(),
        spec_find_begin(a, c) is None,
    ensures
        drain_spec(a + b, c, sep) == drain_spec(a + b, a.len() as int, sep),
{
    lemma_find_begin_at_join(a, b, c);
    lemma_find_begin_at_join(a, b, a.len() as int);
}

/// A drain of `a` from `c` that ends cleanly goes on, in `a + b` with `b`
/// starting at a marker, into the drain of `a + b` from where `b` starts.
proof fn lemma_drain_prefix(a: Seq<u8>, b: Seq<u8>, c: int, sep: u8)
    requires
        0 <= c <= a.len(),
        b.len() >= 5,
        b.take(5) == begin_marker(),
        drain_spec(a, c, sep).1 == a.len() || spec_find_begin(a, drain_spec(a, c, sep).1) is None,
    ensures
        drain_spec(a + b, c, sep) == (
            drain_spec(a, c, sep).0 + drain_spec(a + b, a.len() as int, sep).0,
            drain_spec(a + b, a.len() as int, sep).1,
        ),
{
    lemma_drain_extend(a, b, c, sep);
    lemma_drain_bounds(a, c, sep);
    let e = drain_spec(a, c, sep).1;
    if e < a.len() {
        lemma_drain_join(a, b, e, sep);
    }
}

/// What a clean drain keeps holds no marker, so draining it handles
/// nothing.
proof fn lemma_kept_clean(a: Seq<u8>, sep: u8)
    requires
        drain_ends_cleanly(a, sep),
    ensures
        drain_spec(kept_after(a, drain_spec(a, 0, sep).1), 0, sep).0 == Seq::<Seq<(u32, Seq<u8>)>>::empty(),
{
    let c = drain_spec(a, 0, sep).1;
    lemma_drain_bounds(a, 0, sep);
    let ka = kept_after(a, c);
    if c < a.len() {
        let r = a.subrange(c, a.len() as int);
        if r.len() > MAX_BUFFER {
            let k = a.len() - MAX_BUFFER / 2;
            assert(ka =~= a.subrange(k, a.len() as int));
            lemma_no_begin_tail(a, c, k);
        } else {
            lemma_no_begin_tail(a, c, c);
        }
    } else {
        assert(ka.len() == 0);
    }
}

/// Draining `a + b` whole: the clean drain of `a`, then that of `b`,
/// stopping where the drain of `b` stops.
proof fn lemma_drain_concat(a: Seq<u8>, b: Seq<u8>, sep: u8)
    requires
        b.len() >= 5,
        b.take(5) == begin_marker(),
        drain_ends_cleanly(a, sep),
    ensures
        drain_spec(a + b, 0, sep) == (
            drain_spec(a, 0, sep).0 + drain_spec(b, 0, sep).0,
            a.len() + drain_spec(b, 0, sep).1,
        ),
{
    lemma_drain_prefix(a, b, 0, sep);
    lemma_drain_shift(a, b, 0, sep);
    assert(a.len() + 0 == a.len());
}

/// Two sources read one after the other handle the same messages, in the
/// same order, as the one source made of the two joined, provided the
/// second starts at a `8=FIX` marker and the first does not end inside a
/// message (its drain ends at its end, or where no marker follows).
pub proof fn law_two_sources_match_one(a: Seq<u8>, b: Seq<u8>, sep: u8)
    requires
        b.len() >= 5,
        b.take(5) == begin_marker(),
        drain_ends_cleanly(a, sep),
    ensures
        source_messages(a + b, sep) == source_messages(a, sep) + source_messages(b, sep),
{
    let ab = a + b;
    let da = drain_spec(a, 0, sep);
    let db = drain_spec(b, 0, sep);
    lemma_drain_concat(a, b, sep);
    lemma_drain_bounds(b, 0, sep);
    lemma_kept_clean(a, sep);
    let dab = drain_spec(ab, 0, sep);
    assert(ab.subrange(dab.1, ab.len() as int) =~= b.subrange(db.1, b.len() as int));
    assert(kept_after(ab, dab.1) == kept_after(b, db.1));
    assert(source_messages(a, sep) =~= da.0);
    let kb = drain_spec(kept_after(b, db.1), 0, sep).0;
    assert(source_messages(ab, sep) =~= (da.0 + db.0) + kb);
    assert(source_messages(ab, sep) =~= source_messages(a, sep) + source_messages(b, sep));
}

/// Where a drain of `j` stops at a message cut short, the drain of `j + q`
/// from the same point reads that message again, from its marker.
proof fn lemma_drain_extend_cut(j: Seq<u8>, q: Seq<u8>, c: int, sep: u8)
    requires
        0 <= c < j.len(),
        spec_find_begin(j, c) matches Some(s) && spec_parse_one(j.subrange(s, j.len() as int), 0, sep)
            == Err::<(Seq<(u32, Seq<u8>)>, int), ParseError>(ParseError::UnexpectedEof),
    ensures
        drain_spec(j + q, c, sep) == (
            drain_spec(j, c, sep).0 + drain_spec(j + q, drain_spec(j, c, sep).1, sep).0,
            drain_spec(j + q, drain_spec(j, c, sep).1, sep).1,
        ),
{
    let jq = j + q;
    let s = spec_find_begin(j, c)->0;
    lemma_find_begin_bounds(j, c);
    lemma_drain_cut_short(j, c, sep);
    assert(drain_spec(j, c, sep) == (Seq::<Seq<(u32, Seq<u8>)>>::empty(), s));
    lemma_find_begin_prefix(j, q, c);
    lemma_find_begin_prefix(j, q, s);
    assert(spec_find_begin(jq, c) == Some(s));
    assert(spec_find_begin(jq, s) == Some(s));
    assert(drain_spec(jq, c, sep) == drain_spec(jq, s, sep));
    let tail = drain_spec(jq, s, sep);
    assert(Seq::<Seq<(u32, Seq<u8>)>>::empty() + tail.0 =~= tail.0);
}

/// A drain of `j` from `c` goes on, in any extension `j + q`, from where it
/// stopped: what it handled comes first, then the drain of `j + q` from
/// that point.
#[verifier::rlimit(40)]
proof fn lemma_drain_extend(j: Seq<u8>, q: Seq<u8>, c: int, sep: u8)
    requires
        0 <= c <= j.len(),
    ensures
        drain_spec(j + q, c, sep) == (
            drain_spec(j, c, sep).0 + drain_spec(j + q, drain_spec(j, c, sep).1, sep).0,
            drain_spec(j + q, drain_spec(j, c, sep).1, sep).1,
        ),
    decreases j.len() - c,
{
    let jq = j + q;
    let d = drain_spec(j, c, sep);
    let tail = drain_spec(jq, d.1, sep);
    if c == j.len() || spec_find_begin(j, c) is None {
        assert(Seq::<Seq<(u32, Seq<u8>)>>::empty() + tail.0 =~= tail.0);
    } else {
        let s = spec_find_begin(j, c)->0;
        lemma_find_begin_bounds(j, c);
        lemma_find_begin_prefix(j, q, c);
        let p = j.subrange(s, j.len() as int);
        assert(jq.subrange(s, jq.len() as int) =~= p + q);
        lemma_parse_one_consumed(p, 0, sep);
        let r = spec_parse_one(p, 0, sep);
        if r == Err::<(Seq<(u32, Seq<u8>)>, int), ParseError>(ParseError::UnexpectedEof) {
            lemma_drain_extend_cut(j, q, c, sep);
        } else {
            lemma_parse_one_prefix(p, q, 0, sep);
            match r {
                Ok((f, n)) => {
                    lemma_drain_extend(j, q, s + n, sep);
                    assert(seq![f] + (drain_spec(j, s + n, sep).0 + tail.0) =~= (seq![f] + drain_spec(j, s + n, sep).0) + tail.0);
                },
                Err(_) => {
                    lemma_drain_extend(j, q, s + 1, sep);
                },
            }
        }
    }
}

/// Feeding two chunks one after the other handles the same messages, and
/// keeps the same bytes, as feeding both at once, as long as nothing was
/// dropped from what the first left (it did not pass [`MAX_BUFFER`]).
pub proof fn law_chunks_match_whole(pending: Seq<u8>, first: Seq<u8>, second: Seq<u8>, sep: u8)
    requires
        (pending + first).len() - drain_spec(pending + first, 0, sep).1 <= MAX_BUFFER,
    ensures
        ({
            let j = pending + first;
            let d1 = drain_spec(j, 0, sep);
            let k1 = kept_after(j, d1.1);
            let d2 = drain_spec(k1 + second, 0, sep);
            let whole = drain_spec(j + second, 0, sep);
            &&& d1.0 + d2.0 == whole.0
            &&& kept_after(k1 + second, d2.1) == kept_after(j + second, whole.1)
        }),
{
    let j = pending + first;
    let d1 = drain_spec(j, 0, sep);
    lemma_drain_bounds(j, 0, sep);
    let k1 = kept_after(j, d1.1);
    assert(k1 =~= j.subrange(d1.1, j.len() as int));
    let head = j.subrange(0, d1.1);
    let rest = k1 + second;
    assert(head + rest =~= j + second);
    lemma_drain_extend(j, second, 0, sep);
    lemma_drain_shift(head, rest, 0, sep);
    assert(head.len() + 0 == d1.1);
    let d2 = drain_spec(rest, 0, sep);
    lemma_drain_bounds(rest, 0, sep);
    let whole = drain_spec(j + second, 0, sep);
    assert(whole.1 == d1.1 + d2.1);
    assert((j + second).subrange(whole.1, (j + second).len() as int) =~= rest.subrange(d2.1, rest.len() as int));
}

/// One row of the consolidated summary. The notional and the average price
/// follow from `fills` (Σ LastQty × LastPx over the fills, and notional /
/// `cum_qty`).
#[derive(Debug, Clone)]
pub struct OrderConsolidated {
    pub root_clordid: Vec<u8>,
    pub family: Vec<Vec<u8>>,
    pub symbol: Option<Vec<u8>>,
    pub side: Option<u8>,
    pub order_qty: Option<u64>,
    pub cum_qty: u64,
    pub fills: Vec<FillLeg>,
    pub final_ord_status: Option<Vec<u8>>,
    pub first_seen: Option<u128>,
    pub last_seen: Option<u128>,
}

/// `row` is the summary `a` of family root `root`.
pub open spec fn row_of(row: OrderConsolidated, root: Seq<u8>, a: OrderAcc) -> bool {
    &&& row.root_clordid@ == root
    &&& row.family == a.family
    &&& row.symbol == a.symbol
    &&& row.side == a.side
    &&& row.order_qty == a.order_qty
    &&& row.cum_qty == a.cum_qty
    &&& row.fills == a.fills
    &&& row.final_ord_status == a.final_ord_status
    &&& row.first_seen == a.first_seen
    &&& row.last_seen == a.last_seen
}

fn copy_into(dst: &mut Vec<u8>, src: &[u8])
    ensures
        final(dst)@ == old(dst)@ + src@,
{
    let ghost d0 = dst@;
    let mut i: usize = 0;
    while i < src.len()
        invariant
            i <= src@.len(),
            dst@ == d0 + src@.take(i as int),
        decreases src.len() - i,
    {
        dst.push(src[i]);
        assert(src@.take(i + 1) =~= src@.take(i as int).push(src@[i as int]));
        assert(d0 + src@.take(i + 1) =~= (d0 + src@.take(i as int)).push(src@[i as int]));
        i += 1;
    }
    assert(src@.take(src@.len() as int) =~= src@);
}

impl ConsolidatedBuilder {
    /// Feed one chunk read from a source: append it to the bytes kept from
    /// the previous chunks, handle every complete message (see
    /// [`drain_spec`]), and keep the rest (see [`kept_after`]) for the next
    /// chunk.
    pub fn push_chunk(&mut self, pending: &mut Vec<u8>, chunk: &[u8], format: &LogFormat, stats: &mut SourceStats)
        requires
            old(self).wf(),
        ensures
            final(self).wf(),
            ({
                let joined = old(pending)@ + chunk@;
                let d = drain_spec(joined, 0, separator_byte(format.separator));
                &&& handled_all(*final(self), *old(self), d.0, *final(stats), *old(stats))
                &&& final(pending)@ == kept_after(joined, d.1)
            }),
    {
        copy_into(pending, chunk);
        let consumed = self.drain_complete(pending.as_slice(), format, stats);
        let ghost joined = pending@;
        let n = pending.len();
        let keep_from = if n - consumed > MAX_BUFFER {
            n - MAX_BUFFER / 2
        } else {
            consumed
        };
        let mut rest: Vec<u8> = Vec::new();
        copy_into(&mut rest, &pending[keep_from..n]);
        proof {
            let r = joined.subrange(consumed as int, n as int);
            if r.len() > MAX_BUFFER {
                assert(r.subrange(r.len() - MAX_BUFFER / 2, r.len() as int) =~= joined.subrange(keep_from as int, n as int));
            }
            assert(rest@ =~= kept_after(joined, consumed as int));
        }
        *pending = rest;
    }

    /// At the end of a source, handle the complete messages left in
    /// `pending`; a truncated trailing message is dropped.
    pub fn finish_source(&mut self, pending: &[u8], format: &LogFormat, stats: &mut SourceStats)
        requires
            old(self).wf(),
        ensures
            final(self).wf(),
            handled_all(
                *final(self),
                *old(self),
                drain_spec(pending@, 0, separator_byte(format.separator)).0,
                *final(stats),
                *old(stats),
            ),
    {
        let _ = self.drain_complete(pending, format, stats);
    }

    /// The rows, one per family summary (in no particular order).
    pub fn finish(self) -> (rows: Vec<OrderConsolidated>)
        requires
            self.wf(),
        ensures
            rows@.len() == self.summaries().dom().len(),
            forall|i: int|
                0 <= i < rows@.len() ==> self.summaries().dom().contains((#[trigger] rows@[i]).root_clordid@)
                    && row_of(rows@[i], rows@[i].root_clordid@, self.summaries()[rows@[i].root_clordid@]),
            forall|i: int, j: int| 0 <= i < j < rows@.len() ==> rows@[i].root_clordid@ != rows@[j].root_clordid@,
            forall|k: Seq<u8>| #[trigger] self.summaries().dom().contains(k) ==> exists|i: int| 0 <= i < rows@.len() && rows@[i].root_clordid@ == k,
    {
        let ghost m = self.summaries();
        let ghost accs0 = self.accs@;
        proof {
            crate::analysis::assoc::lemma_amap_len(accs0);
        }
        let mut accs = self.accs;
        let mut rows: Vec<OrderConsolidated> = Vec::new();
        while accs.len() > 0
            invariant
                akeys_unique(accs0),
                m == amap(accs0),
                accs@.len() + rows@.len() == accs0.len(),
                forall|i: int| 0 <= i < accs@.len() ==> #[trigger] accs@[i] == accs0[i],
                forall|i: int|
                    0 <= i < rows@.len() ==> #[trigger] rows@[i].root_clordid@ == akey(accs0[accs0.len() - 1 - i])
                        && row_of(rows@[i], rows@[i].root_clordid@, accs0[accs0.len() - 1 - i].1),
            decreases accs@.len(),
        {
            let (root, acc) = accs.pop().unwrap();
            let OrderAcc { family, symbol, side, order_qty, cum_qty, fills, seen_execids: _, final_ord_status, first_seen, last_seen } = acc;
            rows.push(OrderConsolidated {
                root_clordid: root,
                family,
                symbol,
                side,
                order_qty,
                cum_qty,
                fills,
                final_ord_status,
                first_seen,
                last_seen,
            });
        }
        proof {
            assert forall|i: int| 0 <= i < rows@.len() implies m.dom().contains((#[trigger] rows@[i]).root_clordid@)
                && row_of(rows@[i], rows@[i].root_clordid@, m[rows@[i].root_clordid@]) by {
                lemma_amap_at(accs0, accs0.len() - 1 - i);
            }
            assert forall|i: int, j: int| 0 <= i < j < rows@.len() implies rows@[i].root_clordid@ != rows@[j].root_clordid@ by {
                let a = accs0.len() - 1 - j;
                let b = accs0.len() - 1 - i;
                assert(akey(accs0[a]) != akey(accs0[b]));
            }
            assert forall|k: Seq<u8>| #[trigger] m.dom().contains(k) implies exists|i: int| 0 <= i < rows@.len() && rows@[i].root_clordid@ == k by {
                let j = choose|j: int| 0 <= j < accs0.len() && #[trigger] akey(accs0[j]) == k;
                let i = accs0.len() - 1 - j;
                assert(rows@[i].root_clordid@ == k);
            }
        }
        rows
    }
}

impl Default for ConsolidatedBuilder {
    /// An empty builder (see [`ConsolidatedBuilder::new`]).
    fn default() -> (b: Self)
        ensures
            b.wf(),
            b.summaries() == Map::<Seq<u8>, OrderAcc>::empty(),
            b.aliases() == Map::<Seq<u8>, Seq<u8>>::empty(),
            b.order_roots() == Map::<Seq<u8>, Seq<u8>>::empty(),
    {
        ConsolidatedBuilder::new()
    }
}

} // verus!
