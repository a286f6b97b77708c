//! Ranking of counted keys for the reports: most frequent first, ties in
//! lexicographic order of the key (a byte string, or a pair of them).
use vstd::prelude::*;

use crate::analysis::sets::{bytes_lt, lemma_lex_trans, lex_lt};
use crate::index::secondary::bytes_eq;

verus! {

/// A counted key: one or two byte strings and a count.
pub type Counted = (Vec<u8>, Vec<u8>, u64);

/// The view of a counted key.
pub open spec fn counted_view(e: Counted) -> (Seq<u8>, Seq<u8>, u64) {
    (e.0@, e.1@, e.2)
}

/// The views of a list of counted keys.
pub open spec fn counted_views(s: Seq<Counted>) -> Seq<(Seq<u8>, Seq<u8>, u64)> {
    s.map_values(|e: Counted| counted_view(e))
}

/// `x` ranks before `y`: a higher count, or the same count and a smaller
/// key (first part, then second part).
pub open spec fn ranks_before(x: (Seq<u8>, Seq<u8>, u64), y: (Seq<u8>, Seq<u8>, u64)) -> bool {
    x.2 > y.2 || (x.2 == y.2 && (lex_lt(x.0, y.0) || (x.0 == y.0 && lex_lt(x.1, y.1))))
}

/// No key ranks before one listed ahead of it.
pub open spec fn ranked(s: Seq<(Seq<u8>, Seq<u8>, u64)>) -> bool {
    forall|i: int, j: int| 0 <= i < j < s.len() ==> !ranks_before(s[j], s[i])
}

proof fn lemma_ranks_trans(x: (Seq<u8>, Seq<u8>, u64), y: (Seq<u8>, Seq<u8>, u64), z: (Seq<u8>, Seq<u8>, u64))
    requires
        ranks_before(x, y),
        ranks_before(y, z),
    ensures
        ranks_before(x, z),
{
    if x.2 == y.2 && y.2 == z.2 {
        if lex_lt(x.0, y.0) && lex_lt(y.0, z.0) {
            lemma_lex_trans(x.0, y.0, z.0);
        } else if x.0 == y.0 && y.0 == z.0 {
            lemma_lex_trans(x.1, y.1, z.1);
        }
    }
}

/// `x` ranks before `y`.
fn ranks_before_exec(x: &Counted, y: &Counted) -> (r: bool)
    ensures
        r == ranks_before(counted_view(*x), counted_view(*y)),
{
    if x.2 != y.2 {
        return x.2 > y.2;
    }
    if bytes_lt(x.0.as_slice(), y.0.as_slice()) {
        return true;
    }
    bytes_eq(x.0.as_slice(), y.0.as_slice()) && bytes_lt(x.1.as_slice(), y.1.as_slice())
}

/// The counted keys in rank order.
pub fn rank(v: Vec<Counted>) -> (r: Vec<Counted>)
    ensures
        ranked(counted_views(r@)),
        counted_views(r@).to_multiset() == counted_views(v@).to_multiset(),
{
    let mut out: Vec<Counted> = Vec::new();
    let mut rest = v;
    let ghost all = counted_views(rest@);
    let n = rest.len();
    assert(counted_views(out@) =~= Seq::<(Seq<u8>, Seq<u8>, u64)>::empty());
    assert(all.take(0) =~= Seq::<(Seq<u8>, Seq<u8>, u64)>::empty());
    while rest.len() > 0
        invariant
            rest@.len() <= n,
            n == all.len(),
            counted_views(rest@) == all.skip(n - rest@.len()),
            ranked(counted_views(out@)),
            counted_views(out@).to_multiset() == all.take(n - rest@.len()).to_multiset(),
        decreases rest@.len(),
    {
        let ghost k = n - rest@.len();
        let ghost before_rest = rest@;
        let x = rest.remove(0);
        proof {
            assert(x == before_rest[0]);
            assert(counted_views(before_rest)[0] == counted_view(before_rest[0]));
            assert(counted_views(before_rest)[0] == all.skip(k)[0]);
            assert(counted_view(x) == all[k]);
            assert(counted_views(rest@) =~= all.skip(k + 1)) by {
                assert(rest@ =~= before_rest.drop_first());
                assert forall|q: int| 0 <= q < rest@.len() implies counted_views(rest@)[q] == all.skip(k + 1)[q] by {
                    assert(counted_views(before_rest)[q + 1] == all.skip(k)[q + 1]);
                }
            }
        }
        let mut i: usize = 0;
        while i < out.len() && !ranks_before_exec(&x, &out[i])
            invariant
                i <= out@.len(),
                forall|j: int| 0 <= j < i ==> !ranks_before(counted_view(x), counted_view(#[trigger] out@[j])),
            decreases out@.len() - i,
        {
            i += 1;
        }
        let ghost before = out@;
        let ghost xv = counted_view(x);
        out.insert(i, x);
        proof {
            let bv = counted_views(before);
            assert(counted_views(out@) =~= bv.insert(i as int, xv));
            vstd::seq_lib::to_multiset_insert(bv, i as int, xv);
            assert(all.take(k + 1) =~= all.take(k).push(xv));
            vstd::seq_lib::to_multiset_build(all.take(k), xv);
            let ov = counted_views(out@);
            assert forall|a: int, b: int| 0 <= a < b < ov.len() implies !ranks_before(ov[b], ov[a]) by {
                if a < i && b == i {
                    assert(ov[a] == bv[a]);
                } else if a == i {
                    assert(ov[b] == bv[b - 1]);
                    if ranks_before(bv[b - 1], xv) {
                        if i < before.len() {
                            assert(ranks_before(xv, bv[i as int]));
                            lemma_ranks_trans(bv[b - 1], xv, bv[i as int]);
                            if b - 1 == i {
                                crate::analysis::sets::lemma_lex_total(bv[b - 1].0, bv[b - 1].0);
                                crate::analysis::sets::lemma_lex_total(bv[b - 1].1, bv[b - 1].1);
                            } else {
                                assert(!ranks_before(bv[b - 1], bv[i as int]));
                            }
                        }
                    }
                } else if b < i {
                    assert(ov[a] == bv[a] && ov[b] == bv[b]);
                } else if a < i {
                    assert(ov[a] == bv[a] && ov[b] == bv[b - 1]);
                } else {
                    assert(ov[a] == bv[a - 1] && ov[b] == bv[b - 1]);
                }
            }
        }
    }
    assert(all.take(n as int) =~= all);
    out
}

/// The first `n` of `v`, or all of it when shorter.
pub fn take_first(v: Vec<Counted>, n: usize) -> (r: Vec<Counted>)
    ensures
        r@ == v@.take(if v@.len() < n { v@.len() as int } else { n as int }),
{
    let ghost orig = v@;
    let mut v = v;
    if v.len() > n {
        v.truncate(n);
    }
    assert(v@ =~= orig.take(if orig.len() < n { orig.len() as int } else { n as int }));
    v
}

} // verus!
