//! Small ordered sets kept in vectors: ordinals (`u32`) and byte strings,
//! each sorted strictly increasing, so that the order in which values are
//! added does not show in the result.
use vstd::prelude::*;

use crate::index::secondary::bytes_eq;

verus! {

/// `s` is strictly increasing.
pub open spec fn sorted_u32(s: Seq<u32>) -> bool {
    forall|i: int, j: int| 0 <= i < j < s.len() ==> s[i] < s[j]
}

/// Insert `x` into a strictly increasing vector, keeping it so.
pub fn insert_sorted_u32(v: &mut Vec<u32>, x: u32)
    requires
        sorted_u32(old(v)@),
    ensures
        sorted_u32(final(v)@),
        final(v)@.to_set() == old(v)@.to_set().insert(x),
{
    let mut i: usize = 0;
    while i < v.len() && v[i] < x
        invariant
            i <= v@.len(),
            sorted_u32(v@),
            forall|j: int| 0 <= j < i ==> v@[j] < x,
        decreases v.len() - i,
    {
        i += 1;
    }
    if i < v.len() && v[i] == x {
        assert(v@.to_set().insert(x) =~= v@.to_set()) by {
            assert(v@[i as int] == x);
            assert(v@.contains(x));
        }
        return;
    }
    let ghost before = v@;
    v.insert(i, x);
    proof {
        assert(v@ == before.insert(i as int, x));
        assert(sorted_u32(v@)) by {
            assert forall|a: int, b: int| 0 <= a < b < v@.len() implies v@[a] < v@[b] by {
                if b < i {
                } else if a < i && b == i {
                } else if a < i && b > i {
                    assert(v@[b] == before[b - 1]);
                    assert(before[b - 1] >= x);
                } else if a == i {
                    assert(v@[b] == before[b - 1]);
                } else {
                    assert(v@[a] == before[a - 1]);
                    assert(v@[b] == before[b - 1]);
                }
            }
        }
        assert forall|y: u32| v@.to_set().contains(y) <==> before.to_set().insert(x).contains(y) by {
            if v@.contains(y) {
                let k = choose|k: int| 0 <= k < v@.len() && v@[k] == y;
                if k < i {
                    assert(before[k] == y);
                } else if k > i {
                    assert(before[k - 1] == y);
                }
            }
            if before.contains(y) {
                let k = choose|k: int| 0 <= k < before.len() && before[k] == y;
                if k < i {
                    assert(v@[k] == y);
                } else {
                    assert(v@[k + 1] == y);
                }
            }
            if y == x {
                assert(v@[i as int] == x);
            }
        }
        assert(v@.to_set() =~= before.to_set().insert(x));
    }
}

/// The byte strings held by a vector.
pub open spec fn byte_set(v: Seq<Vec<u8>>) -> Set<Seq<u8>> {
    Set::new(|s: Seq<u8>| exists|i: int| 0 <= i < v.len() && #[trigger] v[i]@ == s)
}

/// Whether the vector holds `x`.
pub fn contains_bytes(v: &Vec<Vec<u8>>, x: &[u8]) -> (b: bool)
    ensures
        b == byte_set(v@).contains(x@),
{
    let mut i: usize = 0;
    while i < v.len()
        invariant
            i <= v@.len(),
            forall|j: int| 0 <= j < i ==> (#[trigger] v@[j])@ != x@,
        decreases v.len() - i,
    {
        if bytes_eq(v[i].as_slice(), x) {
            assert(v@[i as int]@ == x@);
            return true;
        }
        i += 1;
    }
    false
}

/// Lexicographic order on byte strings (a proper prefix comes first).
pub open spec fn lex_lt(a: Seq<u8>, b: Seq<u8>) -> bool
    decreases a.len(),
{
    if b.len() == 0 {
        false
    } else if a.len() == 0 {
        true
    } else if a[0] != b[0] {
        a[0] < b[0]
    } else {
        lex_lt(a.drop_first(), b.drop_first())
    }
}

/// Lexicographic order is transitive.
pub proof fn lemma_lex_trans(a: Seq<u8>, b: Seq<u8>, c: Seq<u8>)
    requires
        lex_lt(a, b),
        lex_lt(b, c),
    ensures
        lex_lt(a, c),
    decreases a.len(),
{
    if a.len() > 0 && b.len() > 0 && c.len() > 0 && a[0] == b[0] && b[0] == c[0] {
        lemma_lex_trans(a.drop_first(), b.drop_first(), c.drop_first());
    }
}

/// Two distinct byte strings are ordered one way or the other, never both.
pub proof fn lemma_lex_total(a: Seq<u8>, b: Seq<u8>)
    ensures
        a == b || lex_lt(a, b) || lex_lt(b, a),
        !(lex_lt(a, b) && lex_lt(b, a)),
        !lex_lt(a, a),
    decreases a.len(),
{
    if a.len() > 0 && b.len() > 0 && a[0] == b[0] {
        lemma_lex_total(a.drop_first(), b.drop_first());
        if a.drop_first() == b.drop_first() {
            assert forall|k: int| 0 <= k < a.len() implies a[k] == b[k] by {
                if k > 0 {
                    assert(a[k] == a.drop_first()[k - 1]);
                    assert(b[k] == b.drop_first()[k - 1]);
                }
            }
            assert(a =~= b);
        }
    }
    if a.len() == 0 && b.len() == 0 {
        assert(a =~= b);
    }
    if a.len() > 0 {
        lemma_lex_total(a.drop_first(), a.drop_first());
    }
}

/// Whether `a` comes before `b` lexicographically.
pub fn bytes_lt(a: &[u8], b: &[u8]) -> (r: bool)
    ensures
        r == lex_lt(a@, b@),
{
    let mut i: usize = 0;
    assert(a@.subrange(0, a@.len() as int) =~= a@);
    assert(b@.subrange(0, b@.len() as int) =~= b@);
    while i < a.len() && i < b.len()
        invariant
            i <= a@.len(),
            i <= b@.len(),
            a@.subrange(0, i as int) == b@.subrange(0, i as int),
            lex_lt(a@, b@) == lex_lt(a@.subrange(i as int, a@.len() as int), b@.subrange(i as int, b@.len() as int)),
        decreases a.len() - i,
    {
        if a[i] != b[i] {
            return a[i] < b[i];
        }
        proof {
            let sa = a@.subrange(i as int, a@.len() as int);
            let sb = b@.subrange(i as int, b@.len() as int);
            assert(sa.drop_first() =~= a@.subrange(i + 1, a@.len() as int));
            assert(sb.drop_first() =~= b@.subrange(i + 1, b@.len() as int));
            assert(a@.subrange(0, i + 1) =~= a@.subrange(0, i as int).push(a@[i as int]));
            assert(b@.subrange(0, i + 1) =~= b@.subrange(0, i as int).push(b@[i as int]));
        }
        i += 1;
    }
    i < b.len()
}

/// `v` is strictly increasing in lexicographic order.
pub open spec fn sorted_bytes(v: Seq<Vec<u8>>) -> bool {
    forall|i: int, j: int| 0 <= i < j < v.len() ==> lex_lt(v[i]@, v[j]@)
}

/// Insert `x` into a lexicographically sorted vector of byte strings,
/// keeping it sorted and free of duplicates.
pub fn insert_sorted_bytes(v: &mut Vec<Vec<u8>>, x: &[u8])
    requires
        sorted_bytes(old(v)@),
    ensures
        sorted_bytes(final(v)@),
        byte_set(final(v)@) == byte_set(old(v)@).insert(x@),
{
    let mut i: usize = 0;
    while i < v.len() && bytes_lt(v[i].as_slice(), x)
        invariant
            i <= v@.len(),
            sorted_bytes(v@),
            forall|j: int| 0 <= j < i ==> lex_lt((#[trigger] v@[j])@, x@),
        decreases v.len() - i,
    {
        i += 1;
    }
    if i < v.len() && bytes_eq(v[i].as_slice(), x) {
        assert(byte_set(v@).insert(x@) =~= byte_set(v@)) by {
            assert(v@[i as int]@ == x@);
        }
        return;
    }
    proof {
        if i < v@.len() {
            lemma_lex_total(v@[i as int]@, x@);
        }
    }
    let ghost before = v@;
    let item = crate::bytes::copy_bytes(x);
    v.insert(i, item);
    proof {
        assert(v@ == before.insert(i as int, item));
        assert(sorted_bytes(v@)) by {
            assert forall|a: int, b: int| 0 <= a < b < v@.len() implies lex_lt(v@[a]@, v@[b]@) by {
                if b < i {
                } else if a < i && b == i {
                } else if a < i && b > i {
                    assert(v@[b] == before[b - 1]);
                    if b - 1 > i {
                        assert(lex_lt(before[i as int]@, before[b - 1]@));
                        lemma_lex_trans(x@, before[i as int]@, before[b - 1]@);
                    }
                    lemma_lex_trans(v@[a]@, x@, before[b - 1]@);
                } else if a == i {
                    assert(v@[b] == before[b - 1]);
                    if b - 1 > i {
                        lemma_lex_trans(x@, before[i as int]@, before[b - 1]@);
                    }
                } else {
                    assert(v@[a] == before[a - 1]);
                    assert(v@[b] == before[b - 1]);
                }
            }
        }
        assert forall|s: Seq<u8>| byte_set(v@).contains(s) <==> byte_set(before).insert(x@).contains(s) by {
            if byte_set(v@).contains(s) {
                let k = choose|k: int| 0 <= k < v@.len() && #[trigger] v@[k]@ == s;
                if k < i {
                    assert(before[k]@ == s);
                } else if k > i {
                    assert(before[k - 1]@ == s);
                }
            }
            if byte_set(before).contains(s) {
                let k = choose|k: int| 0 <= k < before.len() && #[trigger] before[k]@ == s;
                if k < i {
                    assert(v@[k]@ == s);
                } else {
                    assert(v@[k + 1]@ == s);
                }
            }
            if s == x@ {
                assert(v@[i as int]@ == x@);
            }
        }
        assert(byte_set(v@) =~= byte_set(before).insert(x@));
    }
}

} // verus!
