//! Association lists keyed by byte strings: a vector of `(key, value)`
//! pairs with distinct keys, seen as a map. vstd specifies std's hash maps
//! only for keys that obey its key model, which it grants to integers,
//! booleans and boxes of them, not to byte strings; these lists take their
//! place where the keys are ClOrdIDs, OrderIDs and CompIDs.
use vstd::prelude::*;

use crate::bytes::copy_bytes;
use crate::index::secondary::bytes_eq;

verus! {

/// The key of an entry.
pub open spec fn akey<V>(e: (Vec<u8>, V)) -> Seq<u8> {
    e.0@
}

/// No two entries share a key.
pub open spec fn akeys_unique<V>(s: Seq<(Vec<u8>, V)>) -> bool {
    forall|i: int, j: int| 0 <= i < j < s.len() ==> akey(s[i]) != akey(s[j])
}

/// The map an association list stands for.
pub open spec fn amap<V>(s: Seq<(Vec<u8>, V)>) -> Map<Seq<u8>, V> {
    Map::new(
        |k: Seq<u8>| exists|i: int| 0 <= i < s.len() && #[trigger] akey(s[i]) == k,
        |k: Seq<u8>| s[choose|i: int| 0 <= i < s.len() && #[trigger] akey(s[i]) == k].1,
    )
}

pub proof fn lemma_amap_at<V>(s: Seq<(Vec<u8>, V)>, i: int)
    requires
        akeys_unique(s),
        0 <= i < s.len(),
    ensures
        amap(s).dom().contains(akey(s[i])),
        amap(s)[akey(s[i])] == s[i].1,
{
    let k = akey(s[i]);
    assert(exists|j: int| 0 <= j < s.len() && #[trigger] akey(s[j]) == k);
    let j = choose|j: int| 0 <= j < s.len() && #[trigger] akey(s[j]) == k;
    if j != i {
        if j < i {
            assert(akey(s[j]) != akey(s[i]));
        } else {
            assert(akey(s[i]) != akey(s[j]));
        }
    }
}

pub proof fn lemma_amap_update<V>(s: Seq<(Vec<u8>, V)>, i: int, e: (Vec<u8>, V))
    requires
        akeys_unique(s),
        0 <= i < s.len(),
        akey(e) == akey(s[i]),
    ensures
        akeys_unique(s.update(i, e)),
        amap(s.update(i, e)) == amap(s).insert(akey(e), e.1),
{
    let s2 = s.update(i, e);
    assert(akeys_unique(s2)) by {
        assert forall|a: int, b: int| 0 <= a < b < s2.len() implies akey(s2[a]) != akey(s2[b]) by {
            assert(akey(s2[a]) == akey(s[a]));
            assert(akey(s2[b]) == akey(s[b]));
        }
    }
    let m1 = amap(s2);
    let m2 = amap(s).insert(akey(e), e.1);
    assert forall|k: Seq<u8>| m1.dom().contains(k) <==> m2.dom().contains(k) by {
        if k == akey(e) {
            assert(akey(s2[i]) == k);
        }
        if m2.dom().contains(k) && k != akey(e) {
            let j = choose|j: int| 0 <= j < s.len() && #[trigger] akey(s[j]) == k;
            assert(akey(s2[j]) == k);
        }
        if m1.dom().contains(k) {
            let j = choose|j: int| 0 <= j < s2.len() && #[trigger] akey(s2[j]) == k;
            if j != i {
                assert(akey(s[j]) == k);
            }
        }
    }
    assert forall|k: Seq<u8>| m1.dom().contains(k) implies m1[k] == m2[k] by {
        let j = choose|j: int| 0 <= j < s2.len() && #[trigger] akey(s2[j]) == k;
        lemma_amap_at(s2, j);
        if j != i {
            lemma_amap_at(s, j);
        }
    }
    assert(m1 =~= m2);
}

pub proof fn lemma_amap_push<V>(s: Seq<(Vec<u8>, V)>, e: (Vec<u8>, V))
    requires
        akeys_unique(s),
        !amap(s).dom().contains(akey(e)),
    ensures
        akeys_unique(s.push(e)),
        amap(s.push(e)) == amap(s).insert(akey(e), e.1),
{
    let s2 = s.push(e);
    assert(akeys_unique(s2)) by {
        assert forall|a: int, b: int| 0 <= a < b < s2.len() implies akey(s2[a]) != akey(s2[b]) by {
            if b == s.len() {
                assert(akey(s2[a]) == akey(s[a]));
                if akey(s[a]) == akey(e) {
                    assert(amap(s).dom().contains(akey(e)));
                }
            }
        }
    }
    let m1 = amap(s2);
    let m2 = amap(s).insert(akey(e), e.1);
    assert forall|k: Seq<u8>| m1.dom().contains(k) <==> m2.dom().contains(k) by {
        if m2.dom().contains(k) && k != akey(e) {
            let j = choose|j: int| 0 <= j < s.len() && #[trigger] akey(s[j]) == k;
            assert(akey(s2[j]) == k);
        }
        if k == akey(e) {
            assert(akey(s2[s.len() as int]) == k);
        }
        if m1.dom().contains(k) {
            let j = choose|j: int| 0 <= j < s2.len() && #[trigger] akey(s2[j]) == k;
            if j < s.len() {
                assert(akey(s[j]) == k);
            }
        }
    }
    assert forall|k: Seq<u8>| m1.dom().contains(k) implies m1[k] == m2[k] by {
        let j = choose|j: int| 0 <= j < s2.len() && #[trigger] akey(s2[j]) == k;
        lemma_amap_at(s2, j);
        if j < s.len() {
            lemma_amap_at(s, j);
        }
    }
    assert(m1 =~= m2);
}

pub proof fn lemma_amap_remove<V>(s: Seq<(Vec<u8>, V)>, i: int)
    requires
        akeys_unique(s),
        0 <= i < s.len(),
    ensures
        akeys_unique(s.remove(i)),
        amap(s.remove(i)) == amap(s).remove(akey(s[i])),
{
    let s2 = s.remove(i);
    assert forall|j: int| 0 <= j < s2.len() implies #[trigger] s2[j] == (if j < i { s[j] } else { s[j + 1] }) by {}
    assert(akeys_unique(s2)) by {
        assert forall|a: int, b: int| 0 <= a < b < s2.len() implies akey(s2[a]) != akey(s2[b]) by {
            let a2 = if a < i { a } else { a + 1 };
            let b2 = if b < i { b } else { b + 1 };
            assert(s2[a] == s[a2]);
            assert(s2[b] == s[b2]);
        }
    }
    let m1 = amap(s2);
    let m2 = amap(s).remove(akey(s[i]));
    assert forall|k: Seq<u8>| m1.dom().contains(k) <==> m2.dom().contains(k) by {
        if m1.dom().contains(k) {
            let j = choose|j: int| 0 <= j < s2.len() && #[trigger] akey(s2[j]) == k;
            let j2 = if j < i { j } else { j + 1 };
            assert(s2[j] == s[j2]);
            assert(akey(s[j2]) == k);
            if k == akey(s[i]) {
                if j2 < i {
                    assert(akey(s[j2]) != akey(s[i]));
                } else {
                    assert(akey(s[i]) != akey(s[j2]));
                }
            }
        }
        if m2.dom().contains(k) {
            let j = choose|j: int| 0 <= j < s.len() && #[trigger] akey(s[j]) == k;
            assert(j != i);
            let j2 = if j < i { j } else { j - 1 };
            assert(s2[j2] == s[j]);
            assert(akey(s2[j2]) == k);
        }
    }
    assert forall|k: Seq<u8>| m1.dom().contains(k) implies m1[k] == m2[k] by {
        let j = choose|j: int| 0 <= j < s2.len() && #[trigger] akey(s2[j]) == k;
        let j2 = if j < i { j } else { j + 1 };
        assert(s2[j] == s[j2]);
        lemma_amap_at(s2, j);
        lemma_amap_at(s, j2);
    }
    assert(m1 =~= m2);
}

/// Position of the entry for `k`, if any.
pub fn afind<V>(v: &Vec<(Vec<u8>, V)>, k: &[u8]) -> (r: Option<usize>)
    requires
        akeys_unique(v@),
    ensures
        match r {
            Some(i) => i < v@.len() && akey(v@[i as int]) == k@ && amap(v@).dom().contains(k@) && amap(
                v@,
            )[k@] == v@[i as int].1,
            None => !amap(v@).dom().contains(k@),
        },
{
    let mut i: usize = 0;
    while i < v.len()
        invariant
            i <= v@.len(),
            akeys_unique(v@),
            forall|j: int| 0 <= j < i ==> akey(#[trigger] v@[j]) != k@,
        decreases v.len() - i,
    {
        if bytes_eq(v[i].0.as_slice(), k) {
            proof {
                lemma_amap_at(v@, i as int);
            }
            return Some(i);
        }
        i += 1;
    }
    None
}

/// Set the value of `k` (adding the key when absent).
pub fn ainsert<V>(v: &mut Vec<(Vec<u8>, V)>, k: &[u8], val: V)
    requires
        akeys_unique(old(v)@),
    ensures
        akeys_unique(final(v)@),
        amap(final(v)@) == amap(old(v)@).insert(k@, val),
{
    match afind(v, k) {
        Some(i) => {
            let ghost before = v@;
            let key = copy_bytes(k);
            let ghost e = (key, val);
            v.set(i, (key, val));
            proof {
                lemma_amap_update(before, i as int, e);
            }
        },
        None => {
            let key = copy_bytes(k);
            let ghost e = (key, val);
            proof {
                lemma_amap_push(v@, e);
            }
            v.push((key, val));
        },
    }
}

/// Remove the entry of `k`, returning its value.
pub fn aremove<V>(v: &mut Vec<(Vec<u8>, V)>, k: &[u8]) -> (r: Option<V>)
    requires
        akeys_unique(old(v)@),
    ensures
        akeys_unique(final(v)@),
        amap(final(v)@) == amap(old(v)@).remove(k@),
        match r {
            Some(x) => amap(old(v)@).dom().contains(k@) && amap(old(v)@)[k@] == x,
            None => !amap(old(v)@).dom().contains(k@),
        },
{
    match afind(v, k) {
        Some(i) => {
            let ghost before = v@;
            proof {
                lemma_amap_remove(before, i as int);
            }
            let (_, x) = v.remove(i);
            Some(x)
        },
        None => {
            assert(amap(v@).remove(k@) =~= amap(v@));
            None
        },
    }
}

/// A list with distinct keys has as many entries as its map has keys.
pub proof fn lemma_amap_len<V>(s: Seq<(Vec<u8>, V)>)
    requires
        akeys_unique(s),
    ensures
        amap(s).dom().finite(),
        amap(s).dom().len() == s.len(),
    decreases s.len(),
{
    if s.len() == 0 {
        assert(amap(s).dom() =~= Set::<Seq<u8>>::empty());
    } else {
        let init = s.drop_last();
        assert(akeys_unique(init));
        lemma_amap_len(init);
        let e = s.last();
        assert(s == init.push(e));
        assert(!amap(init).dom().contains(akey(e))) by {
            if amap(init).dom().contains(akey(e)) {
                let j = choose|j: int| 0 <= j < init.len() && #[trigger] akey(init[j]) == akey(e);
                assert(akey(s[j]) != akey(s[s.len() - 1]));
            }
        }
        lemma_amap_push(init, e);
    }
}

} // verus!
