//! Secondary index over "hot" tags: for each `(tag, value)` pair of a hot
//! tag, the ordinals (indices into the primary index) of the messages where
//! the pair appears, in the order they were recorded.
use vstd::prelude::*;

use crate::bytes::copy_bytes;
use crate::index::hot_tags::HotTags;
use crate::parser::{RawMessage, fields_of};

verus! {

/// The ordinals recorded for one `(tag, value)` pair.
#[derive(Debug)]
pub struct IndexEntry {
    pub tag: u32,
    pub value: Vec<u8>,
    pub ordinals: Vec<u32>,
}

/// The key of an entry.
pub open spec fn key_of(e: IndexEntry) -> (u32, Seq<u8>) {
    (e.tag, e.value@)
}

/// Secondary lookup `(tag, value) → ordinals`, limited to the hot tags.
#[derive(Debug)]
pub struct SecondaryIndex {
    tags: HotTags,
    entries: Vec<IndexEntry>,
}

/// The map an entry list stands for.
pub open spec fn entries_map(es: Seq<IndexEntry>) -> Map<(u32, Seq<u8>), Seq<u32>> {
    Map::new(
        |k: (u32, Seq<u8>)| exists|i: int| 0 <= i < es.len() && #[trigger] key_of(es[i]) == k,
        |k: (u32, Seq<u8>)| es[choose|i: int| 0 <= i < es.len() && #[trigger] key_of(es[i]) == k].ordinals@,
    )
}

/// No two entries share a key.
pub open spec fn keys_unique(es: Seq<IndexEntry>) -> bool {
    forall|i: int, j: int| 0 <= i < j < es.len() ==> key_of(es[i]) != key_of(es[j])
}

/// The ordinals of `k` in `m`, empty when absent.
pub open spec fn ordinals_of(m: Map<(u32, Seq<u8>), Seq<u32>>, k: (u32, Seq<u8>)) -> Seq<u32> {
    if m.dom().contains(k) {
        m[k]
    } else {
        Seq::empty()
    }
}

/// Append `ord` to a list unless it is already the last element.
pub open spec fn push_dedup(s: Seq<u32>, ord: u32) -> Seq<u32> {
    if s.len() > 0 && s.last() == ord {
        s
    } else {
        s.push(ord)
    }
}

/// Record one field against `ord` when its tag is hot.
pub open spec fn record_field(
    m: Map<(u32, Seq<u8>), Seq<u32>>,
    hot: Seq<u32>,
    f: (u32, Seq<u8>),
    ord: u32,
) -> Map<(u32, Seq<u8>), Seq<u32>> {
    if hot.contains(f.0) {
        m.insert(f, push_dedup(ordinals_of(m, f), ord))
    } else {
        m
    }
}

/// Record the first `n` fields of a message against `ord`.
pub open spec fn record_fields(
    m: Map<(u32, Seq<u8>), Seq<u32>>,
    hot: Seq<u32>,
    fields: Seq<(u32, Seq<u8>)>,
    ord: u32,
    n: int,
) -> Map<(u32, Seq<u8>), Seq<u32>>
    decreases n,
{
    if n <= 0 {
        m
    } else {
        record_field(record_fields(m, hot, fields, ord, n - 1), hot, fields[n - 1], ord)
    }
}

/// Append a run of ordinals, each rebased by `base` (saturating) and
/// skipped when equal to the last element.
pub open spec fn append_rebased(cur: Seq<u32>, xs: Seq<u32>, base: u32) -> Seq<u32>
    decreases xs.len(),
{
    if xs.len() == 0 {
        cur
    } else {
        append_rebased(push_dedup(cur, sat_add(xs[0], base)), xs.drop_first(), base)
    }
}

/// Saturating addition of two `u32`s.
pub open spec fn sat_add(a: u32, b: u32) -> u32 {
    if a + b > u32::MAX {
        u32::MAX
    } else {
        (a + b) as u32
    }
}

/// Merge the entries `es` (in order) into `m`, rebasing by `base`.
pub open spec fn merge_entries(
    m: Map<(u32, Seq<u8>), Seq<u32>>,
    es: Seq<IndexEntry>,
    base: u32,
    n: int,
) -> Map<(u32, Seq<u8>), Seq<u32>>
    decreases n,
{
    if n <= 0 {
        m
    } else {
        let prev = merge_entries(m, es, base, n - 1);
        let e = es[n - 1];
        prev.insert(key_of(e), append_rebased(ordinals_of(prev, key_of(e)), e.ordinals@, base))
    }
}

/// `m` with the lists of `other` appended key by key, rebased by `base`.
pub open spec fn merged_map(
    m: Map<(u32, Seq<u8>), Seq<u32>>,
    other: Map<(u32, Seq<u8>), Seq<u32>>,
    base: u32,
) -> Map<(u32, Seq<u8>), Seq<u32>> {
    Map::new(
        |k: (u32, Seq<u8>)| m.dom().contains(k) || other.dom().contains(k),
        |k: (u32, Seq<u8>)|
            if other.dom().contains(k) {
                append_rebased(ordinals_of(m, k), other[k], base)
            } else {
                m[k]
            },
    )
}

proof fn lemma_merge_entries(m: Map<(u32, Seq<u8>), Seq<u32>>, es: Seq<IndexEntry>, base: u32, n: int)
    requires
        keys_unique(es),
        0 <= n <= es.len(),
    ensures
        keys_unique(es.take(n)),
        merge_entries(m, es, base, n) == merged_map(m, entries_map(es.take(n)), base),
    decreases n,
{
    assert(keys_unique(es.take(n))) by {
        assert forall|a: int, b: int| 0 <= a < b < es.take(n).len() implies key_of(es.take(n)[a]) != key_of(es.take(n)[b]) by {
            assert(es.take(n)[a] == es[a]);
            assert(es.take(n)[b] == es[b]);
        }
    }
    if n == 0 {
        assert(entries_map(es.take(0)) =~= Map::<(u32, Seq<u8>), Seq<u32>>::empty());
        assert(merged_map(m, entries_map(es.take(0)), base) =~= m);
    } else {
        lemma_merge_entries(m, es, base, n - 1);
        let init = es.take(n - 1);
        let e = es[n - 1];
        assert(es.take(n) =~= init.push(e));
        assert(!entries_map(init).dom().contains(key_of(e))) by {
            if entries_map(init).dom().contains(key_of(e)) {
                let j = choose|j: int| 0 <= j < init.len() && #[trigger] key_of(init[j]) == key_of(e);
                assert(init[j] == es[j]);
            }
        }
        lemma_map_push(init, e);
        let prev = merged_map(m, entries_map(init), base);
        assert(ordinals_of(prev, key_of(e)) == ordinals_of(m, key_of(e)));
        assert(prev.insert(key_of(e), append_rebased(ordinals_of(prev, key_of(e)), e.ordinals@, base))
            =~= merged_map(m, entries_map(init).insert(key_of(e), e.ordinals@), base));
    }
}

/// Sum of the lengths of the ordinal lists of the first `n` entries.
pub open spec fn total_ordinals(es: Seq<IndexEntry>, n: int) -> int
    decreases n,
{
    if n <= 0 {
        0
    } else {
        total_ordinals(es, n - 1) + es[n - 1].ordinals@.len()
    }
}

proof fn lemma_map_at(es: Seq<IndexEntry>, i: int)
    requires
        keys_unique(es),
        0 <= i < es.len(),
    ensures
        entries_map(es).dom().contains(key_of(es[i])),
        entries_map(es)[key_of(es[i])] == es[i].ordinals@,
{
    let k = key_of(es[i]);
    assert(exists|j: int| 0 <= j < es.len() && #[trigger] key_of(es[j]) == k);
    let j = choose|j: int| 0 <= j < es.len() && #[trigger] key_of(es[j]) == k;
    if j != i {
        if j < i {
            assert(key_of(es[j]) != key_of(es[i]));
        } else {
            assert(key_of(es[i]) != key_of(es[j]));
        }
    }
}

proof fn lemma_map_update(es: Seq<IndexEntry>, i: int, e: IndexEntry)
    requires
        keys_unique(es),
        0 <= i < es.len(),
        key_of(e) == key_of(es[i]),
    ensures
        keys_unique(es.update(i, e)),
        entries_map(es.update(i, e)) == entries_map(es).insert(key_of(e), e.ordinals@),
{
    let es2 = es.update(i, e);
    assert(keys_unique(es2)) by {
        assert forall|a: int, b: int| 0 <= a < b < es2.len() implies key_of(es2[a]) != key_of(es2[b]) by {
            assert(key_of(es2[a]) == key_of(es[a]));
            assert(key_of(es2[b]) == key_of(es[b]));
        }
    }
    let m1 = entries_map(es2);
    let m2 = entries_map(es).insert(key_of(e), e.ordinals@);
    assert forall|k: (u32, Seq<u8>)| m1.dom().contains(k) <==> m2.dom().contains(k) by {
        if k == key_of(e) {
            assert(key_of(es2[i]) == k);
        }
        if m2.dom().contains(k) && k != key_of(e) {
            let j = choose|j: int| 0 <= j < es.len() && #[trigger] key_of(es[j]) == k;
            assert(key_of(es2[j]) == k);
        }
        if m1.dom().contains(k) {
            let j = choose|j: int| 0 <= j < es2.len() && #[trigger] key_of(es2[j]) == k;
            if j != i {
                assert(key_of(es[j]) == k);
            }
        }
    }
    assert forall|k: (u32, Seq<u8>)| m1.dom().contains(k) implies m1[k] == m2[k] by {
        let j = choose|j: int| 0 <= j < es2.len() && #[trigger] key_of(es2[j]) == k;
        lemma_map_at(es2, j);
        if j != i {
            lemma_map_at(es, j);
        }
    }
    assert(m1 =~= m2);
}

proof fn lemma_map_push(es: Seq<IndexEntry>, e: IndexEntry)
    requires
        keys_unique(es),
        !entries_map(es).dom().contains(key_of(e)),
    ensures
        keys_unique(es.push(e)),
        entries_map(es.push(e)) == entries_map(es).insert(key_of(e), e.ordinals@),
{
    let es2 = es.push(e);
    assert(keys_unique(es2)) by {
        assert forall|a: int, b: int| 0 <= a < b < es2.len() implies key_of(es2[a]) != key_of(es2[b]) by {
            if b == es.len() {
                assert(key_of(es2[a]) == key_of(es[a]));
                if key_of(es[a]) == key_of(e) {
                    assert(entries_map(es).dom().contains(key_of(e)));
                }
            }
        }
    }
    let m1 = entries_map(es2);
    let m2 = entries_map(es).insert(key_of(e), e.ordinals@);
    assert forall|k: (u32, Seq<u8>)| m1.dom().contains(k) <==> m2.dom().contains(k) by {
        if m2.dom().contains(k) && k != key_of(e) {
            let j = choose|j: int| 0 <= j < es.len() && #[trigger] key_of(es[j]) == k;
            assert(key_of(es2[j]) == k);
        }
        if k == key_of(e) {
            assert(key_of(es2[es.len() as int]) == k);
        }
        if m1.dom().contains(k) {
            let j = choose|j: int| 0 <= j < es2.len() && #[trigger] key_of(es2[j]) == k;
            if j < es.len() {
                assert(key_of(es[j]) == k);
            }
        }
    }
    assert forall|k: (u32, Seq<u8>)| m1.dom().contains(k) implies m1[k] == m2[k] by {
        let j = choose|j: int| 0 <= j < es2.len() && #[trigger] key_of(es2[j]) == k;
        lemma_map_at(es2, j);
        if j < es.len() {
            lemma_map_at(es, j);
        }
    }
    assert(m1 =~= m2);
}

/// Whether two byte strings are equal.
pub fn bytes_eq(a: &[u8], b: &[u8]) -> (r: bool)
    ensures
        r == (a@ == b@),
{
    if a.len() != b.len() {
        return false;
    }
    let mut i: usize = 0;
    while i < a.len()
        invariant
            a@.len() == b@.len(),
            i <= a@.len(),
            forall|j: int| 0 <= j < i ==> a@[j] == b@[j],
        decreases a.len() - i,
    {
        if a[i] != b[i] {
            return false;
        }
        i += 1;
    }
    assert(a@ =~= b@);
    true
}

impl SecondaryIndex {
    /// The map `(tag, value) → ordinals`.
    pub closed spec fn view(&self) -> Map<(u32, Seq<u8>), Seq<u32>> {
        entries_map(self.entries@)
    }

    /// The hot tags, in order.
    pub closed spec fn hot(&self) -> Seq<u32> {
        self.tags.tags()
    }

    /// The index is well formed: one entry per key.
    pub closed spec fn wf(&self) -> bool {
        keys_unique(self.entries@)
    }

    /// Number of ordinals stored across all keys.
    pub closed spec fn entry_total(&self) -> int {
        total_ordinals(self.entries@, self.entries@.len() as int)
    }

    /// Position of the entry for `(tag, value)`, if any.
    fn position(&self, tag: u32, value: &[u8]) -> (r: Option<usize>)
        requires
            self.wf(),
        ensures
            match r {
                Some(i) => i < self.entries@.len() && key_of(self.entries@[i as int]) == (tag, value@),
                None => !self.view().dom().contains((tag, value@)),
            },
    {
        let mut i: usize = 0;
        while i < self.entries.len()
            invariant
                i <= self.entries@.len(),
                forall|j: int| 0 <= j < i ==> key_of(#[trigger] self.entries@[j]) != (tag, value@),
            decreases self.entries.len() - i,
        {
            if self.entries[i].tag == tag && bytes_eq(self.entries[i].value.as_slice(), value) {
                return Some(i);
            }
            i += 1;
        }
        None
    }

    /// Empty index for a given set of hot tags.
    pub fn with_tags(tags: HotTags) -> (s: Self)
        ensures
            s.wf(),
            s.hot() == tags.tags(),
            s@ == Map::<(u32, Seq<u8>), Seq<u32>>::empty(),
    {
        let s = SecondaryIndex { tags, entries: Vec::new() };
        assert(s@ =~= Map::<(u32, Seq<u8>), Seq<u32>>::empty());
        s
    }

    /// Which tags this index materializes entries for.
    pub fn hot_tags(&self) -> (h: &HotTags)
        ensures
            h.tags() == self.hot(),
    {
        &self.tags
    }

    /// Whether `tag` is one of the hot tags.
    pub fn has_tag(&self, tag: u32) -> (b: bool)
        ensures
            b == self.hot().contains(tag),
    {
        self.tags.contains(tag)
    }

    /// Append `ord` to the list of `(tag, value)`, creating it if needed,
    /// unless `ord` is already its last element.
    fn push_ordinal(&mut self, tag: u32, value: &[u8], ord: u32)
        requires
            old(self).wf(),
        ensures
            final(self).wf(),
            final(self).hot() == old(self).hot(),
            final(self)@ == old(self)@.insert(
                (tag, value@),
                push_dedup(ordinals_of(old(self)@, (tag, value@)), ord),
            ),
    {
        match self.position(tag, value) {
            Some(i) => {
                proof {
                    lemma_map_at(self.entries@, i as int);
                }
                let n = self.entries[i].ordinals.len();
                if n > 0 && self.entries[i].ordinals[n - 1] == ord {
                    assert(self@.insert((tag, value@), self@[(tag, value@)]) =~= self@);
                    return;
                }
                let ghost before = self.entries@;
                self.entries[i].ordinals.push(ord);
                proof {
                    assert(self.entries@ == before.update(i as int, self.entries@[i as int]));
                    lemma_map_update(before, i as int, self.entries@[i as int]);
                }
            },
            None => {
                let mut ords: Vec<u32> = Vec::new();
                ords.push(ord);
                let e = IndexEntry { tag, value: copy_bytes(value), ordinals: ords };
                assert(ords@ =~= Seq::<u32>::empty().push(ord));
                proof {
                    lemma_map_push(self.entries@, e);
                }
                self.entries.push(e);
            },
        }
    }

    /// Record every hot-tag occurrence in `msg` against `ordinal`. A pair
    /// that occurs several times in the message is recorded once.
    pub fn record(&mut self, msg: &RawMessage<'_>, ordinal: u32)
        requires
            old(self).wf(),
        ensures
            final(self).wf(),
            final(self).hot() == old(self).hot(),
            final(self)@ == record_fields(
                old(self)@,
                old(self).hot(),
                fields_of(*msg),
                ordinal,
                fields_of(*msg).len() as int,
            ),
    {
        let ghost fields = fields_of(*msg);
        if self.tags.is_empty() {
            proof {
                lemma_record_cold(self@, self.hot(), fields, ordinal, fields.len() as int);
            }
            return;
        }
        let n = msg.tags.len();
        let mut i: usize = 0;
        while i < n
            invariant
                i <= n,
                n == fields.len(),
                fields == fields_of(*msg),
                self.wf(),
                self.hot() == old(self).hot(),
                self@ == record_fields(old(self)@, old(self).hot(), fields, ordinal, i as int),
            decreases n - i,
        {
            let (tag, value) = msg.tags.get(i);
            if self.tags.contains(tag) {
                self.push_ordinal(tag, value, ordinal);
            }
            i += 1;
        }
    }

    /// The ordinals recorded for `(tag, value)`; empty if the tag is not hot
    /// or the value was never seen.
    pub fn lookup(&self, tag: u32, value: &[u8]) -> (r: &[u32])
        requires
            self.wf(),
        ensures
            r@ == ordinals_of(self@, (tag, value@)),
    {
        match self.position(tag, value) {
            Some(i) => {
                proof {
                    lemma_map_at(self.entries@, i as int);
                }
                self.entries[i].ordinals.as_slice()
            },
            None => {
                let e: &[u32] = &[];
                assert(e@ =~= Seq::<u32>::empty());
                e
            },
        }
    }

    /// Number of `(tag, value)` keys materialized.
    pub fn key_count(&self) -> (n: usize)
        requires
            self.wf(),
        ensures
            n == self@.dom().len(),
    {
        proof {
            lemma_key_count(self.entries@);
        }
        self.entries.len()
    }

    /// Number of ordinals stored across all keys.
    pub fn entry_count(&self) -> (n: usize)
        requires
            self.entry_total() <= usize::MAX,
        ensures
            n == self.entry_total(),
    {
        let mut total: usize = 0;
        let mut i: usize = 0;
        while i < self.entries.len()
            invariant
                i <= self.entries@.len(),
                total == total_ordinals(self.entries@, i as int),
                total_ordinals(self.entries@, self.entries@.len() as int) <= usize::MAX,
            decreases self.entries.len() - i,
        {
            proof {
                lemma_total_mono(self.entries@, i + 1, self.entries@.len() as int);
            }
            total = total + self.entries[i].ordinals.len();
            i += 1;
        }
        total
    }

    /// Clear the map but keep the hot tags.
    pub fn clear(&mut self)
        ensures
            final(self).wf(),
            final(self).hot() == old(self).hot(),
            final(self)@ == Map::<(u32, Seq<u8>), Seq<u32>>::empty(),
    {
        self.entries.clear();
        assert(self@ =~= Map::<(u32, Seq<u8>), Seq<u32>>::empty());
    }

    /// Merge `other` into `self`, adding `base` (saturating) to every
    /// ordinal of `other`; an ordinal equal to the last one of its list is
    /// skipped.
    pub fn merge_rebased(&mut self, other: SecondaryIndex, base: u32)
        requires
            old(self).wf(),
            other.wf(),
        ensures
            final(self).wf(),
            final(self).hot() == old(self).hot(),
            final(self)@ == merged_map(old(self)@, other@, base),
    {
        proof {
            lemma_merge_entries(old(self)@, other.entries@, base, other.entries@.len() as int);
            assert(other.entries@.take(other.entries@.len() as int) =~= other.entries@);
        }
        let entries = other.entries;
        let mut k: usize = 0;
        while k < entries.len()
            invariant
                k <= entries@.len(),
                entries@ == other.entries@,
                self.wf(),
                self.hot() == old(self).hot(),
                self@ == merge_entries(old(self)@, entries@, base, k as int),
            decreases entries.len() - k,
        {
            let e = &entries[k];
            let ghost start = self@;
            let ghost key = key_of(*e);
            let mut j: usize = 0;
            while j < e.ordinals.len()
                invariant
                    j <= e.ordinals@.len(),
                    key == key_of(*e),
                    self.wf(),
                    self.hot() == old(self).hot(),
                    self@ == (if j == 0 {
                        start
                    } else {
                        start.insert(
                            key,
                            append_rebased(ordinals_of(start, key), e.ordinals@.subrange(0, j as int), base),
                        )
                    }),
                decreases e.ordinals.len() - j,
            {
                let ord = e.ordinals[j];
                let rebased = ord.saturating_add(base);
                let ghost prev = self@;
                proof {
                    assert(e.ordinals@.subrange(0, 0) =~= Seq::<u32>::empty());
                    assert(ordinals_of(prev, key) == append_rebased(
                        ordinals_of(start, key),
                        e.ordinals@.subrange(0, j as int),
                        base,
                    ));
                }
                self.push_ordinal(e.tag, e.value.as_slice(), rebased);
                proof {
                    lemma_append_rebased_snoc(
                        ordinals_of(start, key),
                        e.ordinals@.subrange(0, j as int),
                        ord,
                        base,
                    );
                    assert(e.ordinals@.subrange(0, j + 1) =~= e.ordinals@.subrange(0, j as int).push(ord));
                    assert(self@ =~= start.insert(
                        key,
                        append_rebased(ordinals_of(start, key), e.ordinals@.subrange(0, j + 1), base),
                    ));
                }
                j += 1;
            }
            proof {
                assert(e.ordinals@.subrange(0, j as int) =~= e.ordinals@);
            }
            if j == 0 {
                let empty: Vec<u32> = Vec::new();
                let ghost before = self@;
                assert(e.ordinals@ =~= Seq::<u32>::empty());
                match self.position(e.tag, e.value.as_slice()) {
                    Some(i) => {
                        proof {
                            lemma_map_at(self.entries@, i as int);
                        }
                        assert(before.insert(key, ordinals_of(before, key)) =~= before);
                    },
                    None => {
                        let ne = IndexEntry { tag: e.tag, value: copy_bytes(e.value.as_slice()), ordinals: empty };
                        proof {
                            lemma_map_push(self.entries@, ne);
                        }
                        self.entries.push(ne);
                        assert(ordinals_of(before, key) =~= Seq::<u32>::empty());
                    },
                }
            }
            k += 1;
        }
    }
}

/// Recording against a set with no hot tags changes nothing.
proof fn lemma_record_cold(
    m: Map<(u32, Seq<u8>), Seq<u32>>,
    hot: Seq<u32>,
    fields: Seq<(u32, Seq<u8>)>,
    ord: u32,
    n: int,
)
    requires
        hot.len() == 0,
    ensures
        record_fields(m, hot, fields, ord, n) == m,
    decreases n,
{
    if n > 0 {
        lemma_record_cold(m, hot, fields, ord, n - 1);
        assert(!hot.contains(fields[n - 1].0));
    }
}

proof fn lemma_append_rebased_snoc(cur: Seq<u32>, xs: Seq<u32>, x: u32, base: u32)
    ensures
        append_rebased(cur, xs.push(x), base) == push_dedup(append_rebased(cur, xs, base), sat_add(x, base)),
    decreases xs.len(),
{
    reveal_with_fuel(append_rebased, 2);
    assert(xs.push(x)[0] == (if xs.len() == 0 { x } else { xs[0] }));
    if xs.len() == 0 {
        assert(xs.push(x).drop_first() =~= Seq::<u32>::empty());
    } else {
        assert(xs.push(x).drop_first() =~= xs.drop_first().push(x));
        lemma_append_rebased_snoc(push_dedup(cur, sat_add(xs[0], base)), xs.drop_first(), x, base);
    }
}

proof fn lemma_total_mono(es: Seq<IndexEntry>, a: int, b: int)
    requires
        0 <= a <= b <= es.len(),
    ensures
        total_ordinals(es, a) <= total_ordinals(es, b),
    decreases b - a,
{
    if a < b {
        lemma_total_mono(es, a, b - 1);
    }
}

proof fn lemma_key_count(es: Seq<IndexEntry>)
    requires
        keys_unique(es),
    ensures
        entries_map(es).dom().len() == es.len(),
        entries_map(es).dom().finite(),
    decreases es.len(),
{
    if es.len() == 0 {
        assert(entries_map(es).dom() =~= Set::<(u32, Seq<u8>)>::empty());
    } else {
        let init = es.drop_last();
        assert(keys_unique(init));
        lemma_key_count(init);
        let e = es.last();
        assert(es == init.push(e));
        assert(!entries_map(init).dom().contains(key_of(e))) by {
            if entries_map(init).dom().contains(key_of(e)) {
                let j = choose|j: int| 0 <= j < init.len() && #[trigger] key_of(init[j]) == key_of(e);
                assert(key_of(es[j]) != key_of(es[es.len() - 1]));
            }
        }
        lemma_map_push(init, e);
    }
}

} // verus!
