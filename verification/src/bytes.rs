//! Byte-level search primitives shared by the sniffer, the tokenizer and the
//! streaming aggregator, together with their mathematical descriptions.
use vstd::prelude::*;

verus! {

/// `b` is an ASCII decimal digit.
pub open spec fn is_digit(b: u8) -> bool {
    48 <= b <= 57
}

/// Index of the first occurrence of `b` in `s` at or after `i`, or `s.len()`
/// when there is none.
pub open spec fn next_byte(s: Seq<u8>, b: u8, i: int) -> int
    decreases s.len() - i,
{
    if i < 0 || i >= s.len() {
        s.len() as int
    } else if s[i] == b {
        i
    } else {
        next_byte(s, b, i + 1)
    }
}

/// `needle` occurs in `hay` starting at `p`.
pub open spec fn occurs_at(hay: Seq<u8>, needle: Seq<u8>, p: int) -> bool {
    0 <= p && p + needle.len() <= hay.len() && hay.subrange(p, p + needle.len()) == needle
}

/// `p` is the first position at which `needle` occurs in `hay`.
pub open spec fn first_occurrence(hay: Seq<u8>, needle: Seq<u8>, p: int) -> bool {
    occurs_at(hay, needle, p) && forall|q: int| 0 <= q < p ==> !occurs_at(hay, needle, q)
}

/// Position of the first occurrence of `needle` in `hay`, if any.
pub open spec fn find_spec(hay: Seq<u8>, needle: Seq<u8>) -> Option<int> {
    if exists|p: int| first_occurrence(hay, needle, p) {
        Some(choose|p: int| first_occurrence(hay, needle, p))
    } else {
        None
    }
}

/// The first position of a byte is unique.
pub proof fn lemma_first_occurrence_unique(hay: Seq<u8>, needle: Seq<u8>, p: int, q: int)
    requires
        first_occurrence(hay, needle, p),
        first_occurrence(hay, needle, q),
    ensures
        p == q,
{
}

/// If no byte in `[i, j)` equals `b` and `b` sits at `j` (or `j` is the end),
/// then the next occurrence from `i` is `j`.
pub proof fn lemma_next_byte_skip(s: Seq<u8>, b: u8, i: int, j: int)
    requires
        0 <= i <= j <= s.len(),
        forall|k: int| i <= k < j ==> s[k] != b,
        j == s.len() || s[j] == b,
    ensures
        next_byte(s, b, i) == j,
    decreases j - i,
{
    if i < j {
        lemma_next_byte_skip(s, b, i + 1, j);
    }
}

/// `next_byte` stays within `[i, len]` and lands on the byte it looks for.
pub proof fn lemma_next_byte_bounds(s: Seq<u8>, b: u8, i: int)
    requires
        0 <= i <= s.len(),
    ensures
        i <= next_byte(s, b, i) <= s.len(),
        next_byte(s, b, i) < s.len() ==> s[next_byte(s, b, i)] == b,
    decreases s.len() - i,
{
    if i < s.len() && s[i] != b {
        lemma_next_byte_bounds(s, b, i + 1);
    }
}

/// `memchr::memchr`: index of the first byte of `haystack` equal to `needle`.
///
/// Its documentation states that it returns the index of the first
/// occurrence of `needle`, or `None` when the byte does not occur; this is
/// what the contract claims.
#[verifier::external_body]
pub(crate) fn memchr_byte(needle: u8, haystack: &[u8]) -> (r: Option<usize>)
    ensures
        match r {
            Some(i) => i < haystack@.len() && haystack@[i as int] == needle && forall|k: int|
                0 <= k < i ==> haystack@[k] != needle,
            None => forall|k: int| 0 <= k < haystack@.len() ==> haystack@[k] != needle,
        },
{
    memchr::memchr(needle, haystack)
}

/// `memchr::memmem::find`: index of the first occurrence of `needle` in
/// `haystack`.
///
/// Its documentation states that it returns the index of the first
/// occurrence of the needle, or `None` when there is none; the contract
/// claims exactly that.
#[verifier::external_body]
pub(crate) fn memmem_find(haystack: &[u8], needle: &[u8]) -> (r: Option<usize>)
    ensures
        match r {
            Some(p) => first_occurrence(haystack@, needle@, p as int),
            None => forall|q: int| 0 <= q ==> !occurs_at(haystack@, needle@, q),
        },
{
    memchr::memmem::find(haystack, needle)
}

/// Absolute index of the first `needle` byte in `hay[from..]`, or `None`.
pub fn find_byte_from(hay: &[u8], needle: u8, from: usize) -> (r: Option<usize>)
    requires
        from <= hay@.len(),
    ensures
        match r {
            Some(i) => {
                &&& from <= i < hay@.len()
                &&& hay@[i as int] == needle
                &&& next_byte(hay@, needle, from as int) == i
                &&& forall|k: int| from <= k < i ==> hay@[k] != needle
            },
            None => next_byte(hay@, needle, from as int) == hay@.len() && forall|k: int|
                from <= k < hay@.len() ==> hay@[k] != needle,
        },
{
    let tail = &hay[from..hay.len()];
    match memchr_byte(needle, tail) {
        Some(rel) => {
            proof {
                assert forall|k: int| from <= k < from + rel implies hay@[k] != needle by {
                    assert(tail@[k - from] == hay@[k]);
                }
                assert(tail@[rel as int] == hay@[from + rel]);
                lemma_next_byte_skip(hay@, needle, from as int, from + rel);
            }
            Some(from + rel)
        },
        None => {
            proof {
                assert forall|k: int| from <= k < hay@.len() implies hay@[k] != needle by {
                    assert(tail@[k - from] == hay@[k]);
                }
                lemma_next_byte_skip(hay@, needle, from as int, hay@.len() as int);
            }
            None
        },
    }
}

/// An owned copy of a byte string.
pub fn copy_bytes(s: &[u8]) -> (v: Vec<u8>)
    ensures
        v@ == s@,
{
    let mut v: Vec<u8> = Vec::with_capacity(s.len());
    let mut i: usize = 0;
    while i < s.len()
        invariant
            i <= s@.len(),
            v@ == s@.take(i as int),
        decreases s.len() - i,
    {
        v.push(s[i]);
        assert(s@.take(i + 1) =~= s@.take(i as int).push(s@[i as int]));
        i += 1;
    }
    assert(s@.take(s@.len() as int) =~= s@);
    v
}

/// `String::from_utf8`: the bytes as an owned string when they are valid
/// UTF-8, the empty string otherwise.
///
/// The standard library documents that the conversion succeeds exactly on
/// valid UTF-8 and keeps the bytes; the contract states that over vstd's
/// description of UTF-8.
#[verifier::external_body]
pub(crate) fn string_from_utf8(bytes: Vec<u8>) -> (s: String)
    ensures
        vstd::utf8::valid_utf8(bytes@) ==> s@ == vstd::utf8::decode_utf8(bytes@),
        !vstd::utf8::valid_utf8(bytes@) ==> s@.len() == 0,
{
    String::from_utf8(bytes).unwrap_or_default()
}

} // verus!
