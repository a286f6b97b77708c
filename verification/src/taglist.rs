//! The tag/value list of a parsed message: a `smallvec::SmallVec` that keeps
//! up to 32 pairs on the stack, seen by contracts as the sequence of the
//! pairs it holds.
use vstd::prelude::*;

use smallvec::SmallVec;

verus! {

/// Tag/value pairs in the order they appear in a message, backed by a
/// `SmallVec` that is stack-allocated for up to 32 pairs.
#[verifier::external_body]
#[derive(Debug)]
pub struct TagList<'a> {
    inner: SmallVec<[(u32, &'a [u8]); 32]>,
}

/// The pairs a tag list holds, in order, each value taken by its bytes.
pub uninterp spec fn tag_items(v: TagList) -> Seq<(u32, Seq<u8>)>;

/// `SmallVec::new`: an empty list.
///
/// The source builds a vector of length zero; the contract claims that the
/// new list holds no pair.
#[verifier::external_body]
pub(crate) fn tags_new<'a>() -> (v: TagList<'a>)
    ensures
        tag_items(v) == Seq::<(u32, Seq<u8>)>::empty(),
{
    TagList { inner: SmallVec::new() }
}

/// `SmallVec::push`: append one pair at the end.
///
/// The source writes the value at index `len` and increments the length
/// (spilling to the heap when the inline buffer is full); the contract
/// claims that the list afterwards holds the old pairs followed by the new one.
#[verifier::external_body]
pub(crate) fn tags_push<'a>(v: &mut TagList<'a>, tag: u32, value: &'a [u8])
    ensures
        tag_items(*final(v)) == tag_items(*old(v)).push((tag, value@)),
{
    v.inner.push((tag, value))
}

/// `SmallVec::len`: the number of pairs held.
#[verifier::external_body]
pub(crate) fn tags_len<'a>(v: &TagList<'a>) -> (n: usize)
    ensures
        n == tag_items(*v).len(),
{
    v.inner.len()
}

/// `SmallVec` indexing: the pair at position `i`.
///
/// Indexing dereferences the list to a slice of its elements; the contract
/// claims that the returned pair is the `i`-th one held.
#[verifier::external_body]
pub(crate) fn tags_get<'a>(v: &TagList<'a>, i: usize) -> (r: (u32, &'a [u8]))
    requires
        i < tag_items(*v).len(),
    ensures
        r.0 == tag_items(*v)[i as int].0,
        r.1@ == tag_items(*v)[i as int].1,
{
    v.inner[i]
}

impl<'a> TagList<'a> {
    /// Number of pairs.
    pub fn len(&self) -> (n: usize)
        ensures
            n == tag_items(*self).len(),
    {
        tags_len(self)
    }

    /// The pair at position `i`.
    pub fn get(&self, i: usize) -> (r: (u32, &'a [u8]))
        requires
            i < tag_items(*self).len(),
        ensures
            r.0 == tag_items(*self)[i as int].0,
            r.1@ == tag_items(*self)[i as int].1,
    {
        tags_get(self, i)
    }

    /// The pairs as a slice.
    pub fn as_slice(&self) -> (r: &[(u32, &'a [u8])])
        ensures
            r@.len() == tag_items(*self).len(),
            forall|i: int|
                0 <= i < r@.len() ==> r@[i].0 == tag_items(*self)[i].0 && r@[i].1@ == tag_items(
                    *self,
                )[i].1,
    {
        tags_as_slice(self)
    }
}

/// `SmallVec` as a slice (through `Deref`): the pairs held, in order.
#[verifier::external_body]
pub(crate) fn tags_as_slice<'b, 'a>(v: &'b TagList<'a>) -> (r: &'b [(u32, &'a [u8])])
    ensures
        r@.len() == tag_items(*v).len(),
        forall|i: int|
            0 <= i < r@.len() ==> r@[i].0 == tag_items(*v)[i].0 && r@[i].1@ == tag_items(*v)[i].1,
{
    v.inner.as_slice()
}

} // verus!
