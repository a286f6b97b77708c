//! The set of tags the secondary index materializes entries for, held in a
//! `smallvec::SmallVec` that keeps up to eight tags inline.
use vstd::prelude::*;

use smallvec::SmallVec;

use crate::parser::{TAG_MSG_SEQ_NUM, TAG_MSG_TYPE, TAG_SENDER_COMP_ID, TAG_TARGET_COMP_ID};

verus! {

/// Tag `11`, ClOrdID: client order identifier.
pub const TAG_CL_ORD_ID: u32 = 11;

/// Tag `37`, OrderID: exchange-assigned order identifier.
pub const TAG_ORDER_ID: u32 = 37;

/// Tag `41`, OrigClOrdID: the ClOrdID a cancel/replace request targets.
pub const TAG_ORIG_CL_ORD_ID: u32 = 41;

/// The set of tags the secondary index materializes entries for, in the
/// order they were added, without duplicates.
#[verifier::external_body]
#[derive(Debug)]
pub struct HotTags {
    inner: SmallVec<[u32; 8]>,
}

/// The tags a set holds, in order.
pub uninterp spec fn hot_tag_items(h: HotTags) -> Seq<u32>;

/// `SmallVec::new`: an empty set.
///
/// The source builds a vector of length zero; the contract claims that it
/// holds no tag.
#[verifier::external_body]
fn hot_new() -> (h: HotTags)
    ensures
        hot_tag_items(h) == Seq::<u32>::empty(),
{
    HotTags { inner: SmallVec::new() }
}

/// `SmallVec::push`: append one tag.
///
/// The source writes the value at index `len` and increments the length;
/// the contract claims that the set then holds the old tags followed by the
/// new one.
#[verifier::external_body]
fn hot_push(h: &mut HotTags, tag: u32)
    ensures
        hot_tag_items(*final(h)) == hot_tag_items(*old(h)).push(tag),
{
    h.inner.push(tag)
}

/// `SmallVec::len`: the number of tags held.
#[verifier::external_body]
fn hot_len(h: &HotTags) -> (n: usize)
    ensures
        n == hot_tag_items(*h).len(),
{
    h.inner.len()
}

/// `SmallVec` indexing: the tag at position `i`.
///
/// Indexing dereferences to a slice of the elements; the contract claims
/// that the result is the `i`-th tag held.
#[verifier::external_body]
fn hot_get(h: &HotTags, i: usize) -> (t: u32)
    requires
        i < hot_tag_items(*h).len(),
    ensures
        t == hot_tag_items(*h)[i as int],
{
    h.inner[i]
}

/// `SmallVec::clone`: a copy of the set.
///
/// Cloning copies every element into a new vector; the contract claims
/// that the copy holds the same tags.
#[verifier::external_body]
fn hot_clone(h: &HotTags) -> (c: HotTags)
    ensures
        hot_tag_items(c) == hot_tag_items(*h),
{
    HotTags { inner: h.inner.clone() }
}

/// The standard hot tags, in order: MsgType, SenderCompID, TargetCompID,
/// ClOrdID, MsgSeqNum, OrderID, OrigClOrdID.
pub open spec fn default_hot_tags() -> Seq<u32> {
    seq![
        TAG_MSG_TYPE,
        TAG_SENDER_COMP_ID,
        TAG_TARGET_COMP_ID,
        TAG_CL_ORD_ID,
        TAG_MSG_SEQ_NUM,
        TAG_ORDER_ID,
        TAG_ORIG_CL_ORD_ID,
    ]
}

impl HotTags {
    /// The tags held, in order.
    pub closed spec fn tags(&self) -> Seq<u32> {
        hot_tag_items(*self)
    }

    /// Standard set: `35, 49, 56, 11, 34, 37, 41`.
    pub fn default_set() -> (h: Self)
        ensures
            h.tags() == default_hot_tags(),
    {
        let mut h = hot_new();
        hot_push(&mut h, TAG_MSG_TYPE);
        hot_push(&mut h, TAG_SENDER_COMP_ID);
        hot_push(&mut h, TAG_TARGET_COMP_ID);
        hot_push(&mut h, TAG_CL_ORD_ID);
        hot_push(&mut h, TAG_MSG_SEQ_NUM);
        hot_push(&mut h, TAG_ORDER_ID);
        hot_push(&mut h, TAG_ORIG_CL_ORD_ID);
        assert(hot_tag_items(h) =~= default_hot_tags());
        h
    }

    /// An empty set: no secondary indexing will happen.
    pub fn empty() -> (h: Self)
        ensures
            h.tags() == Seq::<u32>::empty(),
    {
        hot_new()
    }

    /// Add `tag` to the set unless it is already there.
    pub fn with(self, tag: u32) -> (h: Self)
        ensures
            h.tags() == (if self.tags().contains(tag) {
                self.tags()
            } else {
                self.tags().push(tag)
            }),
    {
        let mut s = self;
        if !s.contains(tag) {
            hot_push(&mut s, tag);
        }
        s
    }

    /// Whether the set contains `tag`.
    pub fn contains(&self, tag: u32) -> (b: bool)
        ensures
            b == self.tags().contains(tag),
    {
        let n = hot_len(self);
        let mut i: usize = 0;
        while i < n
            invariant
                i <= n,
                n == self.tags().len(),
                forall|j: int| 0 <= j < i ==> self.tags()[j] != tag,
            decreases n - i,
        {
            if hot_get(self, i) == tag {
                assert(self.tags()[i as int] == tag);
                return true;
            }
            i += 1;
        }
        false
    }

    /// Number of tags in the set; zero disables the secondary index.
    pub fn len(&self) -> (n: usize)
        ensures
            n == self.tags().len(),
    {
        hot_len(self)
    }

    /// Whether the set is empty (no secondary indexing).
    pub fn is_empty(&self) -> (b: bool)
        ensures
            b == (self.tags().len() == 0),
    {
        hot_len(self) == 0
    }

    /// The tag numbers in the set, in order.
    pub fn iter(&self) -> (v: Vec<u32>)
        ensures
            v@ == self.tags(),
    {
        let n = hot_len(self);
        let mut v: Vec<u32> = Vec::new();
        let mut i: usize = 0;
        while i < n
            invariant
                i <= n,
                n == self.tags().len(),
                v@ == self.tags().take(i as int),
            decreases n - i,
        {
            v.push(hot_get(self, i));
            assert(self.tags().take(i + 1) =~= self.tags().take(i as int).push(self.tags()[i as int]));
            i += 1;
        }
        assert(self.tags().take(n as int) =~= self.tags());
        v
    }

    /// A copy of the set.
    pub fn duplicate(&self) -> (h: Self)
        ensures
            h.tags() == self.tags(),
    {
        hot_clone(self)
    }
}

impl Default for HotTags {
    /// The standard set (see [`HotTags::default_set`]).
    fn default() -> (h: Self)
        ensures
            h.tags() == default_hot_tags(),
    {
        HotTags::default_set()
    }
}

} // verus!
