//! Repeating-group hints.
//!
//! FIX repeating groups are opened by a `NumInGroup` counter tag (e.g.
//! `268 NoMDEntries`) followed by blocks of member tags. The exact
//! membership depends on the enclosing message; this module offers a
//! pragmatic hint: for the counters that dominate real-world logs, the union
//! of the member tags that may appear inside the group across the common FIX
//! dictionaries. The resolver uses it to mark the run of members that follows
//! a counter, and stops at the first tag outside the set.
use vstd::prelude::*;

verus! {

/// The member tags of the `NoMDEntries` (268) group: the MDEntry block plus
/// the instrument fields some venues embed per entry.
pub open spec fn md_entry_members() -> Seq<u32> {
    seq![55u32, 48u32, 22u32, 207u32, 461u32, 269u32, 270u32, 271u32, 272u32, 273u32, 274u32, 275u32, 276u32, 277u32, 278u32, 279u32, 280u32, 282u32, 283u32, 284u32, 285u32, 286u32, 287u32, 288u32, 289u32, 290u32, 291u32, 292u32, 293u32, 294u32, 336u32, 432u32, 625u32, 828u32, 1023u32]
}

/// The member set registered for a counter tag, if any.
pub open spec fn spec_group_members(counter_tag: u32) -> Option<Seq<u32>> {
    if counter_tag == 268 {
        Some(md_entry_members())
    } else {
        None
    }
}

/// Return the set of tags that may appear as members of the repeating
/// group opened by `counter_tag`. `None` for tags that are not group
/// counters (or not yet covered).
pub fn group_members(counter_tag: u32) -> (r: Option<&'static [u32]>)
    ensures
        match spec_group_members(counter_tag) {
            Some(s) => r matches Some(m) && m@ == s,
            None => r is None,
        },
{
    if counter_tag == 268 {
        let m: &'static [u32] = &[
            55, // Symbol
            48, // SecurityID
            22, // SecurityIDSource
            207, // SecurityExchange
            461, // CFICode
            269, // MDEntryType
            270, // MDEntryPx
            271, // MDEntrySize
            272, // MDEntryDate
            273, // MDEntryTime
            274, // TickDirection
            275, // MDMkt
            276, // QuoteCondition
            277, // TradeCondition
            278, // MDEntryID
            279, // MDUpdateAction
            280, // MDEntryRefID
            282, // MDEntryOriginator
            283, // LocationID
            284, // DeskID
            285, // DeleteReason
            286, // OpenCloseSettlFlag
            287, // SellerDays
            288, // MDEntryBuyer
            289, // MDEntrySeller
            290, // MDEntryPositionNo
            291, // FinancialStatus
            292, // CorporateAction
            293, // DefBidSize
            294, // DefOfferSize
            336, // TradingSessionID
            432, // ExpireDate
            625, // TradingSessionSubID
            828, // TrdType
            1023, // MDPriceLevel
        ];
        assert(m@ =~= md_entry_members());
        Some(m)
    } else {
        None
    }
}

/// Whether `tag` occurs in `members`.
pub fn contains_tag(members: &[u32], tag: u32) -> (b: bool)
    ensures
        b == members@.contains(tag),
{
    let mut i: usize = 0;
    while i < members.len()
        invariant
            i <= members@.len(),
            forall|j: int| 0 <= j < i ==> members@[j] != tag,
        decreases members.len() - i,
    {
        if members[i] == tag {
            assert(members@[i as int] == tag);
            return true;
        }
        i += 1;
    }
    false
}

} // verus!
