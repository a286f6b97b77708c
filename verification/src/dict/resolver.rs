//! Upgrade a [`RawMessage`] into a [`ResolvedMessage`] by decorating each
//! tag with its dictionary name and, when applicable, its enum-value label.
use vstd::prelude::*;

use crate::dict::groups::{contains_tag, group_members, spec_group_members};
use crate::dict::{
    DictChain, FixVersion, chain_enum, chain_enum_value_label, chain_field, chain_field_by_tag,
    chain_for, chain_msg, chain_msg_type_label, spec_chain_for,
};
use crate::parser::{RawMessage, TAG_BEGIN_STRING, TAG_MSG_TYPE, fields_of, find_tag, first_value};

verus! {

/// Tag `1128`, `ApplVerID`: carried on FIXT.1.1 Logon (and some application
/// messages) to name the application-layer dictionary.
pub const TAG_APPL_VER_ID: u32 = 1128;

/// A single field with dictionary metadata attached. `value` borrows from
/// the source buffer.
#[derive(Debug, Clone, Copy)]
pub struct ResolvedField<'a> {
    /// Tag number as seen on the wire.
    pub tag: u32,
    /// Field name from the dictionary chain, or `None` for custom/unknown tags.
    pub name: Option<&'static str>,
    /// Raw value bytes (borrowed from the source buffer).
    pub value: &'a [u8],
    /// Human-readable label for enum-valued fields. `None` for non-enum
    /// fields or when the wire value is not listed in the dictionary.
    pub value_label: Option<&'static str>,
    /// Nesting depth inside a repeating group: `0` at top level, `1` for the
    /// members that follow a group counter up to the first non-member tag.
    pub depth: u8,
}

/// A raw message after dictionary resolution.
#[derive(Debug, Clone)]
pub struct ResolvedMessage<'a> {
    /// Byte offset within the source buffer, carried over from [`RawMessage`].
    pub offset: u64,
    /// Resolved value of tag `35` (MsgType), e.g. `"Logon"`.
    pub msg_type_name: Option<&'static str>,
    /// Dictionary chain used to resolve this message, in the order tried.
    pub chain: DictChain,
    /// Fields in the order they appeared in the source message.
    pub fields: Vec<ResolvedField<'a>>,
}

/// Whether `tag` opens a registered repeating group.
pub open spec fn is_counter(tag: u32) -> bool {
    spec_group_members(tag) is Some
}

/// The counter of the repeating group still open after the first `n`
/// fields: a counter opens its group, a member keeps it open, and any other
/// tag closes it.
pub open spec fn active_group(fields: Seq<(u32, Seq<u8>)>, n: int) -> Option<u32>
    decreases n,
{
    if n <= 0 {
        None
    } else {
        let t = fields[n - 1].0;
        if is_counter(t) {
            Some(t)
        } else {
            match active_group(fields, n - 1) {
                Some(c) => if spec_group_members(c).unwrap().contains(t) {
                    Some(c)
                } else {
                    None
                },
                None => None,
            }
        }
    }
}

/// Group depth of the field at position `i`: `1` for a member of the group
/// open before it, `0` otherwise (a counter itself is at depth `0`).
pub open spec fn depth_at(fields: Seq<(u32, Seq<u8>)>, i: int) -> u8 {
    let t = fields[i].0;
    if is_counter(t) {
        0
    } else {
        match active_group(fields, i) {
            Some(c) => if spec_group_members(c).unwrap().contains(t) {
                1
            } else {
                0
            },
            None => 0,
        }
    }
}

/// The message-type name after the first `n` fields: the first label found
/// for a `35` field.
pub open spec fn msg_type_name_upto(chain: Seq<FixVersion>, fields: Seq<(u32, Seq<u8>)>, n: int) -> Option<
    &'static str,
>
    decreases n,
{
    if n <= 0 {
        None
    } else {
        match msg_type_name_upto(chain, fields, n - 1) {
            Some(l) => Some(l),
            None => if fields[n - 1].0 == TAG_MSG_TYPE {
                chain_msg(chain, fields[n - 1].1)
            } else {
                None
            },
        }
    }
}

/// The name of a field along a chain.
pub open spec fn field_name(chain: Seq<FixVersion>, tag: u32) -> Option<&'static str> {
    match chain_field(chain, tag) {
        Some(d) => Some(d.name),
        None => None,
    }
}

/// The value label of a field along a chain: its message-type label for
/// tag `35`, its enum label otherwise.
pub open spec fn value_label(chain: Seq<FixVersion>, tag: u32, value: Seq<u8>) -> Option<&'static str> {
    if tag == TAG_MSG_TYPE {
        chain_msg(chain, value)
    } else {
        chain_enum(chain, tag, value)
    }
}

/// The field at position `i` of a message, resolved along `chain`.
pub open spec fn resolved_field_ok(
    f: ResolvedField,
    chain: Seq<FixVersion>,
    fields: Seq<(u32, Seq<u8>)>,
    i: int,
) -> bool {
    &&& f.tag == fields[i].0
    &&& f.value@ == fields[i].1
    &&& f.name == field_name(chain, fields[i].0)
    &&& f.value_label == value_label(chain, fields[i].0, fields[i].1)
    &&& f.depth == depth_at(fields, i)
}

/// `r` is `msg` resolved along `chain`.
pub open spec fn resolved_by(r: ResolvedMessage, msg: RawMessage, chain: Seq<FixVersion>) -> bool {
    let fields = fields_of(msg);
    &&& r.offset == msg.offset
    &&& r.chain@ == chain
    &&& r.msg_type_name == msg_type_name_upto(chain, fields, fields.len() as int)
    &&& r.fields@.len() == fields.len()
    &&& forall|i: int| 0 <= i < fields.len() ==> #[trigger] resolved_field_ok(r.fields@[i], chain, fields, i)
}

/// The chain [`resolve`] picks for a message: from its `BeginString` (empty
/// when absent) and its `ApplVerID`.
pub open spec fn chain_of(msg: RawMessage) -> Seq<FixVersion> {
    let begin = match first_value(fields_of(msg), TAG_BEGIN_STRING) {
        Some(b) => b,
        None => Seq::empty(),
    };
    spec_chain_for(begin, first_value(fields_of(msg), TAG_APPL_VER_ID))
}

/// Resolve a [`RawMessage`] against an automatically selected dictionary
/// chain, picked from the message's `BeginString` and `ApplVerID`.
pub fn resolve<'a>(msg: &RawMessage<'a>) -> (r: ResolvedMessage<'a>)
    ensures
        resolved_by(r, *msg, chain_of(*msg)),
{
    let empty: &[u8] = &[];
    let begin_string = match find_tag(msg, TAG_BEGIN_STRING) {
        Some(b) => b,
        None => empty,
    };
    assert(empty@ =~= Seq::<u8>::empty());
    let appl_ver_id = find_tag(msg, TAG_APPL_VER_ID);
    let chain = chain_for(begin_string, appl_ver_id);
    proof {
        let a = match appl_ver_id {
            Some(a) => Some(a@),
            None => None,
        };
        assert(a == first_value(fields_of(*msg), TAG_APPL_VER_ID));
    }
    resolve_with_chain(msg, chain)
}

/// Resolve a [`RawMessage`] against an explicit dictionary chain.
///
/// When a field's tag is a known group counter (see [`group_members`]), the
/// contiguous run of member tags that follows it gets `depth = 1`; the run
/// ends at the first tag that is not in the counter's member set.
pub fn resolve_with_chain<'a>(msg: &RawMessage<'a>, chain: DictChain) -> (r: ResolvedMessage<'a>)
    ensures
        resolved_by(r, *msg, chain@),
{
    let n = msg.tags.len();
    let ghost fields = fields_of(*msg);
    let mut out: Vec<ResolvedField<'a>> = Vec::with_capacity(n);
    let mut msg_type_name: Option<&'static str> = None;
    let mut active: Option<&'static [u32]> = None;
    let mut i: usize = 0;
    while i < n
        invariant
            i <= n,
            n == fields.len(),
            fields == fields_of(*msg),
            out@.len() == i,
            forall|j: int| 0 <= j < i ==> #[trigger] resolved_field_ok(out@[j], chain@, fields, j),
            msg_type_name == msg_type_name_upto(chain@, fields, i as int),
            match active_group(fields, i as int) {
                Some(c) => spec_group_members(c) is Some && (active matches Some(m) && m@
                    == spec_group_members(c).unwrap()),
                None => active is None,
            },
        decreases n - i,
    {
        let (tag, value) = msg.tags.get(i);
        let name = match chain_field_by_tag(chain, tag) {
            Some(d) => Some(d.name),
            None => None,
        };
        let label = if tag == TAG_MSG_TYPE {
            let l = chain_msg_type_label(chain, value);
            if msg_type_name.is_none() {
                msg_type_name = l;
            }
            l
        } else {
            chain_enum_value_label(chain, tag, value)
        };
        let depth: u8;
        match group_members(tag) {
            Some(m) => {
                depth = 0;
                active = Some(m);
            },
            None => {
                match active {
                    Some(m) => {
                        if contains_tag(m, tag) {
                            depth = 1;
                        } else {
                            depth = 0;
                            active = None;
                        }
                    },
                    None => {
                        depth = 0;
                    },
                }
            },
        }
        let f = ResolvedField { tag, name, value, value_label: label, depth };
        assert(resolved_field_ok(f, chain@, fields, i as int));
        let ghost before = out@;
        out.push(f);
        proof {
            assert forall|j: int| 0 <= j < i + 1 implies #[trigger] resolved_field_ok(
                out@[j],
                chain@,
                fields,
                j,
            ) by {
                if j < i {
                    assert(out@[j] == before[j]);
                }
            }
        }
        i += 1;
    }
    ResolvedMessage { offset: msg.offset, msg_type_name, chain, fields: out }
}

} // verus!
