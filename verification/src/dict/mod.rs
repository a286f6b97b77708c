//! FIX dictionary: resolve tag numbers into field names and wire values into
//! human-readable labels across several FIX versions.
//!
//! Each dictionary ([`FixVersion`]) offers the same three lookups:
//! [`field_by_tag`], [`enum_value_label`] and [`msg_type_label`]. A
//! version's tables are unions of the groups in [`tables`]: the session
//! layer, the FIXT.1.1 transport fields, and the application layer with the
//! additions of each FIX 5.0 service pack.
//!
//! # Coverage
//!
//! The bundled tables are a subset of the published FIX dictionaries, not
//! the complete ones (FIX 4.4 alone defines over 900 fields and 90 message
//! types). They hold:
//!
//! - session fields (31): the standard header and trailer and the fields of
//!   the administrative messages — tags 7, 8, 9, 10, 16, 34, 35, 36, 43, 45,
//!   49, 50, 52, 56, 57, 58, 97, 98, 108, 112, 115, 122, 123, 128, 141, 371,
//!   372, 373, 553, 554, 789;
//! - FIXT.1.1 transport fields (5): 1128, 1129, 1137, 1156, 1400;
//! - application fields (37): the order, execution and market-data fields
//!   the tool reads — tags 1, 6, 11, 14, 15, 17, 18, 21, 22, 31, 32, 37, 38,
//!   39, 40, 41, 44, 48, 54, 55, 59, 60, 99, 150, 151, 207, 262, 268, 269,
//!   270, 271, 279, 447, 448, 452, 453, 1023; FIX 5.0 SP1 adds 1180 and SP2
//!   adds 1301;
//! - message types: the seven administrative ones (0, 1, 2, 3, 4, 5, A) and
//!   eleven application ones (8, 9, D, F, G, H, V, W, X, Y, j);
//! - enum labels for a few of these fields (see [`tables`]).
//!
//! A tag or value outside these tables resolves to no name and no label;
//! [`field_count`] and [`message_count`] give the sizes of the bundled
//! tables.
//!
//! Real-world logs often need *chained* resolution: a FIXT.1.1 session
//! carries session messages defined in the FIXT dictionary while the
//! application messages follow FIX 5.0 / 5.0SP1 / 5.0SP2. A [`DictChain`]
//! lists dictionaries in order; chained lookups take the first match.
use vstd::prelude::*;

pub mod groups;
pub mod resolver;
pub mod tables;

use crate::dict::tables::{
    admin_bytes, app_msg_bytes, lemma_admin_bytes, lemma_app_msg_bytes, admin_msg_type, admin_msg_type_exec, app_enum, app_enum_exec, app_field, app_field_exec,
    app_msg_type, app_msg_type_exec, app_tags, lemma_app_tags, lemma_session_tags, lemma_sp1_tags,
    lemma_sp2_tags, lemma_transport_tags, session_enum, session_enum_exec, session_field,
    session_field_exec, session_tags, sp1_field, sp1_field_exec, sp1_tags, sp2_field, sp2_field_exec,
    sp2_tags, transport_enum, transport_enum_exec, transport_field, transport_field_exec,
    transport_tags,
};

verus! {

/// Description of a single FIX field, as declared in the dictionary.
#[derive(Debug, Clone, Copy)]
pub struct FieldDef {
    /// Tag number (e.g. `35` for `MsgType`).
    pub tag: u32,
    /// Field name (e.g. `"MsgType"`).
    pub name: &'static str,
    /// FIX data type declared in the dictionary (e.g. `"STRING"`, `"PRICE"`).
    pub field_type: &'static str,
}

/// FIX dictionary versions bundled with this crate.
#[derive(Debug, Clone, Copy, PartialEq, Eq, Structural)]
pub enum FixVersion {
    /// FIX 4.4.
    Fix44,
    /// FIXT.1.1: session-layer messages below the FIX 5.x application
    /// dictionaries.
    Fixt11,
    /// FIX 5.0.
    Fix50,
    /// FIX 5.0 Service Pack 1.
    Fix50Sp1,
    /// FIX 5.0 Service Pack 2.
    Fix50Sp2,
}

/// An ordered sequence of dictionaries to consult when resolving a tag; the
/// first match wins.
pub type DictChain = &'static [FixVersion];

/// Chain for messages with `BeginString = FIX.4.4`.
pub const CHAIN_FIX44: [FixVersion; 1] = [FixVersion::Fix44];

/// Chain for FIXT.1.1 sessions carrying FIX 5.0SP2 application messages;
/// also the default when `ApplVerID` is absent.
pub const CHAIN_FIXT11_FIX50SP2: [FixVersion; 2] = [FixVersion::Fixt11, FixVersion::Fix50Sp2];

/// Chain for FIXT.1.1 sessions where `ApplVerID = 6` (FIX 4.4 application).
pub const CHAIN_FIXT11_FIX44: [FixVersion; 2] = [FixVersion::Fixt11, FixVersion::Fix44];

/// Chain for FIXT.1.1 sessions where `ApplVerID = 7` (FIX 5.0 application).
pub const CHAIN_FIXT11_FIX50: [FixVersion; 2] = [FixVersion::Fixt11, FixVersion::Fix50];

/// Chain for FIXT.1.1 sessions where `ApplVerID = 8` (FIX 5.0SP1 application).
pub const CHAIN_FIXT11_FIX50SP1: [FixVersion; 2] = [FixVersion::Fixt11, FixVersion::Fix50Sp1];

/// The first of two lookups that finds something.
pub open spec fn either<T>(a: Option<T>, b: Option<T>) -> Option<T> {
    match a {
        Some(x) => Some(x),
        None => b,
    }
}

/// The field table of one dictionary.
pub open spec fn spec_field_by_tag(version: FixVersion, tag: u32) -> Option<FieldDef> {
    match version {
        FixVersion::Fix44 => either(session_field(tag), app_field(tag)),
        FixVersion::Fixt11 => either(session_field(tag), transport_field(tag)),
        FixVersion::Fix50 => app_field(tag),
        FixVersion::Fix50Sp1 => either(app_field(tag), sp1_field(tag)),
        FixVersion::Fix50Sp2 => either(app_field(tag), either(sp1_field(tag), sp2_field(tag))),
    }
}

/// The enum labels of one dictionary.
pub open spec fn spec_enum_value_label(version: FixVersion, tag: u32, value: Seq<u8>) -> Option<
    &'static str,
> {
    match version {
        FixVersion::Fix44 => either(session_enum(tag, value), app_enum(tag, value)),
        FixVersion::Fixt11 => either(session_enum(tag, value), transport_enum(tag, value)),
        _ => app_enum(tag, value),
    }
}

/// The message types of one dictionary.
pub open spec fn spec_msg_type_label(version: FixVersion, value: Seq<u8>) -> Option<&'static str> {
    match version {
        FixVersion::Fix44 => either(admin_msg_type(value), app_msg_type(value)),
        FixVersion::Fixt11 => admin_msg_type(value),
        _ => app_msg_type(value),
    }
}

/// Look up a field by its tag number in a specific dictionary.
pub fn field_by_tag(version: FixVersion, tag: u32) -> (r: Option<FieldDef>)
    ensures
        r == spec_field_by_tag(version, tag),
{
    match version {
        FixVersion::Fix44 => match session_field_exec(tag) {
            Some(d) => Some(d),
            None => app_field_exec(tag),
        },
        FixVersion::Fixt11 => match session_field_exec(tag) {
            Some(d) => Some(d),
            None => transport_field_exec(tag),
        },
        FixVersion::Fix50 => app_field_exec(tag),
        FixVersion::Fix50Sp1 => match app_field_exec(tag) {
            Some(d) => Some(d),
            None => sp1_field_exec(tag),
        },
        FixVersion::Fix50Sp2 => match app_field_exec(tag) {
            Some(d) => Some(d),
            None => match sp1_field_exec(tag) {
                Some(d) => Some(d),
                None => sp2_field_exec(tag),
            },
        },
    }
}

/// Look up the human-readable label for an enum value in a specific
/// dictionary. `None` for non-enum fields or unknown values.
pub fn enum_value_label(version: FixVersion, tag: u32, value: &[u8]) -> (r: Option<&'static str>)
    ensures
        r == spec_enum_value_label(version, tag, value@),
{
    match version {
        FixVersion::Fix44 => match session_enum_exec(tag, value) {
            Some(l) => Some(l),
            None => app_enum_exec(tag, value),
        },
        FixVersion::Fixt11 => match session_enum_exec(tag, value) {
            Some(l) => Some(l),
            None => transport_enum_exec(tag, value),
        },
        _ => app_enum_exec(tag, value),
    }
}

/// Look up the message-type label for a `35=` value in a specific dictionary.
pub fn msg_type_label(version: FixVersion, value: &[u8]) -> (r: Option<&'static str>)
    ensures
        r == spec_msg_type_label(version, value@),
{
    match version {
        FixVersion::Fix44 => match admin_msg_type_exec(value) {
            Some(l) => Some(l),
            None => app_msg_type_exec(value),
        },
        FixVersion::Fixt11 => admin_msg_type_exec(value),
        _ => app_msg_type_exec(value),
    }
}

/// The first field definition found along `chain`.
pub open spec fn chain_field(chain: Seq<FixVersion>, tag: u32) -> Option<FieldDef>
    decreases chain.len(),
{
    if chain.len() == 0 {
        None
    } else {
        either(spec_field_by_tag(chain[0], tag), chain_field(chain.drop_first(), tag))
    }
}

/// The first enum label found along `chain`.
pub open spec fn chain_enum(chain: Seq<FixVersion>, tag: u32, value: Seq<u8>) -> Option<
    &'static str,
>
    decreases chain.len(),
{
    if chain.len() == 0 {
        None
    } else {
        either(spec_enum_value_label(chain[0], tag, value), chain_enum(chain.drop_first(), tag, value))
    }
}

/// The first message-type label found along `chain`.
pub open spec fn chain_msg(chain: Seq<FixVersion>, value: Seq<u8>) -> Option<&'static str>
    decreases chain.len(),
{
    if chain.len() == 0 {
        None
    } else {
        either(spec_msg_type_label(chain[0], value), chain_msg(chain.drop_first(), value))
    }
}

proof fn lemma_tail(chain: Seq<FixVersion>, i: int)
    requires
        0 <= i < chain.len(),
    ensures
        chain.subrange(i, chain.len() as int).drop_first() == chain.subrange(i + 1, chain.len() as int),
        chain.subrange(i, chain.len() as int)[0] == chain[i],
{
    assert(chain.subrange(i, chain.len() as int).drop_first() =~= chain.subrange(i + 1, chain.len() as int));
}

/// Try each dictionary in `chain` and return the first field definition found.
pub fn chain_field_by_tag(chain: &[FixVersion], tag: u32) -> (r: Option<FieldDef>)
    ensures
        r == chain_field(chain@, tag),
{
    let mut i: usize = 0;
    assert(chain@.subrange(0, chain@.len() as int) =~= chain@);
    while i < chain.len()
        invariant
            i <= chain@.len(),
            chain_field(chain@, tag) == chain_field(chain@.subrange(i as int, chain@.len() as int), tag),
        decreases chain.len() - i,
    {
        proof {
            lemma_tail(chain@, i as int);
        }
        if let Some(d) = field_by_tag(chain[i], tag) {
            return Some(d);
        }
        i += 1;
    }
    None
}

/// Try each dictionary in `chain` and return the first enum label found.
pub fn chain_enum_value_label(chain: &[FixVersion], tag: u32, value: &[u8]) -> (r: Option<
    &'static str,
>)
    ensures
        r == chain_enum(chain@, tag, value@),
{
    let mut i: usize = 0;
    assert(chain@.subrange(0, chain@.len() as int) =~= chain@);
    while i < chain.len()
        invariant
            i <= chain@.len(),
            chain_enum(chain@, tag, value@) == chain_enum(
                chain@.subrange(i as int, chain@.len() as int),
                tag,
                value@,
            ),
        decreases chain.len() - i,
    {
        proof {
            lemma_tail(chain@, i as int);
        }
        if let Some(l) = enum_value_label(chain[i], tag, value) {
            return Some(l);
        }
        i += 1;
    }
    None
}

/// Try each dictionary in `chain` and return the first MsgType label found.
pub fn chain_msg_type_label(chain: &[FixVersion], value: &[u8]) -> (r: Option<&'static str>)
    ensures
        r == chain_msg(chain@, value@),
{
    let mut i: usize = 0;
    assert(chain@.subrange(0, chain@.len() as int) =~= chain@);
    while i < chain.len()
        invariant
            i <= chain@.len(),
            chain_msg(chain@, value@) == chain_msg(chain@.subrange(i as int, chain@.len() as int), value@),
        decreases chain.len() - i,
    {
        proof {
            lemma_tail(chain@, i as int);
        }
        if let Some(l) = msg_type_label(chain[i], value) {
            return Some(l);
        }
        i += 1;
    }
    None
}

/// The bytes `FIXT.1.1`.
pub open spec fn fixt11_begin_string() -> Seq<u8> {
    seq![70u8, 73u8, 88u8, 84u8, 46u8, 49u8, 46u8, 49u8]
}

/// The chain that [`chain_for`] picks.
pub open spec fn spec_chain_for(begin_string: Seq<u8>, appl_ver_id: Option<Seq<u8>>) -> Seq<
    FixVersion,
> {
    if begin_string == fixt11_begin_string() {
        match appl_ver_id {
            Some(a) => if a == seq![54u8] {
                seq![FixVersion::Fixt11, FixVersion::Fix44]
            } else if a == seq![55u8] {
                seq![FixVersion::Fixt11, FixVersion::Fix50]
            } else if a == seq![56u8] {
                seq![FixVersion::Fixt11, FixVersion::Fix50Sp1]
            } else {
                seq![FixVersion::Fixt11, FixVersion::Fix50Sp2]
            },
            None => seq![FixVersion::Fixt11, FixVersion::Fix50Sp2],
        }
    } else {
        seq![FixVersion::Fix44]
    }
}

fn is_fixt11(s: &[u8]) -> (b: bool)
    ensures
        b == (s@ == fixt11_begin_string()),
{
    if s.len() != 8 {
        return false;
    }
    let b = s[0] == 70 && s[1] == 73 && s[2] == 88 && s[3] == 84 && s[4] == 46 && s[5] == 49
        && s[6] == 46 && s[7] == 49;
    if b {
        assert(s@ =~= fixt11_begin_string());
    }
    b
}

fn is_one_byte(s: &[u8], c: u8) -> (b: bool)
    ensures
        b == (s@ == seq![c]),
{
    if s.len() == 1 && s[0] == c {
        assert(s@ =~= seq![c]);
        true
    } else {
        false
    }
}

/// Pick a dictionary chain from the session's `BeginString` and `ApplVerID`.
///
/// | BeginString | ApplVerID | Chain                         |
/// |-------------|-----------|-------------------------------|
/// | `FIXT.1.1`  | `6`       | [`CHAIN_FIXT11_FIX44`]        |
/// | `FIXT.1.1`  | `7`       | [`CHAIN_FIXT11_FIX50`]        |
/// | `FIXT.1.1`  | `8`       | [`CHAIN_FIXT11_FIX50SP1`]     |
/// | `FIXT.1.1`  | other / — | [`CHAIN_FIXT11_FIX50SP2`]     |
/// | other       | —         | [`CHAIN_FIX44`] (best-effort) |
pub fn chain_for(begin_string: &[u8], appl_ver_id: Option<&[u8]>) -> (r: DictChain)
    ensures
        r@ == spec_chain_for(
            begin_string@,
            match appl_ver_id {
                Some(a) => Some(a@),
                None => None,
            },
        ),
{
    if is_fixt11(begin_string) {
        let c: DictChain = match appl_ver_id {
            Some(a) => if is_one_byte(a, 54) {
                &[FixVersion::Fixt11, FixVersion::Fix44]
            } else if is_one_byte(a, 55) {
                &[FixVersion::Fixt11, FixVersion::Fix50]
            } else if is_one_byte(a, 56) {
                &[FixVersion::Fixt11, FixVersion::Fix50Sp1]
            } else {
                &[FixVersion::Fixt11, FixVersion::Fix50Sp2]
            },
            None => &[FixVersion::Fixt11, FixVersion::Fix50Sp2],
        };
        assert(c@ =~= spec_chain_for(
            begin_string@,
            match appl_ver_id {
                Some(a) => Some(a@),
                None => None,
            },
        ));
        c
    } else {
        let c: DictChain = &[FixVersion::Fix44];
        assert(c@ =~= seq![FixVersion::Fix44]);
        c
    }
}

/// Number of fields in each bundled dictionary: the sizes of the subset of
/// the FIX dictionaries this crate holds (see the module documentation),
/// far below the complete dictionaries.
pub open spec fn spec_field_count(version: FixVersion) -> int {
    match version {
        FixVersion::Fix44 => 68,
        FixVersion::Fixt11 => 36,
        FixVersion::Fix50 => 37,
        FixVersion::Fix50Sp1 => 38,
        FixVersion::Fix50Sp2 => 39,
    }
}

/// Number of message types in each bundled dictionary (a subset of the
/// complete dictionaries, see the module documentation).
pub open spec fn spec_message_count(version: FixVersion) -> int {
    match version {
        FixVersion::Fix44 => 18,
        FixVersion::Fixt11 => 7,
        _ => 11,
    }
}

/// The tags a dictionary defines a field for.
pub open spec fn defined_tags(version: FixVersion) -> Set<u32> {
    Set::new(|t: u32| spec_field_by_tag(version, t) is Some)
}

/// The field count of a dictionary is the number of tags it defines a
/// field for.
pub proof fn law_field_count_is_table_size(version: FixVersion)
    ensures
        defined_tags(version).finite(),
        defined_tags(version).len() == spec_field_count(version),
{
    lemma_session_tags();
    lemma_transport_tags();
    lemma_app_tags();
    lemma_sp1_tags();
    lemma_sp2_tags();
    match version {
        FixVersion::Fix44 => {
            assert(defined_tags(version) =~= session_tags() + app_tags());
            vstd::set_lib::lemma_set_disjoint_lens(session_tags(), app_tags());
        },
        FixVersion::Fixt11 => {
            assert(defined_tags(version) =~= session_tags() + transport_tags());
            vstd::set_lib::lemma_set_disjoint_lens(session_tags(), transport_tags());
        },
        FixVersion::Fix50 => {
            assert(defined_tags(version) =~= app_tags());
        },
        FixVersion::Fix50Sp1 => {
            assert(defined_tags(version) =~= app_tags() + sp1_tags());
            vstd::set_lib::lemma_set_disjoint_lens(app_tags(), sp1_tags());
        },
        FixVersion::Fix50Sp2 => {
            assert(defined_tags(version) =~= app_tags() + (sp1_tags() + sp2_tags()));
            vstd::set_lib::lemma_set_disjoint_lens(sp1_tags(), sp2_tags());
            vstd::set_lib::lemma_set_disjoint_lens(app_tags(), sp1_tags() + sp2_tags());
        },
    }
}

/// Total number of fields in the specified bundled dictionary (a subset of
/// the complete FIX dictionary, see the module documentation): the number
/// of tags it defines a field for.
pub fn field_count(version: FixVersion) -> (n: usize)
    ensures
        n == spec_field_count(version),
        n == defined_tags(version).len(),
{
    proof {
        law_field_count_is_table_size(version);
    }
    match version {
        FixVersion::Fix44 => 68,
        FixVersion::Fixt11 => 36,
        FixVersion::Fix50 => 37,
        FixVersion::Fix50Sp1 => 38,
        FixVersion::Fix50Sp2 => 39,
    }
}

/// The bytes of the message types a dictionary defines (every one of
/// them is a single byte long).
pub open spec fn defined_msg_type_bytes(version: FixVersion) -> Set<u8> {
    Set::new(|b: u8| spec_msg_type_label(version, seq![b]) is Some)
}

/// The message count of a dictionary is the number of message types it
/// defines: each is one byte long, and the count is that of their bytes.
pub proof fn law_message_count_is_table_size(version: FixVersion)
    ensures
        forall|v: Seq<u8>| #[trigger] spec_msg_type_label(version, v) is Some ==> v.len() == 1,
        defined_msg_type_bytes(version).finite(),
        defined_msg_type_bytes(version).len() == spec_message_count(version),
{
    lemma_admin_bytes();
    lemma_app_msg_bytes();
    match version {
        FixVersion::Fix44 => {
            assert(defined_msg_type_bytes(version) =~= admin_bytes() + app_msg_bytes());
            vstd::set_lib::lemma_set_disjoint_lens(admin_bytes(), app_msg_bytes());
        },
        FixVersion::Fixt11 => {
            assert(defined_msg_type_bytes(version) =~= admin_bytes());
        },
        _ => {
            assert(defined_msg_type_bytes(version) =~= app_msg_bytes());
        },
    }
}

/// Total number of message types in the specified bundled dictionary (a
/// subset of the complete FIX dictionary, see the module documentation):
/// the number of message types it defines.
pub fn message_count(version: FixVersion) -> (n: usize)
    ensures
        n == spec_message_count(version),
        n == defined_msg_type_bytes(version).len(),
{
    proof {
        law_message_count_is_table_size(version);
    }
    match version {
        FixVersion::Fix44 => 18,
        FixVersion::Fixt11 => 7,
        _ => 11,
    }
}

} // verus!
