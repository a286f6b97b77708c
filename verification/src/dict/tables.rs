//! The dictionary tables: fields, message types and enum labels, grouped
//! by the layer of the protocol that defines them. A FIX version's
//! dictionary is a union of some of these groups (see the parent module).
//! The tables hold a subset of the published FIX dictionaries: the session
//! layer and the order, execution and market-data fields the tool reads;
//! the parent module lists the tags covered.
use vstd::prelude::*;

use crate::dict::FieldDef;

verus! {

/// Session-layer fields: the standard header and trailer and the fields of
/// the administrative messages, shared by FIX 4.4 and FIXT.1.1.
pub open spec fn session_field(tag: u32) -> Option<FieldDef> {
    match tag {
        7 => Some(FieldDef { tag: 7, name: "BeginSeqNo", field_type: "SEQNUM" }),
        8 => Some(FieldDef { tag: 8, name: "BeginString", field_type: "STRING" }),
        9 => Some(FieldDef { tag: 9, name: "BodyLength", field_type: "LENGTH" }),
        10 => Some(FieldDef { tag: 10, name: "CheckSum", field_type: "STRING" }),
        16 => Some(FieldDef { tag: 16, name: "EndSeqNo", field_type: "SEQNUM" }),
        34 => Some(FieldDef { tag: 34, name: "MsgSeqNum", field_type: "SEQNUM" }),
        35 => Some(FieldDef { tag: 35, name: "MsgType", field_type: "STRING" }),
        36 => Some(FieldDef { tag: 36, name: "NewSeqNo", field_type: "SEQNUM" }),
        43 => Some(FieldDef { tag: 43, name: "PossDupFlag", field_type: "BOOLEAN" }),
        45 => Some(FieldDef { tag: 45, name: "RefSeqNum", field_type: "SEQNUM" }),
        49 => Some(FieldDef { tag: 49, name: "SenderCompID", field_type: "STRING" }),
        50 => Some(FieldDef { tag: 50, name: "SenderSubID", field_type: "STRING" }),
        52 => Some(FieldDef { tag: 52, name: "SendingTime", field_type: "UTCTIMESTAMP" }),
        56 => Some(FieldDef { tag: 56, name: "TargetCompID", field_type: "STRING" }),
        57 => Some(FieldDef { tag: 57, name: "TargetSubID", field_type: "STRING" }),
        58 => Some(FieldDef { tag: 58, name: "Text", field_type: "STRING" }),
        97 => Some(FieldDef { tag: 97, name: "PossResend", field_type: "BOOLEAN" }),
        98 => Some(FieldDef { tag: 98, name: "EncryptMethod", field_type: "INT" }),
        108 => Some(FieldDef { tag: 108, name: "HeartBtInt", field_type: "INT" }),
        112 => Some(FieldDef { tag: 112, name: "TestReqID", field_type: "STRING" }),
        115 => Some(FieldDef { tag: 115, name: "OnBehalfOfCompID", field_type: "STRING" }),
        122 => Some(FieldDef { tag: 122, name: "OrigSendingTime", field_type: "UTCTIMESTAMP" }),
        123 => Some(FieldDef { tag: 123, name: "GapFillFlag", field_type: "BOOLEAN" }),
        128 => Some(FieldDef { tag: 128, name: "DeliverToCompID", field_type: "STRING" }),
        141 => Some(FieldDef { tag: 141, name: "ResetSeqNumFlag", field_type: "BOOLEAN" }),
        371 => Some(FieldDef { tag: 371, name: "RefTagID", field_type: "INT" }),
        372 => Some(FieldDef { tag: 372, name: "RefMsgType", field_type: "STRING" }),
        373 => Some(FieldDef { tag: 373, name: "SessionRejectReason", field_type: "INT" }),
        553 => Some(FieldDef { tag: 553, name: "Username", field_type: "STRING" }),
        554 => Some(FieldDef { tag: 554, name: "Password", field_type: "STRING" }),
        789 => Some(FieldDef { tag: 789, name: "NextExpectedMsgSeqNum", field_type: "SEQNUM" }),
        _ => None,
    }
}

/// Looks `tag` up in [`session_field`].
pub fn session_field_exec(tag: u32) -> (r: Option<FieldDef>)
    ensures
        r == session_field(tag),
{
    match tag {
        7 => Some(FieldDef { tag: 7, name: "BeginSeqNo", field_type: "SEQNUM" }),
        8 => Some(FieldDef { tag: 8, name: "BeginString", field_type: "STRING" }),
        9 => Some(FieldDef { tag: 9, name: "BodyLength", field_type: "LENGTH" }),
        10 => Some(FieldDef { tag: 10, name: "CheckSum", field_type: "STRING" }),
        16 => Some(FieldDef { tag: 16, name: "EndSeqNo", field_type: "SEQNUM" }),
        34 => Some(FieldDef { tag: 34, name: "MsgSeqNum", field_type: "SEQNUM" }),
        35 => Some(FieldDef { tag: 35, name: "MsgType", field_type: "STRING" }),
        36 => Some(FieldDef { tag: 36, name: "NewSeqNo", field_type: "SEQNUM" }),
        43 => Some(FieldDef { tag: 43, name: "PossDupFlag", field_type: "BOOLEAN" }),
        45 => Some(FieldDef { tag: 45, name: "RefSeqNum", field_type: "SEQNUM" }),
        49 => Some(FieldDef { tag: 49, name: "SenderCompID", field_type: "STRING" }),
        50 => Some(FieldDef { tag: 50, name: "SenderSubID", field_type: "STRING" }),
        52 => Some(FieldDef { tag: 52, name: "SendingTime", field_type: "UTCTIMESTAMP" }),
        56 => Some(FieldDef { tag: 56, name: "TargetCompID", field_type: "STRING" }),
        57 => Some(FieldDef { tag: 57, name: "TargetSubID", field_type: "STRING" }),
        58 => Some(FieldDef { tag: 58, name: "Text", field_type: "STRING" }),
        97 => Some(FieldDef { tag: 97, name: "PossResend", field_type: "BOOLEAN" }),
        98 => Some(FieldDef { tag: 98, name: "EncryptMethod", field_type: "INT" }),
        108 => Some(FieldDef { tag: 108, name: "HeartBtInt", field_type: "INT" }),
        112 => Some(FieldDef { tag: 112, name: "TestReqID", field_type: "STRING" }),
        115 => Some(FieldDef { tag: 115, name: "OnBehalfOfCompID", field_type: "STRING" }),
        122 => Some(FieldDef { tag: 122, name: "OrigSendingTime", field_type: "UTCTIMESTAMP" }),
        123 => Some(FieldDef { tag: 123, name: "GapFillFlag", field_type: "BOOLEAN" }),
        128 => Some(FieldDef { tag: 128, name: "DeliverToCompID", field_type: "STRING" }),
        141 => Some(FieldDef { tag: 141, name: "ResetSeqNumFlag", field_type: "BOOLEAN" }),
        371 => Some(FieldDef { tag: 371, name: "RefTagID", field_type: "INT" }),
        372 => Some(FieldDef { tag: 372, name: "RefMsgType", field_type: "STRING" }),
        373 => Some(FieldDef { tag: 373, name: "SessionRejectReason", field_type: "INT" }),
        553 => Some(FieldDef { tag: 553, name: "Username", field_type: "STRING" }),
        554 => Some(FieldDef { tag: 554, name: "Password", field_type: "STRING" }),
        789 => Some(FieldDef { tag: 789, name: "NextExpectedMsgSeqNum", field_type: "SEQNUM" }),
        _ => None,
    }
}

/// Fields that only the FIXT.1.1 transport dictionary defines.
pub open spec fn transport_field(tag: u32) -> Option<FieldDef> {
    match tag {
        1128 => Some(FieldDef { tag: 1128, name: "ApplVerID", field_type: "STRING" }),
        1129 => Some(FieldDef { tag: 1129, name: "CstmApplVerID", field_type: "STRING" }),
        1137 => Some(FieldDef { tag: 1137, name: "DefaultApplVerID", field_type: "STRING" }),
        1156 => Some(FieldDef { tag: 1156, name: "ApplExtID", field_type: "INT" }),
        1400 => Some(FieldDef { tag: 1400, name: "EncryptedPasswordMethod", field_type: "INT" }),
        _ => None,
    }
}

/// Looks `tag` up in [`transport_field`].
pub fn transport_field_exec(tag: u32) -> (r: Option<FieldDef>)
    ensures
        r == transport_field(tag),
{
    match tag {
        1128 => Some(FieldDef { tag: 1128, name: "ApplVerID", field_type: "STRING" }),
        1129 => Some(FieldDef { tag: 1129, name: "CstmApplVerID", field_type: "STRING" }),
        1137 => Some(FieldDef { tag: 1137, name: "DefaultApplVerID", field_type: "STRING" }),
        1156 => Some(FieldDef { tag: 1156, name: "ApplExtID", field_type: "INT" }),
        1400 => Some(FieldDef { tag: 1400, name: "EncryptedPasswordMethod", field_type: "INT" }),
        _ => None,
    }
}

/// Application-layer fields common to FIX 4.4 and the FIX 5.0 family.
pub open spec fn app_field(tag: u32) -> Option<FieldDef> {
    match tag {
        1 => Some(FieldDef { tag: 1, name: "Account", field_type: "STRING" }),
        6 => Some(FieldDef { tag: 6, name: "AvgPx", field_type: "PRICE" }),
        11 => Some(FieldDef { tag: 11, name: "ClOrdID", field_type: "STRING" }),
        14 => Some(FieldDef { tag: 14, name: "CumQty", field_type: "QTY" }),
        15 => Some(FieldDef { tag: 15, name: "Currency", field_type: "CURRENCY" }),
        17 => Some(FieldDef { tag: 17, name: "ExecID", field_type: "STRING" }),
        18 => Some(FieldDef { tag: 18, name: "ExecInst", field_type: "MULTIPLEVALUESTRING" }),
        21 => Some(FieldDef { tag: 21, name: "HandlInst", field_type: "CHAR" }),
        22 => Some(FieldDef { tag: 22, name: "SecurityIDSource", field_type: "STRING" }),
        31 => Some(FieldDef { tag: 31, name: "LastPx", field_type: "PRICE" }),
        32 => Some(FieldDef { tag: 32, name: "LastQty", field_type: "QTY" }),
        37 => Some(FieldDef { tag: 37, name: "OrderID", field_type: "STRING" }),
        38 => Some(FieldDef { tag: 38, name: "OrderQty", field_type: "QTY" }),
        39 => Some(FieldDef { tag: 39, name: "OrdStatus", field_type: "CHAR" }),
        40 => Some(FieldDef { tag: 40, name: "OrdType", field_type: "CHAR" }),
        41 => Some(FieldDef { tag: 41, name: "OrigClOrdID", field_type: "STRING" }),
        44 => Some(FieldDef { tag: 44, name: "Price", field_type: "PRICE" }),
        48 => Some(FieldDef { tag: 48, name: "SecurityID", field_type: "STRING" }),
        54 => Some(FieldDef { tag: 54, name: "Side", field_type: "CHAR" }),
        55 => Some(FieldDef { tag: 55, name: "Symbol", field_type: "STRING" }),
        59 => Some(FieldDef { tag: 59, name: "TimeInForce", field_type: "CHAR" }),
        60 => Some(FieldDef { tag: 60, name: "TransactTime", field_type: "UTCTIMESTAMP" }),
        99 => Some(FieldDef { tag: 99, name: "StopPx", field_type: "PRICE" }),
        150 => Some(FieldDef { tag: 150, name: "ExecType", field_type: "CHAR" }),
        151 => Some(FieldDef { tag: 151, name: "LeavesQty", field_type: "QTY" }),
        207 => Some(FieldDef { tag: 207, name: "SecurityExchange", field_type: "EXCHANGE" }),
        262 => Some(FieldDef { tag: 262, name: "MDReqID", field_type: "STRING" }),
        268 => Some(FieldDef { tag: 268, name: "NoMDEntries", field_type: "NUMINGROUP" }),
        269 => Some(FieldDef { tag: 269, name: "MDEntryType", field_type: "CHAR" }),
        270 => Some(FieldDef { tag: 270, name: "MDEntryPx", field_type: "PRICE" }),
        271 => Some(FieldDef { tag: 271, name: "MDEntrySize", field_type: "QTY" }),
        279 => Some(FieldDef { tag: 279, name: "MDUpdateAction", field_type: "CHAR" }),
        447 => Some(FieldDef { tag: 447, name: "PartyIDSource", field_type: "CHAR" }),
        448 => Some(FieldDef { tag: 448, name: "PartyID", field_type: "STRING" }),
        452 => Some(FieldDef { tag: 452, name: "PartyRole", field_type: "INT" }),
        453 => Some(FieldDef { tag: 453, name: "NoPartyIDs", field_type: "NUMINGROUP" }),
        1023 => Some(FieldDef { tag: 1023, name: "MDPriceLevel", field_type: "INT" }),
        _ => None,
    }
}

/// Looks `tag` up in [`app_field`].
pub fn app_field_exec(tag: u32) -> (r: Option<FieldDef>)
    ensures
        r == app_field(tag),
{
    match tag {
        1 => Some(FieldDef { tag: 1, name: "Account", field_type: "STRING" }),
        6 => Some(FieldDef { tag: 6, name: "AvgPx", field_type: "PRICE" }),
        11 => Some(FieldDef { tag: 11, name: "ClOrdID", field_type: "STRING" }),
        14 => Some(FieldDef { tag: 14, name: "CumQty", field_type: "QTY" }),
        15 => Some(FieldDef { tag: 15, name: "Currency", field_type: "CURRENCY" }),
        17 => Some(FieldDef { tag: 17, name: "ExecID", field_type: "STRING" }),
        18 => Some(FieldDef { tag: 18, name: "ExecInst", field_type: "MULTIPLEVALUESTRING" }),
        21 => Some(FieldDef { tag: 21, name: "HandlInst", field_type: "CHAR" }),
        22 => Some(FieldDef { tag: 22, name: "SecurityIDSource", field_type: "STRING" }),
        31 => Some(FieldDef { tag: 31, name: "LastPx", field_type: "PRICE" }),
        32 => Some(FieldDef { tag: 32, name: "LastQty", field_type: "QTY" }),
        37 => Some(FieldDef { tag: 37, name: "OrderID", field_type: "STRING" }),
        38 => Some(FieldDef { tag: 38, name: "OrderQty", field_type: "QTY" }),
        39 => Some(FieldDef { tag: 39, name: "OrdStatus", field_type: "CHAR" }),
        40 => Some(FieldDef { tag: 40, name: "OrdType", field_type: "CHAR" }),
        41 => Some(FieldDef { tag: 41, name: "OrigClOrdID", field_type: "STRING" }),
        44 => Some(FieldDef { tag: 44, name: "Price", field_type: "PRICE" }),
        48 => Some(FieldDef { tag: 48, name: "SecurityID", field_type: "STRING" }),
        54 => Some(FieldDef { tag: 54, name: "Side", field_type: "CHAR" }),
        55 => Some(FieldDef { tag: 55, name: "Symbol", field_type: "STRING" }),
        59 => Some(FieldDef { tag: 59, name: "TimeInForce", field_type: "CHAR" }),
        60 => Some(FieldDef { tag: 60, name: "TransactTime", field_type: "UTCTIMESTAMP" }),
        99 => Some(FieldDef { tag: 99, name: "StopPx", field_type: "PRICE" }),
        150 => Some(FieldDef { tag: 150, name: "ExecType", field_type: "CHAR" }),
        151 => Some(FieldDef { tag: 151, name: "LeavesQty", field_type: "QTY" }),
        207 => Some(FieldDef { tag: 207, name: "SecurityExchange", field_type: "EXCHANGE" }),
        262 => Some(FieldDef { tag: 262, name: "MDReqID", field_type: "STRING" }),
        268 => Some(FieldDef { tag: 268, name: "NoMDEntries", field_type: "NUMINGROUP" }),
        269 => Some(FieldDef { tag: 269, name: "MDEntryType", field_type: "CHAR" }),
        270 => Some(FieldDef { tag: 270, name: "MDEntryPx", field_type: "PRICE" }),
        271 => Some(FieldDef { tag: 271, name: "MDEntrySize", field_type: "QTY" }),
        279 => Some(FieldDef { tag: 279, name: "MDUpdateAction", field_type: "CHAR" }),
        447 => Some(FieldDef { tag: 447, name: "PartyIDSource", field_type: "CHAR" }),
        448 => Some(FieldDef { tag: 448, name: "PartyID", field_type: "STRING" }),
        452 => Some(FieldDef { tag: 452, name: "PartyRole", field_type: "INT" }),
        453 => Some(FieldDef { tag: 453, name: "NoPartyIDs", field_type: "NUMINGROUP" }),
        1023 => Some(FieldDef { tag: 1023, name: "MDPriceLevel", field_type: "INT" }),
        _ => None,
    }
}

/// Application-layer fields added by FIX 5.0 Service Pack 1.
pub open spec fn sp1_field(tag: u32) -> Option<FieldDef> {
    match tag {
        1180 => Some(FieldDef { tag: 1180, name: "ApplID", field_type: "STRING" }),
        _ => None,
    }
}

/// Looks `tag` up in [`sp1_field`].
pub fn sp1_field_exec(tag: u32) -> (r: Option<FieldDef>)
    ensures
        r == sp1_field(tag),
{
    match tag {
        1180 => Some(FieldDef { tag: 1180, name: "ApplID", field_type: "STRING" }),
        _ => None,
    }
}

/// Application-layer fields added by FIX 5.0 Service Pack 2.
pub open spec fn sp2_field(tag: u32) -> Option<FieldDef> {
    match tag {
        1301 => Some(FieldDef { tag: 1301, name: "MarketID", field_type: "EXCHANGE" }),
        _ => None,
    }
}

/// Looks `tag` up in [`sp2_field`].
pub fn sp2_field_exec(tag: u32) -> (r: Option<FieldDef>)
    ensures
        r == sp2_field(tag),
{
    match tag {
        1301 => Some(FieldDef { tag: 1301, name: "MarketID", field_type: "EXCHANGE" }),
        _ => None,
    }
}

/// Administrative message types (`35=` values), shared by FIX 4.4 and FIXT.1.1.
pub open spec fn admin_msg_type(value: Seq<u8>) -> Option<&'static str> {
    if value.len() != 1 {
        None
    } else {
        match value[0] {
            48u8 => Some("Heartbeat"),
            49u8 => Some("TestRequest"),
            50u8 => Some("ResendRequest"),
            51u8 => Some("Reject"),
            52u8 => Some("SequenceReset"),
            53u8 => Some("Logout"),
            65u8 => Some("Logon"),
            _ => None,
        }
    }
}

/// Looks `value` up in [`admin_msg_type`].
pub fn admin_msg_type_exec(value: &[u8]) -> (r: Option<&'static str>)
    ensures
        r == admin_msg_type(value@),
{
    if value.len() != 1 {
        None
    } else {
        match value[0] {
            48u8 => Some("Heartbeat"),
            49u8 => Some("TestRequest"),
            50u8 => Some("ResendRequest"),
            51u8 => Some("Reject"),
            52u8 => Some("SequenceReset"),
            53u8 => Some("Logout"),
            65u8 => Some("Logon"),
            _ => None,
        }
    }
}

/// Application message types (`35=` values) of FIX 4.4 and the FIX 5.0 family.
pub open spec fn app_msg_type(value: Seq<u8>) -> Option<&'static str> {
    if value.len() != 1 {
        None
    } else {
        match value[0] {
            56u8 => Some("ExecutionReport"),
            57u8 => Some("OrderCancelReject"),
            68u8 => Some("NewOrderSingle"),
            70u8 => Some("OrderCancelRequest"),
            71u8 => Some("OrderCancelReplaceRequest"),
            72u8 => Some("OrderStatusRequest"),
            86u8 => Some("MarketDataRequest"),
            87u8 => Some("MarketDataSnapshotFullRefresh"),
            88u8 => Some("MarketDataIncrementalRefresh"),
            89u8 => Some("MarketDataRequestReject"),
            106u8 => Some("BusinessMessageReject"),
            _ => None,
        }
    }
}

/// Looks `value` up in [`app_msg_type`].
pub fn app_msg_type_exec(value: &[u8]) -> (r: Option<&'static str>)
    ensures
        r == app_msg_type(value@),
{
    if value.len() != 1 {
        None
    } else {
        match value[0] {
            56u8 => Some("ExecutionReport"),
            57u8 => Some("OrderCancelReject"),
            68u8 => Some("NewOrderSingle"),
            70u8 => Some("OrderCancelRequest"),
            71u8 => Some("OrderCancelReplaceRequest"),
            72u8 => Some("OrderStatusRequest"),
            86u8 => Some("MarketDataRequest"),
            87u8 => Some("MarketDataSnapshotFullRefresh"),
            88u8 => Some("MarketDataIncrementalRefresh"),
            89u8 => Some("MarketDataRequestReject"),
            106u8 => Some("BusinessMessageReject"),
            _ => None,
        }
    }
}

/// Enum labels of session-layer fields.
pub open spec fn session_enum(tag: u32, value: Seq<u8>) -> Option<&'static str> {
    if value.len() != 1 {
        None
    } else {
        match (tag, value[0]) {
            (98u32, 48u8) => Some("NONE_OTHER"),
            (98u32, 49u8) => Some("PKCS"),
            (98u32, 50u8) => Some("DES"),
            (43u32, 89u8) => Some("YES"),
            (43u32, 78u8) => Some("NO"),
            (97u32, 89u8) => Some("YES"),
            (97u32, 78u8) => Some("NO"),
            (123u32, 89u8) => Some("YES"),
            (123u32, 78u8) => Some("NO"),
            (141u32, 89u8) => Some("YES"),
            (141u32, 78u8) => Some("NO"),
            _ => None,
        }
    }
}

/// Looks `(tag, value)` up in [`session_enum`].
pub fn session_enum_exec(tag: u32, value: &[u8]) -> (r: Option<&'static str>)
    ensures
        r == session_enum(tag, value@),
{
    if value.len() != 1 {
        None
    } else {
        match (tag, value[0]) {
            (98u32, 48u8) => Some("NONE_OTHER"),
            (98u32, 49u8) => Some("PKCS"),
            (98u32, 50u8) => Some("DES"),
            (43u32, 89u8) => Some("YES"),
            (43u32, 78u8) => Some("NO"),
            (97u32, 89u8) => Some("YES"),
            (97u32, 78u8) => Some("NO"),
            (123u32, 89u8) => Some("YES"),
            (123u32, 78u8) => Some("NO"),
            (141u32, 89u8) => Some("YES"),
            (141u32, 78u8) => Some("NO"),
            _ => None,
        }
    }
}

/// Enum labels of the FIXT.1.1 version fields (`ApplVerID`, `DefaultApplVerID`).
pub open spec fn transport_enum(tag: u32, value: Seq<u8>) -> Option<&'static str> {
    if value.len() != 1 {
        None
    } else {
        match (tag, value[0]) {
            (1128u32, 48u8) => Some("FIX27"),
            (1128u32, 49u8) => Some("FIX30"),
            (1128u32, 50u8) => Some("FIX40"),
            (1128u32, 51u8) => Some("FIX41"),
            (1128u32, 52u8) => Some("FIX42"),
            (1128u32, 53u8) => Some("FIX43"),
            (1128u32, 54u8) => Some("FIX44"),
            (1128u32, 55u8) => Some("FIX50"),
            (1128u32, 56u8) => Some("FIX50SP1"),
            (1128u32, 57u8) => Some("FIX50SP2"),
            (1137u32, 48u8) => Some("FIX27"),
            (1137u32, 49u8) => Some("FIX30"),
            (1137u32, 50u8) => Some("FIX40"),
            (1137u32, 51u8) => Some("FIX41"),
            (1137u32, 52u8) => Some("FIX42"),
            (1137u32, 53u8) => Some("FIX43"),
            (1137u32, 54u8) => Some("FIX44"),
            (1137u32, 55u8) => Some("FIX50"),
            (1137u32, 56u8) => Some("FIX50SP1"),
            (1137u32, 57u8) => Some("FIX50SP2"),
            _ => None,
        }
    }
}

/// Looks `(tag, value)` up in [`transport_enum`].
pub fn transport_enum_exec(tag: u32, value: &[u8]) -> (r: Option<&'static str>)
    ensures
        r == transport_enum(tag, value@),
{
    if value.len() != 1 {
        None
    } else {
        match (tag, value[0]) {
            (1128u32, 48u8) => Some("FIX27"),
            (1128u32, 49u8) => Some("FIX30"),
            (1128u32, 50u8) => Some("FIX40"),
            (1128u32, 51u8) => Some("FIX41"),
            (1128u32, 52u8) => Some("FIX42"),
            (1128u32, 53u8) => Some("FIX43"),
            (1128u32, 54u8) => Some("FIX44"),
            (1128u32, 55u8) => Some("FIX50"),
            (1128u32, 56u8) => Some("FIX50SP1"),
            (1128u32, 57u8) => Some("FIX50SP2"),
            (1137u32, 48u8) => Some("FIX27"),
            (1137u32, 49u8) => Some("FIX30"),
            (1137u32, 50u8) => Some("FIX40"),
            (1137u32, 51u8) => Some("FIX41"),
            (1137u32, 52u8) => Some("FIX42"),
            (1137u32, 53u8) => Some("FIX43"),
            (1137u32, 54u8) => Some("FIX44"),
            (1137u32, 55u8) => Some("FIX50"),
            (1137u32, 56u8) => Some("FIX50SP1"),
            (1137u32, 57u8) => Some("FIX50SP2"),
            _ => None,
        }
    }
}

/// Enum labels of application-layer fields.
pub open spec fn app_enum(tag: u32, value: Seq<u8>) -> Option<&'static str> {
    if value.len() != 1 {
        None
    } else {
        match (tag, value[0]) {
            (54u32, 49u8) => Some("BUY"),
            (54u32, 50u8) => Some("SELL"),
            (54u32, 51u8) => Some("BUY_MINUS"),
            (54u32, 52u8) => Some("SELL_PLUS"),
            (54u32, 53u8) => Some("SELL_SHORT"),
            (54u32, 54u8) => Some("SELL_SHORT_EXEMPT"),
            (54u32, 55u8) => Some("UNDISCLOSED"),
            (54u32, 56u8) => Some("CROSS"),
            (54u32, 57u8) => Some("CROSS_SHORT"),
            (39u32, 48u8) => Some("NEW"),
            (39u32, 49u8) => Some("PARTIALLY_FILLED"),
            (39u32, 50u8) => Some("FILLED"),
            (39u32, 51u8) => Some("DONE_FOR_DAY"),
            (39u32, 52u8) => Some("CANCELED"),
            (39u32, 53u8) => Some("REPLACED"),
            (39u32, 54u8) => Some("PENDING_CANCEL"),
            (39u32, 55u8) => Some("STOPPED"),
            (39u32, 56u8) => Some("REJECTED"),
            (39u32, 57u8) => Some("SUSPENDED"),
            (39u32, 65u8) => Some("PENDING_NEW"),
            (39u32, 66u8) => Some("CALCULATED"),
            (39u32, 67u8) => Some("EXPIRED"),
            (39u32, 69u8) => Some("PENDING_REPLACE"),
            (150u32, 48u8) => Some("NEW"),
            (150u32, 51u8) => Some("DONE_FOR_DAY"),
            (150u32, 52u8) => Some("CANCELED"),
            (150u32, 53u8) => Some("REPLACED"),
            (150u32, 54u8) => Some("PENDING_CANCEL"),
            (150u32, 55u8) => Some("STOPPED"),
            (150u32, 56u8) => Some("REJECTED"),
            (150u32, 57u8) => Some("SUSPENDED"),
            (150u32, 65u8) => Some("PENDING_NEW"),
            (150u32, 66u8) => Some("CALCULATED"),
            (150u32, 67u8) => Some("EXPIRED"),
            (150u32, 68u8) => Some("RESTATED"),
            (150u32, 69u8) => Some("PENDING_REPLACE"),
            (150u32, 70u8) => Some("TRADE"),
            (150u32, 71u8) => Some("TRADE_CORRECT"),
            (150u32, 72u8) => Some("TRADE_CANCEL"),
            (150u32, 73u8) => Some("ORDER_STATUS"),
            (40u32, 49u8) => Some("MARKET"),
            (40u32, 50u8) => Some("LIMIT"),
            (40u32, 51u8) => Some("STOP"),
            (40u32, 52u8) => Some("STOP_LIMIT"),
            (59u32, 48u8) => Some("DAY"),
            (59u32, 49u8) => Some("GOOD_TILL_CANCEL"),
            (59u32, 50u8) => Some("AT_THE_OPENING"),
            (59u32, 51u8) => Some("IMMEDIATE_OR_CANCEL"),
            (59u32, 52u8) => Some("FILL_OR_KILL"),
            (59u32, 54u8) => Some("GOOD_TILL_DATE"),
            (269u32, 48u8) => Some("BID"),
            (269u32, 49u8) => Some("OFFER"),
            (269u32, 50u8) => Some("TRADE"),
            (279u32, 48u8) => Some("NEW"),
            (279u32, 49u8) => Some("CHANGE"),
            (279u32, 50u8) => Some("DELETE"),
            (21u32, 49u8) => Some("AUTOMATED_EXECUTION_ORDER_PRIVATE_NO_BROKER_INTERVENTION"),
            (21u32, 50u8) => Some("AUTOMATED_EXECUTION_ORDER_PUBLIC_BROKER_INTERVENTION_OK"),
            (21u32, 51u8) => Some("MANUAL_ORDER_BEST_EXECUTION"),
            _ => None,
        }
    }
}

/// Looks `(tag, value)` up in [`app_enum`].
pub fn app_enum_exec(tag: u32, value: &[u8]) -> (r: Option<&'static str>)
    ensures
        r == app_enum(tag, value@),
{
    if value.len() != 1 {
        None
    } else {
        match (tag, value[0]) {
            (54u32, 49u8) => Some("BUY"),
            (54u32, 50u8) => Some("SELL"),
            (54u32, 51u8) => Some("BUY_MINUS"),
            (54u32, 52u8) => Some("SELL_PLUS"),
            (54u32, 53u8) => Some("SELL_SHORT"),
            (54u32, 54u8) => Some("SELL_SHORT_EXEMPT"),
            (54u32, 55u8) => Some("UNDISCLOSED"),
            (54u32, 56u8) => Some("CROSS"),
            (54u32, 57u8) => Some("CROSS_SHORT"),
            (39u32, 48u8) => Some("NEW"),
            (39u32, 49u8) => Some("PARTIALLY_FILLED"),
            (39u32, 50u8) => Some("FILLED"),
            (39u32, 51u8) => Some("DONE_FOR_DAY"),
            (39u32, 52u8) => Some("CANCELED"),
            (39u32, 53u8) => Some("REPLACED"),
            (39u32, 54u8) => Some("PENDING_CANCEL"),
            (39u32, 55u8) => Some("STOPPED"),
            (39u32, 56u8) => Some("REJECTED"),
            (39u32, 57u8) => Some("SUSPENDED"),
            (39u32, 65u8) => Some("PENDING_NEW"),
            (39u32, 66u8) => Some("CALCULATED"),
            (39u32, 67u8) => Some("EXPIRED"),
            (39u32, 69u8) => Some("PENDING_REPLACE"),
            (150u32, 48u8) => Some("NEW"),
            (150u32, 51u8) => Some("DONE_FOR_DAY"),
            (150u32, 52u8) => Some("CANCELED"),
            (150u32, 53u8) => Some("REPLACED"),
            (150u32, 54u8) => Some("PENDING_CANCEL"),
            (150u32, 55u8) => Some("STOPPED"),
            (150u32, 56u8) => Some("REJECTED"),
            (150u32, 57u8) => Some("SUSPENDED"),
            (150u32, 65u8) => Some("PENDING_NEW"),
            (150u32, 66u8) => Some("CALCULATED"),
            (150u32, 67u8) => Some("EXPIRED"),
            (150u32, 68u8) => Some("RESTATED"),
            (150u32, 69u8) => Some("PENDING_REPLACE"),
            (150u32, 70u8) => Some("TRADE"),
            (150u32, 71u8) => Some("TRADE_CORRECT"),
            (150u32, 72u8) => Some("TRADE_CANCEL"),
            (150u32, 73u8) => Some("ORDER_STATUS"),
            (40u32, 49u8) => Some("MARKET"),
            (40u32, 50u8) => Some("LIMIT"),
            (40u32, 51u8) => Some("STOP"),
            (40u32, 52u8) => Some("STOP_LIMIT"),
            (59u32, 48u8) => Some("DAY"),
            (59u32, 49u8) => Some("GOOD_TILL_CANCEL"),
            (59u32, 50u8) => Some("AT_THE_OPENING"),
            (59u32, 51u8) => Some("IMMEDIATE_OR_CANCEL"),
            (59u32, 52u8) => Some("FILL_OR_KILL"),
            (59u32, 54u8) => Some("GOOD_TILL_DATE"),
            (269u32, 48u8) => Some("BID"),
            (269u32, 49u8) => Some("OFFER"),
            (269u32, 50u8) => Some("TRADE"),
            (279u32, 48u8) => Some("NEW"),
            (279u32, 49u8) => Some("CHANGE"),
            (279u32, 50u8) => Some("DELETE"),
            (21u32, 49u8) => Some("AUTOMATED_EXECUTION_ORDER_PRIVATE_NO_BROKER_INTERVENTION"),
            (21u32, 50u8) => Some("AUTOMATED_EXECUTION_ORDER_PUBLIC_BROKER_INTERVENTION_OK"),
            (21u32, 51u8) => Some("MANUAL_ORDER_BEST_EXECUTION"),
            _ => None,
        }
    }
}

// ---------------------------------------------------------------------------
// The tags of each group
// ---------------------------------------------------------------------------

/// The tags [`session_field`] defines.
pub open spec fn session_tags() -> Set<u32> {
    set![7u32, 8, 9, 10, 16, 34, 35, 36, 43, 45, 49, 50, 52, 56, 57, 58, 97, 98, 108, 112, 115, 122, 123, 128, 141, 371, 372, 373, 553, 554, 789]
}

/// [`session_tags`] holds exactly the tags [`session_field`] defines, 31 of them.
pub proof fn lemma_session_tags()
    ensures
        forall|t: u32| #[trigger] session_field(t) is Some <==> session_tags().contains(t),
        session_tags().finite(),
        session_tags().len() == 31,
{
}

/// The tags [`transport_field`] defines.
pub open spec fn transport_tags() -> Set<u32> {
    set![1128u32, 1129, 1137, 1156, 1400]
}

/// [`transport_tags`] holds exactly the tags [`transport_field`] defines, 5 of them.
pub proof fn lemma_transport_tags()
    ensures
        forall|t: u32| #[trigger] transport_field(t) is Some <==> transport_tags().contains(t),
        transport_tags().finite(),
        transport_tags().len() == 5,
{
}

/// The tags [`app_field`] defines.
pub open spec fn app_tags() -> Set<u32> {
    set![1u32, 6, 11, 14, 15, 17, 18, 21, 22, 31, 32, 37, 38, 39, 40, 41, 44, 48, 54, 55, 59, 60, 99, 150, 151, 207, 262, 268, 269, 270, 271, 279, 447, 448, 452, 453, 1023]
}

/// [`app_tags`] holds exactly the tags [`app_field`] defines, 37 of them.
pub proof fn lemma_app_tags()
    ensures
        forall|t: u32| #[trigger] app_field(t) is Some <==> app_tags().contains(t),
        app_tags().finite(),
        app_tags().len() == 37,
{
}

/// The tags [`sp1_field`] defines.
pub open spec fn sp1_tags() -> Set<u32> {
    set![1180u32]
}

/// [`sp1_tags`] holds exactly the tags [`sp1_field`] defines, 1 of them.
pub proof fn lemma_sp1_tags()
    ensures
        forall|t: u32| #[trigger] sp1_field(t) is Some <==> sp1_tags().contains(t),
        sp1_tags().finite(),
        sp1_tags().len() == 1,
{
}

/// The tags [`sp2_field`] defines.
pub open spec fn sp2_tags() -> Set<u32> {
    set![1301u32]
}

/// [`sp2_tags`] holds exactly the tags [`sp2_field`] defines, 1 of them.
pub proof fn lemma_sp2_tags()
    ensures
        forall|t: u32| #[trigger] sp2_field(t) is Some <==> sp2_tags().contains(t),
        sp2_tags().finite(),
        sp2_tags().len() == 1,
{
}

/// The one-byte values [`admin_msg_type`] defines.
pub open spec fn admin_bytes() -> Set<u8> {
    set![48u8, 49, 50, 51, 52, 53, 65]
}

/// [`admin_bytes`] holds exactly the bytes of the values [`admin_msg_type`] defines
/// (7 of them), each value one byte long.
pub proof fn lemma_admin_bytes()
    ensures
        forall|v: Seq<u8>| #[trigger] admin_msg_type(v) is Some ==> v.len() == 1,
        forall|b: u8| #[trigger] admin_msg_type(seq![b]) is Some <==> admin_bytes().contains(b),
        admin_bytes().finite(),
        admin_bytes().len() == 7,
{
}

/// The one-byte values [`app_msg_type`] defines.
pub open spec fn app_msg_bytes() -> Set<u8> {
    set![56u8, 57, 68, 70, 71, 72, 86, 87, 88, 89, 106]
}

/// [`app_msg_bytes`] holds exactly the bytes of the values [`app_msg_type`] defines
/// (11 of them), each value one byte long.
pub proof fn lemma_app_msg_bytes()
    ensures
        forall|v: Seq<u8>| #[trigger] app_msg_type(v) is Some ==> v.len() == 1,
        forall|b: u8| #[trigger] app_msg_type(seq![b]) is Some <==> app_msg_bytes().contains(b),
        app_msg_bytes().finite(),
        app_msg_bytes().len() == 11,
{
}

} // verus!
