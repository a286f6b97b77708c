use fixlog::dict::{
    chain_field_by_tag, chain_for, field_count, message_count, chain_msg_type_label, enum_value_label, field_by_tag, msg_type_label, FixVersion,
    CHAIN_FIX44, CHAIN_FIXT11_FIX50, CHAIN_FIXT11_FIX50SP1, CHAIN_FIXT11_FIX50SP2,
};
use fixlog::dict::groups::group_members;

#[test]
fn fix44_session_fields_resolve() {
    let v = FixVersion::Fix44;
    assert_eq!(field_by_tag(v, 8).unwrap().name, "BeginString");
    assert_eq!(field_by_tag(v, 9).unwrap().name, "BodyLength");
    assert_eq!(field_by_tag(v, 10).unwrap().name, "CheckSum");
    assert_eq!(field_by_tag(v, 35).unwrap().name, "MsgType");
    assert_eq!(field_by_tag(v, 34).unwrap().name, "MsgSeqNum");
    assert_eq!(field_by_tag(v, 49).unwrap().name, "SenderCompID");
    assert_eq!(field_by_tag(v, 52).unwrap().name, "SendingTime");
    assert_eq!(field_by_tag(v, 56).unwrap().name, "TargetCompID");
}

#[test]
fn unknown_tag_returns_none() {
    assert!(field_by_tag(FixVersion::Fix44, 99999).is_none());
    assert!(field_by_tag(FixVersion::Fix44, 0).is_none());
}

#[test]
fn fix44_msg_types_resolve() {
    let v = FixVersion::Fix44;
    assert_eq!(msg_type_label(v, b"A"), Some("Logon"));
    assert_eq!(msg_type_label(v, b"5"), Some("Logout"));
    assert_eq!(msg_type_label(v, b"0"), Some("Heartbeat"));
    assert_eq!(msg_type_label(v, b"1"), Some("TestRequest"));
    assert_eq!(msg_type_label(v, b"D"), Some("NewOrderSingle"));
    assert_eq!(msg_type_label(v, b"8"), Some("ExecutionReport"));
    assert_eq!(msg_type_label(v, b"F"), Some("OrderCancelRequest"));
    assert!(msg_type_label(v, b"ZZZZ").is_none());
}

#[test]
fn fix44_side_enum_values() {
    let v = FixVersion::Fix44;
    assert_eq!(enum_value_label(v, 54, b"1"), Some("BUY"));
    assert_eq!(enum_value_label(v, 54, b"2"), Some("SELL"));
    assert!(enum_value_label(v, 54, b"Z").is_none());
    assert!(enum_value_label(v, 11, b"foo").is_none());
}

#[test]
fn fixt11_defines_session_fields() {
    assert_eq!(field_by_tag(FixVersion::Fixt11, 8).unwrap().name, "BeginString");
    assert_eq!(field_by_tag(FixVersion::Fixt11, 35).unwrap().name, "MsgType");
    assert_eq!(field_by_tag(FixVersion::Fixt11, 1128).unwrap().name, "ApplVerID");
}

#[test]
fn fix50sp2_defines_application_fields() {
    assert_eq!(field_by_tag(FixVersion::Fix50Sp2, 1301).unwrap().name, "MarketID");
    assert!(field_by_tag(FixVersion::Fix50Sp2, 1137).is_none());
}

#[test]
fn chain_falls_through_fixt11_to_fix50sp2() {
    let chain: &[FixVersion] = &CHAIN_FIXT11_FIX50SP2;
    assert_eq!(chain_field_by_tag(chain, 1137).unwrap().name, "DefaultApplVerID");
    assert_eq!(chain_field_by_tag(chain, 1301).unwrap().name, "MarketID");
    assert_eq!(chain_msg_type_label(chain, b"A"), Some("Logon"));
}

#[test]
fn fix50_defines_application_fields() {
    assert_eq!(msg_type_label(FixVersion::Fix50, b"D"), Some("NewOrderSingle"));
    assert_eq!(msg_type_label(FixVersion::Fix50, b"8"), Some("ExecutionReport"));
    assert_eq!(field_by_tag(FixVersion::Fix50, 11).unwrap().name, "ClOrdID");
}

#[test]
fn fix50sp1_defines_application_fields() {
    assert_eq!(msg_type_label(FixVersion::Fix50Sp1, b"D"), Some("NewOrderSingle"));
    assert_eq!(field_by_tag(FixVersion::Fix50Sp1, 1180).unwrap().name, "ApplID");
}

#[test]
fn chain_for_routes_applverid_to_right_fix50_version() {
    assert_eq!(chain_for(b"FIXT.1.1", Some(b"7")), &CHAIN_FIXT11_FIX50[..]);
    assert_eq!(chain_for(b"FIXT.1.1", Some(b"8")), &CHAIN_FIXT11_FIX50SP1[..]);
    assert_eq!(chain_for(b"FIXT.1.1", Some(b"9")), &CHAIN_FIXT11_FIX50SP2[..]);
    assert_eq!(chain_for(b"FIXT.1.1", None), &CHAIN_FIXT11_FIX50SP2[..]);
}

#[test]
fn chain_for_fix44_and_unknown_begin_string() {
    assert_eq!(chain_for(b"FIX.4.4", None), &CHAIN_FIX44[..]);
    assert_eq!(chain_for(b"", None), &CHAIN_FIX44[..]);
}

#[test]
fn mdentries_counter_returns_member_set() {
    let members = group_members(268).expect("268 must be registered");
    assert!(members.contains(&269));
    assert!(members.contains(&270));
    assert!(members.contains(&271));
    assert!(members.contains(&1023));
}

#[test]
fn non_counter_tags_return_none() {
    assert!(group_members(35).is_none());
    assert!(group_members(52).is_none());
    assert!(group_members(0).is_none());
}

/// The bundled tables are a subset of the published dictionaries; their
/// sizes are fixed here so that a change to the tables shows.
#[test]
fn bundled_dictionary_sizes() {
    assert_eq!(field_count(FixVersion::Fix44), 68);
    assert_eq!(message_count(FixVersion::Fix44), 18);
    assert_eq!(field_count(FixVersion::Fixt11), 36);
    assert_eq!(message_count(FixVersion::Fixt11), 7);
    assert_eq!(field_count(FixVersion::Fix50), 37);
    assert_eq!(field_count(FixVersion::Fix50Sp1), 38);
    assert_eq!(field_count(FixVersion::Fix50Sp2), 39);
    assert_eq!(message_count(FixVersion::Fix50Sp2), 11);
}
