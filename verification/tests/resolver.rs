use fixlog::dict::resolver::{resolve, ResolvedField, ResolvedMessage};
use fixlog::dict::{CHAIN_FIX44, CHAIN_FIXT11_FIX50SP2};
use fixlog::parser::{parse_one, RawMessage};

fn build_with_trailer(body: &[u8], begin_string: &[u8]) -> Vec<u8> {
    let mut head = Vec::new();
    head.extend_from_slice(b"8=");
    head.extend_from_slice(begin_string);
    head.push(0x01);
    let bl_prefix = format!("9={}\x01", body.len());
    head.extend_from_slice(bl_prefix.as_bytes());
    head.extend_from_slice(body);
    let sum: u32 = head.iter().map(|&b| b as u32).sum();
    let cs = (sum % 256) as u8;
    head.extend_from_slice(format!("10={cs:03}\x01").as_bytes());
    head
}

fn build(bytes: &[u8]) -> RawMessage<'_> {
    parse_one(bytes).expect("fixture must parse").0
}

fn field<'r, 'a>(res: &'r ResolvedMessage<'a>, tag: u32) -> &'r ResolvedField<'a> {
    res.fields.iter().find(|f| f.tag == tag).unwrap()
}

#[test]
fn resolves_fix44_logon() {
    let body = b"35=A\x0149=S\x0156=T\x0134=1\x0152=20260101-00:00:00\x0198=0\x01108=30\x01";
    let raw = build_with_trailer(body, b"FIX.4.4");
    let msg = build(&raw);
    let res = resolve(&msg);
    assert_eq!(res.msg_type_name, Some("Logon"));
    assert_eq!(res.chain, &CHAIN_FIX44[..]);
    let field_98 = field(&res, 98);
    assert_eq!(field_98.name, Some("EncryptMethod"));
    assert_eq!(field_98.value_label, Some("NONE_OTHER"));
}

#[test]
fn resolves_fixt11_logon_with_appl_ver_id_9() {
    let body = b"35=A\x0149=S\x0156=T\x0134=1\x0152=20260101-00:00:00\x0198=0\x01108=30\x011128=9\x011137=9\x01";
    let raw = build_with_trailer(body, b"FIXT.1.1");
    let msg = build(&raw);
    let res = resolve(&msg);
    assert_eq!(res.msg_type_name, Some("Logon"));
    assert_eq!(res.chain, &CHAIN_FIXT11_FIX50SP2[..]);
    assert_eq!(field(&res, 1128).name, Some("ApplVerID"));
    assert_eq!(field(&res, 1137).name, Some("DefaultApplVerID"));
}

#[test]
fn unknown_tag_has_no_name() {
    let body = b"35=D\x0199999=hello\x01";
    let raw = build_with_trailer(body, b"FIX.4.4");
    let msg = build(&raw);
    let res = resolve(&msg);
    let custom = field(&res, 99999);
    assert_eq!(custom.name, None);
    assert_eq!(custom.value_label, None);
}

#[test]
fn side_enum_label_resolves() {
    let body = b"35=D\x0154=1\x01";
    let raw = build_with_trailer(body, b"FIX.4.4");
    let msg = build(&raw);
    let res = resolve(&msg);
    let side = field(&res, 54);
    assert_eq!(side.name, Some("Side"));
    assert_eq!(side.value_label, Some("BUY"));
}

#[test]
fn mdentries_group_members_get_depth_one() {
    let body = b"35=W\x0155=AAPL\x01268=3\x01\
269=0\x01270=100.0\x01271=10\x01\
269=1\x01270=100.5\x01271=20\x01\
269=2\x01270=101.0\x01271=30\x01";
    let raw = build_with_trailer(body, b"FIX.4.4");
    let msg = build(&raw);
    let res = resolve(&msg);
    assert_eq!(field(&res, 55).depth, 0);
    assert_eq!(field(&res, 268).depth, 0);
    for tag in [269u32, 270, 271] {
        let members: Vec<_> = res.fields.iter().filter(|f| f.tag == tag).collect();
        assert_eq!(members.len(), 3, "expected 3 occurrences of tag {tag}");
        for f in members {
            assert_eq!(f.depth, 1, "tag {tag} expected depth 1, got {}", f.depth);
        }
    }
    assert_eq!(field(&res, 10).depth, 0);
}

#[test]
fn resolved_fields_keep_the_message_order() {
    let body = b"35=D\x0154=2\x0155=X\x01";
    let raw = build_with_trailer(body, b"FIX.4.4");
    let msg = build(&raw);
    let res = resolve(&msg);
    let tags: Vec<u32> = res.fields.iter().map(|f| f.tag).collect();
    assert_eq!(tags, vec![8, 9, 35, 54, 55, 10]);
    assert_eq!(res.offset, 0);
    assert_eq!(field(&res, 54).value_label, Some("SELL"));
    assert_eq!(field(&res, 35).value_label, Some("NewOrderSingle"));
}
