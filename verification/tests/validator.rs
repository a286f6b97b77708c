use fixlog::parser::{compute_checksum, parse_checksum};

#[test]
fn compute_checksum_wraps_around() {
    assert_eq!(compute_checksum(&[0xFF, 0x01]), 0);
}

#[test]
fn parse_checksum_accepts_three_digits() {
    assert_eq!(parse_checksum(b"000"), Some(0));
    assert_eq!(parse_checksum(b"161"), Some(161));
    assert_eq!(parse_checksum(b"255"), Some(255));
}

#[test]
fn parse_checksum_rejects_overflow_and_garbage() {
    assert_eq!(parse_checksum(b"256"), None);
    assert_eq!(parse_checksum(b"99"), None);
    assert_eq!(parse_checksum(b"1234"), None);
    assert_eq!(parse_checksum(b"a23"), None);
}

#[test]
fn checksum_of_a_known_message() {
    // '8'+'='+'A'+SOH = 56+61+65+1 = 183
    assert_eq!(compute_checksum(b"8=A\x01"), 183);
}
