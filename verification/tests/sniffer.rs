use fixlog::format::{count_field_boundaries, sniff, LineEnding, LinePrefix, Separator, SniffError};

#[test]
fn empty_sample_fails() {
    assert_eq!(sniff(&[]), Err(SniffError::EmptySample));
}

#[test]
fn detects_soh_separator() {
    let sample = b"8=FIX.4.4\x019=12\x0135=A\x0110=001\x01\n";
    let fmt = sniff(sample).unwrap();
    assert_eq!(fmt.separator, Separator::Soh);
    assert_eq!(fmt.line_prefix, LinePrefix::NoPrefix);
    assert_eq!(fmt.line_ending, LineEnding::Lf);
}

#[test]
fn detects_pipe_separator() {
    let sample = b"8=FIX.4.4|9=12|35=A|10=001|\n";
    let fmt = sniff(sample).unwrap();
    assert_eq!(fmt.separator, Separator::Pipe);
    assert_eq!(fmt.line_prefix, LinePrefix::NoPrefix);
}

#[test]
fn detects_fixed_timestamp_prefix() {
    let sample = b"20260416-13:30:00.000 : 8=FIX.4.4\x019=12\x0135=A\x0110=001\x01\n\
                   20260416-13:30:30.100 : 8=FIX.4.4\x019=12\x0135=0\x0110=001\x01\n";
    let fmt = sniff(sample).unwrap();
    assert_eq!(fmt.separator, Separator::Soh);
    assert_eq!(fmt.line_prefix, LinePrefix::Fixed(24));
}

#[test]
fn detects_crlf() {
    let sample = b"8=FIX.4.4\x019=12\x0135=A\x0110=001\x01\r\n";
    let fmt = sniff(sample).unwrap();
    assert_eq!(fmt.line_ending, LineEnding::CrLf);
}

#[test]
fn errors_when_no_begin_string() {
    let sample = b"hello world\nthis is not fix\n";
    assert!(matches!(sniff(sample), Err(SniffError::NoBeginString | SniffError::NoSeparator)));
}

#[test]
fn count_field_boundaries_ignores_separator_inside_value() {
    let sample = b"8=FIX.4.4\x019=12\x0135=A\x01";
    assert_eq!(count_field_boundaries(sample, 0x01), 2);
}

#[test]
fn separator_bytes() {
    assert_eq!(Separator::Soh.as_byte(), 0x01);
    assert_eq!(Separator::Pipe.as_byte(), b'|');
    assert_eq!(Separator::Caret.as_byte(), b'^');
    assert_eq!(Separator::Semicolon.as_byte(), b';');
    assert_eq!(Separator::Custom(7).as_byte(), 7);
}
