use fixlog::analysis::number_text::is_float_text;

#[test]
fn float_text_accepts_numbers() {
    for s in ["0", "10.5", "5.", ".5", "+1", "-2.25", "1e5", "1E-3", "2.5e+10", "inf", "-Infinity", "NaN", "+INF"] {
        assert!(is_float_text(s.as_bytes()), "{s}");
        assert!(s.parse::<f64>().is_ok(), "{s}");
    }
}

#[test]
fn float_text_rejects_other_text() {
    for s in ["", ".", "+", "abc", "1.2.3", "1e", "e5", "1e+", " 1", "1 ", "1,5", "infin", "nanx", "--1", "0x10"] {
        assert!(!is_float_text(s.as_bytes()), "{s}");
        assert!(s.parse::<f64>().is_err(), "{s}");
    }
}
