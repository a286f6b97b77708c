use fixlog::parser::{compute_checksum, parse_one, RawMessage};
use fixlog::query::ast::{Expr, Op};
use fixlog::query::parser::{parse, QueryError};

fn ok(input: &str) -> Expr {
    parse(input).unwrap_or_else(|e| panic!("parse({input:?}) failed: {e:?}"))
}

fn err(input: &str) -> QueryError {
    parse(input).unwrap_err()
}

fn logon_with_msgtype(msg_type: &str, extra: &[u8]) -> Vec<u8> {
    let mut body = format!("35={msg_type}\x0149=S\x0156=T\x01").into_bytes();
    body.extend_from_slice(extra);
    let prefix = format!("8=FIX.4.4\x019={}\x01", body.len());
    let mut msg: Vec<u8> = prefix.into_bytes();
    msg.extend_from_slice(&body);
    let cs = compute_checksum(&msg);
    msg.extend_from_slice(format!("10={cs:03}\x01").as_bytes());
    msg
}

fn parse_msg(bytes: &[u8]) -> RawMessage<'_> {
    parse_one(bytes).expect("valid fixture").0
}

#[test]
fn hot_equalities_single_eq() {
    let e = parse("35=D").unwrap();
    let hot = e.hot_equalities().unwrap();
    assert_eq!(hot.len(), 1);
    assert_eq!(hot[0].0, 35);
    assert_eq!(hot[0].1, b"D");
}

#[test]
fn hot_equalities_and_chain() {
    let e = parse("35=D AND 49=A AND 56=B").unwrap();
    let hot = e.hot_equalities().unwrap();
    assert_eq!(hot.len(), 3);
    assert_eq!(hot[0].0, 35);
    assert_eq!(hot[1].0, 49);
    assert_eq!(hot[2].0, 56);
}

#[test]
fn hot_equalities_rejects_or() {
    let e = parse("35=D OR 35=8").unwrap();
    assert!(e.hot_equalities().is_none());
}

#[test]
fn hot_equalities_rejects_not() {
    let e = parse("NOT 35=D").unwrap();
    assert!(e.hot_equalities().is_none());
}

#[test]
fn hot_equalities_rejects_ne() {
    let e = parse("35!=D").unwrap();
    assert!(e.hot_equalities().is_none());
}

#[test]
fn hot_equalities_rejects_regex() {
    let e = parse("55~^MS").unwrap();
    assert!(e.hot_equalities().is_none());
}

#[test]
fn expr_is_clone_even_when_it_contains_a_regex() {
    fn assert_clone<T: Clone>(_: &T) {}
    let e = parse("(55~^MS AND 35=D) OR NOT 35=0").unwrap();
    assert_clone(&e);
    let c = e.clone();
    let bytes = logon_with_msgtype("D", b"55=MSFT\x01");
    let msg = parse_msg(&bytes);
    assert_eq!(c.matches(&msg), e.matches(&msg));
}

#[test]
fn eq_matches_and_misses() {
    let bytes = logon_with_msgtype("D", b"55=AAPL\x01");
    let msg = parse_msg(&bytes);
    assert!(parse("35=D").unwrap().matches(&msg));
    assert!(!parse("35=A").unwrap().matches(&msg));
    assert!(parse("55=AAPL").unwrap().matches(&msg));
}

#[test]
fn ne_matches_when_tag_absent_or_different() {
    let bytes = logon_with_msgtype("D", b"");
    let msg = parse_msg(&bytes);
    assert!(parse("55!=AAPL").unwrap().matches(&msg));
    assert!(parse("35!=A").unwrap().matches(&msg));
    assert!(!parse("35!=D").unwrap().matches(&msg));
}

#[test]
fn regex_matches_on_raw_bytes() {
    let bytes = logon_with_msgtype("D", b"55=MSFT\x01");
    let msg = parse_msg(&bytes);
    assert!(parse(r#"55~^MS"#).unwrap().matches(&msg));
    assert!(!parse(r#"55~^AAPL$"#).unwrap().matches(&msg));
}

#[test]
fn and_or_not_combine_correctly() {
    let bytes = logon_with_msgtype("D", b"55=AAPL\x0154=1\x01");
    let msg = parse_msg(&bytes);
    assert!(parse("35=D AND 55=AAPL").unwrap().matches(&msg));
    assert!(!parse("35=D AND 55=MSFT").unwrap().matches(&msg));
    assert!(parse("35=A OR 55=AAPL").unwrap().matches(&msg));
    assert!(parse("NOT 35=A").unwrap().matches(&msg));
    assert!(!parse("NOT 35=D").unwrap().matches(&msg));
    assert!(parse("(35=D OR 35=8) AND NOT 54=2").unwrap().matches(&msg));
}

#[test]
fn repeating_tag_matches_on_any_occurrence() {
    let bytes = logon_with_msgtype("D", b"448=BROKER1\x01448=EXCH\x01");
    let msg = parse_msg(&bytes);
    assert!(parse("448=EXCH").unwrap().matches(&msg));
    assert!(parse("448=BROKER1").unwrap().matches(&msg));
    assert!(!parse("448=OTHER").unwrap().matches(&msg));
    assert!(!parse("448!=BROKER1").unwrap().matches(&msg));
}

#[test]
fn hot_equalities_decide_the_match() {
    let e = parse("35=D AND 55=AAPL").unwrap();
    let hot = e.hot_equalities().unwrap();
    for extra in [&b"55=AAPL\x01"[..], b"55=MSFT\x01", b""] {
        let bytes = logon_with_msgtype("D", extra);
        let msg = parse_msg(&bytes);
        let all_present = hot.iter().all(|(t, v)| msg.tags.as_slice().iter().any(|(mt, mv)| mt == t && mv == v));
        assert_eq!(e.matches(&msg), all_present);
    }
}

#[test]
fn parses_single_predicate() {
    match ok("35=D") {
        Expr::Pred(p) => {
            assert_eq!(p.tag, 35);
            assert!(matches!(p.op, Op::Eq));
            assert_eq!(p.value, b"D");
        }
        other => panic!("expected Pred, got {other:?}"),
    }
}

#[test]
fn parses_and_or_with_precedence() {
    match ok("35=A OR 35=8 AND 55=AAPL") {
        Expr::Or(_, right) => match *right {
            Expr::And(_, _) => {}
            other => panic!("right side must be And, got {other:?}"),
        },
        other => panic!("expected Or, got {other:?}"),
    }
}

#[test]
fn parses_not_with_highest_precedence() {
    match ok("NOT 35=A AND 55=AAPL") {
        Expr::And(left, _) => match *left {
            Expr::Not(_) => {}
            other => panic!("left side must be Not, got {other:?}"),
        },
        other => panic!("expected And, got {other:?}"),
    }
}

#[test]
fn parens_override_precedence() {
    match ok("(35=A OR 35=8) AND 55=AAPL") {
        Expr::And(left, _) => match *left {
            Expr::Or(_, _) => {}
            other => panic!("left side must be Or, got {other:?}"),
        },
        other => panic!("expected And, got {other:?}"),
    }
}

#[test]
fn parses_regex_predicate() {
    let e = ok(r#"55~^AAP"#);
    let Expr::Pred(p) = e else {
        panic!("expected Pred");
    };
    assert!(matches!(p.op, Op::Re(_)));
    assert_eq!(p.tag, 55);
}

#[test]
fn parses_quoted_value_with_spaces_and_escapes() {
    let e = ok(r#"58="hello \"world\"""#);
    let Expr::Pred(p) = e else {
        panic!("expected Pred");
    };
    assert_eq!(p.value, br#"hello "world""#);
}

#[test]
fn keywords_are_case_insensitive() {
    assert!(matches!(ok("35=D and 55=AAPL"), Expr::And(_, _)));
    assert!(matches!(ok("35=D oR 35=8"), Expr::Or(_, _)));
    assert!(matches!(ok("not 35=D"), Expr::Not(_)));
}

#[test]
fn rejects_missing_tag() {
    assert!(matches!(err("=D"), QueryError::ExpectedAtom { .. }));
}

#[test]
fn rejects_missing_op() {
    assert!(matches!(err("35 "), QueryError::ExpectedOp { .. }));
}

#[test]
fn rejects_unbalanced_paren() {
    assert!(matches!(err("(35=D"), QueryError::UnbalancedParen { .. }));
}

#[test]
fn rejects_unterminated_string() {
    assert!(matches!(err(r#"58="hello"#), QueryError::UnterminatedString { .. }));
}

#[test]
fn rejects_bad_regex() {
    assert!(matches!(err("55~["), QueryError::BadRegex { .. }));
}

#[test]
fn rejects_trailing_garbage() {
    assert!(matches!(err("35=D junk"), QueryError::UnexpectedTrailing { .. }));
}

#[test]
fn reports_positions_of_errors() {
    assert!(matches!(err(""), QueryError::Empty));
    assert!(matches!(err("35=D AND"), QueryError::Empty));
    assert!(matches!(err("35="), QueryError::ExpectedValue { at: 3 }));
    assert!(matches!(err("99999999999=1"), QueryError::TagOverflow { at: 0 }));
    match err("35=D junk") {
        QueryError::UnexpectedTrailing { at, rest } => {
            assert_eq!(at, 5);
            assert_eq!(rest, "junk");
        }
        other => panic!("unexpected {other:?}"),
    }
}

#[test]
fn keyword_prefix_of_a_bareword_is_not_a_keyword() {
    assert!(matches!(err("35=D ANDROID"), QueryError::UnexpectedTrailing { .. }));
}

#[test]
fn regex_predicate_uses_its_compiled_pattern() {
    let bytes = logon_with_msgtype("D", b"55=MSFT\x01");
    let msg = parse_msg(&bytes);
    let op = match ok("55~^MS") {
        Expr::Pred(p) => p.op,
        other => panic!("unexpected {other:?}"),
    };
    let pred = fixlog::query::ast::Predicate { tag: 55, op, value: b"^AAPL$".to_vec() };
    assert!(Expr::Pred(pred).matches(&msg));
}
