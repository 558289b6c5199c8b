use odata_literal::parse_literal;
use odata_literal::parser::cursor::Cursor;
use odata_literal::parser::scan::{is_base64url_char, is_digit, is_hex_digit};
use odata_literal::{ErrorKind, Literal, ParseError};

fn exhausted() -> ParseError {
    ParseError { kind: ErrorKind::ExhaustedAlternatives, position: 0 }
}

#[test]
fn nothing_stands_there() {
    assert_eq!(parse_literal(""), Err(exhausted()));
    assert_eq!(parse_literal("xyz"), Err(exhausted()));
    assert_eq!(parse_literal(" 1"), Err(exhausted()));
    assert_eq!(parse_literal("é"), Err(exhausted()));
    assert_eq!(parse_literal("'open"), Err(exhausted()));
    assert_eq!(parse_literal("binary'AQID"), Err(exhausted()));
}

#[test]
fn null_is_case_sensitive() {
    assert_eq!(parse_literal("null"), Ok(("", Literal::Null)));
    assert_eq!(parse_literal("Null"), Err(exhausted()));
    assert_eq!(parse_literal("NULL"), Err(exhausted()));
    assert_eq!(parse_literal("nul"), Err(exhausted()));
}

#[test]
fn booleans_in_any_case() {
    assert_eq!(parse_literal("TRUE"), Ok(("", Literal::Boolean(true))));
    assert_eq!(parse_literal("tRuE"), Ok(("", Literal::Boolean(true))));
    assert_eq!(parse_literal("FALSE"), Ok(("", Literal::Boolean(false))));
    assert_eq!(parse_literal("fAlSe"), Ok(("", Literal::Boolean(false))));
    assert_eq!(parse_literal("tru"), Err(exhausted()));
    assert_eq!(parse_literal("fals"), Err(exhausted()));
}

#[test]
fn rest_is_handed_back() {
    assert_eq!(parse_literal("true)"), Ok((")", Literal::Boolean(true))));
    assert_eq!(parse_literal("null,1"), Ok((",1", Literal::Null)));
    assert_eq!(parse_literal("nullx"), Ok(("x", Literal::Null)));
    assert_eq!(parse_literal("falsehood"), Ok(("hood", Literal::Boolean(false))));
    assert_eq!(parse_literal("null→é"), Ok(("→é", Literal::Null)));
    assert_eq!(parse_literal("7é"), Ok(("é", Literal::Integer(7))));
}

#[test]
fn character_classes() {
    assert!(is_digit('0') && is_digit('9') && !is_digit('a') && !is_digit('/') && !is_digit(':'));
    assert!(!is_digit('٣'));
    assert!(is_hex_digit('0') && is_hex_digit('a') && is_hex_digit('F') && !is_hex_digit('g'));
    assert!(!is_hex_digit('G') && !is_hex_digit('-'));
    assert!(is_base64url_char('-') && is_base64url_char('_') && is_base64url_char('='));
    assert!(is_base64url_char('z') && is_base64url_char('Z') && is_base64url_char('5'));
    assert!(!is_base64url_char('+') && !is_base64url_char('/') && !is_base64url_char('\''));
}

#[test]
fn cursor_walks_characters() {
    let start = Cursor::new("aé𝄞b");
    assert_eq!(start.offset(), 0);
    assert_eq!(start.peek(), Some('a'));
    assert!(!start.at_end());
    let second = start.step();
    assert_eq!(second.offset(), 1);
    assert_eq!(second.peek(), None);
    let third = second.step();
    assert_eq!(third.offset(), 3);
    assert_eq!(third.rest(), "𝄞b");
    let fourth = third.step();
    assert_eq!(fourth.offset(), 7);
    assert_eq!(fourth.peek(), Some('b'));
    assert_eq!(fourth.since(&second), "é𝄞");
    let end = fourth.step();
    assert!(end.at_end());
    assert_eq!(end.peek(), None);
    assert_eq!(end.rest(), "");
    assert_eq!(end.since(&start), "aé𝄞b");
}
