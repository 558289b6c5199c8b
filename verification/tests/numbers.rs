use odata_literal::{parse_float, parse_integer, parse_literal};
use odata_literal::{ErrorKind, FloatText, Literal, ParseError};

fn mismatch(position: usize) -> ParseError {
    ParseError { kind: ErrorKind::LexicalMismatch, position }
}

fn conversion(position: usize) -> ParseError {
    ParseError { kind: ErrorKind::ConversionFailure, position }
}

#[test]
fn integer_limits() {
    assert_eq!(parse_integer("9223372036854775807"), Ok(("", i64::MAX)));
    assert_eq!(parse_integer("-9223372036854775808"), Ok(("", i64::MIN)));
    assert_eq!(parse_integer("9223372036854775808"), Err(conversion(0)));
    assert_eq!(parse_integer("-9223372036854775809"), Err(conversion(0)));
    assert_eq!(parse_integer("99999999999999999999999999"), Err(conversion(0)));
}

#[test]
fn integer_shapes() {
    assert_eq!(parse_integer("12abc"), Ok(("abc", 12)));
    assert_eq!(parse_integer("007"), Ok(("", 7)));
    assert_eq!(parse_integer("-0"), Ok(("", 0)));
    assert_eq!(parse_integer("+5-3"), Ok(("-3", 5)));
    assert_eq!(parse_integer(""), Err(mismatch(0)));
    assert_eq!(parse_integer("abc"), Err(mismatch(0)));
    assert_eq!(parse_integer("+"), Err(mismatch(1)));
    assert_eq!(parse_integer("+-1"), Err(mismatch(1)));
    assert_eq!(parse_integer("-x"), Err(mismatch(1)));
}

#[test]
fn integer_text_comes_back() {
    let numbers = [0, 1, -1, 9, 10, -10, 42, 1234567890123, i64::MAX, i64::MIN, i64::MIN + 1];
    for n in numbers {
        let text = n.to_string();
        assert_eq!(parse_literal(&text), Ok(("", Literal::Integer(n))));
    }
}

#[test]
fn float_shapes() {
    assert_eq!(parse_float("1.5"), Ok(("", "1.5".to_string())));
    assert_eq!(parse_float("1."), Ok(("", "1.".to_string())));
    assert_eq!(parse_float("1.e5"), Ok(("", "1.e5".to_string())));
    assert_eq!(parse_float("+1.5e-3xyz"), Ok(("xyz", "+1.5e-3".to_string())));
    assert_eq!(parse_float("1.5.2"), Ok((".2", "1.5".to_string())));
    assert_eq!(parse_float("1e5e6"), Ok(("e6", "1e5".to_string())));
    assert_eq!(parse_float("-12E+07 "), Ok((" ", "-12E+07".to_string())));
}

#[test]
fn float_needs_fraction_or_exponent() {
    assert_eq!(parse_float("123"), Err(mismatch(3)));
    assert_eq!(parse_float("-123 "), Err(mismatch(4)));
    assert_eq!(parse_float(".5"), Err(mismatch(0)));
    assert_eq!(parse_float("-"), Err(mismatch(1)));
    assert_eq!(parse_float(""), Err(mismatch(0)));
    assert_eq!(parse_float("NaN"), Err(mismatch(0)));
}

#[test]
fn float_exponent_needs_digits_or_is_left_behind() {
    assert_eq!(parse_float("1e"), Err(mismatch(2)));
    assert_eq!(parse_float("1e+"), Err(mismatch(3)));
    assert_eq!(parse_float("1.5e-x"), Ok(("e-x", "1.5".to_string())));
    assert_eq!(parse_float("1.5ex"), Ok(("ex", "1.5".to_string())));
    assert_eq!(parse_float("1.5e"), Ok(("e", "1.5".to_string())));
    assert_eq!(parse_float("1.E+"), Ok(("E+", "1.".to_string())));
}

#[test]
fn float_tokens() {
    assert_eq!(parse_literal("NaN"), Ok(("", Literal::Float(FloatText::NaN))));
    assert_eq!(parse_literal("INF"), Ok(("", Literal::Float(FloatText::Infinity))));
    assert_eq!(parse_literal("-INF"), Ok(("", Literal::Float(FloatText::NegInfinity))));
    assert_eq!(parse_literal("NaNx"), Ok(("x", Literal::Float(FloatText::NaN))));
    assert!(parse_literal("nan").is_err());
    assert!(parse_literal("inf").is_err());
    assert!(parse_literal("+INF").is_err());
    assert!(parse_literal("-IN").is_err());
}

#[test]
fn float_text_is_kept() {
    assert_eq!(
        parse_literal("123.456e10"),
        Ok(("", Literal::Float(FloatText::Decimal("123.456e10".to_string()))))
    );
    assert_eq!(
        parse_literal("-0.1)"),
        Ok((")", Literal::Float(FloatText::Decimal("-0.1".to_string()))))
    );
}

#[test]
fn float_values_of_texts() {
    let texts = ["0.5", "-2.25", "1e3", "6.02e23", "1e-7", "1.", "4.9e-324", "1.7976931348623157e308"];
    for text in texts {
        let expected: f64 = text.parse().unwrap();
        match parse_literal(text) {
            Ok(("", Literal::Float(FloatText::Decimal(kept)))) => {
                assert_eq!(kept.parse::<f64>().unwrap(), expected);
                assert_eq!(kept, text);
            }
            other => panic!("{:?}", other),
        }
    }
}

#[test]
fn digits_alone_are_an_integer() {
    assert_eq!(parse_literal("123"), Ok(("", Literal::Integer(123))));
    assert_eq!(parse_literal("12 eq"), Ok((" eq", Literal::Integer(12))));
    assert_eq!(parse_literal("-1"), Ok(("", Literal::Integer(-1))));
}

#[test]
fn marker_without_digits_is_left_behind() {
    assert_eq!(parse_literal("1e"), Ok(("e", Literal::Integer(1))));
    assert_eq!(
        parse_literal("1.5e"),
        Ok(("e", Literal::Float(FloatText::Decimal("1.5".to_string()))))
    );
}

#[test]
fn float_text_is_taken_whole() {
    let texts = ["1.", "12.5", "+0.25", "-7e3", "7E+3", "1.e-9", "-123.456E-10", "0e0"];
    for text in texts {
        assert_eq!(parse_float(text), Ok(("", text.to_string())));
        assert_eq!(
            parse_literal(text),
            Ok(("", Literal::Float(FloatText::Decimal(text.to_string()))))
        );
    }
}

#[test]
fn float_is_the_longest_number() {
    assert_eq!(parse_float("1.5e+"), Ok(("e+", "1.5".to_string())));
    assert_eq!(parse_float("1.5E-"), Ok(("E-", "1.5".to_string())));
    assert_eq!(parse_float("2.e"), Ok(("e", "2.".to_string())));
    assert_eq!(parse_float("1.5e10e"), Ok(("e", "1.5e10".to_string())));
    assert_eq!(parse_float("1e5."), Ok((".", "1e5".to_string())));
    assert_eq!(
        parse_literal("3.25eq"),
        Ok(("eq", Literal::Float(FloatText::Decimal("3.25".to_string()))))
    );
    assert_eq!(parse_literal("3eq"), Ok(("eq", Literal::Integer(3))));
}
