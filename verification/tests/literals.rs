use odata_literal::{parse_literal, Date, FloatText, Literal, ParseError};

fn assert_parsed_to(result: Result<(&str, Literal), ParseError>, exp: Literal) {
    assert!(result.is_ok(), "{:?}", result);
    match result {
        Ok((rest, node)) => {
            assert!(rest.is_empty(), "Unparsed input: {rest}");
            assert_eq!(node, exp);
        }
        _ => panic!("Shouldn't occur"),
    }
}

fn float_value(literal: &Literal) -> f64 {
    match literal {
        Literal::Float(FloatText::NaN) => f64::NAN,
        Literal::Float(FloatText::Infinity) => f64::INFINITY,
        Literal::Float(FloatText::NegInfinity) => f64::NEG_INFINITY,
        Literal::Float(FloatText::Decimal(text)) => text.parse::<f64>().unwrap(),
        other => panic!("not a float: {:?}", other),
    }
}

fn assert_parsed_to_float(result: Result<(&str, Literal), ParseError>, exp: f64) {
    assert!(result.is_ok(), "{:?}", result);
    match result {
        Ok((rest, node)) => {
            assert!(rest.is_empty(), "Unparsed input: {rest}");
            assert_eq!(float_value(&node), exp);
        }
        _ => panic!("Shouldn't occur"),
    }
}

fn calendar_date(date: &Date) -> time::Date {
    let month = time::Month::try_from(date.month()).unwrap();
    time::Date::from_calendar_date(date.year(), month, date.day()).unwrap()
}

fn assert_parsed_to_date(result: Result<(&str, Literal), ParseError>, exp: time::Date) {
    assert!(result.is_ok(), "{:?}", result);
    match result {
        Ok((rest, Literal::Date(date))) => {
            assert!(rest.is_empty(), "Unparsed input: {rest}");
            assert_eq!(calendar_date(&date), exp);
        }
        _ => panic!("Shouldn't occur"),
    }
}

#[test]
fn parse_null() {
    assert_parsed_to(parse_literal("null"), Literal::Null);
}

#[test]
fn parse_boolean() {
    assert_parsed_to(parse_literal("true"), Literal::Boolean(true));
    assert_parsed_to(parse_literal("True"), Literal::Boolean(true));
    assert_parsed_to(parse_literal("false"), Literal::Boolean(false));
    assert_parsed_to(parse_literal("False"), Literal::Boolean(false));
}

#[test]
fn parse_integer() {
    assert_parsed_to(parse_literal("0"), Literal::Integer(0));
    assert_parsed_to(parse_literal("123456789"), Literal::Integer(123456789));
    assert_parsed_to(parse_literal("+123456789"), Literal::Integer(123456789));
    assert_parsed_to(parse_literal("-123456789"), Literal::Integer(-123456789));
}

#[test]
fn parse_float() {
    assert_parsed_to_float(parse_literal("0.1"), 0.1);
    assert_parsed_to_float(parse_literal("-0.1"), -0.1);
    assert_parsed_to_float(parse_literal("1e10"), 1e10);
    assert_parsed_to_float(parse_literal("-1e10"), -1e10);
    assert_parsed_to_float(parse_literal("1e-10"), 1e-10);
    assert_parsed_to_float(parse_literal("1E-10"), 1e-10);
    assert_parsed_to_float(parse_literal("123.456e10"), 123.456e10);
    assert_parsed_to_float(parse_literal("INF"), f64::INFINITY);
    assert_parsed_to_float(parse_literal("-INF"), f64::NEG_INFINITY);

    // NaN never tests equal:
    match parse_literal("NaN") {
        Ok(("", literal)) => assert!(float_value(&literal).is_nan()),
        _ => assert!(false),
    };
}

#[test]
fn parse_string() {
    assert_parsed_to(
        parse_literal("'hello world'"),
        Literal::String("hello world".to_string()),
    );
    assert_parsed_to(parse_literal("''"), Literal::String("".to_string()));
    assert_parsed_to(
        parse_literal("'g''day sir'"),
        Literal::String("g'day sir".to_string()),
    );
}

#[test]
fn parse_guid() {
    let guid = "d13efbec-aa20-47f4-8756-c38852488b6e";
    assert_parsed_to(parse_literal(&guid), Literal::GUID(guid.to_string()));
    assert_parsed_to(
        parse_literal(&guid.to_ascii_uppercase()),
        Literal::GUID(guid.to_ascii_uppercase()),
    );
}

#[test]
fn parse_date() {
    assert_parsed_to_date(
        parse_literal("2023-01-01"),
        time::Date::from_calendar_date(2023, time::Month::January, 1).unwrap(),
    );
    assert_parsed_to_date(
        parse_literal("-0001-01-01"),
        time::Date::from_calendar_date(-1, time::Month::January, 1).unwrap(),
    );
}

#[test]
fn parse_binary() {
    let data = b"Definitely not a virus";

    let data_padded = base64::Engine::encode(&base64::engine::general_purpose::URL_SAFE, data);
    assert_parsed_to(
        parse_literal(&format!("binary'{data_padded}'")),
        Literal::Binary(data.to_vec()),
    );

    let data_not_padded =
        base64::Engine::encode(&base64::engine::general_purpose::URL_SAFE_NO_PAD, data);
    assert_parsed_to(
        parse_literal(&format!("binary'{data_not_padded}'")),
        Literal::Binary(data.to_vec()),
    );
}
