use odata_literal::{binary_from_decoded, parse_binary, parse_date, parse_day, parse_literal};
use odata_literal::{parse_month, parse_year};
use odata_literal::{Date, ErrorKind, Literal, ParseError};

fn mismatch(position: usize) -> ParseError {
    ParseError { kind: ErrorKind::LexicalMismatch, position }
}

fn conversion(position: usize) -> ParseError {
    ParseError { kind: ErrorKind::ConversionFailure, position }
}

fn parts(result: Result<(&str, Date), ParseError>) -> Result<(&str, i32, u8, u8), ParseError> {
    result.map(|(rest, date)| (rest, date.year(), date.month(), date.day()))
}

#[test]
fn year_shapes() {
    assert_eq!(parse_year("2023"), Ok(("", 2023)));
    assert_eq!(parse_year("-0001"), Ok(("", -1)));
    assert_eq!(parse_year("0000"), Ok(("", 0)));
    assert_eq!(parse_year("-0000"), Ok(("", 0)));
    assert_eq!(parse_year("-9999-"), Ok(("-", -9999)));
    assert_eq!(parse_year("20235"), Ok(("5", 2023)));
    assert_eq!(parse_year("202"), Err(mismatch(3)));
    assert_eq!(parse_year("+2023"), Err(mismatch(0)));
    assert_eq!(parse_year("-12a4"), Err(mismatch(3)));
    assert_eq!(parse_year(""), Err(mismatch(0)));
}

#[test]
fn month_shapes() {
    assert_eq!(parse_month("01"), Ok(("", 1)));
    assert_eq!(parse_month("12"), Ok(("", 12)));
    assert_eq!(parse_month("011"), Ok(("1", 1)));
    assert_eq!(parse_month("00"), Err(conversion(0)));
    assert_eq!(parse_month("13"), Err(conversion(0)));
    assert_eq!(parse_month("19"), Err(conversion(0)));
    assert_eq!(parse_month("20"), Err(mismatch(0)));
    assert_eq!(parse_month("1"), Err(mismatch(1)));
    assert_eq!(parse_month("1x"), Err(mismatch(1)));
}

#[test]
fn day_shapes() {
    assert_eq!(parse_day("01"), Ok(("", 1)));
    assert_eq!(parse_day("31"), Ok(("", 31)));
    assert_eq!(parse_day("39"), Ok(("", 39)));
    assert_eq!(parse_day("00"), Ok(("", 0)));
    assert_eq!(parse_day("40"), Err(mismatch(0)));
    assert_eq!(parse_day("3"), Err(mismatch(1)));
    assert_eq!(parse_day("3-"), Err(mismatch(1)));
}

#[test]
fn date_boundaries() {
    assert_eq!(parts(parse_date("2023-01-01")), Ok(("", 2023, 1, 1)));
    assert_eq!(parts(parse_date("-0001-01-01")), Ok(("", -1, 1, 1)));
    assert_eq!(parse_date("2023-02-30"), Err(conversion(0)));
    assert!(parse_literal("2023-02-30").is_ok());
    assert_eq!(parse_literal("2023-02-30"), Ok(("-02-30", Literal::Integer(2023))));
}

#[test]
fn date_leap_years() {
    assert_eq!(parts(parse_date("2024-02-29")), Ok(("", 2024, 2, 29)));
    assert_eq!(parts(parse_date("2000-02-29")), Ok(("", 2000, 2, 29)));
    assert_eq!(parts(parse_date("0000-02-29")), Ok(("", 0, 2, 29)));
    assert_eq!(parts(parse_date("-0004-02-29")), Ok(("", -4, 2, 29)));
    assert_eq!(parts(parse_date("-0400-02-29")), Ok(("", -400, 2, 29)));
    assert_eq!(parse_date("2023-02-29"), Err(conversion(0)));
    assert_eq!(parse_date("1900-02-29"), Err(conversion(0)));
    assert_eq!(parse_date("-0100-02-29"), Err(conversion(0)));
    assert_eq!(parse_date("-0001-02-29"), Err(conversion(0)));
}

#[test]
fn date_lengths_of_months() {
    let lengths = [31, 28, 31, 30, 31, 30, 31, 31, 30, 31, 30, 31];
    for (index, length) in lengths.iter().enumerate() {
        let month = index + 1;
        let last = format!("2023-{:02}-{:02}", month, length);
        assert_eq!(parts(parse_date(&last)), Ok(("", 2023, month as u8, *length as u8)));
        let beyond = format!("2023-{:02}-{:02}", month, length + 1);
        assert_eq!(parse_date(&beyond), Err(conversion(0)));
    }
    assert_eq!(parse_date("2023-01-00"), Err(conversion(0)));
}

#[test]
fn date_mismatches() {
    assert_eq!(parse_date("2023-00-10"), Err(conversion(5)));
    assert_eq!(parse_date("2023-13-01"), Err(conversion(5)));
    assert_eq!(parse_date("-2023-13-01"), Err(conversion(6)));
    assert_eq!(parse_date("2023/01/01"), Err(mismatch(4)));
    assert_eq!(parse_date("2023-01"), Err(mismatch(7)));
    assert_eq!(parse_date("2023-1-01"), Err(mismatch(6)));
    assert_eq!(parse_date("2023-01-4"), Err(mismatch(8)));
    assert_eq!(parse_date("20230101"), Err(mismatch(4)));
    assert_eq!(parse_date("202"), Err(mismatch(3)));
    assert_eq!(parse_date(""), Err(mismatch(0)));
}

#[test]
fn date_with_rest() {
    assert_eq!(parts(parse_date("2023-01-01T00:00")), Ok(("T00:00", 2023, 1, 1)));
    assert_eq!(parts(parse_date("2023-12-311")), Ok(("1", 2023, 12, 31)));
}

#[test]
fn date_goes_before_numbers() {
    match parse_literal("9999-12-31") {
        Ok(("", Literal::Date(date))) => {
            assert_eq!((date.year(), date.month(), date.day()), (9999, 12, 31));
        }
        other => panic!("{:?}", other),
    }
    match parse_literal("-2023-06-15 ") {
        Ok((" ", Literal::Date(date))) => {
            assert_eq!((date.year(), date.month(), date.day()), (-2023, 6, 15));
        }
        other => panic!("{:?}", other),
    }
}

#[test]
fn digits_without_hyphens_are_no_date() {
    assert_eq!(parse_literal("20230101"), Ok(("", Literal::Integer(20230101))));
    assert_eq!(parse_literal("2023"), Ok(("", Literal::Integer(2023))));
    assert!(parse_literal("99999999999999999999").is_err());
    assert!(parse_literal("20230101202301012023").is_err());
}

#[test]
fn date_new_checks_the_calendar() {
    assert!(Date::new(2023, 2, 30).is_none());
    assert!(Date::new(2023, 0, 1).is_none());
    assert!(Date::new(2023, 13, 1).is_none());
    assert!(Date::new(2023, 1, 0).is_none());
    assert!(Date::new(10000, 1, 1).is_none());
    assert!(Date::new(-10000, 1, 1).is_none());
    let date = Date::new(-9999, 12, 31).unwrap();
    assert_eq!((date.year(), date.month(), date.day()), (-9999, 12, 31));
    assert_eq!(Date::new(2024, 2, 29), Date::new(2024, 2, 29));
    assert!(Date::new(2024, 2, 29).is_some());
}

#[test]
fn binary_padded_and_unpadded() {
    assert_eq!(parse_binary("binary'AQID'"), Ok(("", vec![1, 2, 3])));
    assert_eq!(parse_binary("binary'AQI='"), Ok(("", vec![1, 2])));
    assert_eq!(parse_binary("binary'AQI'"), Ok(("", vec![1, 2])));
    assert_eq!(parse_binary("binary'AQ=='"), Ok(("", vec![1])));
    assert_eq!(parse_binary("binary'AQ'"), Ok(("", vec![1])));
    assert_eq!(parse_binary("binary''"), Ok(("", vec![])));
}

#[test]
fn binary_same_bytes_either_way() {
    let samples: [&[u8]; 5] = [b"", b"a", b"ab", b"abc", &[0xff, 0xef, 0xbe, 0x00, 0x7f]];
    for data in samples {
        let padded = base64::Engine::encode(&base64::engine::general_purpose::URL_SAFE, data);
        let bare = base64::Engine::encode(&base64::engine::general_purpose::URL_SAFE_NO_PAD, data);
        let with_padding = format!("binary'{padded}'");
        let without_padding = format!("binary'{bare}'");
        let first = parse_literal(&with_padding);
        let second = parse_literal(&without_padding);
        assert_eq!(first, Ok(("", Literal::Binary(data.to_vec()))));
        assert_eq!(first, second);
    }
}

#[test]
fn binary_alphabet_is_url_safe() {
    assert_eq!(parse_binary("binary'_-8='"), Ok(("", vec![0xff, 0xef])));
    assert_eq!(parse_binary("binary'/+8='"), Err(mismatch(7)));
}

#[test]
fn binary_keyword_in_any_case() {
    assert_eq!(parse_binary("BINARY'AQID'"), Ok(("", vec![1, 2, 3])));
    assert_eq!(parse_binary("BiNaRy'AQID' rest"), Ok((" rest", vec![1, 2, 3])));
    assert_eq!(parse_literal("Binary'AQID'"), Ok(("", Literal::Binary(vec![1, 2, 3]))));
}

#[test]
fn binary_mismatches() {
    assert_eq!(parse_binary("binary'AQID"), Err(mismatch(11)));
    assert_eq!(parse_binary("binary'AQ+D'"), Err(mismatch(9)));
    assert_eq!(parse_binary("binaryAQID"), Err(mismatch(6)));
    assert_eq!(parse_binary("bin"), Err(mismatch(3)));
    assert_eq!(parse_binary("X'AQID'"), Err(mismatch(0)));
    assert_eq!(parse_binary(""), Err(mismatch(0)));
}

#[test]
fn binary_that_does_not_decode() {
    assert_eq!(parse_binary("binary'A'"), Err(conversion(0)));
    assert_eq!(parse_binary("binary'=AQID'"), Err(conversion(0)));
    assert_eq!(parse_binary("binary'AQ=D'"), Err(conversion(0)));
    assert_eq!(parse_binary("binary'AR'"), Err(conversion(0)));
    assert!(parse_literal("binary'A'").is_err());
}

#[test]
fn binary_from_what_the_decoder_gave() {
    assert_eq!(binary_from_decoded(Ok(vec![7, 8]), 3), Ok(vec![7, 8]));
    assert_eq!(
        binary_from_decoded(Err(base64::DecodeError::InvalidLength), 3),
        Err(conversion(3))
    );
    assert_eq!(
        binary_from_decoded(Err(base64::DecodeError::InvalidByte(0, b'*')), 0),
        Err(conversion(0))
    );
}

#[test]
fn leap_day_in_every_year() {
    for year in -9999..=9999 {
        let leap = year % 4 == 0 && (year % 100 != 0 || year % 400 == 0);
        assert_eq!(Date::new(year, 2, 29).is_some(), leap, "year {year}");
        assert!(Date::new(year, 2, 28).is_some());
        assert!(Date::new(year, 2, 30).is_none());
        assert!(Date::new(year, 12, 31).is_some());
        assert!(Date::new(year, 11, 31).is_none());
    }
}
